use vstd::prelude::*;

use crate::common::Range;

verus! {

/// One text-bearing token: its text as written in the source, and the
/// range it covers there.
#[derive(Debug, Clone, PartialEq, Eq)]
pub struct KvToken {
    pub text: String,
    pub range: Range,
}

/// One atomic unit the pretty printer emits. Braces carry their own
/// range; every other variant carries its text and range.
#[derive(Debug, Clone, PartialEq, Eq)]
pub enum TokenKind {
    Key(KvToken),
    Value(KvToken),
    LineComment(KvToken),
    BlockComment(KvToken),
    LBrace(KvToken),
    RBrace(KvToken),
}

/// The shape of a token, without its payload.
#[derive(Debug, Eq, PartialEq, Copy, Clone, Structural)]
pub enum Tag {
    Key,
    Value,
    LineComment,
    BlockComment,
    LBrace,
    RBrace,
}

/// The mathematical content of one token.
pub ghost struct TokSpec {
    pub tag: Tag,
    pub text: Seq<char>,
    pub range: Range,
}

pub open spec fn tok_view(t: TokenKind) -> TokSpec {
    match t {
        TokenKind::Key(k) => TokSpec { tag: Tag::Key, text: k.text@, range: k.range },
        TokenKind::Value(k) => TokSpec { tag: Tag::Value, text: k.text@, range: k.range },
        TokenKind::LineComment(k) => TokSpec {
            tag: Tag::LineComment,
            text: k.text@,
            range: k.range,
        },
        TokenKind::BlockComment(k) => TokSpec {
            tag: Tag::BlockComment,
            text: k.text@,
            range: k.range,
        },
        TokenKind::LBrace(k) => TokSpec { tag: Tag::LBrace, text: k.text@, range: k.range },
        TokenKind::RBrace(k) => TokSpec { tag: Tag::RBrace, text: k.text@, range: k.range },
    }
}

/// The mathematical content of a token stream.
pub open spec fn toks_view(ts: Seq<TokenKind>) -> Seq<TokSpec> {
    Seq::new(ts.len(), |i: int| tok_view(ts[i]))
}

/// The views of the tokens that `cur` holds past the prefix `base`.
pub open spec fn toks_suffix(base: Seq<TokenKind>, cur: Seq<TokenKind>) -> Seq<TokSpec> {
    toks_view(cur.subrange(base.len() as int, cur.len() as int))
}

/// Chaining two append-only steps appends their suffixes.
pub proof fn lemma_suffix_chain(a: Seq<TokenKind>, b: Seq<TokenKind>, c: Seq<TokenKind>)
    requires
        a.len() <= b.len() <= c.len(),
        b.subrange(0, a.len() as int) == a,
        c.subrange(0, b.len() as int) == b,
    ensures
        c.subrange(0, a.len() as int) == a,
        toks_suffix(a, c) == toks_suffix(a, b) + toks_suffix(b, c),
{
    assert forall|k: int| 0 <= k < b.len() implies c[k] == b[k] by {
        assert(c.subrange(0, b.len() as int)[k] == c[k]);
    }
    assert forall|k: int| 0 <= k < a.len() implies b[k] == a[k] by {
        assert(b.subrange(0, a.len() as int)[k] == b[k]);
    }
    assert(c.subrange(0, a.len() as int) =~= a);
    assert(toks_suffix(a, c) =~= toks_suffix(a, b) + toks_suffix(b, c));
}

/// An unchanged token list appends the empty suffix.
pub proof fn lemma_suffix_refl(a: Seq<TokenKind>)
    ensures
        a.subrange(0, a.len() as int) == a,
        toks_suffix(a, a) == Seq::<TokSpec>::empty(),
{
    assert(a.subrange(0, a.len() as int) =~= a);
    assert(toks_suffix(a, a) =~= Seq::<TokSpec>::empty());
}

/// A push appends exactly one token to the suffix.
pub proof fn lemma_suffix_push(base: Seq<TokenKind>, cur: Seq<TokenKind>, t: TokenKind)
    requires
        base.len() <= cur.len(),
        cur.subrange(0, base.len() as int) == base,
    ensures
        cur.push(t).subrange(0, base.len() as int) == base,
        toks_suffix(base, cur.push(t)) == toks_suffix(base, cur).push(tok_view(t)),
{
    assert(cur.push(t).subrange(0, base.len() as int) =~= base);
    assert(toks_suffix(base, cur.push(t)) =~= toks_suffix(base, cur).push(tok_view(t)));
}

} // verus!
