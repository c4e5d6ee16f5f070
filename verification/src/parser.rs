use vstd::prelude::*;

use crate::common::Range;
use crate::formatter::collectors::range_of;
use crate::formatter::collectors::RangeCollector;
use crate::formatter::tokens::lemma_suffix_chain;
use crate::formatter::tokens::lemma_suffix_push;
use crate::formatter::tokens::lemma_suffix_refl;
use crate::formatter::tokens::toks_suffix;
use crate::formatter::tokens::toks_view;
use crate::formatter::tokens::KvToken;
use crate::formatter::tokens::Tag;
use crate::formatter::tokens::TokSpec;
use crate::formatter::tokens::TokenKind;
use crate::lexer::lemma_scan_atom;
use crate::lexer::scan_document;
use crate::lexer::scan_from;
use crate::lexer::LexKind;
use crate::lexer::Lexeme;
use crate::serializer::kv_view;
use crate::serializer::kvs_view;
use crate::serializer::lemma_kvs_view_cons;
use crate::serializer::value_view;
use crate::serializer::KeyValue;
use crate::serializer::SpecKeyValue;
use crate::serializer::SpecValue;
use crate::serializer::Value;
use vstd::string::StrSliceExecFns;

verus! {

/// Which atoms the parser would have accepted at the point it stopped.
#[derive(Debug, Eq, PartialEq, Copy, Clone, Structural)]
pub enum Expectation {
    /// A document must open with its root key.
    RootKey,
    /// After a key: a string value or a section opening.
    EntryValue,
    /// Inside a section: an entry key or the closing brace.
    SectionEntry,
    /// After the root entry: only trailing comments.
    DocumentEnd,
}

/// A syntax failure: the character offset at which the parser stopped,
/// and what it would have accepted there.
#[derive(Debug, Eq, PartialEq, Copy, Clone, Structural)]
pub struct ParseError {
    pub offset: usize,
    pub expected: Expectation,
}

pub open spec fn is_comment(k: LexKind) -> bool {
    k == LexKind::LineComment || k == LexKind::BlockComment
}

pub open spec fn comment_tag(k: LexKind) -> Tag {
    if k == LexKind::LineComment {
        Tag::LineComment
    } else {
        Tag::BlockComment
    }
}

/// The token made of atom `a`, under the given tag.
pub open spec fn tok_mk(s: Seq<char>, a: Lexeme, tag: Tag) -> TokSpec {
    TokSpec {
        tag,
        text: s.subrange(a.start as int, a.end as int),
        range: range_of(s, a.start as int, a.end as int),
    }
}

/// A string atom's content: the quotes stripped.
pub open spec fn strip_quotes(s: Seq<char>, a: Lexeme) -> Seq<char> {
    s.subrange(a.start + 1, a.end - 1)
}

/// First index at or after `i` whose atom is no comment.
pub open spec fn skip_comments(atoms: Seq<Lexeme>, i: int) -> int
    decreases atoms.len() - i,
    when 0 <= i <= atoms.len()
{
    if i < atoms.len() && is_comment(atoms[i].kind) {
        skip_comments(atoms, i + 1)
    } else {
        i
    }
}

pub proof fn lemma_skip_comments(atoms: Seq<Lexeme>, i: int)
    requires
        0 <= i <= atoms.len(),
    ensures
        i <= skip_comments(atoms, i) <= atoms.len(),
        skip_comments(atoms, i) < atoms.len() ==> !is_comment(
            atoms[skip_comments(atoms, i)].kind,
        ),
        forall|m: int| i <= m < skip_comments(atoms, i) ==> is_comment(atoms[m].kind),
    decreases atoms.len() - i,
{
    if i < atoms.len() && is_comment(atoms[i].kind) {
        lemma_skip_comments(atoms, i + 1);
    }
}

/// The comment tokens for atoms `[i, j)`.
pub open spec fn comment_toks(s: Seq<char>, atoms: Seq<Lexeme>, i: int, j: int) -> Seq<TokSpec> {
    Seq::new((j - i) as nat, |k: int| tok_mk(s, atoms[i + k], comment_tag(atoms[i + k].kind)))
}

/// The offset to report when the parser stops wanting atom `j`: the
/// atom's own start; past the last atom, the lexical fault if scanning
/// hit one, and the end of the document otherwise.
pub open spec fn stop_offset(
    s: Seq<char>,
    atoms: Seq<Lexeme>,
    fault: Option<usize>,
    j: int,
) -> usize {
    if j < atoms.len() {
        atoms[j].start
    } else {
        match fault {
            Some(p) => p,
            None => s.len() as usize,
        }
    }
}

/// What parsing a value yields: the value, its tokens, and the index of
/// the first atom after it.
pub ghost struct ValOut {
    pub value: SpecValue,
    pub toks: Seq<TokSpec>,
    pub next: int,
}

/// What parsing the inside of a section yields: the entries, their
/// tokens up to and including the closing brace, and the index of the
/// first atom after the section.
pub ghost struct EntriesOut {
    pub entries: Seq<SpecKeyValue>,
    pub toks: Seq<TokSpec>,
    pub next: int,
}

/// What parsing a document yields: the root entry and the flat token
/// stream.
pub ghost struct ParseOut {
    pub kv: SpecKeyValue,
    pub toks: Seq<TokSpec>,
}

/// Parse the value of an entry, starting at atom `i`, right past the
/// entry's key: comments, then either a string or a section.
#[verifier::opaque]
pub open spec fn parse_value_at(
    s: Seq<char>,
    atoms: Seq<Lexeme>,
    fault: Option<usize>,
    i: int,
    fuel: nat,
) -> Result<ValOut, ParseError>
    decreases fuel,
{
    if fuel == 0 {
        Err(ParseError { offset: 0, expected: Expectation::EntryValue })
    } else {
        let j = skip_comments(atoms, i);
        let ct = comment_toks(s, atoms, i, j);
        if j >= atoms.len() {
            Err(
                ParseError {
                    offset: stop_offset(s, atoms, fault, j),
                    expected: Expectation::EntryValue,
                },
            )
        } else {
            let a = atoms[j];
            match a.kind {
                LexKind::Str => Ok(
                    ValOut {
                        value: SpecValue::String(strip_quotes(s, a)),
                        toks: ct + seq![tok_mk(s, a, Tag::Value)],
                        next: j + 1,
                    },
                ),
                LexKind::Open => match parse_entries_at(s, atoms, fault, j + 1, (fuel - 1) as nat) {
                    Ok(eo) => Ok(
                        ValOut {
                            value: SpecValue::Section(eo.entries),
                            toks: ct + seq![tok_mk(s, a, Tag::LBrace)] + eo.toks,
                            next: eo.next,
                        },
                    ),
                    Err(e) => Err(e),
                },
                _ => Err(ParseError { offset: a.start, expected: Expectation::EntryValue }),
            }
        }
    }
}

/// Parse the inside of a section, starting at atom `i`, right past its
/// opening brace: entries and comments, closed by the matching brace.
#[verifier::opaque]
pub open spec fn parse_entries_at(
    s: Seq<char>,
    atoms: Seq<Lexeme>,
    fault: Option<usize>,
    i: int,
    fuel: nat,
) -> Result<EntriesOut, ParseError>
    decreases fuel,
{
    if fuel == 0 {
        Err(ParseError { offset: 0, expected: Expectation::SectionEntry })
    } else {
        let j = skip_comments(atoms, i);
        let ct = comment_toks(s, atoms, i, j);
        if j >= atoms.len() {
            Err(
                ParseError {
                    offset: stop_offset(s, atoms, fault, j),
                    expected: Expectation::SectionEntry,
                },
            )
        } else {
            let a = atoms[j];
            match a.kind {
                LexKind::Close => Ok(
                    EntriesOut {
                        entries: seq![],
                        toks: ct + seq![tok_mk(s, a, Tag::RBrace)],
                        next: j + 1,
                    },
                ),
                LexKind::Str => match parse_value_at(s, atoms, fault, j + 1, (fuel - 1) as nat) {
                    Ok(vo) => match parse_entries_at(s, atoms, fault, vo.next, (fuel - 1) as nat) {
                        Ok(eo) => Ok(
                            EntriesOut {
                                entries: seq![
                                    SpecKeyValue {
                                        key: strip_quotes(s, a),
                                        key_range: range_of(s, a.start as int, a.end as int),
                                        value: vo.value,
                                    },
                                ] + eo.entries,
                                toks: ct + seq![tok_mk(s, a, Tag::Key)] + vo.toks + eo.toks,
                                next: eo.next,
                            },
                        ),
                        Err(e) => Err(e),
                    },
                    Err(e) => Err(e),
                },
                _ => Err(ParseError { offset: a.start, expected: Expectation::SectionEntry }),
            }
        }
    }
}

/// Parse a whole document: comments, the root key, its value, trailing
/// comments, then the end of the input.
pub open spec fn spec_parse(s: Seq<char>) -> Result<ParseOut, ParseError> {
    let sc = scan_from(s, 0);
    let atoms = sc.atoms;
    let fault = sc.fault;
    let j = skip_comments(atoms, 0);
    let ct = comment_toks(s, atoms, 0, j);
    if j >= atoms.len() {
        Err(ParseError { offset: stop_offset(s, atoms, fault, j), expected: Expectation::RootKey })
    } else {
        let a = atoms[j];
        if a.kind != LexKind::Str {
            Err(ParseError { offset: a.start, expected: Expectation::RootKey })
        } else {
            match parse_value_at(s, atoms, fault, j + 1, (atoms.len() + 1) as nat) {
                Err(e) => Err(e),
                Ok(vo) => {
                    let e2 = skip_comments(atoms, vo.next);
                    let ct2 = comment_toks(s, atoms, vo.next, e2);
                    if e2 < atoms.len() {
                        Err(
                            ParseError {
                                offset: atoms[e2].start,
                                expected: Expectation::DocumentEnd,
                            },
                        )
                    } else if fault is Some {
                        Err(ParseError { offset: fault->0, expected: Expectation::DocumentEnd })
                    } else {
                        Ok(
                            ParseOut {
                                kv: SpecKeyValue {
                                    key: strip_quotes(s, a),
                                    key_range: range_of(s, a.start as int, a.end as int),
                                    value: vo.value,
                                },
                                toks: ct + seq![tok_mk(s, a, Tag::Key)] + vo.toks + ct2,
                            },
                        )
                    }
                },
            }
        }
    }
}

/// Unfolding `parse_value_at` when the atoms run out first.
proof fn lemma_value_at_eof(
    s: Seq<char>,
    atoms: Seq<Lexeme>,
    flt: Option<usize>,
    i: int,
    j: int,
    fuel: nat,
)
    requires
        0 <= i <= atoms.len(),
        j == skip_comments(atoms, i),
        j >= atoms.len(),
        fuel >= 1,
    ensures
        parse_value_at(s, atoms, flt, i, fuel) == Err::<ValOut, ParseError>(
            ParseError { offset: stop_offset(s, atoms, flt, j), expected: Expectation::EntryValue },
        ),
{
    reveal_with_fuel(parse_value_at, 1);
}

/// Unfolding `parse_value_at` at a closing brace, which no value may
/// begin with.
proof fn lemma_value_at_wrong(
    s: Seq<char>,
    atoms: Seq<Lexeme>,
    flt: Option<usize>,
    i: int,
    j: int,
    fuel: nat,
)
    requires
        0 <= i <= atoms.len(),
        j == skip_comments(atoms, i),
        j < atoms.len(),
        atoms[j].kind == LexKind::Close,
        fuel >= 1,
    ensures
        parse_value_at(s, atoms, flt, i, fuel) == Err::<ValOut, ParseError>(
            ParseError { offset: atoms[j].start, expected: Expectation::EntryValue },
        ),
{
    reveal_with_fuel(parse_value_at, 1);
}

/// Unfolding `parse_value_at` at a string atom.
proof fn lemma_value_at_str(
    s: Seq<char>,
    atoms: Seq<Lexeme>,
    flt: Option<usize>,
    i: int,
    j: int,
    fuel: nat,
)
    requires
        0 <= i <= atoms.len(),
        j == skip_comments(atoms, i),
        j < atoms.len(),
        atoms[j].kind == LexKind::Str,
        fuel >= 1,
    ensures
        parse_value_at(s, atoms, flt, i, fuel) == Ok::<ValOut, ParseError>(
            ValOut {
                value: SpecValue::String(strip_quotes(s, atoms[j])),
                toks: comment_toks(s, atoms, i, j) + seq![tok_mk(s, atoms[j], Tag::Value)],
                next: j + 1,
            },
        ),
{
    reveal_with_fuel(parse_value_at, 1);
}

/// Unfolding `parse_value_at` at an opening brace, given what parsing
/// the section's inside yields.
proof fn lemma_value_at_open(
    s: Seq<char>,
    atoms: Seq<Lexeme>,
    flt: Option<usize>,
    i: int,
    j: int,
    res: Result<EntriesOut, ParseError>,
    fuel: nat,
)
    requires
        0 <= i <= atoms.len(),
        j == skip_comments(atoms, i),
        j < atoms.len(),
        atoms[j].kind == LexKind::Open,
        fuel >= atoms.len() - i + 1,
        forall|f: nat|
            f >= atoms.len() - (j + 1) + 1 ==> #[trigger] parse_entries_at(
                s,
                atoms,
                flt,
                j + 1,
                f,
            ) == res,
    ensures
        parse_value_at(s, atoms, flt, i, fuel) == (match res {
            Ok(eo) => Ok::<ValOut, ParseError>(
                ValOut {
                    value: SpecValue::Section(eo.entries),
                    toks: comment_toks(s, atoms, i, j) + seq![tok_mk(s, atoms[j], Tag::LBrace)]
                        + eo.toks,
                    next: eo.next,
                },
            ),
            Err(e) => Err::<ValOut, ParseError>(e),
        }),
{
    reveal_with_fuel(parse_value_at, 1);
    reveal_with_fuel(parse_entries_at, 1);
    lemma_skip_comments(atoms, i);
    let f2 = (fuel - 1) as nat;
    assert(f2 >= atoms.len() - (j + 1) + 1);
    assert(parse_entries_at(s, atoms, flt, j + 1, f2) == res);
}

/// Unfolding `parse_entries_at` when the atoms run out first.
proof fn lemma_entries_at_eof(
    s: Seq<char>,
    atoms: Seq<Lexeme>,
    flt: Option<usize>,
    i: int,
    j: int,
    fuel: nat,
)
    requires
        0 <= i <= atoms.len(),
        j == skip_comments(atoms, i),
        j >= atoms.len(),
        fuel >= 1,
    ensures
        parse_entries_at(s, atoms, flt, i, fuel) == Err::<EntriesOut, ParseError>(
            ParseError {
                offset: stop_offset(s, atoms, flt, j),
                expected: Expectation::SectionEntry,
            },
        ),
{
    reveal_with_fuel(parse_entries_at, 1);
}

/// Unfolding `parse_entries_at` at an opening brace, which no entry may
/// begin with.
proof fn lemma_entries_at_wrong(
    s: Seq<char>,
    atoms: Seq<Lexeme>,
    flt: Option<usize>,
    i: int,
    j: int,
    fuel: nat,
)
    requires
        0 <= i <= atoms.len(),
        j == skip_comments(atoms, i),
        j < atoms.len(),
        atoms[j].kind == LexKind::Open,
        fuel >= 1,
    ensures
        parse_entries_at(s, atoms, flt, i, fuel) == Err::<EntriesOut, ParseError>(
            ParseError { offset: atoms[j].start, expected: Expectation::SectionEntry },
        ),
{
    reveal_with_fuel(parse_entries_at, 1);
}

/// Unfolding `parse_entries_at` at the section's closing brace.
proof fn lemma_entries_at_close(
    s: Seq<char>,
    atoms: Seq<Lexeme>,
    flt: Option<usize>,
    i: int,
    j: int,
    fuel: nat,
)
    requires
        0 <= i <= atoms.len(),
        j == skip_comments(atoms, i),
        j < atoms.len(),
        atoms[j].kind == LexKind::Close,
        fuel >= 1,
    ensures
        parse_entries_at(s, atoms, flt, i, fuel) == Ok::<EntriesOut, ParseError>(
            EntriesOut {
                entries: seq![],
                toks: comment_toks(s, atoms, i, j) + seq![tok_mk(s, atoms[j], Tag::RBrace)],
                next: j + 1,
            },
        ),
{
    reveal_with_fuel(parse_entries_at, 1);
}

/// Unfolding `parse_entries_at` at an entry's key, given what parsing
/// its value and then the rest of the section yields.
proof fn lemma_entries_at_entry(
    s: Seq<char>,
    atoms: Seq<Lexeme>,
    flt: Option<usize>,
    i: int,
    j: int,
    vres: Result<ValOut, ParseError>,
    eres: Result<EntriesOut, ParseError>,
    fuel: nat,
)
    requires
        0 <= i <= atoms.len(),
        j == skip_comments(atoms, i),
        j < atoms.len(),
        atoms[j].kind == LexKind::Str,
        fuel >= atoms.len() - i + 1,
        forall|f: nat|
            f >= atoms.len() - (j + 1) + 1 ==> #[trigger] parse_value_at(s, atoms, flt, j + 1, f)
                == vres,
        vres matches Ok(vo) ==> j + 1 < vo.next <= atoms.len(),
        vres matches Ok(vo) ==> forall|f: nat|
            f >= atoms.len() - vo.next + 1 ==> #[trigger] parse_entries_at(
                s,
                atoms,
                flt,
                vo.next,
                f,
            ) == eres,
    ensures
        parse_entries_at(s, atoms, flt, i, fuel) == (match vres {
            Err(e) => Err::<EntriesOut, ParseError>(e),
            Ok(vo) => match eres {
                Err(e) => Err::<EntriesOut, ParseError>(e),
                Ok(eo) => Ok::<EntriesOut, ParseError>(
                    EntriesOut {
                        entries: seq![
                            SpecKeyValue {
                                key: strip_quotes(s, atoms[j]),
                                key_range: range_of(s, atoms[j].start as int, atoms[j].end as int),
                                value: vo.value,
                            },
                        ] + eo.entries,
                        toks: comment_toks(s, atoms, i, j) + seq![tok_mk(s, atoms[j], Tag::Key)]
                            + vo.toks + eo.toks,
                        next: eo.next,
                    },
                ),
            },
        }),
{
    reveal_with_fuel(parse_entries_at, 1);
    reveal_with_fuel(parse_value_at, 1);
    lemma_skip_comments(atoms, i);
    let f2 = (fuel - 1) as nat;
    assert(f2 >= atoms.len() - (j + 1) + 1);
    assert(parse_value_at(s, atoms, flt, j + 1, f2) == vres);
    if let Ok(vo) = vres {
        assert(f2 >= atoms.len() - vo.next + 1);
        assert(parse_entries_at(s, atoms, flt, vo.next, f2) == eres);
    }
}

/// The characters of `input`, as an indexable vector.
fn chars_vec(input: &str) -> (r: Vec<char>)
    ensures
        r@ == input@,
{
    let n = input.unicode_len();
    let mut v: Vec<char> = Vec::new();
    let mut i: usize = 0;
    while i < n
        invariant
            i <= n,
            n == input@.len(),
            v@ == input@.subrange(0, i as int),
        decreases n - i,
    {
        let c = input.get_char(i);
        v.push(c);
        assert(v@ =~= input@.subrange(0, i as int + 1));
        i = i + 1;
    }
    assert(v@ =~= input@);
    v
}

/// Decide whether an atom kind is a comment.
fn comment_kind(k: LexKind) -> (b: bool)
    ensures
        b == is_comment(k),
{
    match k {
        LexKind::LineComment => true,
        LexKind::BlockComment => true,
        _ => false,
    }
}

/// The recursive-descent parser: it walks the scanned atoms once, in
/// document order, building the position-annotated tree and the flat
/// token stream together over one shared range mapper.
pub struct KeyValueParser {
    doc: Vec<char>,
    atoms: Vec<Lexeme>,
    fault: Option<usize>,
    ranges: RangeCollector,
    tokens: Vec<TokenKind>,
}

impl KeyValueParser {
    /// The parser state agrees with document `s`.
    pub closed spec fn inv(self, s: Seq<char>) -> bool {
        &&& self.doc@ == s
        &&& s.len() < u32::MAX
        &&& self.atoms@ == scan_from(s, 0).atoms
        &&& self.fault == scan_from(s, 0).fault
        &&& self.ranges.wf(s)
    }

    /// The range mapper has not passed the start of atom `i` yet.
    pub closed spec fn ready_at(self, i: int) -> bool {
        i < self.atoms@.len() ==> self.ranges.first_col_line <= self.atoms@[i].start
    }

    /// The syntax failure to report when the parser stops wanting atom
    /// `j`.
    fn stop_error(&self, j: usize, exp: Expectation) -> (e: ParseError)
        requires
            self.inv(self.doc@),
            j <= self.atoms@.len(),
        ensures
            e == (ParseError {
                offset: stop_offset(self.doc@, self.atoms@, self.fault, j as int),
                expected: exp,
            }),
    {
        let offset = if j < self.atoms.len() {
            self.atoms[j].start
        } else {
            match self.fault {
                Some(p) => p,
                None => self.doc.len(),
            }
        };
        ParseError { offset, expected: exp }
    }

    /// Turn atom `j` into the token stream's next token, mapping its
    /// span through the shared range mapper.
    #[verifier::rlimit(60)]
    fn map_atom(&mut self, input: &str, j: usize, tag: Tag) -> (rg: Range)
        requires
            old(self).inv(input@),
            j < old(self).atoms@.len(),
            old(self).ready_at(j as int),
        ensures
            final(self).inv(input@),
            final(self).atoms@ == old(self).atoms@,
            final(self).doc@ == old(self).doc@,
            final(self).fault == old(self).fault,
            final(self).ready_at(j as int + 1),
            rg == range_of(
                input@,
                old(self).atoms@[j as int].start as int,
                old(self).atoms@[j as int].end as int,
            ),
            final(self).tokens@.len() == old(self).tokens@.len() + 1,
            final(self).tokens@.subrange(0, old(self).tokens@.len() as int) == old(self).tokens@,
            toks_suffix(old(self).tokens@, final(self).tokens@) == seq![
                tok_mk(input@, old(self).atoms@[j as int], tag),
            ],
    {
        proof {
            lemma_scan_atom(input@, 0, j as int);
            if j as int + 1 < old(self).atoms@.len() {
                lemma_scan_atom(input@, 0, j as int + 1);
            }
            crate::formatter::collectors::lemma_line_bounds(
                input@,
                old(self).atoms@[j as int].end as int,
            );
        }
        let a = self.atoms[j];
        let rg = self.ranges.span_to_range(a.start, a.end, Ghost(input@));
        let text = input.substring_char(a.start, a.end).to_owned();
        let t = KvToken { text, range: rg };
        let tk = match tag {
            Tag::Key => TokenKind::Key(t),
            Tag::Value => TokenKind::Value(t),
            Tag::LineComment => TokenKind::LineComment(t),
            Tag::BlockComment => TokenKind::BlockComment(t),
            Tag::LBrace => TokenKind::LBrace(t),
            Tag::RBrace => TokenKind::RBrace(t),
        };
        let ghost base = self.tokens@;
        self.tokens.push(tk);
        proof {
            lemma_suffix_refl(base);
            lemma_suffix_push(base, base, tk);
            assert(toks_suffix(base, self.tokens@) =~= seq![
                tok_mk(input@, self.atoms@[j as int], tag),
            ]);
        }
        rg
    }

    /// Turn the run of comment atoms starting at `i` into tokens, and
    /// give back the index of the first atom past them.
    fn skip_comment_atoms(&mut self, input: &str, i: usize) -> (j: usize)
        requires
            old(self).inv(input@),
            i <= old(self).atoms@.len(),
            old(self).ready_at(i as int),
        ensures
            final(self).inv(input@),
            final(self).atoms@ == old(self).atoms@,
            final(self).doc@ == old(self).doc@,
            final(self).fault == old(self).fault,
            j as int == skip_comments(old(self).atoms@, i as int),
            i <= j <= old(self).atoms@.len(),
            final(self).ready_at(j as int),
            final(self).tokens@.len() >= old(self).tokens@.len(),
            final(self).tokens@.subrange(0, old(self).tokens@.len() as int) == old(self).tokens@,
            toks_suffix(old(self).tokens@, final(self).tokens@) == comment_toks(
                input@,
                old(self).atoms@,
                i as int,
                j as int,
            ),
    {
        let ghost s = input@;
        let ghost atoms = old(self).atoms@;
        let ghost base = old(self).tokens@;
        let mut cur = i;
        proof {
            lemma_skip_comments(atoms, i as int);
            assert(toks_suffix(base, self.tokens@) =~= comment_toks(s, atoms, i as int, i as int));
        }
        loop
            invariant
                self.inv(s),
                input@ == s,
                self.atoms@ == atoms,
                self.doc@ == old(self).doc@,
                self.fault == old(self).fault,
                i <= cur <= atoms.len(),
                skip_comments(atoms, i as int) == skip_comments(atoms, cur as int),
                self.ready_at(cur as int),
                self.tokens@.len() >= base.len(),
                self.tokens@.subrange(0, base.len() as int) == base,
                toks_suffix(base, self.tokens@) == comment_toks(s, atoms, i as int, cur as int),
            ensures
                self.inv(s),
                self.atoms@ == atoms,
                self.doc@ == old(self).doc@,
                self.fault == old(self).fault,
                i <= cur <= atoms.len(),
                cur as int == skip_comments(atoms, i as int),
                self.ready_at(cur as int),
                self.tokens@.len() >= base.len(),
                self.tokens@.subrange(0, base.len() as int) == base,
                toks_suffix(base, self.tokens@) == comment_toks(s, atoms, i as int, cur as int),
            decreases atoms.len() - cur,
        {
            if cur == self.atoms.len() {
                break;
            }
            let k = self.atoms[cur].kind;
            if !comment_kind(k) {
                break;
            }
            let tag = match k {
                LexKind::LineComment => Tag::LineComment,
                _ => Tag::BlockComment,
            };
            let ghost mid = self.tokens@;
            self.map_atom(input, cur, tag);
            cur = cur + 1;
            proof {
                lemma_suffix_chain(base, mid, self.tokens@);
                assert(comment_toks(s, atoms, i as int, cur as int) =~= comment_toks(
                    s,
                    atoms,
                    i as int,
                    cur as int - 1,
                ) + seq![tok_mk(s, atoms[cur as int - 1], comment_tag(atoms[cur as int - 1].kind))]);
            }
        }
        cur
    }

    /// Parse the value part of an entry: the atoms from `i` on, up to
    /// the end of a string value or of a whole section.
    #[verifier::rlimit(100)]
    fn parse_value(&mut self, input: &str, i: usize) -> (r: Result<(Value, usize), ParseError>)
        requires
            old(self).inv(input@),
            i <= old(self).atoms@.len(),
            old(self).ready_at(i as int),
        ensures
            final(self).inv(input@),
            final(self).atoms@ == old(self).atoms@,
            final(self).doc@ == old(self).doc@,
            final(self).fault == old(self).fault,
            final(self).tokens@.len() >= old(self).tokens@.len(),
            final(self).tokens@.subrange(0, old(self).tokens@.len() as int) == old(self).tokens@,
            match r {
                Ok((v, next)) => {
                    &&& i < next <= old(self).atoms@.len()
                    &&& final(self).ready_at(next as int)
                    &&& forall|fuel: nat|
                        fuel >= old(self).atoms@.len() - i + 1 ==> #[trigger] parse_value_at(
                            input@,
                            old(self).atoms@,
                            old(self).fault,
                            i as int,
                            fuel,
                        ) == Ok::<ValOut, ParseError>(
                            ValOut {
                                value: value_view(v),
                                toks: toks_suffix(old(self).tokens@, final(self).tokens@),
                                next: next as int,
                            },
                        )
                },
                Err(e) => forall|fuel: nat|
                    fuel >= old(self).atoms@.len() - i + 1 ==> #[trigger] parse_value_at(
                        input@,
                        old(self).atoms@,
                        old(self).fault,
                        i as int,
                        fuel,
                    ) == Err::<ValOut, ParseError>(e),
            },
        decreases self.atoms@.len() - i, 0int,
    {
        let ghost s = input@;
        let ghost atoms = old(self).atoms@;
        let ghost flt = old(self).fault;
        let ghost base = old(self).tokens@;
        let j = self.skip_comment_atoms(input, i);
        proof {
            lemma_skip_comments(atoms, i as int);
        }
        if j == self.atoms.len() {
            let e = self.stop_error(j, Expectation::EntryValue);
            proof {
                assert forall|fuel: nat| fuel >= atoms.len() - i + 1 implies #[trigger] parse_value_at(
                    s,
                    atoms,
                    flt,
                    i as int,
                    fuel,
                ) == Err::<ValOut, ParseError>(e) by {
                    lemma_value_at_eof(s, atoms, flt, i as int, j as int, fuel);
                }
            }
            return Err(e);
        }
        let a = self.atoms[j];
        match a.kind {
            LexKind::Str => {
                proof {
                    lemma_scan_atom(s, 0, j as int);
                    assert(scan_from(s, 0).atoms[j as int] == a);
                }
                let ghost mid = self.tokens@;
                self.map_atom(input, j, Tag::Value);
                let text = input.substring_char(a.start + 1, a.end - 1).to_owned();
                let v = Value::String(text);
                proof {
                    lemma_suffix_chain(base, mid, self.tokens@);
                    assert(toks_suffix(base, self.tokens@) == comment_toks(
                        s,
                        atoms,
                        i as int,
                        j as int,
                    ) + seq![tok_mk(s, a, Tag::Value)]);
                    assert forall|fuel: nat|
                        fuel >= atoms.len() - i + 1 implies #[trigger] parse_value_at(
                        s,
                        atoms,
                        flt,
                        i as int,
                        fuel,
                    ) == Ok::<ValOut, ParseError>(
                        ValOut {
                            value: value_view(v),
                            toks: toks_suffix(base, self.tokens@),
                            next: j as int + 1,
                        },
                    ) by {
                        lemma_value_at_str(s, atoms, flt, i as int, j as int, fuel);
                    }
                }
                Ok((v, j + 1))
            },
            LexKind::Open => {
                let ghost mid = self.tokens@;
                self.map_atom(input, j, Tag::LBrace);
                let ghost mid2 = self.tokens@;
                proof {
                    lemma_suffix_chain(base, mid, mid2);
                }
                let r2 = self.parse_entries(input, j + 1);
                match r2 {
                    Ok((es, n2)) => {
                        let ghost eo = EntriesOut {
                            entries: kvs_view(es@),
                            toks: toks_suffix(mid2, self.tokens@),
                            next: n2 as int,
                        };
                        proof {
                            lemma_suffix_chain(base, mid2, self.tokens@);
                            assert(toks_suffix(base, self.tokens@) == comment_toks(
                                s,
                                atoms,
                                i as int,
                                j as int,
                            ) + seq![tok_mk(s, a, Tag::LBrace)] + eo.toks);
                            assert forall|fuel: nat|
                                fuel >= atoms.len() - i + 1 implies #[trigger] parse_value_at(
                                s,
                                atoms,
                                flt,
                                i as int,
                                fuel,
                            ) == Ok::<ValOut, ParseError>(
                                ValOut {
                                    value: SpecValue::Section(eo.entries),
                                    toks: toks_suffix(base, self.tokens@),
                                    next: n2 as int,
                                },
                            ) by {
                                lemma_value_at_open(s, atoms, flt, i as int, j as int, Ok(eo), fuel);
                            }
                        }
                        Ok((Value::Section(es), n2))
                    },
                    Err(e) => {
                        proof {
                            lemma_suffix_chain(base, mid2, self.tokens@);
                            assert forall|fuel: nat|
                                fuel >= atoms.len() - i + 1 implies #[trigger] parse_value_at(
                                s,
                                atoms,
                                flt,
                                i as int,
                                fuel,
                            ) == Err::<ValOut, ParseError>(e) by {
                                lemma_value_at_open(
                                    s,
                                    atoms,
                                    flt,
                                    i as int,
                                    j as int,
                                    Err(e),
                                    fuel,
                                );
                            }
                        }
                        Err(e)
                    },
                }
            },
            LexKind::Close => {
                let e = ParseError { offset: a.start, expected: Expectation::EntryValue };
                proof {
                    assert forall|fuel: nat| fuel >= atoms.len() - i + 1 implies #[trigger] parse_value_at(
                        s,
                        atoms,
                        flt,
                        i as int,
                        fuel,
                    ) == Err::<ValOut, ParseError>(e) by {
                        lemma_value_at_wrong(s, atoms, flt, i as int, j as int, fuel);
                    }
                }
                Err(e)
            },
            _ => {
                proof {
                    assert(false);
                }
                Err(ParseError { offset: a.start, expected: Expectation::EntryValue })
            },
        }
    }

    /// Parse the inside of a section: entries and comments from `i` on,
    /// closed by the matching brace.
    #[verifier::rlimit(100)]
    fn parse_entries(&mut self, input: &str, i: usize) -> (r: Result<
        (Vec<KeyValue>, usize),
        ParseError,
    >)
        requires
            old(self).inv(input@),
            i <= old(self).atoms@.len(),
            old(self).ready_at(i as int),
        ensures
            final(self).inv(input@),
            final(self).atoms@ == old(self).atoms@,
            final(self).doc@ == old(self).doc@,
            final(self).fault == old(self).fault,
            final(self).tokens@.len() >= old(self).tokens@.len(),
            final(self).tokens@.subrange(0, old(self).tokens@.len() as int) == old(self).tokens@,
            match r {
                Ok((es, next)) => {
                    &&& i < next <= old(self).atoms@.len()
                    &&& final(self).ready_at(next as int)
                    &&& forall|fuel: nat|
                        fuel >= old(self).atoms@.len() - i + 1 ==> #[trigger] parse_entries_at(
                            input@,
                            old(self).atoms@,
                            old(self).fault,
                            i as int,
                            fuel,
                        ) == Ok::<EntriesOut, ParseError>(
                            EntriesOut {
                                entries: kvs_view(es@),
                                toks: toks_suffix(old(self).tokens@, final(self).tokens@),
                                next: next as int,
                            },
                        )
                },
                Err(e) => forall|fuel: nat|
                    fuel >= old(self).atoms@.len() - i + 1 ==> #[trigger] parse_entries_at(
                        input@,
                        old(self).atoms@,
                        old(self).fault,
                        i as int,
                        fuel,
                    ) == Err::<EntriesOut, ParseError>(e),
            },
        decreases self.atoms@.len() - i, 1int,
    {
        let ghost s = input@;
        let ghost atoms = old(self).atoms@;
        let ghost flt = old(self).fault;
        let ghost base = old(self).tokens@;
        let j = self.skip_comment_atoms(input, i);
        proof {
            lemma_skip_comments(atoms, i as int);
        }
        if j == self.atoms.len() {
            let e = self.stop_error(j, Expectation::SectionEntry);
            proof {
                assert forall|fuel: nat|
                    fuel >= atoms.len() - i + 1 implies #[trigger] parse_entries_at(
                    s,
                    atoms,
                    flt,
                    i as int,
                    fuel,
                ) == Err::<EntriesOut, ParseError>(e) by {
                    lemma_entries_at_eof(s, atoms, flt, i as int, j as int, fuel);
                }
            }
            return Err(e);
        }
        let a = self.atoms[j];
        match a.kind {
            LexKind::Close => {
                let ghost mid = self.tokens@;
                self.map_atom(input, j, Tag::RBrace);
                let es: Vec<KeyValue> = Vec::new();
                proof {
                    lemma_suffix_chain(base, mid, self.tokens@);
                    assert(kvs_view(es@) =~= Seq::<SpecKeyValue>::empty());
                    assert(toks_suffix(base, self.tokens@) == comment_toks(
                        s,
                        atoms,
                        i as int,
                        j as int,
                    ) + seq![tok_mk(s, a, Tag::RBrace)]);
                    assert forall|fuel: nat|
                        fuel >= atoms.len() - i + 1 implies #[trigger] parse_entries_at(
                        s,
                        atoms,
                        flt,
                        i as int,
                        fuel,
                    ) == Ok::<EntriesOut, ParseError>(
                        EntriesOut {
                            entries: kvs_view(es@),
                            toks: toks_suffix(base, self.tokens@),
                            next: j as int + 1,
                        },
                    ) by {
                        lemma_entries_at_close(s, atoms, flt, i as int, j as int, fuel);
                        assert(kvs_view(es@) =~= Seq::<SpecKeyValue>::empty());
                        assert(Seq::<SpecKeyValue>::empty() =~= seq![]);
                    }
                }
                Ok((es, j + 1))
            },
            LexKind::Str => {
                self.parse_entry(input, j, Ghost(i as int), Ghost(base))
            },
            LexKind::Open => {
                let e = ParseError { offset: a.start, expected: Expectation::SectionEntry };
                proof {
                    assert forall|fuel: nat|
                        fuel >= atoms.len() - i + 1 implies #[trigger] parse_entries_at(
                        s,
                        atoms,
                        flt,
                        i as int,
                        fuel,
                    ) == Err::<EntriesOut, ParseError>(e) by {
                        lemma_entries_at_wrong(s, atoms, flt, i as int, j as int, fuel);
                    }
                }
                Err(e)
            },
            _ => {
                proof {
                    assert(false);
                }
                Err(ParseError { offset: a.start, expected: Expectation::SectionEntry })
            },
        }
    }

    /// Parse one entry whose key stands at atom `j`, then the rest of
    /// its section after it.
    #[verifier::rlimit(100)]
    fn parse_entry(
        &mut self,
        input: &str,
        j: usize,
        Ghost(i0): Ghost<int>,
        Ghost(base): Ghost<Seq<TokenKind>>,
    ) -> (r: Result<(Vec<KeyValue>, usize), ParseError>)
        requires
            old(self).inv(input@),
            0 <= i0 <= j,
            j as int == skip_comments(old(self).atoms@, i0),
            (j as int) < old(self).atoms@.len(),
            old(self).atoms@[j as int].kind == LexKind::Str,
            old(self).ready_at(j as int),
            base.len() <= old(self).tokens@.len(),
            old(self).tokens@.subrange(0, base.len() as int) == base,
            toks_suffix(base, old(self).tokens@) == comment_toks(
                input@,
                old(self).atoms@,
                i0,
                j as int,
            ),
        ensures
            final(self).inv(input@),
            final(self).atoms@ == old(self).atoms@,
            final(self).doc@ == old(self).doc@,
            final(self).fault == old(self).fault,
            final(self).tokens@.len() >= old(self).tokens@.len(),
            final(self).tokens@.subrange(0, old(self).tokens@.len() as int) == old(self).tokens@,
            final(self).tokens@.subrange(0, base.len() as int) == base,
            match r {
                Ok((es, next)) => {
                    &&& j < next <= old(self).atoms@.len()
                    &&& final(self).ready_at(next as int)
                    &&& forall|fuel: nat|
                        fuel >= old(self).atoms@.len() - i0 + 1 ==> #[trigger] parse_entries_at(
                            input@,
                            old(self).atoms@,
                            old(self).fault,
                            i0,
                            fuel,
                        ) == Ok::<EntriesOut, ParseError>(
                            EntriesOut {
                                entries: kvs_view(es@),
                                toks: toks_suffix(base, final(self).tokens@),
                                next: next as int,
                            },
                        )
                },
                Err(e) => forall|fuel: nat|
                    fuel >= old(self).atoms@.len() - i0 + 1 ==> #[trigger] parse_entries_at(
                        input@,
                        old(self).atoms@,
                        old(self).fault,
                        i0,
                        fuel,
                    ) == Err::<EntriesOut, ParseError>(e),
            },
        decreases self.atoms@.len() - j, 0int,
    {
        let ghost s = input@;
        let ghost atoms = old(self).atoms@;
        let ghost flt = old(self).fault;
        let a = self.atoms[j];
        proof {
            lemma_scan_atom(s, 0, j as int);
            assert(scan_from(s, 0).atoms[j as int] == a);
        }
        let ghost mid0 = self.tokens@;
        let krange = self.map_atom(input, j, Tag::Key);
        let ghost mid1 = self.tokens@;
        proof {
            lemma_suffix_chain(base, mid0, mid1);
        }
        let ktext = input.substring_char(a.start + 1, a.end - 1).to_owned();
        let atoms_len = self.atoms.len();
        assert(j < atoms_len);
        let rv = self.parse_value(input, j + 1);
        match rv {
            Err(e) => {
                proof {
                    lemma_suffix_chain(base, mid1, self.tokens@);
                    assert forall|fuel: nat|
                        fuel >= atoms.len() - i0 + 1 implies #[trigger] parse_entries_at(
                        s,
                        atoms,
                        flt,
                        i0,
                        fuel,
                    ) == Err::<EntriesOut, ParseError>(e) by {
                        lemma_entries_at_entry(s, atoms, flt, i0, j as int, Err(e), Err(e), fuel);
                    }
                }
                Err(e)
            },
            Ok((v, n1)) => {
                let ghost mid2 = self.tokens@;
                let ghost vo = ValOut {
                    value: value_view(v),
                    toks: toks_suffix(mid1, mid2),
                    next: n1 as int,
                };
                let re = self.parse_entries(input, n1);
                match re {
                    Err(e) => {
                        proof {
                            lemma_suffix_chain(base, mid1, mid2);
                            lemma_suffix_chain(base, mid2, self.tokens@);
                            assert forall|fuel: nat|
                                fuel >= atoms.len() - i0 + 1 implies #[trigger] parse_entries_at(
                                s,
                                atoms,
                                flt,
                                i0,
                                fuel,
                            ) == Err::<EntriesOut, ParseError>(e) by {
                                lemma_entries_at_entry(
                                    s,
                                    atoms,
                                    flt,
                                    i0,
                                    j as int,
                                    Ok(vo),
                                    Err(e),
                                    fuel,
                                );
                            }
                        }
                        Err(e)
                    },
                    Ok((es, n2)) => {
                        let mut es = es;
                        let ghost es0 = es@;
                        let ghost eo = EntriesOut {
                            entries: kvs_view(es0),
                            toks: toks_suffix(mid2, self.tokens@),
                            next: n2 as int,
                        };
                        let kv = KeyValue { key: ktext, value: v, key_range: krange };
                        es.insert(0, kv);
                        proof {
                            lemma_suffix_chain(base, mid1, mid2);
                            lemma_suffix_chain(base, mid2, self.tokens@);
                            assert(toks_suffix(base, self.tokens@) == comment_toks(
                                s,
                                atoms,
                                i0,
                                j as int,
                            ) + seq![tok_mk(s, a, Tag::Key)] + vo.toks + eo.toks);
                            assert(es@ =~= seq![kv] + es0);
                            lemma_kvs_view_cons(kv, es0);
                            assert(kv_view(kv) == (SpecKeyValue {
                                key: strip_quotes(s, a),
                                key_range: range_of(s, a.start as int, a.end as int),
                                value: value_view(v),
                            }));
                            assert(kvs_view(es@) == seq![
                                SpecKeyValue {
                                    key: strip_quotes(s, a),
                                    key_range: range_of(s, a.start as int, a.end as int),
                                    value: vo.value,
                                },
                            ] + eo.entries);
                            assert forall|fuel: nat|
                                fuel >= atoms.len() - i0 + 1 implies #[trigger] parse_entries_at(
                                s,
                                atoms,
                                flt,
                                i0,
                                fuel,
                            ) == Ok::<EntriesOut, ParseError>(
                                EntriesOut {
                                    entries: kvs_view(es@),
                                    toks: toks_suffix(base, self.tokens@),
                                    next: n2 as int,
                                },
                            ) by {
                                lemma_entries_at_entry(
                                    s,
                                    atoms,
                                    flt,
                                    i0,
                                    j as int,
                                    Ok(vo),
                                    Ok(eo),
                                    fuel,
                                );
                            }
                        }
                        Ok((es, n2))
                    },
                }
            },
        }
    }

    /// Parse a whole document: the position-annotated root entry and
    /// the flat token stream, or the first syntax failure.
    #[verifier::rlimit(100)]
    pub fn parse_document(input: &str) -> (r: Result<(KeyValue, Vec<TokenKind>), ParseError>)
        requires
            input@.len() < u32::MAX,
        ensures
            match spec_parse(input@) {
                Ok(po) => r matches Ok(p) && kv_view(p.0) == po.kv && toks_view(p.1@) == po.toks,
                Err(e) => r matches Err(pe) && pe == e,
            },
    {
        let ghost s = input@;
        let doc = chars_vec(input);
        let (atoms, fault) = scan_document(&doc);
        let mut ranges = RangeCollector::new();
        ranges.collect_linebreaks(&doc);
        let mut p = KeyValueParser { doc, atoms, fault, ranges, tokens: Vec::new() };
        let ghost atoms_g = p.atoms@;
        let ghost flt = p.fault;
        let j = p.skip_comment_atoms(input, 0);
        proof {
            lemma_skip_comments(atoms_g, 0);
        }
        if j == p.atoms.len() {
            return Err(p.stop_error(j, Expectation::RootKey));
        }
        let a = p.atoms[j];
        match a.kind {
            LexKind::Str => {},
            _ => {
                return Err(ParseError { offset: a.start, expected: Expectation::RootKey });
            },
        }
        proof {
            lemma_scan_atom(s, 0, j as int);
            assert(scan_from(s, 0).atoms[j as int] == a);
        }
        let ghost mid0 = p.tokens@;
        let krange = p.map_atom(input, j, Tag::Key);
        let ghost mid1 = p.tokens@;
        proof {
            lemma_suffix_chain(Seq::<TokenKind>::empty(), mid0, mid1);
        }
        let ktext = input.substring_char(a.start + 1, a.end - 1).to_owned();
        let rv = p.parse_value(input, j + 1);
        let ghost f0 = (atoms_g.len() + 1) as nat;
        match rv {
            Err(e) => {
                proof {
                    assert(f0 >= atoms_g.len() - (j + 1) + 1);
                    assert(parse_value_at(s, atoms_g, flt, j as int + 1, f0) == Err::<
                        ValOut,
                        ParseError,
                    >(e));
                }
                Err(e)
            },
            Ok((v, n1)) => {
                let ghost mid2 = p.tokens@;
                let ghost vo = ValOut {
                    value: value_view(v),
                    toks: toks_suffix(mid1, mid2),
                    next: n1 as int,
                };
                proof {
                    assert(f0 >= atoms_g.len() - (j + 1) + 1);
                    assert(parse_value_at(s, atoms_g, flt, j as int + 1, f0) == Ok::<
                        ValOut,
                        ParseError,
                    >(vo));
                }
                let e2 = p.skip_comment_atoms(input, n1);
                if e2 < p.atoms.len() {
                    let a2 = p.atoms[e2];
                    return Err(ParseError { offset: a2.start, expected: Expectation::DocumentEnd });
                }
                match p.fault {
                    Some(f) => Err(ParseError { offset: f, expected: Expectation::DocumentEnd }),
                    None => {
                        let kv = KeyValue { key: ktext, value: v, key_range: krange };
                        proof {
                            lemma_suffix_chain(Seq::<TokenKind>::empty(), mid1, mid2);
                            lemma_suffix_chain(Seq::<TokenKind>::empty(), mid2, p.tokens@);
                            assert(kv_view(kv) == (SpecKeyValue {
                                key: strip_quotes(s, a),
                                key_range: range_of(s, a.start as int, a.end as int),
                                value: value_view(v),
                            }));
                            assert(p.tokens@.subrange(0, p.tokens@.len() as int) =~= p.tokens@);
                            assert(toks_suffix(Seq::<TokenKind>::empty(), p.tokens@) == toks_view(
                                p.tokens@,
                            ));
                            assert(toks_view(p.tokens@) == comment_toks(s, atoms_g, 0, j as int)
                                + seq![tok_mk(s, a, Tag::Key)] + vo.toks + comment_toks(
                                s,
                                atoms_g,
                                n1 as int,
                                e2 as int,
                            ));
                        }
                        Ok((kv, p.tokens))
                    },
                }
            },
        }
    }
}

} // verus!
