use vstd::prelude::*;

use crate::common::Position;
use crate::common::Range;
use crate::formatter::tokens::tok_view;
use crate::formatter::tokens::toks_view;
use crate::formatter::tokens::KvToken;
use crate::formatter::tokens::Tag;
use crate::formatter::tokens::TokSpec;
use crate::formatter::tokens::TokenKind;
use crate::formatter::FormatterConfig;
use vstd::string::StringExecFns;

verus! {

/// The emitter's working state: finished lines, the line being built,
/// and the current indent depth.
pub ghost struct EmitState {
    pub lines: Seq<Seq<char>>,
    pub cur: Seq<char>,
    pub depth: int,
}

pub open spec fn em_init() -> EmitState {
    EmitState { lines: seq![], cur: seq![], depth: 0 }
}

/// One unit of indentation: a tab, or the configured number of spaces.
pub open spec fn indent_unit(c: FormatterConfig) -> Seq<char> {
    if c.use_tabs {
        seq!['\t']
    } else {
        Seq::new(c.indent_size as nat, |i: int| ' ')
    }
}

/// The indent prefixed to a line at depth `d`.
pub open spec fn indent_of(c: FormatterConfig, d: int) -> Seq<char>
    decreases d,
{
    if d <= 0 {
        seq![]
    } else {
        indent_unit(c) + indent_of(c, d - 1)
    }
}

/// The gap written between two tokens that share a line.
pub open spec fn gap() -> Seq<char> {
    seq![' ', ' ']
}

/// Close the open line, if it holds anything: the line is indented and
/// added to the finished lines. A line that holds nothing is dropped,
/// so purely blank accumulations never produce stray empty lines.
pub open spec fn em_flush(st: EmitState, c: FormatterConfig) -> EmitState {
    if st.cur.len() == 0 {
        st
    } else {
        EmitState {
            lines: st.lines.push(indent_of(c, st.depth) + st.cur),
            cur: seq![],
            depth: st.depth,
        }
    }
}

pub open spec fn blank_lines(n: int) -> Seq<Seq<char>> {
    Seq::new(
        if n <= 0 {
            0
        } else {
            n as nat
        },
        |i: int| Seq::<char>::empty(),
    )
}

/// Lay `k` line breaks before what comes next: close the open line and
/// add one blank line for every break beyond the first.
pub open spec fn em_breaks(st: EmitState, c: FormatterConfig, k: int) -> EmitState {
    let f = em_flush(st, c);
    EmitState { lines: f.lines + blank_lines(k - 1), cur: f.cur, depth: f.depth }
}

/// Append text to the open line.
pub open spec fn em_put(st: EmitState, t: Seq<char>) -> EmitState {
    EmitState { lines: st.lines, cur: st.cur + t, depth: st.depth }
}

/// How many source lines the token starts below the previous token's
/// end; never negative. Measuring from the end, not the start, keeps
/// the layout a fixed point even when a token spans several lines.
pub open spec fn line_delta(prev: Option<TokSpec>, t: TokSpec) -> int {
    match prev {
        None => 0,
        Some(p) => if t.range.start.line >= p.range.end.line {
            t.range.start.line - p.range.end.line
        } else {
            0
        },
    }
}

/// The number of line breaks that keep `d` source lines of distance,
/// capped so that at most the configured number of empty lines stays.
pub open spec fn capped(c: FormatterConfig, d: int) -> int {
    if d <= c.max_empty_lines {
        d
    } else {
        c.max_empty_lines + 1
    }
}

/// At least one break: a token that must open a new line still keeps
/// capped blank lines above itself.
pub open spec fn at_least_one(k: int) -> int {
    if k < 1 {
        1
    } else {
        k
    }
}

pub open spec fn is_comment_tag(t: Tag) -> bool {
    t == Tag::LineComment || t == Tag::BlockComment
}

/// The spacing laid before one token: the same-line gap or the line
/// breaks, decided from the two kinds and the source line distance
/// alone.
pub open spec fn em_space(st: EmitState, c: FormatterConfig, prev: Option<TokSpec>, t: TokSpec)
    -> EmitState {
    let d = line_delta(prev, t);
    match t.tag {
        Tag::Key => {
            // A key always opens a new output line.
            match prev {
                None => st,
                Some(p) => em_breaks(st, c, at_least_one(capped(c, d))),
            }
        },
        Tag::Value => {
            match prev {
                None => st,
                Some(p) => match p.tag {
                    // A value follows its key at one indent unit.
                    Tag::Key => em_put(st, indent_unit(c)),
                    Tag::LineComment | Tag::BlockComment => if d == 0 {
                        em_put(st, gap())
                    } else {
                        em_breaks(st, c, capped(c, d))
                    },
                    _ => st,
                },
            }
        },
        Tag::LineComment | Tag::BlockComment => {
            match prev {
                None => st,
                Some(p) => match p.tag {
                    // A comment may share the line of the key before it.
                    Tag::Key => em_put(st, gap()),
                    // After a brace a comment always opens a new line.
                    Tag::LBrace | Tag::RBrace => em_breaks(st, c, at_least_one(capped(c, d))),
                    _ => if d == 0 {
                        em_put(st, gap())
                    } else {
                        em_breaks(st, c, capped(c, d))
                    },
                },
            }
        },
        Tag::LBrace | Tag::RBrace => {
            if prev matches Some(p) && is_comment_tag(p.tag) && d >= 1 {
                em_breaks(st, c, capped(c, d))
            } else {
                em_breaks(st, c, 1)
            }
        },
    }
}

/// Write one token onto the spaced state: its text, and the line and
/// depth bookkeeping its kind demands.
pub open spec fn em_write(st: EmitState, c: FormatterConfig, t: TokSpec) -> EmitState {
    match t.tag {
        // A line comment forces a break right after itself.
        Tag::LineComment => em_flush(em_put(st, t.text), c),
        Tag::LBrace => {
            let st2 = em_flush(em_put(st, seq!['{']), c);
            EmitState { lines: st2.lines, cur: st2.cur, depth: st2.depth + 1 }
        },
        Tag::RBrace => {
            let st2 = EmitState {
                lines: st.lines,
                cur: st.cur,
                depth: if st.depth <= 0 {
                    0
                } else {
                    st.depth - 1
                },
            };
            em_put(st2, seq!['}'])
        },
        _ => em_put(st, t.text),
    }
}

/// Lay one token after `prev`: the spacing, then the token itself.
pub open spec fn em_step(st: EmitState, c: FormatterConfig, prev: Option<TokSpec>, t: TokSpec)
    -> EmitState {
    em_write(em_space(st, c, prev, t), c, t)
}

pub open spec fn prev_of(toks: Seq<TokSpec>, i: int) -> Option<TokSpec> {
    if i <= 0 {
        None
    } else {
        Some(toks[i - 1])
    }
}

/// The emitter state after laying the first `i` tokens.
pub open spec fn em_run(toks: Seq<TokSpec>, c: FormatterConfig, i: int) -> EmitState
    decreases i,
{
    if i <= 0 {
        em_init()
    } else {
        em_step(em_run(toks, c, i - 1), c, prev_of(toks, i - 1), toks[i - 1])
    }
}

/// The first `i` finished lines joined by single line separators.
pub open spec fn join_upto(lines: Seq<Seq<char>>, i: int) -> Seq<char>
    decreases i,
{
    if i <= 0 {
        seq![]
    } else if i == 1 {
        lines[0]
    } else {
        join_upto(lines, i - 1) + seq!['\n'] + lines[i - 1]
    }
}

/// The formatted text of a token stream: every token laid in order, the
/// last line closed, the lines joined.
pub open spec fn spec_emit(toks: Seq<TokSpec>, c: FormatterConfig) -> Seq<char> {
    let fin = em_flush(em_run(toks, c, toks.len() as int), c);
    join_upto(fin.lines, fin.lines.len() as int)
}

/// The pretty printer: consumes a token stream in order and lays it out
/// again from indentation, spacing and blank-line policy driven by
/// token-kind adjacency and original line distance alone.
pub struct Emitter {
    /// The finished output lines.
    pub buffer: Vec<String>,
    pub config: FormatterConfig,
    pub indent: usize,
    pub current_line: String,
}

impl Emitter {
    /// The emitter's state, seen mathematically.
    pub open spec fn st(self) -> EmitState {
        EmitState {
            lines: Seq::new(self.buffer@.len(), |i: int| self.buffer@[i]@),
            cur: self.current_line@,
            depth: self.indent as int,
        }
    }

    pub fn new(config: FormatterConfig) -> (r: Emitter)
        ensures
            r.st() == em_init(),
            r.config == config,
    {
        let r = Emitter {
            buffer: Vec::new(),
            config,
            indent: 0,
            current_line: String::new(),
        };
        proof {
            assert(r.st().lines =~= Seq::<Seq<char>>::empty());
        }
        r
    }

    /// One unit of indentation, as text.
    pub fn indent_string(&self) -> (r: String)
        ensures
            r@ == indent_unit(self.config),
    {
        if self.config.use_tabs {
            let r = "\t".to_owned();
            proof {
                reveal_strlit("\t");
                assert(r@ =~= indent_unit(self.config));
            }
            r
        } else {
            let mut r = String::new();
            let mut i: u32 = 0;
            while i < self.config.indent_size
                invariant
                    i <= self.config.indent_size,
                    r@ == Seq::new(i as nat, |k: int| ' '),
                decreases self.config.indent_size - i,
            {
                r.append(" ");
                i = i + 1;
                proof {
                    reveal_strlit(" ");
                    assert(r@ =~= Seq::new(i as nat, |k: int| ' '));
                }
            }
            proof {
                assert(r@ =~= indent_unit(self.config));
            }
            r
        }
    }

    /// The indent for the current depth, as text.
    pub fn indent(&self) -> (r: String)
        ensures
            r@ == indent_of(self.config, self.indent as int),
    {
        let unit = self.indent_string();
        let mut r = String::new();
        let mut i: usize = 0;
        while i < self.indent
            invariant
                i <= self.indent,
                unit@ == indent_unit(self.config),
                r@ == indent_of(self.config, i as int),
            decreases self.indent - i,
        {
            r.append(unit.as_str());
            i = i + 1;
            proof {
                lemma_indent_append(self.config, i as int - 1);
            }
        }
        r
    }

    /// Append text to the open line.
    pub fn put(&mut self, t: &str)
        ensures
            final(self).st() == em_put(old(self).st(), t@),
            final(self).config == old(self).config,
            final(self).indent == old(self).indent,
    {
        self.current_line.append(t);
        proof {
            assert(final(self).st().lines =~= em_put(old(self).st(), t@).lines);
        }
    }

    /// Close the open line, if it holds anything.
    pub fn push_line(&mut self)
        ensures
            final(self).st() == em_flush(old(self).st(), old(self).config),
            final(self).config == old(self).config,
            final(self).indent == old(self).indent,
    {
        if self.current_line.as_str().is_empty() {
            return ;
        }
        let mut line = self.indent();
        line.append(self.current_line.as_str());
        self.buffer.push(line);
        self.current_line = String::new();
        proof {
            assert(final(self).st().lines =~= em_flush(old(self).st(), old(self).config).lines);
        }
    }

    /// Lay `k` line breaks: close the open line and add one blank line
    /// for every break beyond the first.
    pub fn break_lines(&mut self, k: u32)
        ensures
            final(self).st() == em_breaks(old(self).st(), old(self).config, k as int),
            final(self).config == old(self).config,
            final(self).indent == old(self).indent,
    {
        self.push_line();
        let ghost flushed = self.st();
        proof {
            assert(flushed.lines + blank_lines(0) =~= flushed.lines);
        }
        let mut n: u32 = 1;
        while n < k
            invariant
                1 <= n,
                k >= 1 ==> n <= k,
                k < 1 ==> n == 1,
                self.config == old(self).config,
                self.indent == old(self).indent,
                self.st() == (EmitState {
                    lines: flushed.lines + blank_lines(n as int - 1),
                    cur: flushed.cur,
                    depth: flushed.depth,
                }),
            decreases k - n,
        {
            let ghost before = self.st().lines;
            self.buffer.push(String::new());
            n = n + 1;
            proof {
                assert(self.st().lines =~= before.push(Seq::<char>::empty()));
                assert(before.push(Seq::<char>::empty()) =~= flushed.lines + blank_lines(
                    n as int - 1,
                ));
            }
        }
        proof {
            assert(blank_lines(k as int - 1) =~= blank_lines(n as int - 1));
            assert(self.st().lines =~= flushed.lines + blank_lines(k as int - 1));
            assert(em_breaks(old(self).st(), old(self).config, k as int).lines =~= self.st().lines);
        }
    }
}

/// Deepening an indent by one level appends one unit, at either end.
pub proof fn lemma_indent_append(c: FormatterConfig, d: int)
    requires
        d >= 0,
    ensures
        indent_of(c, d + 1) == indent_of(c, d) + indent_unit(c),
    decreases d,
{
    if d == 0 {
        assert(indent_of(c, 1) =~= indent_of(c, 0) + indent_unit(c));
    } else {
        lemma_indent_append(c, d - 1);
        assert(indent_unit(c) + (indent_of(c, d - 1) + indent_unit(c)) =~= (indent_unit(c)
            + indent_of(c, d - 1)) + indent_unit(c));
    }
}

/// The view of an optional preceding token.
pub open spec fn pview(p: Option<&TokenKind>) -> Option<TokSpec> {
    match p {
        None => None,
        Some(t) => Some(tok_view(*t)),
    }
}

/// The depth the emitter reaches after `i` tokens stays within `i`.
pub proof fn lemma_em_depth(toks: Seq<TokSpec>, c: FormatterConfig, i: int)
    requires
        0 <= i,
    ensures
        0 <= em_run(toks, c, i).depth <= i,
    decreases i,
{
    if i > 0 {
        lemma_em_depth(toks, c, i - 1);
    }
}

impl Emitter {
    /// The source line a token ends on.
    fn token_end_line(p: &TokenKind) -> (l: u32)
        ensures
            l == tok_view(*p).range.end.line,
    {
        match p {
            TokenKind::Key(t) => t.range.end.line,
            TokenKind::Value(t) => t.range.end.line,
            TokenKind::LineComment(t) => t.range.end.line,
            TokenKind::BlockComment(t) => t.range.end.line,
            TokenKind::LBrace(t) => t.range.end.line,
            TokenKind::RBrace(t) => t.range.end.line,
        }
    }

    /// How many source lines `line` sits below the previous token's
    /// end.
    fn delta_to(&self, p: &TokenKind, line: u32) -> (d: u32)
        ensures
            d as int == (if line >= tok_view(*p).range.end.line {
                line - tok_view(*p).range.end.line
            } else {
                0
            }),
    {
        let pl = Self::token_end_line(p);
        if line >= pl {
            line - pl
        } else {
            0
        }
    }

    /// Cap a line distance by the configured maximum of empty lines.
    fn cap(&self, d: u32) -> (r: u32)
        ensures
            r as int == capped(self.config, d as int),
    {
        if d <= self.config.max_empty_lines {
            d
        } else {
            self.config.max_empty_lines + 1
        }
    }

    /// Lay a key token: always on a new output line.
    pub fn emit_key(&mut self, token: &KvToken, prev: Option<&TokenKind>)
        ensures
            final(self).config == old(self).config,
            final(self).st() == em_step(
                old(self).st(),
                old(self).config,
                pview(prev),
                TokSpec { tag: Tag::Key, text: token.text@, range: token.range },
            ),
    {
        match prev {
            None => {},
            Some(p) => {
                let d = self.delta_to(p, token.range.start.line);
                let kcap = self.cap(d);
                let k1 = if kcap < 1 {
                    1
                } else {
                    kcap
                };
                self.break_lines(k1);
            },
        }
        self.put(token.text.as_str());
    }

    /// Lay a value token: on its key's line at one indent unit, or laid
    /// out against a preceding comment.
    pub fn emit_value(&mut self, token: &KvToken, prev: Option<&TokenKind>)
        ensures
            final(self).config == old(self).config,
            final(self).st() == em_step(
                old(self).st(),
                old(self).config,
                pview(prev),
                TokSpec { tag: Tag::Value, text: token.text@, range: token.range },
            ),
    {
        match prev {
            None => {},
            Some(p) => match p {
                TokenKind::Key(_) => {
                    let unit = self.indent_string();
                    self.put(unit.as_str());
                },
                TokenKind::LineComment(_) | TokenKind::BlockComment(_) => {
                    let d = self.delta_to(p, token.range.start.line);
                    if d == 0 {
                        self.put("  ");
                        proof {
                            reveal_strlit("  ");
                            assert("  "@ =~= gap());
                        }
                    } else {
                        let kcap = self.cap(d);
                        self.break_lines(kcap);
                    }
                },
                _ => {},
            },
        }
        self.put(token.text.as_str());
    }

    /// Lay out what stands before a comment token: the gap on a shared
    /// line, or the capped line breaks.
    fn comment_spacing(&mut self, token: &KvToken, prev: Option<&TokenKind>, Ghost(tv): Ghost<
        TokSpec,
    >)
        requires
            tv.text == token.text@,
            tv.range == token.range,
        ensures
            final(self).config == old(self).config,
            final(self).st() == (match pview(prev) {
                None => old(self).st(),
                Some(p) => match p.tag {
                    Tag::Key => em_put(old(self).st(), gap()),
                    Tag::LBrace | Tag::RBrace => em_breaks(
                        old(self).st(),
                        old(self).config,
                        at_least_one(capped(old(self).config, line_delta(pview(prev), tv))),
                    ),
                    _ => if line_delta(pview(prev), tv) == 0 {
                        em_put(old(self).st(), gap())
                    } else {
                        em_breaks(
                            old(self).st(),
                            old(self).config,
                            capped(old(self).config, line_delta(pview(prev), tv)),
                        )
                    },
                },
            }),
    {
        match prev {
            None => {},
            Some(p) => match p {
                TokenKind::Key(_) => {
                    self.put("  ");
                    proof {
                        reveal_strlit("  ");
                        assert("  "@ =~= gap());
                    }
                },
                TokenKind::LBrace(_) | TokenKind::RBrace(_) => {
                    let d = self.delta_to(p, token.range.start.line);
                    let kcap = self.cap(d);
                    let k1 = if kcap < 1 {
                        1
                    } else {
                        kcap
                    };
                    self.break_lines(k1);
                },
                _ => {
                    let d = self.delta_to(p, token.range.start.line);
                    if d == 0 {
                        self.put("  ");
                        proof {
                            reveal_strlit("  ");
                            assert("  "@ =~= gap());
                        }
                    } else {
                        let kcap = self.cap(d);
                        self.break_lines(kcap);
                    }
                },
            },
        }
    }

    /// Lay a line comment: it forces a break right after itself.
    pub fn emit_line_comment(&mut self, token: &KvToken, prev: Option<&TokenKind>)
        ensures
            final(self).config == old(self).config,
            final(self).st() == em_step(
                old(self).st(),
                old(self).config,
                pview(prev),
                TokSpec { tag: Tag::LineComment, text: token.text@, range: token.range },
            ),
    {
        let ghost tv = TokSpec { tag: Tag::LineComment, text: token.text@, range: token.range };
        self.comment_spacing(token, prev, Ghost(tv));
        self.put(token.text.as_str());
        self.push_line();
    }

    /// Lay a block comment: what follows may share its line.
    pub fn emit_block_comment(&mut self, token: &KvToken, prev: Option<&TokenKind>)
        ensures
            final(self).config == old(self).config,
            final(self).st() == em_step(
                old(self).st(),
                old(self).config,
                pview(prev),
                TokSpec { tag: Tag::BlockComment, text: token.text@, range: token.range },
            ),
    {
        let ghost tv = TokSpec { tag: Tag::BlockComment, text: token.text@, range: token.range };
        self.comment_spacing(token, prev, Ghost(tv));
        self.put(token.text.as_str());
    }

    /// Lay the break that stands before a brace.
    fn brace_spacing(&mut self, token: &KvToken, prev: Option<&TokenKind>, Ghost(tv): Ghost<
        TokSpec,
    >)
        requires
            tv.text == token.text@,
            tv.range == token.range,
        ensures
            final(self).config == old(self).config,
            final(self).st() == (if pview(prev) matches Some(p) && is_comment_tag(p.tag)
                && line_delta(pview(prev), tv) >= 1 {
                em_breaks(
                    old(self).st(),
                    old(self).config,
                    capped(old(self).config, line_delta(pview(prev), tv)),
                )
            } else {
                em_breaks(old(self).st(), old(self).config, 1)
            }),
    {
        match prev {
            Some(p) => match p {
                TokenKind::LineComment(_) | TokenKind::BlockComment(_) => {
                    let d = self.delta_to(p, token.range.start.line);
                    if d >= 1 {
                        let kcap = self.cap(d);
                        self.break_lines(kcap);
                    } else {
                        self.break_lines(1);
                    }
                },
                _ => {
                    self.break_lines(1);
                },
            },
            None => {
                self.break_lines(1);
            },
        }
    }

    /// Consume the token stream in order, laying every token out.
    pub fn emit(&mut self, tokens: &Vec<TokenKind>)
        requires
            old(self).st() == em_init(),
        ensures
            final(self).config == old(self).config,
            final(self).st() == em_flush(
                em_run(toks_view(tokens@), old(self).config, tokens@.len() as int),
                old(self).config,
            ),
    {
        let ghost toks = toks_view(tokens@);
        let n = tokens.len();
        let mut i: usize = 0;
        while i < n
            invariant
                i <= n,
                n == tokens@.len(),
                toks == toks_view(tokens@),
                self.config == old(self).config,
                self.st() == em_run(toks, self.config, i as int),
            decreases n - i,
        {
            let t = &tokens[i];
            let prev: Option<&TokenKind> = if i == 0 {
                None
            } else {
                Some(&tokens[i - 1])
            };
            proof {
                assert(pview(prev) == prev_of(toks, i as int));
                assert(tok_view(*t) == toks[i as int]);
                lemma_em_depth(toks, self.config, i as int);
            }
            match t {
                TokenKind::Key(tok) => {
                    self.emit_key(tok, prev);
                },
                TokenKind::Value(tok) => {
                    self.emit_value(tok, prev);
                },
                TokenKind::LineComment(tok) => {
                    self.emit_line_comment(tok, prev);
                },
                TokenKind::BlockComment(tok) => {
                    self.emit_block_comment(tok, prev);
                },
                TokenKind::LBrace(tok) => {
                    let ghost tv = toks[i as int];
                    self.brace_spacing(tok, prev, Ghost(tv));
                    self.put("{");
                    proof {
                        reveal_strlit("{");
                        assert("{"@ =~= seq!['{']);
                    }
                    self.push_line();
                    self.indent = self.indent + 1;
                },
                TokenKind::RBrace(tok) => {
                    let ghost tv = toks[i as int];
                    self.brace_spacing(tok, prev, Ghost(tv));
                    if self.indent > 0 {
                        self.indent = self.indent - 1;
                    }
                    self.put("}");
                    proof {
                        reveal_strlit("}");
                        assert("}"@ =~= seq!['}']);
                    }
                },
            }
            i = i + 1;
            proof {
                assert(self.st() == em_step(
                    em_run(toks, self.config, i as int - 1),
                    self.config,
                    prev_of(toks, i as int - 1),
                    toks[i as int - 1],
                ));
            }
        }
        self.push_line();
    }
}

/// The number of line breaks inside a piece of text.
pub open spec fn nl(s: Seq<char>) -> nat
    decreases s.len(),
{
    if s.len() == 0 {
        0
    } else {
        nl(s.drop_last()) + (if s.last() == '\n' {
            1nat
        } else {
            0nat
        })
    }
}

/// The line breaks inside a list of finished lines.
pub open spec fn lines_nl(lines: Seq<Seq<char>>) -> nat
    decreases lines.len(),
{
    if lines.len() == 0 {
        0
    } else {
        lines_nl(lines.drop_last()) + nl(lines.last())
    }
}

/// The textual line of the joined output on which the open line's next
/// character will stand: one separator per finished line, plus every
/// break inside the text written so far.
pub open spec fn insert_line(st: EmitState) -> int {
    st.lines.len() + lines_nl(st.lines) + nl(st.cur) as int
}

/// The line breaks a token's own written text spans: braces are written
/// as one character, everything else as its text.
pub open spec fn written_nl(t: TokSpec) -> nat {
    match t.tag {
        Tag::LBrace | Tag::RBrace => 0,
        _ => nl(t.text),
    }
}

/// Token `i` looks as the parser makes them: nonempty text, an end line
/// that sits exactly the text's own breaks below the start line, line
/// comments on one line, and nothing on the tail of a line comment's
/// line.
pub open spec fn tok_ok(toks: Seq<TokSpec>, i: int) -> bool {
    &&& toks[i].text.len() > 0
    &&& toks[i].range.end.line == toks[i].range.start.line + written_nl(toks[i])
    &&& (toks[i].tag == Tag::LineComment ==> nl(toks[i].text) == 0)
    &&& (toks[i].tag == Tag::LineComment && i + 1 < toks.len() ==> toks[i + 1].range.start.line
        > toks[i].range.end.line)
}

/// Every token of the list looks as the parser makes them.
pub open spec fn emit_ready(toks: Seq<TokSpec>) -> bool {
    forall|i: int| 0 <= i < toks.len() ==> #[trigger] tok_ok(toks, i)
}

/// The output line on which token `i`'s text begins.
pub open spec fn out_line(toks: Seq<TokSpec>, c: FormatterConfig, i: int) -> int {
    insert_line(em_space(em_run(toks, c, i), c, prev_of(toks, i), toks[i]))
}

/// The same tokens, laid at their own output lines: what a second pass
/// over the formatted text reads.
pub open spec fn relayout(toks: Seq<TokSpec>, c: FormatterConfig) -> Seq<TokSpec> {
    Seq::new(
        toks.len(),
        |i: int|
            TokSpec {
                tag: toks[i].tag,
                text: toks[i].text,
                range: Range {
                    start: Position { line: out_line(toks, c, i) as u32, character: 0 },
                    end: Position {
                        line: (out_line(toks, c, i) + written_nl(toks[i])) as u32,
                        character: 0,
                    },
                },
            },
    )
}

/// How the state after writing a token relates to that token's output
/// lines: a line comment or an opening brace closes its line, so the
/// next character stands one line under the token's end; everything
/// else keeps its last line open.
pub open spec fn after_tok(st: EmitState, t: TokSpec, ol: int) -> bool {
    if t.tag == Tag::LineComment || t.tag == Tag::LBrace {
        st.cur.len() == 0 && insert_line(st) == ol + written_nl(t) + 1
    } else {
        st.cur.len() > 0 && insert_line(st) == ol + written_nl(t)
    }
}

/// Text concatenation adds the breaks of both parts.
proof fn lemma_nl_concat(a: Seq<char>, b: Seq<char>)
    ensures
        nl(a + b) == nl(a) + nl(b),
    decreases b.len(),
{
    if b.len() == 0 {
        assert(a + b =~= a);
    } else {
        lemma_nl_concat(a, b.drop_last());
        assert((a + b).drop_last() =~= a + b.drop_last());
        assert((a + b).last() == b.last());
    }
}

/// Spaces and tabs hold no line break.
proof fn lemma_nl_blank(n: nat)
    ensures
        nl(Seq::new(n, |i: int| ' ')) == 0,
    decreases n,
{
    if n > 0 {
        lemma_nl_blank((n - 1) as nat);
        assert(Seq::new(n, |i: int| ' ').drop_last() =~= Seq::new((n - 1) as nat, |i: int| ' '));
    }
}

/// An indent holds no line break.
proof fn lemma_nl_indent(c: FormatterConfig, d: int)
    ensures
        nl(indent_of(c, d)) == 0,
    decreases d,
{
    assert(nl(Seq::<char>::empty()) == 0);
    if d > 0 {
        lemma_nl_indent(c, d - 1);
        if c.use_tabs {
            assert(seq!['\t'].drop_last() =~= Seq::<char>::empty());
        } else {
            lemma_nl_blank(c.indent_size as nat);
        }
        lemma_nl_concat(indent_unit(c), indent_of(c, d - 1));
    }
}

/// One more finished line adds one separator and its own breaks.
proof fn lemma_lines_nl_push(lines: Seq<Seq<char>>, l: Seq<char>)
    ensures
        lines_nl(lines.push(l)) == lines_nl(lines) + nl(l),
{
    assert(lines.push(l).drop_last() =~= lines);
    assert(lines.push(l).last() == l);
}

/// Closing the open line moves the insert point one line down, if the
/// line held anything.
proof fn lemma_flush_insert(st: EmitState, c: FormatterConfig)
    ensures
        em_flush(st, c).cur.len() == 0 || em_flush(st, c).cur == st.cur,
        insert_line(em_flush(st, c)) == insert_line(st) + (if st.cur.len() > 0 {
            1int
        } else {
            0int
        }),
{
    if st.cur.len() > 0 {
        lemma_nl_indent(c, st.depth);
        lemma_nl_concat(indent_of(c, st.depth), st.cur);
        lemma_lines_nl_push(st.lines, indent_of(c, st.depth) + st.cur);
    }
}

/// What laying `k` breaks does to the insert point.
proof fn lemma_breaks_shape(st: EmitState, c: FormatterConfig, k: int)
    requires
        k >= 1,
    ensures
        em_breaks(st, c, k).cur.len() == 0,
        insert_line(em_breaks(st, c, k)) == insert_line(st) + (if st.cur.len() > 0 {
            1int
        } else {
            0int
        }) + (k - 1),
        em_breaks(st, c, k).depth == em_flush(st, c).depth,
    decreases k,
{
    lemma_flush_insert(st, c);
    let f = em_flush(st, c);
    if k == 1 {
        assert(f.lines + blank_lines(0) =~= f.lines);
    } else {
        lemma_breaks_shape(st, c, k - 1);
        assert(f.lines + blank_lines(k - 1) =~= (f.lines + blank_lines(k - 2)).push(
            Seq::<char>::empty(),
        ));
        lemma_lines_nl_push(f.lines + blank_lines(k - 2), Seq::<char>::empty());
        assert(em_breaks(st, c, k - 1).lines =~= f.lines + blank_lines(k - 2));
    }
}

/// Appending text moves the insert point by the text's own breaks.
proof fn lemma_put_insert(st: EmitState, t: Seq<char>)
    ensures
        insert_line(em_put(st, t)) == insert_line(st) + nl(t),
{
    lemma_nl_concat(st.cur, t);
}

/// The single characters the emitter writes on its own hold no break.
proof fn lemma_nl_punct()
    ensures
        nl(seq!['{']) == 0,
        nl(seq!['}']) == 0,
        nl(gap()) == 0,
{
    assert(nl(Seq::<char>::empty()) == 0);
    assert(seq!['{'].drop_last() =~= Seq::<char>::empty());
    assert(seq!['{'].last() == '{');
    assert(nl(seq!['{']) == 0);
    assert(seq!['}'].drop_last() =~= Seq::<char>::empty());
    assert(seq!['}'].last() == '}');
    assert(nl(seq!['}']) == 0);
    assert(seq![' '].drop_last() =~= Seq::<char>::empty());
    assert(seq![' '].last() == ' ');
    assert(nl(seq![' ']) == 0);
    assert(gap().drop_last() =~= seq![' ']);
    assert(gap().last() == ' ');
    assert(nl(gap()) == 0);
}

/// One indent unit holds no line break.
proof fn lemma_nl_unit(c: FormatterConfig)
    ensures
        nl(indent_unit(c)) == 0,
{
    assert(nl(Seq::<char>::empty()) == 0);
    if c.use_tabs {
        assert(seq!['\t'].drop_last() =~= Seq::<char>::empty());
        assert(seq!['\t'].last() == '\t');
    } else {
        lemma_nl_blank(c.indent_size as nat);
    }
}

/// Blank lines between entries survive up to the cap, and are never
/// rounded down to nothing: a key standing `d` source lines under the
/// previous token's end, with `d >= 1`, is laid exactly
/// `min(d, maxEmptyLines + 1)` line breaks below it, that is with
/// `min(d, maxEmptyLines + 1) - 1` kept empty lines. Three blank
/// source lines under a one-kept-empty-line cap become one blank line.
pub proof fn lemma_blank_lines_capped(st: EmitState, c: FormatterConfig, p: TokSpec, t: TokSpec)
    requires
        t.tag == Tag::Key,
        line_delta(Some(p), t) >= 1,
    ensures
        ({
            let d = line_delta(Some(p), t);
            let k = if d <= c.max_empty_lines + 1 {
                d
            } else {
                c.max_empty_lines + 1
            };
            &&& k >= 1
            &&& em_space(st, c, Some(p), t) == em_breaks(st, c, k)
            &&& em_breaks(st, c, k).lines.len() == em_flush(st, c).lines.len() + (k - 1)
        }),
{
    let d = line_delta(Some(p), t);
    let k = if d <= c.max_empty_lines + 1 {
        d
    } else {
        c.max_empty_lines + 1
    };
    assert(at_least_one(capped(c, d)) == k);
}

/// After `i` identical steps the emitter stands in the same state on
/// the relaid tokens as on the originals, and that state sits right
/// under the last token's output lines.
#[verifier::rlimit(100)]
proof fn lemma_emit_stable_run(toks: Seq<TokSpec>, c: FormatterConfig, i: int)
    requires
        emit_ready(toks),
        forall|k: int|
            0 <= k < toks.len() ==> 0 <= #[trigger] out_line(toks, c, k) && out_line(toks, c, k)
                + written_nl(toks[k]) < u32::MAX,
        0 <= i <= toks.len(),
    ensures
        em_run(relayout(toks, c), c, i) == em_run(toks, c, i),
        i >= 1 ==> after_tok(em_run(toks, c, i), toks[i - 1], out_line(toks, c, i - 1)),
    decreases i,
{
    let r = relayout(toks, c);
    if i > 0 {
        lemma_emit_stable_run(toks, c, i - 1);
        let st = em_run(toks, c, i - 1);
        let t = toks[i - 1];
        let rt = r[i - 1];
        assert(tok_ok(toks, i - 1));
        assert(0 <= out_line(toks, c, i - 1) && out_line(toks, c, i - 1) + written_nl(t)
            < u32::MAX);
        let spaced = em_space(st, c, prev_of(toks, i - 1), t);
        let ol = out_line(toks, c, i - 1);
        assert(ol == insert_line(spaced));
        if i - 1 == 0 {
            // No predecessor: neither list lays any distance-driven
            // spacing.
            assert(em_space(st, c, prev_of(r, 0), rt) == spaced);
        } else {
            let p = toks[i - 2];
            let rp = r[i - 2];
            let ol2 = out_line(toks, c, i - 2);
            assert(tok_ok(toks, i - 2));
            assert(0 <= ol2 && ol2 + written_nl(p) < u32::MAX);
            assert(after_tok(st, p, ol2));
            let d = line_delta(prev_of(toks, i - 1), t);
            let dr = line_delta(prev_of(r, i - 1), rt);
            // In every branch that lays `k` breaks, the token lands `k`
            // lines below its predecessor's end; in every same-line
            // branch it stays on the predecessor's last line.
            match t.tag {
                Tag::Key => {
                    let k = at_least_one(capped(c, d));
                    lemma_breaks_shape(st, c, k);
                    assert(ol == ol2 + written_nl(p) + k);
                    assert(dr == k);
                    assert(at_least_one(capped(c, dr)) == k);
                },
                Tag::Value => {
                    match p.tag {
                        Tag::Key => {
                            lemma_put_insert(st, indent_unit(c));
                            lemma_nl_unit(c);
                            assert(ol == ol2 + written_nl(p));
                            assert(em_space(st, c, prev_of(r, i - 1), rt) == spaced);
                        },
                        Tag::LineComment => {
                            assert(d >= 1);
                            let k = capped(c, d);
                            lemma_breaks_shape(st, c, k);
                            assert(ol == ol2 + written_nl(p) + k);
                            assert(dr == k);
                            assert(capped(c, dr) == k);
                        },
                        Tag::BlockComment => {
                            if d == 0 {
                                lemma_put_insert(st, gap());
                                lemma_nl_punct();
                                assert(ol == ol2 + written_nl(p));
                                assert(dr == 0);
                            } else {
                                let k = capped(c, d);
                                lemma_breaks_shape(st, c, k);
                                assert(ol == ol2 + written_nl(p) + k);
                                assert(dr == k);
                                assert(capped(c, dr) == k);
                            }
                        },
                        _ => {
                            assert(em_space(st, c, prev_of(r, i - 1), rt) == spaced);
                        },
                    }
                },
                Tag::LineComment | Tag::BlockComment => {
                    match p.tag {
                        Tag::Key => {
                            lemma_put_insert(st, gap());
                            lemma_nl_punct();
                            assert(ol == ol2 + written_nl(p));
                            assert(em_space(st, c, prev_of(r, i - 1), rt) == spaced);
                        },
                        Tag::LBrace | Tag::RBrace => {
                            let k = at_least_one(capped(c, d));
                            lemma_breaks_shape(st, c, k);
                            assert(ol == ol2 + written_nl(p) + k);
                            assert(dr == k);
                            assert(at_least_one(capped(c, dr)) == k);
                        },
                        Tag::LineComment => {
                            assert(d >= 1);
                            let k = capped(c, d);
                            lemma_breaks_shape(st, c, k);
                            assert(ol == ol2 + written_nl(p) + k);
                            assert(dr == k);
                            assert(capped(c, dr) == k);
                        },
                        _ => {
                            if d == 0 {
                                lemma_put_insert(st, gap());
                                lemma_nl_punct();
                                assert(ol == ol2 + written_nl(p));
                                assert(dr == 0);
                            } else {
                                let k = capped(c, d);
                                lemma_breaks_shape(st, c, k);
                                assert(ol == ol2 + written_nl(p) + k);
                                assert(dr == k);
                                assert(capped(c, dr) == k);
                            }
                        },
                    }
                },
                Tag::LBrace | Tag::RBrace => {
                    if is_comment_tag(p.tag) && d >= 1 {
                        let k = capped(c, d);
                        lemma_breaks_shape(st, c, k);
                        assert(ol == ol2 + written_nl(p) + k);
                        assert(dr == k);
                        assert(capped(c, dr) == k);
                        assert(is_comment_tag(rp.tag) && dr >= 1);
                    } else {
                        lemma_breaks_shape(st, c, 1);
                        assert(ol == ol2 + written_nl(p) + 1);
                        assert(dr == 1);
                        if is_comment_tag(p.tag) {
                            assert(capped(c, dr) == 1);
                        }
                    }
                },
            }
            assert(em_space(st, c, prev_of(r, i - 1), rt) == spaced);
        }
        assert(em_run(r, c, i) == em_write(spaced, c, rt));
        assert(em_run(toks, c, i) == em_write(spaced, c, t));
        assert(em_write(spaced, c, rt) == em_write(spaced, c, t));
        // The written token leaves the insert point right under its own
        // lines.
        match t.tag {
            Tag::LineComment => {
                lemma_put_insert(spaced, t.text);
                lemma_flush_insert(em_put(spaced, t.text), c);
                assert(em_run(toks, c, i).cur.len() == 0);
                assert(insert_line(em_run(toks, c, i)) == ol + written_nl(t) + 1);
            },
            Tag::LBrace => {
                lemma_put_insert(spaced, seq!['{']);
                lemma_nl_punct();
                lemma_flush_insert(em_put(spaced, seq!['{']), c);
                assert(em_run(toks, c, i).cur.len() == 0);
                assert(insert_line(em_run(toks, c, i)) == ol + written_nl(t) + 1);
            },
            Tag::RBrace => {
                lemma_put_insert(
                    EmitState {
                        lines: spaced.lines,
                        cur: spaced.cur,
                        depth: if spaced.depth <= 0 {
                            0
                        } else {
                            spaced.depth - 1
                        },
                    },
                    seq!['}'],
                );
                lemma_nl_punct();
                assert(em_run(toks, c, i).cur.len() > 0);
                assert(insert_line(em_run(toks, c, i)) == ol + written_nl(t));
            },
            _ => {
                lemma_put_insert(spaced, t.text);
                assert(em_run(toks, c, i).cur.len() > 0);
                assert(insert_line(em_run(toks, c, i)) == ol + written_nl(t));
            },
        }
    } else {
        assert(em_run(r, c, 0) == em_run(toks, c, 0));
        assert(nl(Seq::<char>::empty()) == 0);
    }
}

/// The formatter's layout is idempotent: a token list laid at its own
/// output lines, which is what a second pass over the formatted text
/// reads, emits the very same text. This holds of every list shaped as
/// the parser produces them, tokens spanning several source lines
/// included: each spacing decision is measured from the previous
/// token's end line and so re-reads as itself.
pub proof fn lemma_emit_idempotent(toks: Seq<TokSpec>, c: FormatterConfig)
    requires
        emit_ready(toks),
        forall|k: int|
            0 <= k < toks.len() ==> 0 <= #[trigger] out_line(toks, c, k) && out_line(toks, c, k)
                + written_nl(toks[k]) < u32::MAX,
    ensures
        spec_emit(relayout(toks, c), c) == spec_emit(toks, c),
{
    lemma_emit_stable_run(toks, c, toks.len() as int);
}

} // verus!
