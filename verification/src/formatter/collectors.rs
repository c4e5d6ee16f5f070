use vstd::prelude::*;

use crate::common::Position;
use crate::common::Range;

verus! {

/// Number of line breaks strictly before offset `p`: the zero-based line
/// on which offset `p` sits.
pub open spec fn line_of(s: Seq<char>, p: int) -> int
    decreases p,
    when 0 <= p
{
    if p <= 0 {
        0
    } else if s[p - 1] == '\n' {
        line_of(s, p - 1) + 1
    } else {
        line_of(s, p - 1)
    }
}

/// Offset of the first character of the line holding offset `p`.
pub open spec fn line_start(s: Seq<char>, p: int) -> int
    decreases p,
    when 0 <= p
{
    if p <= 0 {
        0
    } else if s[p - 1] == '\n' {
        p
    } else {
        line_start(s, p - 1)
    }
}

/// The position of offset `p`, counted in lines and characters.
pub open spec fn pos_of(s: Seq<char>, p: int) -> Position {
    Position { line: line_of(s, p) as u32, character: (p - line_start(s, p)) as u32 }
}

/// The range covering offsets `[start, end)`.
pub open spec fn range_of(s: Seq<char>, start: int, end: int) -> Range {
    Range { start: pos_of(s, start), end: pos_of(s, end) }
}

pub proof fn lemma_line_bounds(s: Seq<char>, p: int)
    requires
        0 <= p,
    ensures
        0 <= line_of(s, p) <= p,
        0 <= line_start(s, p) <= p,
        line_start(s, line_start(s, p)) == line_start(s, p),
    decreases p,
{
    if p > 0 {
        lemma_line_bounds(s, p - 1);
    }
}

/// Between two offsets with no line break, line and line start do not
/// change.
pub proof fn lemma_line_constant(s: Seq<char>, p: int, q: int)
    requires
        0 <= p <= q,
        forall|m: int| p <= m < q ==> s[m] != '\n',
    ensures
        line_of(s, q) == line_of(s, p),
        line_start(s, q) == line_start(s, p),
    decreases q - p,
{
    if p < q {
        lemma_line_constant(s, p, q - 1);
    }
}

/// The offsets of the line breaks at or after `from`, in increasing
/// order.
pub open spec fn breaks_from(s: Seq<char>, from: int) -> Seq<usize>
    decreases s.len() - from,
    when 0 <= from <= s.len()
{
    if from >= s.len() {
        seq![]
    } else if s[from] == '\n' {
        seq![from as usize] + breaks_from(s, from + 1)
    } else {
        breaks_from(s, from + 1)
    }
}

/// How a break list starts: either there is no break at or after `from`,
/// or the list opens with the first one.
pub proof fn lemma_breaks_from_first(s: Seq<char>, from: int)
    requires
        0 <= from <= s.len(),
        s.len() <= usize::MAX,
    ensures
        breaks_from(s, from).len() == 0 ==> forall|m: int| from <= m < s.len() ==> s[m] != '\n',
        breaks_from(s, from).len() > 0 ==> {
            let b = breaks_from(s, from)[0] as int;
            from <= b < s.len() && s[b] == '\n' && (forall|m: int| from <= m < b ==> s[m] != '\n')
                && breaks_from(s, from) == seq![b as usize] + breaks_from(s, b + 1)
        },
    decreases s.len() - from,
{
    if from < s.len() && s[from] != '\n' {
        lemma_breaks_from_first(s, from + 1);
        assert(breaks_from(s, from) == breaks_from(s, from + 1));
        if breaks_from(s, from).len() > 0 {
            let b = breaks_from(s, from)[0] as int;
            assert forall|m: int| from <= m < b implies s[m] != '\n' by {
                if m != from {
                    assert(from + 1 <= m < b);
                }
            }
        }
    }
}

/// Maps spans of character offsets to line/character ranges by one
/// forward sweep over the precomputed line-break index: spans must
/// arrive in document order, and each break is then consumed once.
#[derive(Debug, Clone, PartialEq, Eq)]
pub struct RangeCollector {
    /// Offsets of the line breaks not yet consumed, in reverse order.
    pub line_breaks: Vec<usize>,
    pub line_nb: usize,
    pub first_col_line: usize,
}

impl RangeCollector {
    /// The collector's bookkeeping agrees with document `s`: the breaks
    /// up to the current line start are consumed and counted, the rest
    /// wait in reverse order.
    pub open spec fn wf(self, s: Seq<char>) -> bool {
        &&& self.first_col_line <= s.len()
        &&& self.line_nb == line_of(s, self.first_col_line as int)
        &&& self.first_col_line as int == line_start(s, self.first_col_line as int)
        &&& self.line_breaks@ == breaks_from(s, self.first_col_line as int).reverse()
    }

    pub fn new() -> (r: RangeCollector)
        ensures
            r.line_breaks@.len() == 0,
            r.line_nb == 0,
            r.first_col_line == 0,
    {
        RangeCollector { line_breaks: Vec::new(), line_nb: 0, first_col_line: 0 }
    }

    /// Record every line break of the document, in reverse order, so
    /// that later sweeps can consume them from the back.
    pub fn collect_linebreaks(&mut self, doc: &Vec<char>)
        requires
            old(self).line_breaks@.len() == 0,
            old(self).line_nb == 0,
            old(self).first_col_line == 0,
            doc@.len() < u32::MAX,
        ensures
            final(self).wf(doc@),
            final(self).line_nb == 0,
            final(self).first_col_line == 0,
    {
        let mut fwd: Vec<usize> = Vec::new();
        let mut i: usize = 0;
        while i < doc.len()
            invariant
                i <= doc.len(),
                doc@.len() < u32::MAX,
                breaks_from(doc@, 0) == fwd@ + breaks_from(doc@, i as int),
            decreases doc@.len() - i,
        {
            let ghost acc = fwd@;
            if doc[i] == '\n' {
                fwd.push(i);
                proof {
                    assert(breaks_from(doc@, i as int) == seq![i as usize] + breaks_from(
                        doc@,
                        i as int + 1,
                    ));
                    assert(acc + (seq![i as usize] + breaks_from(doc@, i as int + 1)) =~= fwd@
                        + breaks_from(doc@, i as int + 1));
                }
            }
            i = i + 1;
        }
        assert(breaks_from(doc@, 0) =~= fwd@ + seq![]);
        assert(fwd@ == breaks_from(doc@, 0));
        // Reverse into the consumption order.
        let mut k = fwd.len();
        while k > 0
            invariant
                k <= fwd.len(),
                fwd@ == breaks_from(doc@, 0),
                self.line_nb == 0,
                self.first_col_line == 0,
                self.line_breaks@ == fwd@.subrange(k as int, fwd@.len() as int).reverse(),
            decreases k,
    {
            k = k - 1;
            self.line_breaks.push(fwd[k]);
            proof {
                assert(self.line_breaks@ =~= fwd@.subrange(k as int, fwd@.len() as int).reverse());
            }
        }
        assert(self.line_breaks@ =~= breaks_from(doc@, 0).reverse());
        proof {
            lemma_line_bounds(doc@, 0);
        }
    }

    /// Map the span `[start, end)` to its line/character range. Spans
    /// must be handed over in document order: `start` may not sit
    /// before the line the previous call ended on.
    #[verifier::rlimit(60)]
    pub fn span_to_range(&mut self, start: usize, end: usize, Ghost(s): Ghost<Seq<char>>) -> (r:
        Range)
        requires
            old(self).wf(s),
            old(self).first_col_line <= start,
            start <= end <= s.len(),
            s.len() < u32::MAX,
        ensures
            final(self).wf(s),
            final(self).first_col_line as int == line_start(s, end as int),
            final(self).first_col_line <= end,
            r == range_of(s, start as int, end as int),
    {
        let mut line_nb = self.line_nb;
        let mut first_col_line = self.first_col_line;
        proof {
            lemma_line_bounds(s, end as int);
            lemma_line_bounds(s, self.first_col_line as int);
        }
        loop
            invariant
                self.wf(s),
                line_nb == line_of(s, first_col_line as int),
                first_col_line as int == line_start(s, first_col_line as int),
                first_col_line <= start,
                first_col_line <= self.first_col_line,
                line_nb <= first_col_line,
                self.line_nb <= self.first_col_line,
                self.first_col_line <= end,
                start <= end <= s.len(),
                s.len() < u32::MAX,
                forall|m: int|
                    first_col_line <= m < start && m < self.first_col_line ==> s[m] != '\n',
            ensures
                self.wf(s),
                line_nb == line_of(s, first_col_line as int),
                first_col_line as int == line_start(s, first_col_line as int),
                first_col_line <= start,
                self.first_col_line <= end,
                forall|m: int|
                    first_col_line <= m < start && m < self.first_col_line ==> s[m] != '\n',
                self.line_breaks@.len() > 0 ==> breaks_from(s, self.first_col_line as int)[0]
                    >= end,
            decreases self.line_breaks@.len(),
        {
            proof {
                lemma_breaks_from_first(s, self.first_col_line as int);
            }
            let n = self.line_breaks.len();
            if n == 0 {
                break;
            }
            let b = self.line_breaks[n - 1];
            assert(b == breaks_from(s, self.first_col_line as int)[0]);
            if b >= end {
                break;
            }
            let ghost old_fcl = self.first_col_line as int;
            let ghost old_local = first_col_line as int;
            if b < start {
                // Up to this break, which sits before the span, no
                // offset past the local line start holds a line break.
                proof {
                    assert forall|m: int| old_local <= m < b implies s[m] != '\n' by {
                        if m >= old_fcl {
                            assert(old_fcl <= m < b);
                        } else {
                            assert(old_local <= m < start && m < old_fcl);
                        }
                    }
                    lemma_line_constant(s, old_local, b as int);
                    lemma_line_bounds(s, old_local);
                }
                first_col_line = b + 1;
                line_nb = line_nb + 1;
            }
            self.first_col_line = b + 1;
            self.line_nb = self.line_nb + 1;
            self.line_breaks.pop();
            proof {
                lemma_line_constant(s, old_fcl, b as int);
                assert(line_of(s, b as int + 1) == line_of(s, b as int) + 1);
                assert(breaks_from(s, old_fcl) == seq![b] + breaks_from(s, b as int + 1));
                assert(self.line_breaks@ =~= breaks_from(s, b as int + 1).reverse());
                assert forall|m: int|
                    first_col_line <= m < start && m < self.first_col_line implies s[m] != '\n' by {
                    if b >= start {
                        assert(m < start <= b);
                        assert(old_local <= m < b);
                    }
                }
            }
        }
        proof {
            // No line break remains between either bookkeeping line start
            // and the offset it serves, so both positions follow from
            // walking break-free text.
            lemma_breaks_from_first(s, self.first_col_line as int);
            assert forall|m: int| self.first_col_line <= m < end implies s[m] != '\n' by {
                if self.line_breaks@.len() > 0 {
                    let b = breaks_from(s, self.first_col_line as int)[0] as int;
                    assert(m < end <= b);
                }
            }
            lemma_line_constant(s, self.first_col_line as int, end as int);
            assert forall|m: int| first_col_line <= m < start implies s[m] != '\n' by {
                if m >= self.first_col_line {
                    assert(self.first_col_line <= m < end);
                }
            }
            lemma_line_constant(s, first_col_line as int, start as int);
            lemma_line_bounds(s, start as int);
        }
        Range {
            start: Position { line: line_nb as u32, character: (start - first_col_line) as u32 },
            end: Position {
                line: self.line_nb as u32,
                character: (end - self.first_col_line) as u32,
            },
        }
    }
}

} // verus!
