use vstd::prelude::*;

verus! {

/// The lexical shape of one atom of the wire format.
#[derive(Debug, Eq, PartialEq, Copy, Clone, Structural)]
pub enum LexKind {
    /// A double-quoted character run, quotes included.
    Str,
    /// An opening brace.
    Open,
    /// A closing brace.
    Close,
    /// A `//` comment running to the end of its line, newline excluded.
    LineComment,
    /// A `/* ... */` comment, delimiters included.
    BlockComment,
}

/// One atom of the input: its kind and the half-open interval
/// `[start, end)` of character offsets that it covers.
#[derive(Debug, Eq, PartialEq, Copy, Clone, Structural)]
pub struct Lexeme {
    pub kind: LexKind,
    pub start: usize,
    pub end: usize,
}

/// What scanning a document yields: the atoms up to the first lexical
/// fault, and the offset of that fault, if there is one. A fault is an
/// unterminated string or block comment, or a character that can begin
/// no atom; its offset is where the failed atom began.
pub ghost struct ScanOut {
    pub atoms: Seq<Lexeme>,
    pub fault: Option<usize>,
}

/// Characters that separate atoms without carrying content.
pub open spec fn is_space(c: char) -> bool {
    c == ' ' || c == '\t' || c == '\r' || c == '\n'
}

/// First offset at or after `from` that holds `c`, if any.
pub open spec fn find_char(s: Seq<char>, c: char, from: int) -> Option<int>
    decreases s.len() - from,
    when 0 <= from <= s.len()
{
    if from >= s.len() {
        None
    } else if s[from] == c {
        Some(from)
    } else {
        find_char(s, c, from + 1)
    }
}

pub proof fn lemma_find_char(s: Seq<char>, c: char, from: int)
    requires
        0 <= from <= s.len(),
    ensures
        match find_char(s, c, from) {
            Some(k) => from <= k < s.len() && s[k as int] == c && (forall|m: int|
                from <= m < k ==> s[m] != c),
            None => forall|m: int| from <= m < s.len() ==> s[m] != c,
        },
    decreases s.len() - from,
{
    if from < s.len() && s[from] != c {
        lemma_find_char(s, c, from + 1);
        assert(find_char(s, c, from) == find_char(s, c, from + 1));
        match find_char(s, c, from + 1) {
            Some(k) => {
                assert forall|m: int| from <= m < k implies s[m] != c by {
                    if m == from {
                    } else {
                        assert(from + 1 <= m < k);
                    }
                }
            },
            None => {
                assert forall|m: int| from <= m < s.len() implies s[m] != c by {
                    if m == from {
                    } else {
                        assert(from + 1 <= m < s.len());
                    }
                }
            },
        }
    }
}

/// First offset at or after `from` where `*/` stands, if any.
pub open spec fn find_close(s: Seq<char>, from: int) -> Option<int>
    decreases s.len() - from,
    when 0 <= from <= s.len()
{
    if from + 1 >= s.len() {
        None
    } else if s[from] == '*' && s[from + 1] == '/' {
        Some(from)
    } else {
        find_close(s, from + 1)
    }
}

pub proof fn lemma_find_close(s: Seq<char>, from: int)
    requires
        0 <= from <= s.len(),
    ensures
        match find_close(s, from) {
            Some(k) => from <= k && k + 1 < s.len() && s[k as int] == '*' && s[k + 1] == '/'
                && (forall|m: int| from <= m < k ==> !(#[trigger] s[m] == '*' && s[m + 1] == '/')),
            None => forall|m: int| from <= m && m + 1 < s.len() ==> !(#[trigger] s[m] == '*' && s[m
                + 1] == '/'),
        },
    decreases s.len() - from,
{
    if from + 1 < s.len() && !(s[from] == '*' && s[from + 1] == '/') {
        lemma_find_close(s, from + 1);
        assert(find_close(s, from) == find_close(s, from + 1));
        match find_close(s, from + 1) {
            Some(k) => {
                assert forall|m: int| from <= m < k implies !(#[trigger] s[m] == '*' && s[m + 1]
                    == '/') by {
                    if m == from {
                    } else {
                        assert(from + 1 <= m < k);
                    }
                }
            },
            None => {
                assert forall|m: int| from <= m && m + 1 < s.len() implies !(#[trigger] s[m] == '*'
                    && s[m + 1] == '/') by {
                    if m == from {
                    } else {
                        assert(from + 1 <= m && m + 1 < s.len());
                    }
                }
            },
        }
    }
}

/// Offset of the first non-whitespace character at or after `from`.
pub open spec fn skip_spaces(s: Seq<char>, from: int) -> int
    decreases s.len() - from,
    when 0 <= from <= s.len()
{
    if from < s.len() && is_space(s[from]) {
        skip_spaces(s, from + 1)
    } else {
        from
    }
}

pub proof fn lemma_skip_spaces(s: Seq<char>, from: int)
    requires
        0 <= from <= s.len(),
    ensures
        from <= skip_spaces(s, from) <= s.len(),
        skip_spaces(s, from) < s.len() ==> !is_space(s[skip_spaces(s, from)]),
        forall|m: int| from <= m < skip_spaces(s, from) ==> is_space(s[m]),
    decreases s.len() - from,
{
    if from < s.len() && is_space(s[from]) {
        lemma_skip_spaces(s, from + 1);
    }
}

pub open spec fn scan_cons(a: Lexeme, rest: ScanOut) -> ScanOut {
    ScanOut { atoms: seq![a] + rest.atoms, fault: rest.fault }
}

/// The atoms of `s` from offset `from` on: whitespace separates atoms,
/// a quote opens a string atom that runs to the next quote, braces are
/// atoms of their own, `//` opens a comment that runs to the end of the
/// line, and `/*` opens a comment that runs to the next `*/`.
#[verifier::opaque]
pub open spec fn scan_from(s: Seq<char>, from: int) -> ScanOut
    decreases s.len() - from,
    when 0 <= from <= s.len()
    via scan_from_decreases
{
    let j = skip_spaces(s, from);
    if j >= s.len() {
        ScanOut { atoms: seq![], fault: None }
    } else if s[j] == '"' {
        match find_char(s, '"', j + 1) {
            Some(q) => scan_cons(
                Lexeme { kind: LexKind::Str, start: j as usize, end: (q + 1) as usize },
                scan_from(s, q + 1),
            ),
            None => ScanOut { atoms: seq![], fault: Some(j as usize) },
        }
    } else if s[j] == '{' {
        scan_cons(
            Lexeme { kind: LexKind::Open, start: j as usize, end: (j + 1) as usize },
            scan_from(s, j + 1),
        )
    } else if s[j] == '}' {
        scan_cons(
            Lexeme { kind: LexKind::Close, start: j as usize, end: (j + 1) as usize },
            scan_from(s, j + 1),
        )
    } else if s[j] == '/' && j + 1 < s.len() && s[j + 1] == '/' {
        let e = match find_char(s, '\n', j + 2) {
            Some(n) => n,
            None => s.len() as int,
        };
        scan_cons(
            Lexeme { kind: LexKind::LineComment, start: j as usize, end: e as usize },
            scan_from(s, e),
        )
    } else if s[j] == '/' && j + 1 < s.len() && s[j + 1] == '*' {
        match find_close(s, j + 2) {
            Some(k) => scan_cons(
                Lexeme { kind: LexKind::BlockComment, start: j as usize, end: (k + 2) as usize },
                scan_from(s, k + 2),
            ),
            None => ScanOut { atoms: seq![], fault: Some(j as usize) },
        }
    } else {
        ScanOut { atoms: seq![], fault: Some(j as usize) }
    }
}

#[via_fn]
proof fn scan_from_decreases(s: Seq<char>, from: int) {
    lemma_skip_spaces(s, from);
    let j = skip_spaces(s, from);
    if j < s.len() {
        if s[j] == '"' {
            lemma_find_char(s, '"', j + 1);
        }
        if s[j] == '/' && j + 1 < s.len() && s[j + 1] == '/' {
            lemma_find_char(s, '\n', j + 2);
        }
        if s[j] == '/' && j + 1 < s.len() && s[j + 1] == '*' {
            lemma_find_close(s, j + 2);
        }
    }
}

/// Atom `i` of a scan sits inside the document, is nonempty, begins at
/// or after `from`, ends before the next atom begins, and a string atom
/// spans at least its two quotes.
pub proof fn lemma_scan_atom(s: Seq<char>, from: int, i: int)
    requires
        0 <= from <= s.len(),
        s.len() <= usize::MAX,
        0 <= i < scan_from(s, from).atoms.len(),
    ensures
        ({
            let a = scan_from(s, from).atoms[i];
            from <= a.start < a.end <= s.len() && (a.kind == LexKind::Str ==> a.end >= a.start + 2)
                && (i + 1 < scan_from(s, from).atoms.len() ==> a.end <= scan_from(
                s,
                from,
            ).atoms[i + 1].start)
        }),
    decreases s.len() - from,
{
    reveal_with_fuel(scan_from, 1);
    lemma_skip_spaces(s, from);
    let j = skip_spaces(s, from);
    if j < s.len() {
        if s[j] == '"' {
            lemma_find_char(s, '"', j + 1);
            if let Some(q) = find_char(s, '"', j + 1) {
                if i == 0 {
                    if 1 < scan_from(s, from).atoms.len() {
                        lemma_scan_atom(s, q + 1, 0);
                    }
                } else {
                    lemma_scan_atom(s, q + 1, i - 1);
                }
            }
        } else if s[j] == '{' || s[j] == '}' {
            if i == 0 {
                if 1 < scan_from(s, from).atoms.len() {
                    lemma_scan_atom(s, j + 1, 0);
                }
            } else {
                lemma_scan_atom(s, j + 1, i - 1);
            }
        } else if s[j] == '/' && j + 1 < s.len() && s[j + 1] == '/' {
            lemma_find_char(s, '\n', j + 2);
            let e = match find_char(s, '\n', j + 2) {
                Some(n) => n,
                None => s.len() as int,
            };
            if i == 0 {
                if 1 < scan_from(s, from).atoms.len() {
                    lemma_scan_atom(s, e, 0);
                }
            } else {
                lemma_scan_atom(s, e, i - 1);
            }
        } else if s[j] == '/' && j + 1 < s.len() && s[j + 1] == '*' {
            lemma_find_close(s, j + 2);
            if let Some(k) = find_close(s, j + 2) {
                if i == 0 {
                    if 1 < scan_from(s, from).atoms.len() {
                        lemma_scan_atom(s, k + 2, 0);
                    }
                } else {
                    lemma_scan_atom(s, k + 2, i - 1);
                }
            }
        }
    }
}

/// A fault offset sits inside the document, at or after `from`.
pub proof fn lemma_scan_fault(s: Seq<char>, from: int)
    requires
        0 <= from <= s.len(),
        s.len() <= usize::MAX,
    ensures
        match scan_from(s, from).fault {
            Some(p) => from <= p < s.len(),
            None => true,
        },
    decreases s.len() - from,
{
    reveal_with_fuel(scan_from, 1);
    lemma_skip_spaces(s, from);
    let j = skip_spaces(s, from);
    if j < s.len() {
        if s[j] == '"' {
            lemma_find_char(s, '"', j + 1);
            if let Some(q) = find_char(s, '"', j + 1) {
                lemma_scan_fault(s, q + 1);
            }
        } else if s[j] == '{' || s[j] == '}' {
            lemma_scan_fault(s, j + 1);
        } else if s[j] == '/' && j + 1 < s.len() && s[j + 1] == '/' {
            lemma_find_char(s, '\n', j + 2);
            let e = match find_char(s, '\n', j + 2) {
                Some(n) => n,
                None => s.len() as int,
            };
            lemma_scan_fault(s, e);
        } else if s[j] == '/' && j + 1 < s.len() && s[j + 1] == '*' {
            lemma_find_close(s, j + 2);
            if let Some(k) = find_close(s, j + 2) {
                lemma_scan_fault(s, k + 2);
            }
        }
    }
}

/// Decide whether `c` separates atoms.
fn space_char(c: char) -> (b: bool)
    ensures
        b == is_space(c),
{
    c == ' ' || c == '\t' || c == '\r' || c == '\n'
}

/// Scan a whole document into its atoms, stopping at the first lexical
/// fault.
#[verifier::rlimit(60)]
pub fn scan_document(doc: &Vec<char>) -> (r: (Vec<Lexeme>, Option<usize>))
    requires
        doc@.len() < u32::MAX,
    ensures
        r.0@ == scan_from(doc@, 0).atoms,
        r.1 == scan_from(doc@, 0).fault,
{
    let mut atoms: Vec<Lexeme> = Vec::new();
    let mut i: usize = 0;
    loop
        invariant
            i <= doc.len(),
            doc@.len() < u32::MAX,
            scan_from(doc@, 0).atoms == atoms@ + scan_from(doc@, i as int).atoms,
            scan_from(doc@, 0).fault == scan_from(doc@, i as int).fault,
        decreases doc@.len() - i,
    {
        let ghost i0 = i as int;
        let ghost acc = atoms@;
        proof {
            reveal_with_fuel(scan_from, 1);
        }
        // Skip whitespace between atoms.
        while i < doc.len() && space_char(doc[i])
            invariant
                0 <= i0 <= i <= doc.len(),
                skip_spaces(doc@, i0) == skip_spaces(doc@, i as int),
            decreases doc@.len() - i,
        {
            i = i + 1;
        }
        assert(i as int == skip_spaces(doc@, i0));
        if i == doc.len() {
            assert(scan_from(doc@, i0).atoms =~= seq![]);
            assert(atoms@ =~= acc + seq![]);
            return (atoms, None);
        }
        let c = doc[i];
        if c == '"' {
            let start = i;
            let mut j = i + 1;
            while j < doc.len() && doc[j] != '"'
                invariant
                    start + 1 <= j <= doc.len(),
                    doc@.len() < u32::MAX,
                    find_char(doc@, '"', start + 1) == find_char(doc@, '"', j as int),
                decreases doc@.len() - j,
            {
                j = j + 1;
            }
            if j == doc.len() {
                assert(find_char(doc@, '"', start + 1) is None);
                assert(scan_from(doc@, i0).atoms =~= seq![]);
                assert(atoms@ =~= acc + seq![]);
                return (atoms, Some(start));
            }
            assert(find_char(doc@, '"', start + 1) == Some(j as int));
            let lx = Lexeme { kind: LexKind::Str, start, end: j + 1 };
            atoms.push(lx);
            i = j + 1;
            proof {
                assert(scan_from(doc@, i0) == scan_cons(lx, scan_from(doc@, i as int)));
                assert(acc + (seq![lx] + scan_from(doc@, i as int).atoms) =~= atoms@ + scan_from(
                    doc@,
                    i as int,
                ).atoms);
            }
        } else if c == '{' {
            let lx = Lexeme { kind: LexKind::Open, start: i, end: i + 1 };
            atoms.push(lx);
            i = i + 1;
            proof {
                assert(scan_from(doc@, i0) == scan_cons(lx, scan_from(doc@, i as int)));
                assert(acc + (seq![lx] + scan_from(doc@, i as int).atoms) =~= atoms@ + scan_from(
                    doc@,
                    i as int,
                ).atoms);
            }
        } else if c == '}' {
            let lx = Lexeme { kind: LexKind::Close, start: i, end: i + 1 };
            atoms.push(lx);
            i = i + 1;
            proof {
                assert(scan_from(doc@, i0) == scan_cons(lx, scan_from(doc@, i as int)));
                assert(acc + (seq![lx] + scan_from(doc@, i as int).atoms) =~= atoms@ + scan_from(
                    doc@,
                    i as int,
                ).atoms);
            }
        } else if c == '/' && i + 1 < doc.len() && doc[i + 1] == '/' {
            let start = i;
            let mut j = i + 2;
            while j < doc.len() && doc[j] != '\n'
                invariant
                    start + 2 <= j <= doc.len(),
                    doc@.len() < u32::MAX,
                    find_char(doc@, '\n', start + 2) == find_char(doc@, '\n', j as int),
                decreases doc@.len() - j,
            {
                j = j + 1;
            }
            proof {
                if j < doc.len() {
                    assert(find_char(doc@, '\n', start + 2) == Some(j as int));
                } else {
                    assert(find_char(doc@, '\n', start + 2) is None);
                }
            }
            let lx = Lexeme { kind: LexKind::LineComment, start, end: j };
            atoms.push(lx);
            i = j;
            proof {
                assert(scan_from(doc@, i0) == scan_cons(lx, scan_from(doc@, i as int)));
                assert(acc + (seq![lx] + scan_from(doc@, i as int).atoms) =~= atoms@ + scan_from(
                    doc@,
                    i as int,
                ).atoms);
            }
        } else if c == '/' && i + 1 < doc.len() && doc[i + 1] == '*' {
            let start = i;
            let mut j = i + 2;
            while j + 1 < doc.len() && !(doc[j] == '*' && doc[j + 1] == '/')
                invariant
                    start + 2 <= j <= doc.len(),
                    doc@.len() < u32::MAX,
                    find_close(doc@, start + 2) == find_close(doc@, j as int),
                decreases doc@.len() - j,
            {
                j = j + 1;
            }
            if j + 1 >= doc.len() {
                assert(find_close(doc@, start + 2) is None);
                assert(scan_from(doc@, i0).atoms =~= seq![]);
                assert(atoms@ =~= acc + seq![]);
                return (atoms, Some(start));
            }
            assert(find_close(doc@, start + 2) == Some(j as int));
            let lx = Lexeme { kind: LexKind::BlockComment, start, end: j + 2 };
            atoms.push(lx);
            i = j + 2;
            proof {
                assert(scan_from(doc@, i0) == scan_cons(lx, scan_from(doc@, i as int)));
                assert(acc + (seq![lx] + scan_from(doc@, i as int).atoms) =~= atoms@ + scan_from(
                    doc@,
                    i as int,
                ).atoms);
            }
        } else {
            assert(scan_from(doc@, i0).atoms =~= seq![]);
            assert(atoms@ =~= acc + seq![]);
            return (atoms, Some(i));
        }
    }
}

} // verus!
