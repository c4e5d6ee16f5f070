use vstd::prelude::*;

use crate::common::Position;
use crate::common::Range;
use crate::formatter::collectors::lemma_line_bounds;
use crate::formatter::collectors::line_of;
use crate::formatter::collectors::line_start;
use crate::lexer::lemma_scan_atom;
use crate::lexer::lemma_scan_fault;
use crate::lexer::scan_from;
use crate::parser::parse_entries_at;
use crate::parser::parse_value_at;
use crate::parser::spec_parse;
use crate::parser::skip_comments;
use crate::parser::lemma_skip_comments;
use crate::parser::Expectation;
use crate::parser::ParseError;
use crate::serializer::kv_view;
use crate::serializer::kvs_view;
use crate::serializer::lemma_kvs_view;
use crate::serializer::serialize_keyvalue;
use crate::serializer::KeyValue;
use crate::serializer::SpecKeyValue;
use crate::serializer::SpecValue;
use crate::serializer::Value;
use vstd::string::StrSliceExecFns;
use vstd::string::StringExecFns;

verus! {

broadcast use vstd::seq::axiom_seq_index_decreases, vstd::seq::axiom_seq_subrange_decreases,
    vstd::std_specs::vec::axiom_vec_decreases_to_view;

/// The two kinds of diagnostics the linter reports.
#[derive(Default, Debug, Clone, Copy, PartialEq, Eq, Structural)]
pub enum KvErrorKind {
    #[default]
    SyntaxError,
    DuplicateError,
}

/// One linter diagnostic.
#[derive(Default, Debug, Clone, PartialEq, Eq)]
pub struct KvError {
    /// Range of the error.
    pub range: Range,
    /// Ranges that are related to the error: for a duplicate key, the
    /// range of the first declaration.
    pub additional_ranges: Vec<Range>,
    /// Error message of the error.
    pub message: String,
    /// Kind of the error.
    pub kind: KvErrorKind,
}

/// The mathematical content of one diagnostic.
pub ghost struct SpecDiag {
    pub range: Range,
    pub additional: Seq<Range>,
    pub message: Seq<char>,
    pub kind: KvErrorKind,
}

pub open spec fn diag_view(e: KvError) -> SpecDiag {
    SpecDiag {
        range: e.range,
        additional: e.additional_ranges@,
        message: e.message@,
        kind: e.kind,
    }
}

pub open spec fn diags_view(es: Seq<KvError>) -> Seq<SpecDiag> {
    Seq::new(es.len(), |i: int| diag_view(es[i]))
}

/// Does entry `j` of a scope repeat the key of an earlier sibling?
pub open spec fn is_repeat(es: Seq<SpecKeyValue>, j: int) -> bool {
    exists|i: int| 0 <= i < j && es[i].key == es[j].key
}

/// The first index at or after `lo` carrying `key`, or the length.
pub open spec fn first_ix(es: Seq<SpecKeyValue>, key: Seq<char>, lo: int) -> int
    decreases es.len() - lo,
    when 0 <= lo <= es.len()
{
    if lo >= es.len() {
        lo
    } else if es[lo].key == key {
        lo
    } else {
        first_ix(es, key, lo + 1)
    }
}

/// The message naming a duplicated key.
pub open spec fn dup_message(key: Seq<char>) -> Seq<char> {
    "Duplicate entry for key \""@ + key + "\""@
}

/// The diagnostic for repeat entry `j`: its own key range first, the
/// first declaration's range as the related one.
pub open spec fn dup_diag(es: Seq<SpecKeyValue>, j: int) -> SpecDiag {
    SpecDiag {
        range: es[j].key_range,
        additional: seq![es[first_ix(es, es[j].key, 0)].key_range],
        message: dup_message(es[j].key),
        kind: KvErrorKind::DuplicateError,
    }
}

/// The duplicate diagnostics of one scope, for the entries before `j`,
/// one per repeated declaration, in declaration order.
pub open spec fn scope_diags(es: Seq<SpecKeyValue>, j: int) -> Seq<SpecDiag>
    decreases j,
{
    if j <= 0 {
        seq![]
    } else {
        scope_diags(es, j - 1) + (if is_repeat(es, j - 1) {
            seq![dup_diag(es, j - 1)]
        } else {
            seq![]
        })
    }
}

/// The diagnostics of the sections held by the entries before `j`, in
/// declaration order.
pub open spec fn child_diags(es: Seq<SpecKeyValue>, j: int) -> Seq<SpecDiag>
    decreases es, j,
    when 0 <= j <= es.len()
    via child_diags_decreases
{
    if j <= 0 {
        seq![]
    } else {
        child_diags(es, j - 1) + (match es[j - 1].value {
            SpecValue::Section(cs) => scan_entries(cs),
            SpecValue::String(_) => seq![],
        })
    }
}

#[via_fn]
proof fn child_diags_decreases(es: Seq<SpecKeyValue>, j: int) {
    if j > 0 {
        match es[j - 1].value {
            SpecValue::Section(cs) => {
                assert(decreases_to!(es => es[j - 1]));
                assert(decreases_to!(es[j - 1] => es[j - 1].value));
                assert(decreases_to!(es[j - 1].value => es[j - 1].value->Section_0));
            },
            SpecValue::String(_) => {},
        }
    }
}

/// All duplicate diagnostics of a scope: the scope's own repeats first,
/// then, entry by entry, those of the sections below. Sibling sets at
/// different scopes are independent key namespaces, and a section's own
/// key counts among its siblings like any other.
pub open spec fn scan_entries(es: Seq<SpecKeyValue>) -> Seq<SpecDiag>
    decreases es, es.len() + 1,
{
    scope_diags(es, es.len() as int) + child_diags(es, es.len() as int)
}

/// The duplicate diagnostics of a document: the root entry has no
/// siblings and is never checked itself.
pub open spec fn spec_scan(root: SpecKeyValue) -> Seq<SpecDiag> {
    match root.value {
        SpecValue::Section(es) => scan_entries(es),
        SpecValue::String(_) => seq![],
    }
}

/// The expectation text of a syntax failure.
pub open spec fn expect_msg(x: Expectation) -> Seq<char> {
    match x {
        Expectation::RootKey => "expected COMMENT or string"@,
        Expectation::EntryValue => "expected COMMENT, l_brace, or string"@,
        Expectation::SectionEntry => "expected COMMENT, r_brace, or string"@,
        Expectation::DocumentEnd => "expected COMMENT or EOI"@,
    }
}

/// The diagnostic made of a parse failure: the reported position stands
/// at both ends of the range, counted one-based.
pub open spec fn syntax_diag(s: Seq<char>, e: ParseError) -> SpecDiag {
    let p = Position {
        line: (line_of(s, e.offset as int) + 1) as u32,
        character: (e.offset - line_start(s, e.offset as int) + 1) as u32,
    };
    SpecDiag {
        range: Range { start: p, end: p },
        additional: seq![],
        message: expect_msg(e.expected),
        kind: KvErrorKind::SyntaxError,
    }
}

/// What linting a document yields: its duplicate-key diagnostics, or
/// exactly the one syntax failure.
pub open spec fn spec_lint(s: Seq<char>) -> Seq<SpecDiag> {
    match spec_parse(s) {
        Err(e) => seq![syntax_diag(s, e)],
        Ok(po) => spec_scan(po.kv),
    }
}

/// A document that does not parse gets exactly one diagnostic: the
/// syntax failure, and never a duplicate-key report.
pub proof fn lemma_lint_invalid(s: Seq<char>)
    requires
        spec_parse(s) matches Err(e),
    ensures
        spec_lint(s).len() == 1,
        spec_lint(s)[0].kind == KvErrorKind::SyntaxError,
{
}

/// A document that parses gets no syntax diagnostic: every report is a
/// duplicate-key one.
pub proof fn lemma_lint_valid(s: Seq<char>)
    requires
        spec_parse(s) matches Ok(po),
    ensures
        forall|i: int| 0 <= i < spec_lint(s).len() ==> (#[trigger] spec_lint(s)[i]).kind
            == KvErrorKind::DuplicateError,
{
    if let Ok(po) = spec_parse(s) {
        match po.kv.value {
            SpecValue::Section(es) => {
                lemma_scan_kinds(es);
            },
            SpecValue::String(_) => {},
        }
    }
}

/// Every diagnostic the scanner emits reports a duplicate key.
proof fn lemma_scan_kinds(es: Seq<SpecKeyValue>)
    ensures
        forall|i: int| 0 <= i < scan_entries(es).len() ==> (#[trigger] scan_entries(es)[i]).kind
            == KvErrorKind::DuplicateError,
    decreases es, es.len() + 2,
{
    lemma_scope_kinds(es, es.len() as int);
    lemma_child_kinds(es, es.len() as int);
}

proof fn lemma_scope_kinds(es: Seq<SpecKeyValue>, j: int)
    ensures
        forall|i: int| 0 <= i < scope_diags(es, j).len() ==> (#[trigger] scope_diags(es, j)[i]).kind
            == KvErrorKind::DuplicateError,
    decreases j,
{
    if j > 0 {
        lemma_scope_kinds(es, j - 1);
    }
}

proof fn lemma_child_kinds(es: Seq<SpecKeyValue>, j: int)
    requires
        0 <= j <= es.len(),
    ensures
        forall|i: int| 0 <= i < child_diags(es, j).len() ==> (#[trigger] child_diags(es, j)[i]).kind
            == KvErrorKind::DuplicateError,
    decreases es, j,
{
    if j > 0 {
        lemma_child_kinds(es, j - 1);
        match es[j - 1].value {
            SpecValue::Section(cs) => {
                lemma_scan_kinds(cs);
            },
            SpecValue::String(_) => {},
        }
    }
}

/// Every offset that a failed parse reports sits inside the document,
/// and every successful parse moves forward and stays inside the atom
/// list.
proof fn lemma_value_err_bound(
    s: Seq<char>,
    atoms: Seq<crate::lexer::Lexeme>,
    flt: Option<usize>,
    i: int,
    fuel: nat,
)
    requires
        s.len() <= usize::MAX,
        atoms == scan_from(s, 0).atoms,
        flt == scan_from(s, 0).fault,
        0 <= i <= atoms.len(),
    ensures
        parse_value_at(s, atoms, flt, i, fuel) matches Err(e) ==> e.offset <= s.len(),
        parse_value_at(s, atoms, flt, i, fuel) matches Ok(vo) ==> i < vo.next <= atoms.len(),
        parse_entries_at(s, atoms, flt, i, fuel) matches Err(e) ==> e.offset <= s.len(),
        parse_entries_at(s, atoms, flt, i, fuel) matches Ok(eo) ==> i < eo.next <= atoms.len(),
    decreases fuel,
{
    reveal_with_fuel(parse_value_at, 1);
    reveal_with_fuel(parse_entries_at, 1);
    if fuel > 0 {
        lemma_skip_comments(atoms, i);
        let j = skip_comments(atoms, i);
        if j >= atoms.len() {
            lemma_scan_fault(s, 0);
        } else {
            lemma_scan_atom(s, 0, j);
            if atoms[j].kind == crate::lexer::LexKind::Str {
                lemma_value_err_bound(s, atoms, flt, j + 1, (fuel - 1) as nat);
                if let Ok(vo) = parse_value_at(s, atoms, flt, j + 1, (fuel - 1) as nat) {
                    lemma_value_err_bound(s, atoms, flt, vo.next, (fuel - 1) as nat);
                }
            }
            if atoms[j].kind == crate::lexer::LexKind::Open {
                lemma_value_err_bound(s, atoms, flt, j + 1, (fuel - 1) as nat);
            }
        }
    }
}

/// Whatever failure `spec_parse` reports, its offset sits inside the
/// document.
pub proof fn lemma_parse_err_bound(s: Seq<char>)
    requires
        s.len() <= usize::MAX,
    ensures
        spec_parse(s) matches Err(e) ==> e.offset <= s.len(),
{
    let atoms = scan_from(s, 0).atoms;
    let flt = scan_from(s, 0).fault;
    lemma_skip_comments(atoms, 0);
    let j = skip_comments(atoms, 0);
    lemma_scan_fault(s, 0);
    if j < atoms.len() {
        lemma_scan_atom(s, 0, j);
        if atoms[j].kind == crate::lexer::LexKind::Str {
            let f0 = (atoms.len() + 1) as nat;
            lemma_value_err_bound(s, atoms, flt, j + 1, f0);
            if let Ok(vo) = parse_value_at(s, atoms, flt, j + 1, f0) {
                lemma_skip_comments(atoms, vo.next);
                let e2 = skip_comments(atoms, vo.next);
                if e2 < atoms.len() {
                    lemma_scan_atom(s, 0, e2);
                }
            }
        }
    }
}

/// One repeated declaration: the key, the first declaration's range,
/// and the repeat's own range.
struct Duplicate {
    key: String,
    original_declaration: Range,
    duplicate_declaration: Range,
}

impl Duplicate {
    /// Record that `repeat` declares the same key as `first` again.
    fn new(first: &KeyValue, repeat: &KeyValue) -> (d: Duplicate)
        ensures
            d.key@ == repeat.key@,
            d.original_declaration == first.key_range,
            d.duplicate_declaration == repeat.key_range,
    {
        Duplicate {
            key: repeat.key.clone(),
            original_declaration: first.key_range,
            duplicate_declaration: repeat.key_range,
        }
    }
}

/// The diagnostic a recorded repeat stands for.
spec fn dup_view(d: Duplicate) -> SpecDiag {
    SpecDiag {
        range: d.duplicate_declaration,
        additional: seq![d.original_declaration],
        message: dup_message(d.key@),
        kind: KvErrorKind::DuplicateError,
    }
}

/// The diagnostics of the repeats that `cur` records past `base`.
spec fn dups_suffix(base: Seq<Duplicate>, cur: Seq<Duplicate>) -> Seq<SpecDiag> {
    Seq::new((cur.len() - base.len()) as nat, |i: int| dup_view(cur[base.len() + i]))
}

proof fn lemma_dups_chain(a: Seq<Duplicate>, b: Seq<Duplicate>, c: Seq<Duplicate>)
    requires
        a.len() <= b.len() <= c.len(),
        b.subrange(0, a.len() as int) == a,
        c.subrange(0, b.len() as int) == b,
    ensures
        c.subrange(0, a.len() as int) == a,
        dups_suffix(a, c) == dups_suffix(a, b) + dups_suffix(b, c),
{
    assert forall|k: int| 0 <= k < b.len() implies c[k] == b[k] by {
        assert(c.subrange(0, b.len() as int)[k] == c[k]);
    }
    assert forall|k: int| 0 <= k < a.len() implies b[k] == a[k] by {
        assert(b.subrange(0, a.len() as int)[k] == b[k]);
    }
    assert(c.subrange(0, a.len() as int) =~= a);
    assert(dups_suffix(a, c) =~= dups_suffix(a, b) + dups_suffix(b, c));
}

proof fn lemma_first_ix_at(es: Seq<SpecKeyValue>, key: Seq<char>, lo: int, i: int)
    requires
        0 <= lo <= i < es.len(),
        es[i].key == key,
        forall|m: int| lo <= m < i ==> es[m].key != key,
    ensures
        first_ix(es, key, lo) == i,
    decreases i - lo,
{
    if lo < i {
        lemma_first_ix_at(es, key, lo + 1, i);
    }
}

/// Group sibling entries by key within this scope only, recording one
/// repeat per repeated declaration, then walk into every section-valued
/// entry, whether or not its own key was flagged.
#[verifier::rlimit(100)]
fn search_for_duplicates(dups: &mut Vec<Duplicate>, keyvalues: &Vec<KeyValue>)
    ensures
        final(dups)@.len() >= old(dups)@.len(),
        final(dups)@.subrange(0, old(dups)@.len() as int) == old(dups)@,
        dups_suffix(old(dups)@, final(dups)@) == scan_entries(kvs_view(keyvalues@)),
    decreases keyvalues,
{
    let ghost es = kvs_view(keyvalues@);
    let ghost base = dups@;
    proof {
        lemma_kvs_view(keyvalues@);
        assert(dups_suffix(base, dups@) =~= scope_diags(es, 0));
    }
    let n = keyvalues.len();
    let mut j: usize = 0;
    while j < n
        invariant
            j <= n,
            n == keyvalues@.len(),
            es == kvs_view(keyvalues@),
            es.len() == n,
            forall|m: int| 0 <= m < n ==> es[m] == kv_view(keyvalues@[m]),
            dups@.len() >= base.len(),
            dups@.subrange(0, base.len() as int) == base,
            dups_suffix(base, dups@) == scope_diags(es, j as int),
        decreases n - j,
    {
        let mut i: usize = 0;
        let mut found: Option<usize> = None;
        while i < j && found.is_none()
            invariant
                i <= j < n,
                n == keyvalues@.len(),
                es == kvs_view(keyvalues@),
                es.len() == n,
                forall|m: int| 0 <= m < n ==> es[m] == kv_view(keyvalues@[m]),
                match found {
                    Some(f) => f < j && es[f as int].key == es[j as int].key && (forall|m: int|
                        0 <= m < f ==> es[m].key != es[j as int].key),
                    None => forall|m: int| 0 <= m < i ==> es[m].key != es[j as int].key,
                },
            decreases j - i + (if found is None {
                1int
            } else {
                0int
            }),
        {
            if keyvalues[i].key == keyvalues[j].key {
                found = Some(i);
            } else {
                i = i + 1;
            }
        }
        let ghost before = dups@;
        match found {
            Some(f) => {
                let d = Duplicate::new(&keyvalues[f], &keyvalues[j]);
                dups.push(d);
                proof {
                    lemma_first_ix_at(es, es[j as int].key, 0, f as int);
                    assert(is_repeat(es, j as int));
                    assert(dup_view(d) == dup_diag(es, j as int));
                    assert(dups@.subrange(0, base.len() as int) =~= base);
                    assert(dups_suffix(base, dups@) =~= scope_diags(es, j as int) + seq![
                        dup_diag(es, j as int),
                    ]);
                    assert(scope_diags(es, j as int + 1) == scope_diags(es, j as int) + seq![
                        dup_diag(es, j as int),
                    ]);
                }
            },
            None => {
                proof {
                    assert(!is_repeat(es, j as int));
                    assert(scope_diags(es, j as int + 1) =~= scope_diags(es, j as int) + seq![]);
                    assert(scope_diags(es, j as int) + Seq::<SpecDiag>::empty() =~= scope_diags(
                        es,
                        j as int,
                    ));
                }
            },
        }
        j = j + 1;
    }
    let ghost mid = dups@;
    let mut j2: usize = 0;
    proof {
        assert(dups_suffix(mid, dups@) =~= Seq::<SpecDiag>::empty());
        assert(dups_suffix(base, dups@) =~= scope_diags(es, n as int) + child_diags(es, 0));
    }
    while j2 < n
        invariant
            j2 <= n,
            n == keyvalues@.len(),
            es == kvs_view(keyvalues@),
            es.len() == n,
            forall|m: int| 0 <= m < n ==> es[m] == kv_view(keyvalues@[m]),
            dups@.len() >= base.len(),
            dups@.subrange(0, base.len() as int) == base,
            dups_suffix(base, dups@) == scope_diags(es, n as int) + child_diags(es, j2 as int),
        decreases n - j2,
    {
        let ghost before = dups@;
        match &keyvalues[j2].value {
            Value::Section(cs) => {
                search_for_duplicates(dups, cs);
                proof {
                    assert(es[j2 as int].value == SpecValue::Section(kvs_view(cs@)));
                    lemma_dups_chain(base, before, dups@);
                    assert(child_diags(es, j2 as int + 1) == child_diags(es, j2 as int)
                        + scan_entries(kvs_view(cs@)));
                    assert((scope_diags(es, n as int) + child_diags(es, j2 as int)) + scan_entries(
                        kvs_view(cs@),
                    ) =~= scope_diags(es, n as int) + (child_diags(es, j2 as int) + scan_entries(
                        kvs_view(cs@),
                    )));
                }
            },
            Value::String(_) => {
                proof {
                    assert(child_diags(es, j2 as int + 1) =~= child_diags(es, j2 as int) + seq![]);
                    assert(child_diags(es, j2 as int) + Seq::<SpecDiag>::empty() =~= child_diags(
                        es,
                        j2 as int,
                    ));
                }
            },
        }
        j2 = j2 + 1;
    }
    proof {
        assert(dups_suffix(base, dups@) == scan_entries(es));
    }
}

/// The line and the line start of character offset `off`.
fn line_info(input: &str, off: usize) -> (r: (u32, usize))
    requires
        off <= input@.len(),
        input@.len() < u32::MAX,
    ensures
        r.0 as int == line_of(input@, off as int),
        r.1 as int == line_start(input@, off as int),
{
    let mut line: u32 = 0;
    let mut ls: usize = 0;
    let mut i: usize = 0;
    while i < off
        invariant
            i <= off <= input@.len(),
            input@.len() < u32::MAX,
            line as int == line_of(input@, i as int),
            ls as int == line_start(input@, i as int),
        decreases off - i,
    {
        let c = input.get_char(i);
        i = i + 1;
        if c == '\n' {
            proof {
                lemma_line_bounds(input@, i as int - 1);
            }
            line = line + 1;
            ls = i;
        }
    }
    (line, ls)
}

/// The expectation text of a syntax failure, as owned text.
fn expectation_text(e: &ParseError) -> (r: String)
    ensures
        r@ == expect_msg(e.expected),
{
    match e.expected {
        Expectation::RootKey => "expected COMMENT or string".to_owned(),
        Expectation::EntryValue => "expected COMMENT, l_brace, or string".to_owned(),
        Expectation::SectionEntry => "expected COMMENT, r_brace, or string".to_owned(),
        Expectation::DocumentEnd => "expected COMMENT or EOI".to_owned(),
    }
}

impl ParseError {
    /// The failure as an editor diagnostic: the one-based line/column
    /// position where the parser stopped, at both ends of the range,
    /// and the expectation text. `input` must be the document whose
    /// parse reported this failure, so that the offset lies inside it.
    pub fn to_diagnostic(&self, input: &str) -> (r: KvError)
        requires
            input@.len() < u32::MAX,
            self.offset <= input@.len(),
        ensures
            diag_view(r) == syntax_diag(input@, *self),
    {
        proof {
            lemma_line_bounds(input@, self.offset as int);
        }
        let (line, ls) = line_info(input, self.offset);
        let p = Position { line: line + 1, character: (self.offset - ls) as u32 + 1 };
        let msg = expectation_text(self);
        let r = KvError {
            range: Range { start: p, end: p },
            additional_ranges: Vec::new(),
            message: msg,
            kind: KvErrorKind::SyntaxError,
        };
        proof {
            assert(diag_view(r).additional =~= Seq::<Range>::empty());
        }
        r
    }
}

/// Lint a document: on structurally valid input, the duplicate-key
/// diagnostics of every scope; on invalid input, exactly the one
/// syntax diagnostic and no duplicate diagnostics.
#[verifier::rlimit(100)]
pub fn lint_keyvalue(input: &str) -> (r: Vec<KvError>)
    requires
        input@.len() < u32::MAX,
    ensures
        diags_view(r@) == spec_lint(input@),
{
    let mut errors: Vec<KvError> = Vec::new();
    match serialize_keyvalue(input) {
        Err(err) => {
            proof {
                lemma_parse_err_bound(input@);
            }
            let e = err.to_diagnostic(input);
            errors.push(e);
            proof {
                assert(diags_view(errors@) =~= seq![syntax_diag(input@, err)]);
            }
            errors
        },
        Ok(kv) => {
            let mut dups: Vec<Duplicate> = Vec::new();
            let ghost root = kv_view(kv);
            match &kv.value {
                Value::Section(cs) => {
                    search_for_duplicates(&mut dups, cs);
                    proof {
                        assert(root.value == SpecValue::Section(kvs_view(cs@)));
                        assert(dups_suffix(Seq::<Duplicate>::empty(), dups@) == spec_scan(root));
                    }
                },
                Value::String(_) => {
                    proof {
                        assert(dups_suffix(Seq::<Duplicate>::empty(), dups@) =~= spec_scan(root));
                    }
                },
            }
            let m = dups.len();
            let mut x: usize = 0;
            proof {
                assert(diags_view(errors@) =~= Seq::new(0, |i: int| dup_view(dups@[i])));
            }
            while x < m
                invariant
                    x <= m,
                    m == dups@.len(),
                    diags_view(errors@) == Seq::new(x as nat, |i: int| dup_view(dups@[i])),
                decreases m - x,
            {
                let d = &dups[x];
                let mut msg = "Duplicate entry for key \"".to_owned();
                msg.append(d.key.as_str());
                msg.append("\"");
                let mut addl: Vec<Range> = Vec::new();
                addl.push(d.original_declaration);
                let e = KvError {
                    range: d.duplicate_declaration,
                    additional_ranges: addl,
                    message: msg,
                    kind: KvErrorKind::DuplicateError,
                };
                let ghost prev_errors = errors@;
                let ghost ev = e;
                errors.push(e);
                x = x + 1;
                proof {
                    assert(diag_view(ev).additional =~= seq![d.original_declaration]);
                    assert(diag_view(ev).message == dup_message(d.key@));
                    assert(diag_view(ev) == dup_view(dups@[x as int - 1]));
                    assert(diags_view(prev_errors) == Seq::new(
                        (x - 1) as nat,
                        |i: int| dup_view(dups@[i]),
                    ));
                    assert(prev_errors.len() == x as int - 1);
                    assert(errors@ == prev_errors.push(ev));
                    assert forall|k: int| 0 <= k < x implies diags_view(errors@)[k] == dup_view(
                        dups@[k],
                    ) by {
                        if k < x - 1 {
                            assert(prev_errors.push(ev)[k] == prev_errors[k]);
                            assert(diags_view(prev_errors)[k] == diag_view(prev_errors[k]));
                        } else {
                            assert(prev_errors.push(ev)[k] == ev);
                        }
                    }
                    assert(diags_view(errors@) =~= Seq::new(x as nat, |i: int| dup_view(dups@[i])));
                }
            }
            proof {
                assert(Seq::new(m as nat, |i: int| dup_view(dups@[i])) =~= dups_suffix(
                    Seq::<Duplicate>::empty(),
                    dups@,
                ));
            }
            errors
        },
    }
}

} // verus!
