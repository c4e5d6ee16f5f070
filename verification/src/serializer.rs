use vstd::prelude::*;

use crate::common::Range;
use crate::parser::spec_parse;
use crate::parser::KeyValueParser;
use crate::parser::ParseError;

verus! {

broadcast use vstd::seq::axiom_seq_index_decreases, vstd::seq::axiom_seq_subrange_decreases,
    vstd::std_specs::vec::axiom_vec_decreases_to_view;

/// One entry of a document: its key with the quotes stripped, the range
/// of the key span, and the value it binds.
#[derive(Debug, PartialEq, Eq)]
pub struct KeyValue {
    pub key: String,
    pub value: Value,
    pub key_range: Range,
}

/// A value position holds either a string or a brace-delimited ordered
/// list of entries.
#[derive(Debug, PartialEq, Eq)]
pub enum Value {
    String(String),
    Section(Vec<KeyValue>),
}

/// The mathematical content of an entry.
pub ghost struct SpecKeyValue {
    pub key: Seq<char>,
    pub value: SpecValue,
    pub key_range: Range,
}

/// The mathematical content of a value.
pub ghost enum SpecValue {
    String(Seq<char>),
    Section(Seq<SpecKeyValue>),
}

/// The mathematical content of an entry list.
pub open spec fn kvs_view(v: Seq<KeyValue>) -> Seq<SpecKeyValue>
    decreases v,
{
    if v.len() == 0 {
        seq![]
    } else {
        seq![kv_view(v[0])] + kvs_view(v.drop_first())
    }
}

/// The mathematical content of an entry tree.
pub open spec fn kv_view(kv: KeyValue) -> SpecKeyValue
    decreases kv,
{
    SpecKeyValue {
        key: kv.key@,
        key_range: kv.key_range,
        value: match kv.value {
            Value::String(t) => SpecValue::String(t@),
            Value::Section(v) => SpecValue::Section(kvs_view(v@)),
        },
    }
}

/// The mathematical content of a value alone.
pub open spec fn value_view(v: Value) -> SpecValue {
    match v {
        Value::String(t) => SpecValue::String(t@),
        Value::Section(es) => SpecValue::Section(kvs_view(es@)),
    }
}

/// Putting an entry in front of a list puts its view in front of the
/// list's view.
pub proof fn lemma_kvs_view_cons(kv: KeyValue, rest: Seq<KeyValue>)
    ensures
        kvs_view(seq![kv] + rest) == seq![kv_view(kv)] + kvs_view(rest),
{
    let whole = seq![kv] + rest;
    assert(whole.len() == rest.len() + 1);
    assert(whole[0] == kv);
    assert(whole.drop_first() =~= rest);
    assert(kvs_view(whole) == seq![kv_view(whole[0])] + kvs_view(whole.drop_first()));
}

/// The view of an entry list reads off entry by entry.
pub proof fn lemma_kvs_view(v: Seq<KeyValue>)
    ensures
        kvs_view(v).len() == v.len(),
        forall|i: int| 0 <= i < v.len() ==> kvs_view(v)[i] == kv_view(v[i]),
    decreases v.len(),
{
    if v.len() > 0 {
        lemma_kvs_view(v.drop_first());
    }
}

/// Parse `input` into its position-annotated entry tree, or report the
/// first syntax failure.
pub fn serialize_keyvalue(input: &str) -> (r: Result<KeyValue, ParseError>)
    requires
        input@.len() < u32::MAX,
    ensures
        match spec_parse(input@) {
            Ok(po) => r matches Ok(kv) && kv_view(kv) == po.kv,
            Err(e) => r == Err::<KeyValue, ParseError>(e),
        },
{
    match KeyValueParser::parse_document(input) {
        Ok((kv, _)) => Ok(kv),
        Err(e) => Err(e),
    }
}

} // verus!
