use vstd::prelude::*;
use vstd::string::StringSliceAdditionalSpecFns;
use crate::decode::decode_value;
use crate::grammar::value_at;
use crate::value::{lemma_model_items_push, model_items, Bencode, DecodeError, DecodedType};

verus! {

/// serde_json's `Value`, carried through as an opaque JSON value.
#[verifier::external_type_specification]
#[verifier::external_body]
pub struct ExValue(serde_json::Value);

/// The text that `String::from_utf8_lossy` makes of some bytes.
pub uninterp spec fn utf8_lossy(b: Seq<u8>) -> Seq<char>;

/// The JSON string `serde_json::Value::String` makes of some text.
pub uninterp spec fn json_string_of(s: Seq<char>) -> serde_json::Value;

/// The JSON number `serde_json::Value::from` makes of a 64-bit integer.
pub uninterp spec fn json_number_of(k: i64) -> serde_json::Value;

/// The JSON array `serde_json::Value::Array` makes of some values.
pub uninterp spec fn json_array_of(items: Seq<serde_json::Value>) -> serde_json::Value;

/// Relies on `String::from_utf8_lossy`: the bytes read as UTF-8 text, with
/// each invalid sequence replaced; the result depends on the bytes alone.
#[verifier::external_body]
fn text_of(b: &[u8]) -> (r: String)
    ensures
        r@ == utf8_lossy(b@),
{
    String::from_utf8_lossy(b).into_owned()
}

/// Relies on `serde_json::Value::String`: the JSON string holding `s`.
#[verifier::external_body]
fn json_string(s: String) -> (r: serde_json::Value)
    ensures
        r == json_string_of(s@),
{
    serde_json::Value::String(s)
}

/// Relies on `serde_json::Value::from` for `i64`: the JSON number `k`.
#[verifier::external_body]
fn json_number(k: i64) -> (r: serde_json::Value)
    ensures
        r == json_number_of(k),
{
    serde_json::Value::from(k)
}

/// Relies on `serde_json::Value::Array`: the JSON array of `items`, in order.
#[verifier::external_body]
fn json_array(items: Vec<serde_json::Value>) -> (r: serde_json::Value)
    ensures
        r == json_array_of(items@),
{
    serde_json::Value::Array(items)
}

/// The JSON form of a value: a byte string becomes a JSON string of its text,
/// an integer a JSON number, a list a JSON array of its items' forms in order.
pub open spec fn present_spec(b: Bencode) -> serde_json::Value
    decreases b,
{
    match b {
        Bencode::Str(p) => json_string_of(utf8_lossy(p)),
        Bencode::Int(k) => json_number_of(k),
        Bencode::List(items) => json_array_of(present_items(items)),
    }
}

/// The JSON forms of a sequence of values, in order.
pub open spec fn present_items(items: Seq<Bencode>) -> Seq<serde_json::Value>
    decreases items,
{
    if items.len() == 0 {
        Seq::empty()
    } else {
        present_items(items.subrange(0, items.len() - 1)).push(present_spec(items[items.len() - 1]))
    }
}

/// Presenting one more item appends its JSON form.
pub proof fn lemma_present_items_push(items: Seq<Bencode>, b: Bencode)
    ensures
        present_items(items.push(b)) == present_items(items).push(present_spec(b)),
{
    assert(items.push(b).subrange(0, items.len() as int) =~= items);
}

/// Converts a decoded value into its JSON form.
pub fn decode_type_to_serde_json(decoded_type: &DecodedType) -> (r: serde_json::Value)
    ensures
        r == present_spec(decoded_type@),
    decreases decoded_type,
{
    match decoded_type {
        DecodedType::String(val) => json_string(text_of(val.as_slice())),
        DecodedType::Number(val) => json_number(*val),
        DecodedType::List(list) => {
            let mut out: Vec<serde_json::Value> = Vec::new();
            let mut i: usize = 0;
            while i < list.len()
                invariant
                    i <= list@.len(),
                    *decoded_type == DecodedType::List(*list),
                    out@ == present_items(model_items(list@.subrange(0, i as int))),
                decreases list@.len() - i,
            {
                proof {
                    assert(list@.subrange(0, i + 1) =~= list@.subrange(0, i as int).push(list@[i as int]));
                    lemma_model_items_push(list@.subrange(0, i as int), list@[i as int]);
                    lemma_present_items_push(model_items(list@.subrange(0, i as int)), list@[i as int]@);
                    vstd::std_specs::vec::axiom_vec_index_decreases(*list, i as int);
                    assert(decreases_to!(*decoded_type => decoded_type->List_0));
                    assert(decreases_to!(*decoded_type => list[i as int]));
                }
                let v = decode_type_to_serde_json(&list[i]);
                out.push(v);
                i = i + 1;
            }
            assert(list@.subrange(0, list@.len() as int) =~= list@);
            json_array(out)
        },
    }
}

/// Decodes the one value at the start of `encoded_value` and returns its JSON
/// form. Bytes after that value are ignored.
pub fn decode_bencoded_value(encoded_value: &str) -> (r: Result<serde_json::Value, DecodeError>)
    ensures
        r == match value_at(encoded_value.spec_bytes(), 0) {
            Ok((v, _)) => Ok(present_spec(v)),
            Err(e) => Err(e),
        },
{
    match decode_value(encoded_value.as_bytes(), 0) {
        Ok((v, _)) => Ok(decode_type_to_serde_json(&v)),
        Err(e) => Err(e),
    }
}

} // verus!
