use vstd::prelude::*;

verus! {

/// The mathematical model of one decoded bencode value.
pub enum Bencode {
    /// A byte string, exactly the payload bytes.
    Str(Seq<u8>),
    /// A signed 64-bit integer.
    Int(i64),
    /// An ordered list of values.
    List(Seq<Bencode>),
}

/// One decoded bencode value, as the decoder builds it.
#[derive(Debug, PartialEq, Eq)]
pub enum DecodedType {
    String(Vec<u8>),
    Number(i64),
    List(Vec<DecodedType>),
}

/// Why a decode failed. Every failure aborts the whole decode.
#[derive(Debug, Clone, Copy, PartialEq, Eq, Structural)]
pub enum DecodeError {
    /// A string's length prefix is missing, not a decimal number, or declares
    /// more bytes than remain.
    MalformedLength,
    /// An `i...e` integer is unterminated, not a decimal number, or out of the
    /// 64-bit signed range.
    MalformedInteger,
    /// A list reaches the end of the input before its closing `e`.
    UnterminatedList,
    /// A value starts with a byte that opens none of the supported kinds.
    UnrecognizedLeadByte,
    /// There is no byte left where a value should start.
    EmptyInput,
}

/// The model of a decoded value.
pub open spec fn model_of(d: DecodedType) -> Bencode
    decreases d,
{
    match d {
        DecodedType::String(b) => Bencode::Str(b@),
        DecodedType::Number(k) => Bencode::Int(k),
        DecodedType::List(items) => Bencode::List(model_items(items@)),
    }
}

/// The models of a sequence of decoded values, in order.
pub open spec fn model_items(items: Seq<DecodedType>) -> Seq<Bencode>
    decreases items,
{
    if items.len() == 0 {
        Seq::empty()
    } else {
        model_items(items.subrange(0, items.len() - 1)).push(model_of(items[items.len() - 1]))
    }
}

impl View for DecodedType {
    type V = Bencode;

    open spec fn view(&self) -> Bencode {
        model_of(*self)
    }
}

/// Pushing a value onto a list pushes its model onto the list's model.
pub proof fn lemma_model_items_push(items: Seq<DecodedType>, d: DecodedType)
    ensures
        model_items(items.push(d)) == model_items(items).push(model_of(d)),
{
    assert(items.push(d).subrange(0, items.len() as int) =~= items);
}

} // verus!
