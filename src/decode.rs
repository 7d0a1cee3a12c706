use vstd::prelude::*;
use vstd::slice::{slice_subrange, slice_to_vec};
use crate::grammar::{
    digit_run_end, digits_value, int_digits_start, integer_at, is_digit, items_from, length_header,
    lemma_digit_run, lemma_digits_prefix_le, lemma_digits_push, list_at, string_at, value_at,
    COLON, DIGIT_NINE, DIGIT_ZERO, END_MARK, INT_MARK, LIST_MARK, MINUS, PLUS,
};
use crate::value::{lemma_model_items_push, model_items, Bencode, DecodeError, DecodedType};

verus! {

/// What a decode result says, over models: the value's model and its end offset.
pub open spec fn outcome(r: Result<(DecodedType, usize), DecodeError>) -> Result<(Bencode, int), DecodeError> {
    match r {
        Ok((v, end)) => Ok((v@, end as int)),
        Err(e) => Err(e),
    }
}

/// The largest magnitude a 64-bit signed integer can have (that of `i64::MIN`).
pub const MAX_MAGNITUDE: u128 = 9223372036854775808;

fn is_digit_byte(b: u8) -> (r: bool)
    ensures
        r == is_digit(b),
{
    DIGIT_ZERO <= b && b <= DIGIT_NINE
}

/// Reads the header `<digits>:` of a byte string at `start`: the offset of the
/// colon and the declared length.
///
/// Fails with `MalformedLength` when the header is malformed, or when the
/// declared length does not fit in a `usize`.
pub fn get_colon_idx_and_num(s: &[u8], start: usize) -> (r: Result<(usize, usize), DecodeError>)
    requires
        start <= s@.len(),
    ensures
        match r {
            Ok((colon, n)) => length_header(s@, start as int) == Some((colon as int, n as nat)) && start < colon < s@.len(),
            Err(e) => e == DecodeError::MalformedLength && (length_header(s@, start as int) is Some
                ==> (length_header(s@, start as int)->Some_0).1 > usize::MAX),
        },
{
    let mut i: usize = start;
    let mut acc: u128 = 0;
    while i < s.len() && is_digit_byte(s[i])
        invariant
            start <= i <= s@.len(),
            digit_run_end(s@, start as int) == digit_run_end(s@, i as int),
            acc as int == digits_value(s@.subrange(start as int, i as int)),
            acc <= usize::MAX,
        decreases s@.len() - i,
    {
        proof {
            lemma_digits_push(s@, start as int, i as int);
        }
        acc = acc * 10 + (s[i] - DIGIT_ZERO) as u128;
        if acc > usize::MAX as u128 {
            proof {
                let colon = digit_run_end(s@, start as int);
                lemma_digit_run(s@, i as int + 1);
                if length_header(s@, start as int) is Some {
                    let d = s@.subrange(start as int, colon);
                    lemma_digits_prefix_le(d, i + 1 - start);
                    assert(d.subrange(0, i + 1 - start) =~= s@.subrange(start as int, i + 1));
                }
            }
            return Err(DecodeError::MalformedLength);
        }
        i = i + 1;
    }
    if i == start || i >= s.len() || s[i] != COLON {
        return Err(DecodeError::MalformedLength);
    }
    Ok((i, acc as usize))
}

/// Decodes the byte string `<n>:<payload>` at `start`: its payload, and the
/// offset just past it.
pub fn decode_string(s: &[u8], start: usize) -> (r: Result<(DecodedType, usize), DecodeError>)
    requires
        start <= s@.len(),
    ensures
        outcome(r) == string_at(s@, start as int),
        r is Ok ==> start < (r->Ok_0).1 <= s@.len(),
{
    let len = s.len();
    match get_colon_idx_and_num(s, start) {
        Err(e) => {
            proof {
                lemma_digit_run(s@, start as int);
            }
            Err(e)
        },
        Ok((colon, n)) => {
            if n > len - colon - 1 {
                return Err(DecodeError::MalformedLength);
            }
            let end = colon + 1 + n;
            let payload = slice_to_vec(slice_subrange(s, colon + 1, end));
            Ok((DecodedType::String(payload), end))
        },
    }
}

/// Decodes the integer `i<sign?><digits>e` at `start`: its value, and the
/// offset just past the `e`.
pub fn decode_int(s: &[u8], start: usize) -> (r: Result<(DecodedType, usize), DecodeError>)
    ensures
        outcome(r) == integer_at(s@, start as int),
        r is Ok ==> start < (r->Ok_0).1 <= s@.len(),
{
    let len = s.len();
    if start >= len || s[start] != INT_MARK {
        return Err(DecodeError::MalformedInteger);
    }
    let mut d: usize = start + 1;
    let mut negative = false;
    if d < len && (s[d] == MINUS || s[d] == PLUS) {
        negative = s[d] == MINUS;
        d = d + 1;
    }
    assert(d == int_digits_start(s@, start as int));
    let mut i: usize = d;
    let mut acc: u128 = 0;
    while i < len && is_digit_byte(s[i])
        invariant
            len == s@.len(),
            d <= i <= len,
            start < len,
            s@[start as int] == INT_MARK,
            d == int_digits_start(s@, start as int),
            digit_run_end(s@, d as int) == digit_run_end(s@, i as int),
            acc as int == digits_value(s@.subrange(d as int, i as int)),
            acc <= MAX_MAGNITUDE,
        decreases len - i,
    {
        proof {
            lemma_digits_push(s@, d as int, i as int);
        }
        acc = acc * 10 + (s[i] - DIGIT_ZERO) as u128;
        if acc > MAX_MAGNITUDE {
            proof {
                let e = digit_run_end(s@, d as int);
                lemma_digit_run(s@, i as int + 1);
                if e < len && s@[e] == END_MARK {
                    let m = s@.subrange(d as int, e);
                    lemma_digits_prefix_le(m, i + 1 - d);
                    assert(m.subrange(0, i + 1 - d) =~= s@.subrange(d as int, i + 1));
                }
            }
            return Err(DecodeError::MalformedInteger);
        }
        i = i + 1;
    }
    if i == d || i >= len || s[i] != END_MARK {
        return Err(DecodeError::MalformedInteger);
    }
    let k: i64 = if negative {
        if acc == MAX_MAGNITUDE {
            i64::MIN
        } else {
            -(acc as i64)
        }
    } else {
        if acc > i64::MAX as u128 {
            return Err(DecodeError::MalformedInteger);
        }
        acc as i64
    };
    Ok((DecodedType::Number(k), i + 1))
}

/// Decodes the value at `start`, chosen by its lead byte: a digit opens a byte
/// string, `i` an integer, `l` a list. Returns the value and the offset just
/// past it.
pub fn decode_value(s: &[u8], start: usize) -> (r: Result<(DecodedType, usize), DecodeError>)
    ensures
        outcome(r) == value_at(s@, start as int),
        r is Ok ==> start < (r->Ok_0).1 <= s@.len(),
    decreases s@.len() - start, 1int,
{
    if start >= s.len() {
        Err(DecodeError::EmptyInput)
    } else if is_digit_byte(s[start]) {
        decode_string(s, start)
    } else if s[start] == INT_MARK {
        decode_int(s, start)
    } else if s[start] == LIST_MARK {
        decode_list(s, start)
    } else {
        Err(DecodeError::UnrecognizedLeadByte)
    }
}

/// Decodes the list `l<values>e` at `start`: its items in order, and the
/// offset just past the closing `e`.
pub fn decode_list(s: &[u8], start: usize) -> (r: Result<(DecodedType, usize), DecodeError>)
    ensures
        outcome(r) == list_at(s@, start as int),
        r is Ok ==> start < (r->Ok_0).1 <= s@.len(),
    decreases s@.len() - start, 0int,
{
    let len = s.len();
    if start >= len || s[start] != LIST_MARK {
        return Err(DecodeError::UnrecognizedLeadByte);
    }
    let mut items: Vec<DecodedType> = Vec::new();
    let mut pos: usize = start + 1;
    loop
        invariant
            len == s@.len(),
            start < pos <= len,
            s@[start as int] == LIST_MARK,
            items_from(s@, start + 1, Seq::empty()) == items_from(s@, pos as int, model_items(items@)),
        decreases len - pos,
    {
        if pos >= len {
            return Err(DecodeError::UnterminatedList);
        }
        if s[pos] == END_MARK {
            return Ok((DecodedType::List(items), pos + 1));
        }
        match decode_value(s, pos) {
            Err(e) => {
                return Err(e);
            },
            Ok((v, next)) => {
                proof {
                    lemma_model_items_push(items@, v);
                }
                items.push(v);
                pos = next;
            },
        }
    }
}

} // verus!
