use vstd::prelude::*;
use crate::value::{Bencode, DecodeError};

verus! {

/// The byte `0`.
pub const DIGIT_ZERO: u8 = 48;
/// The byte `9`.
pub const DIGIT_NINE: u8 = 57;
/// The byte `:`, between a string's length and its payload.
pub const COLON: u8 = 58;
/// The byte `i`, which opens an integer.
pub const INT_MARK: u8 = 105;
/// The byte `l`, which opens a list.
pub const LIST_MARK: u8 = 108;
/// The byte `e`, which closes an integer or a list.
pub const END_MARK: u8 = 101;
/// The byte `-`.
pub const MINUS: u8 = 45;
/// The byte `+`.
pub const PLUS: u8 = 43;

/// An ASCII decimal digit `0`..`9`.
pub open spec fn is_digit(b: u8) -> bool {
    DIGIT_ZERO <= b <= DIGIT_NINE
}

/// The first position at or after `i` that holds no digit (or the end of `s`).
pub open spec fn digit_run_end(s: Seq<u8>, i: int) -> int
    decreases s.len() - i,
{
    if 0 <= i < s.len() && is_digit(s[i]) {
        digit_run_end(s, i + 1)
    } else {
        i
    }
}

/// The value of a sequence of decimal digits, most significant first.
pub open spec fn digits_value(d: Seq<u8>) -> nat
    decreases d.len(),
{
    if d.len() == 0 {
        0
    } else {
        digits_value(d.subrange(0, d.len() - 1)) * 10 + (d[d.len() - 1] - DIGIT_ZERO) as nat
    }
}

/// The header `<digits>:` of a byte string at `start`: the position of the
/// colon and the declared length, or `None` when the header is malformed.
pub open spec fn length_header(s: Seq<u8>, start: int) -> Option<(int, nat)> {
    let colon = digit_run_end(s, start);
    if colon == start || colon >= s.len() || s[colon] != COLON {
        None
    } else {
        Some((colon, digits_value(s.subrange(start, colon))))
    }
}

/// A byte string `<n>:<payload>` at `start`, with its end offset.
pub open spec fn string_at(s: Seq<u8>, start: int) -> Result<(Bencode, int), DecodeError> {
    match length_header(s, start) {
        None => Err(DecodeError::MalformedLength),
        Some((colon, n)) => {
            let end = colon + 1 + n;
            if end > s.len() {
                Err(DecodeError::MalformedLength)
            } else {
                Ok((Bencode::Str(s.subrange(colon + 1, end)), end))
            }
        },
    }
}

/// The 64-bit signed range.
pub open spec fn in_i64_range(k: int) -> bool {
    i64::MIN <= k <= i64::MAX
}

/// Whether the integer at `start` carries a sign byte after its `i`.
pub open spec fn has_sign(s: Seq<u8>, start: int) -> bool {
    start + 1 < s.len() && (s[start + 1] == MINUS || s[start + 1] == PLUS)
}

/// Where the digits of the integer at `start` begin.
pub open spec fn int_digits_start(s: Seq<u8>, start: int) -> int {
    if has_sign(s, start) {
        start + 2
    } else {
        start + 1
    }
}

/// An integer `i<sign?><digits>e` at `start`, with its end offset.
///
/// The literal between `i` and the first `e` is read as a decimal 64-bit
/// integer with an optional `+` or `-`. Leading zeros and `-0` are accepted.
pub open spec fn integer_at(s: Seq<u8>, start: int) -> Result<(Bencode, int), DecodeError> {
    let d = int_digits_start(s, start);
    let e = digit_run_end(s, d);
    if !(0 <= start < s.len() && s[start] == INT_MARK) || e == d || e >= s.len() || s[e] != END_MARK {
        Err(DecodeError::MalformedInteger)
    } else {
        let m = digits_value(s.subrange(d, e)) as int;
        let k = if has_sign(s, start) && s[start + 1] == MINUS {
            -m
        } else {
            m
        };
        if in_i64_range(k) {
            Ok((Bencode::Int(k as i64), e + 1))
        } else {
            Err(DecodeError::MalformedInteger)
        }
    }
}

/// The value at `start`, chosen by its lead byte, with its end offset.
pub open spec fn value_at(s: Seq<u8>, start: int) -> Result<(Bencode, int), DecodeError>
    decreases s.len() - start, 1int,
{
    if start < 0 || start >= s.len() {
        Err(DecodeError::EmptyInput)
    } else if is_digit(s[start]) {
        string_at(s, start)
    } else if s[start] == INT_MARK {
        integer_at(s, start)
    } else if s[start] == LIST_MARK {
        list_at(s, start)
    } else {
        Err(DecodeError::UnrecognizedLeadByte)
    }
}

/// A list `l<values>e` at `start`, with its end offset.
pub open spec fn list_at(s: Seq<u8>, start: int) -> Result<(Bencode, int), DecodeError>
    decreases s.len() - start, 0int,
{
    if !(0 <= start < s.len() && s[start] == LIST_MARK) {
        Err(DecodeError::UnrecognizedLeadByte)
    } else {
        match items_from(s, start + 1, Seq::empty()) {
            Ok((items, end)) => Ok((Bencode::List(items), end)),
            Err(e) => Err(e),
        }
    }
}

/// The rest of a list's items from `pos` on, after the items `acc` already
/// read: all items, and the offset past the closing `e`.
pub open spec fn items_from(s: Seq<u8>, pos: int, acc: Seq<Bencode>) -> Result<(Seq<Bencode>, int), DecodeError>
    decreases s.len() - pos, 2int,
{
    if pos < 0 || pos >= s.len() {
        Err(DecodeError::UnterminatedList)
    } else if s[pos] == END_MARK {
        Ok((acc, pos + 1))
    } else {
        match value_at(s, pos) {
            Err(e) => Err(e),
            Ok((v, next)) => {
                // Always taken: a value spans at least one byte of the input
                // (see `lemma_value_span`).
                if pos < next <= s.len() {
                    items_from(s, next, acc.push(v))
                } else {
                    Err(DecodeError::UnterminatedList)
                }
            },
        }
    }
}

/// The digits from `i` run up to `digit_run_end(s, i)`, which holds no digit.
pub proof fn lemma_digit_run(s: Seq<u8>, i: int)
    requires
        0 <= i <= s.len(),
    ensures
        i <= digit_run_end(s, i) <= s.len(),
        forall|k: int| i <= k < digit_run_end(s, i) ==> is_digit(#[trigger] s[k]),
        digit_run_end(s, i) < s.len() ==> !is_digit(s[digit_run_end(s, i)]),
    decreases s.len() - i,
{
    if i < s.len() && is_digit(s[i]) {
        lemma_digit_run(s, i + 1);
    }
}

/// A run of digits that ends in a non-digit ends where `digit_run_end` says.
pub proof fn lemma_digit_run_at(s: Seq<u8>, i: int, j: int)
    requires
        0 <= i <= j <= s.len(),
        forall|k: int| i <= k < j ==> is_digit(#[trigger] s[k]),
        j == s.len() || !is_digit(s[j]),
    ensures
        digit_run_end(s, i) == j,
    decreases j - i,
{
    if i < j {
        lemma_digit_run_at(s, i + 1, j);
    }
}

/// Reading one more digit multiplies the value by ten and adds the digit.
pub proof fn lemma_digits_push(s: Seq<u8>, a: int, b: int)
    requires
        0 <= a <= b < s.len(),
    ensures
        digits_value(s.subrange(a, b + 1)) == digits_value(s.subrange(a, b)) * 10 + (s[b] - DIGIT_ZERO) as nat,
{
    assert(s.subrange(a, b + 1).subrange(0, b - a) =~= s.subrange(a, b));
}

/// A prefix of a digit sequence is worth no more than the whole.
pub proof fn lemma_digits_prefix_le(d: Seq<u8>, k: int)
    requires
        0 <= k <= d.len(),
    ensures
        digits_value(d.subrange(0, k)) <= digits_value(d),
    decreases d.len(),
{
    if k < d.len() {
        let init = d.subrange(0, d.len() - 1);
        lemma_digits_prefix_le(init, k);
        assert(init.subrange(0, k) =~= d.subrange(0, k));
    } else {
        assert(d.subrange(0, k) =~= d);
    }
}

/// A decoded value spans at least one byte and ends within the input.
pub proof fn lemma_value_span(s: Seq<u8>, start: int)
    ensures
        value_at(s, start) is Ok ==> start < (value_at(s, start)->Ok_0).1 <= s.len(),
    decreases s.len() - start, 1int,
{
    if 0 <= start < s.len() {
        lemma_digit_run(s, start);
        if s[start] == INT_MARK {
            lemma_digit_run(s, int_digits_start(s, start));
        }
        if s[start] == LIST_MARK {
            lemma_items_span(s, start + 1, Seq::empty());
        }
    }
}

/// The rest of a list, when it decodes, ends past `pos` and within the input.
pub proof fn lemma_items_span(s: Seq<u8>, pos: int, acc: Seq<Bencode>)
    ensures
        items_from(s, pos, acc) is Ok ==> pos < (items_from(s, pos, acc)->Ok_0).1 <= s.len(),
    decreases s.len() - pos, 2int,
{
    if 0 <= pos < s.len() && s[pos] != END_MARK {
        lemma_value_span(s, pos);
        if let Ok((v, next)) = value_at(s, pos) {
            if pos < next <= s.len() {
                lemma_items_span(s, next, acc.push(v));
            }
        }
    }
}

} // verus!
