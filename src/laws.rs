use vstd::prelude::*;
use crate::grammar::{
    digits_value, has_sign, int_digits_start, is_digit, items_from, lemma_digit_run_at,
    value_at, COLON, DIGIT_ZERO, END_MARK, INT_MARK, LIST_MARK, MINUS,
};
use crate::value::Bencode;

verus! {

/// The decimal digits of `n`, most significant first, without leading zeros.
pub open spec fn decimal(n: nat) -> Seq<u8>
    decreases n,
{
    if n < 10 {
        seq![(DIGIT_ZERO + n) as u8]
    } else {
        decimal(n / 10).push((DIGIT_ZERO + n % 10) as u8)
    }
}

/// The decimal form of `k`, with a `-` before a negative number.
pub open spec fn signed_decimal(k: int) -> Seq<u8> {
    if k < 0 {
        seq![MINUS] + decimal((-k) as nat)
    } else {
        decimal(k as nat)
    }
}

/// The canonical bencode form of a value.
pub open spec fn encode(b: Bencode) -> Seq<u8>
    decreases b,
{
    match b {
        Bencode::Str(p) => decimal(p.len()) + seq![COLON] + p,
        Bencode::Int(k) => seq![INT_MARK] + signed_decimal(k as int) + seq![END_MARK],
        Bencode::List(items) => seq![LIST_MARK] + encode_items(items) + seq![END_MARK],
    }
}

/// The bencode forms of a sequence of values, concatenated in order.
pub open spec fn encode_items(items: Seq<Bencode>) -> Seq<u8>
    decreases items,
{
    if items.len() == 0 {
        Seq::empty()
    } else {
        encode(items[0]) + encode_items(items.subrange(1, items.len() as int))
    }
}

proof fn lemma_decimal(n: nat)
    ensures
        decimal(n).len() >= 1,
        forall|k: int| 0 <= k < decimal(n).len() ==> is_digit(#[trigger] decimal(n)[k]),
        digits_value(decimal(n)) == n,
    decreases n,
{
    let d = decimal(n);
    if n < 10 {
        assert(d.subrange(0, 0) =~= Seq::<u8>::empty());
        assert(d[0] == (DIGIT_ZERO + n) as u8);
        assert((d[0] - DIGIT_ZERO) as nat == n);
        assert(digits_value(Seq::<u8>::empty()) == 0);
    } else {
        lemma_decimal(n / 10);
        assert(d.subrange(0, d.len() - 1) =~= decimal(n / 10));
        assert(forall|k: int| 0 <= k < d.len() - 1 ==> d[k] == decimal(n / 10)[k]);
        assert(n == (n / 10) * 10 + n % 10);
        assert((d[d.len() - 1] - DIGIT_ZERO) as nat == n % 10);
    }
}

/// An encoding is never empty, and its first byte is never `e`.
proof fn lemma_encode_lead(b: Bencode)
    ensures
        encode(b).len() >= 1,
        encode(b)[0] != END_MARK,
{
    match b {
        Bencode::Str(p) => {
            lemma_decimal(p.len());
            assert(encode(b)[0] == decimal(p.len())[0]);
        },
        Bencode::Int(k) => {},
        Bencode::List(items) => {},
    }
}

/// Where the encoding of `b` stands in `s` at `start`, decoding there yields
/// `b` and ends just past the encoding, whatever follows.
proof fn lemma_value_encoding(s: Seq<u8>, start: int, b: Bencode)
    requires
        0 <= start,
        start + encode(b).len() <= s.len(),
        s.subrange(start, start + encode(b).len()) == encode(b),
    ensures
        value_at(s, start) == Ok::<(Bencode, int), crate::value::DecodeError>((b, start + encode(b).len())),
    decreases b,
{
    let enc = encode(b);
    assert forall|k: int| 0 <= k < enc.len() implies s[start + k] == #[trigger] enc[k] by {
        assert(s.subrange(start, start + enc.len())[k] == s[start + k]);
    }
    match b {
        Bencode::Str(p) => {
            let digits = decimal(p.len());
            let dl = digits.len() as int;
            lemma_decimal(p.len());
            assert(enc[0] == digits[0]);
            assert forall|k: int| start <= k < start + dl implies is_digit(#[trigger] s[k]) by {
                assert(enc[k - start] == digits[k - start]);
            }
            assert(enc[dl] == COLON);
            lemma_digit_run_at(s, start, start + dl);
            assert(s.subrange(start, start + dl) =~= digits);
            assert(s.subrange(start + dl + 1, start + enc.len()) =~= p) by {
                assert forall|k: int| 0 <= k < p.len() implies s.subrange(start + dl + 1, start + enc.len())[k] == p[k] by {
                    assert(enc[dl + 1 + k] == p[k]);
                }
            }
        },
        Bencode::Int(k) => {
            let sd = signed_decimal(k as int);
            assert(enc[0] == INT_MARK);
            assert(enc[sd.len() + 1int] == END_MARK);
            if k < 0 {
                let digits = decimal((-k) as nat);
                lemma_decimal((-k) as nat);
                assert(enc[1] == MINUS);
                assert(has_sign(s, start));
                assert(int_digits_start(s, start) == start + 2);
                assert forall|j: int| start + 2 <= j < start + 2 + digits.len() implies is_digit(#[trigger] s[j]) by {
                    assert(enc[j - start] == digits[j - start - 2]);
                }
                lemma_digit_run_at(s, start + 2, start + 2 + digits.len());
                assert(s.subrange(start + 2, start + 2 + digits.len()) =~= digits) by {
                    assert forall|j: int| 0 <= j < digits.len() implies s.subrange(start + 2, start + 2 + digits.len())[j] == digits[j] by {
                        assert(enc[j + 2] == digits[j]);
                    }
                }
            } else {
                let digits = decimal(k as nat);
                lemma_decimal(k as nat);
                assert(enc[1] == digits[0]);
                assert(!has_sign(s, start));
                assert(int_digits_start(s, start) == start + 1);
                assert forall|j: int| start + 1 <= j < start + 1 + digits.len() implies is_digit(#[trigger] s[j]) by {
                    assert(enc[j - start] == digits[j - start - 1]);
                }
                lemma_digit_run_at(s, start + 1, start + 1 + digits.len());
                assert(s.subrange(start + 1, start + 1 + digits.len()) =~= digits) by {
                    assert forall|j: int| 0 <= j < digits.len() implies s.subrange(start + 1, start + 1 + digits.len())[j] == digits[j] by {
                        assert(enc[j + 1] == digits[j]);
                    }
                }
            }
        },
        Bencode::List(items) => {
            let e = encode_items(items);
            assert(enc[0] == LIST_MARK);
            assert(enc[e.len() + 1int] == END_MARK);
            assert(s.subrange(start + 1, start + 1 + e.len()) =~= e) by {
                assert forall|j: int| 0 <= j < e.len() implies s.subrange(start + 1, start + 1 + e.len())[j] == e[j] by {
                    assert(enc[j + 1] == e[j]);
                }
            }
            lemma_items_encoding(s, start + 1, Seq::empty(), items);
            assert(Seq::<Bencode>::empty() + items =~= items);
        },
    }
}

/// Where the concatenated encodings of `items` and then an `e` stand in `s`
/// at `pos`, the list's remaining items are exactly `items`.
proof fn lemma_items_encoding(s: Seq<u8>, pos: int, acc: Seq<Bencode>, items: Seq<Bencode>)
    requires
        0 <= pos,
        pos + encode_items(items).len() < s.len(),
        s.subrange(pos, pos + encode_items(items).len()) == encode_items(items),
        s[pos + encode_items(items).len()] == END_MARK,
    ensures
        items_from(s, pos, acc) == Ok::<(Seq<Bencode>, int), crate::value::DecodeError>(
            (acc + items, pos + encode_items(items).len() + 1),
        ),
    decreases items,
{
    let e = encode_items(items);
    if items.len() == 0 {
        assert(acc + items =~= acc);
    } else {
        let first = encode(items[0]);
        let rest = items.subrange(1, items.len() as int);
        let er = encode_items(rest);
        lemma_encode_lead(items[0]);
        assert(s.subrange(pos, pos + e.len())[0] == e[0]);
        assert(s.subrange(pos, pos + first.len()) =~= first) by {
            assert forall|j: int| 0 <= j < first.len() implies s.subrange(pos, pos + first.len())[j] == first[j] by {
                assert(s.subrange(pos, pos + e.len())[j] == e[j]);
            }
        }
        lemma_value_encoding(s, pos, items[0]);
        let next = pos + first.len();
        assert(s.subrange(next, next + er.len()) =~= er) by {
            assert forall|j: int| 0 <= j < er.len() implies s.subrange(next, next + er.len())[j] == er[j] by {
                assert(s.subrange(pos, pos + e.len())[first.len() + j] == e[first.len() + j]);
            }
        }
        lemma_items_encoding(s, next, acc.push(items[0]), rest);
        assert(acc.push(items[0]) + rest =~= acc + items);
    }
}

/// A byte string `<n>:<p>`, where `p` holds exactly `n` bytes, decodes to `p`
/// and consumes the digits of `n`, the colon and the `n` payload bytes.
pub proof fn law_string_decodes(n: nat, p: Seq<u8>)
    requires
        p.len() == n,
    ensures
        value_at(decimal(n) + seq![COLON] + p, 0) == Ok::<(Bencode, int), crate::value::DecodeError>(
            (Bencode::Str(p), decimal(n).len() + 1 + n as int),
        ),
{
    let s = decimal(n) + seq![COLON] + p;
    assert(s == encode(Bencode::Str(p)));
    assert(s.subrange(0, s.len() as int) =~= s);
    lemma_value_encoding(s, 0, Bencode::Str(p));
}

/// The integer `i<k>e`, `k` written in decimal, decodes to `k`, for every
/// 64-bit `k`.
pub proof fn law_integer_decodes(k: i64)
    ensures
        value_at(seq![INT_MARK] + signed_decimal(k as int) + seq![END_MARK], 0) == Ok::<(Bencode, int), crate::value::DecodeError>(
            (Bencode::Int(k), signed_decimal(k as int).len() + 2int),
        ),
{
    let s = seq![INT_MARK] + signed_decimal(k as int) + seq![END_MARK];
    assert(s == encode(Bencode::Int(k)));
    assert(s.subrange(0, s.len() as int) =~= s);
    lemma_value_encoding(s, 0, Bencode::Int(k));
}

/// A list `l`, then the encodings of some values in order, then `e`, decodes
/// to exactly those values in that order; `le` decodes to the empty list.
pub proof fn law_list_decodes(items: Seq<Bencode>)
    ensures
        value_at(seq![LIST_MARK] + encode_items(items) + seq![END_MARK], 0) == Ok::<(Bencode, int), crate::value::DecodeError>(
            (Bencode::List(items), encode_items(items).len() + 2int),
        ),
{
    let s = seq![LIST_MARK] + encode_items(items) + seq![END_MARK];
    assert(s == encode(Bencode::List(items)));
    assert(s.subrange(0, s.len() as int) =~= s);
    lemma_value_encoding(s, 0, Bencode::List(items));
}

} // verus!
