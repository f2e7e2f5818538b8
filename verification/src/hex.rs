//! Lower-case hexadecimal text of bytes, and its reading back.
use vstd::prelude::*;

use crate::text::{is_ascii_bytes, lacks};

verus! {

/// The hex digit for a value below sixteen, lower case.
pub open spec fn hex_digit(v: int) -> u8 {
    if v < 10 {
        (48 + v) as u8
    } else {
        (87 + v) as u8
    }
}

/// Two lower-case hex digits per byte, high nibble first (`{:02x}`).
pub open spec fn hex_lower(b: Seq<u8>) -> Seq<u8> {
    Seq::new(
        2 * b.len(),
        |i: int|
            if i % 2 == 0 {
                hex_digit(b[i / 2] as int / 16)
            } else {
                hex_digit(b[i / 2] as int % 16)
            },
    )
}

/// The value of one hex digit, either case.
pub open spec fn hex_value(c: u8) -> Option<int> {
    if 48 <= c <= 57 {
        Some(c - 48)
    } else if 97 <= c <= 102 {
        Some(c - 87)
    } else if 65 <= c <= 70 {
        Some(c - 55)
    } else {
        None
    }
}

/// What `u8::from_str_radix(_, 16)` gives for a two-byte text: two hex
/// digits, or a `+` and one hex digit.
pub open spec fn hex_pair(a: u8, b: u8) -> Option<int> {
    if a == 43 {
        hex_value(b)
    } else if hex_value(a) is Some && hex_value(b) is Some {
        Some(hex_value(a)->0 * 16 + hex_value(b)->0)
    } else {
        None
    }
}

pub open spec fn hex_decodes(s: Seq<u8>) -> bool {
    &&& s.len() % 2 == 0
    &&& forall|i: int| 0 <= i < s.len() / 2 ==> #[trigger] hex_pair(s[2 * i], s[2 * i + 1]) is Some
}

/// The bytes that a hex text reads back as, taken two bytes at a time.
pub open spec fn decode_hex_spec(s: Seq<u8>) -> Option<Seq<u8>> {
    if hex_decodes(s) {
        Some(Seq::new(s.len() / 2, |i: int| hex_pair(s[2 * i], s[2 * i + 1])->0 as u8))
    } else {
        None
    }
}

/// Hex text is ASCII.
pub proof fn lemma_hex_ascii(b: Seq<u8>)
    ensures
        is_ascii_bytes(hex_lower(b)),
        hex_lower(b).len() == 2 * b.len(),
{
}

/// Hex text holds only hex digits, so no byte that is not one.
pub proof fn lemma_hex_lacks(b: Seq<u8>, c: u8)
    requires
        hex_value(c) is None,
    ensures
        lacks(hex_lower(b), c),
{
    let h = hex_lower(b);
    assert forall|i: int| 0 <= i < h.len() implies h[i] != c by {
        let v: int = if i % 2 == 0 { b[i / 2] as int / 16 } else { b[i / 2] as int % 16 };
        assert(h[i] == hex_digit(v));
        assert(hex_value(hex_digit(v)) == Some(v));
    }
}

/// Reading hex text back gives the bytes it was made of.
pub proof fn lemma_hex_round_trip(b: Seq<u8>)
    ensures
        decode_hex_spec(hex_lower(b)) == Some(b),
{
    let h = hex_lower(b);
    assert forall|i: int| 0 <= i < h.len() / 2 implies #[trigger] hex_pair(h[2 * i], h[2 * i + 1])
        == Some(b[i] as int) by {
        let hi = b[i] as int / 16;
        let lo = b[i] as int % 16;
        assert((2 * i) / 2 == i && (2 * i + 1) / 2 == i);
        assert(h[2 * i] == hex_digit(hi));
        assert(h[2 * i + 1] == hex_digit(lo));
        assert(hex_value(hex_digit(hi)) == Some(hi));
        assert(hex_value(hex_digit(lo)) == Some(lo));
        assert(hi * 16 + lo == b[i] as int);
    }
    assert(hex_decodes(h));
    assert(decode_hex_spec(h)->0 =~= b);
}

fn nibble_digit(v: u8) -> (d: u8)
    requires
        v < 16,
    ensures
        d == hex_digit(v as int),
{
    if v < 10 {
        48 + v
    } else {
        87 + v
    }
}

/// Lower-case hex digits of the bytes, two per byte.
pub(crate) fn hex_lower_bytes(b: &[u8]) -> (r: Vec<u8>)
    ensures
        r@ == hex_lower(b@),
{
    let mut out: Vec<u8> = Vec::new();
    for i in 0..b.len()
        invariant
            out@.len() == 2 * i,
            i <= b@.len(),
            forall|j: int| 0 <= j < 2 * i ==> out@[j] == #[trigger] hex_lower(b@)[j],
    {
        let x = b[i];
        let hi = nibble_digit(x / 16);
        let lo = nibble_digit(x % 16);
        out.push(hi);
        out.push(lo);
        assert forall|j: int| 0 <= j < 2 * (i + 1) implies out@[j] == #[trigger] hex_lower(b@)[j] by {
            if j == 2 * i {
                assert(j % 2 == 0 && j / 2 == i);
            } else if j == 2 * i + 1 {
                assert(j % 2 == 1 && j / 2 == i);
            }
        }
    }
    assert(out@ =~= hex_lower(b@));
    out
}

fn hex_value_exec(c: u8) -> (r: Option<u8>)
    ensures
        match hex_value(c) {
            Some(v) => r == Some(v as u8),
            None => r is None,
        },
{
    if 48 <= c && c <= 57 {
        Some(c - 48)
    } else if 97 <= c && c <= 102 {
        Some(c - 87)
    } else if 65 <= c && c <= 70 {
        Some(c - 55)
    } else {
        None
    }
}

fn hex_pair_exec(a: u8, b: u8) -> (r: Option<u8>)
    ensures
        match hex_pair(a, b) {
            Some(v) => r == Some(v as u8) && 0 <= v < 256,
            None => r is None,
        },
{
    if a == 43 {
        hex_value_exec(b)
    } else {
        match (hex_value_exec(a), hex_value_exec(b)) {
            (Some(h), Some(l)) => Some(h * 16 + l),
            _ => None,
        }
    }
}

/// Reads hex text (the bytes of a string) back into bytes.
pub(crate) fn decode_hex_bytes(s: &[u8]) -> (r: Option<Vec<u8>>)
    ensures
        match decode_hex_spec(s@) {
            Some(v) => r is Some && r->0@ == v,
            None => r is None,
        },
{
    if s.len() % 2 != 0 {
        return None;
    }
    let n = s.len() / 2;
    let mut out: Vec<u8> = Vec::new();
    for i in 0..n
        invariant
            n == s@.len() / 2,
            s@.len() % 2 == 0,
            out@.len() == i,
            forall|k: int|
                0 <= k < i ==> #[trigger] hex_pair(s@[2 * k], s@[2 * k + 1]) is Some && out@[k]
                    == hex_pair(s@[2 * k], s@[2 * k + 1])->0 as u8,
    {
        assert(2 * i + 1 < s.len());
        match hex_pair_exec(s[2 * i], s[2 * i + 1]) {
            Some(v) => {
                out.push(v);
            },
            None => {
                assert(!hex_decodes(s@)) by {
                    assert(hex_pair(s@[2 * i], s@[2 * i + 1]) is None);
                }
                return None;
            },
        }
    }
    assert(hex_decodes(s@));
    assert(out@ =~= decode_hex_spec(s@)->0);
    Some(out)
}


/// An ASCII letter in lower case; every other byte as it is.
pub open spec fn lower_byte(c: u8) -> u8 {
    if 65 <= c <= 90 {
        (c + 32) as u8
    } else {
        c
    }
}

/// Law: hex text of any case (digits only, even length) reads back as
/// bytes whose lower-case hex text is that text in lower case.
pub proof fn hex_digits_read_back(s: Seq<u8>)
    requires
        s.len() % 2 == 0,
        forall|i: int| 0 <= i < s.len() ==> #[trigger] hex_value(s[i]) is Some,
    ensures
        decode_hex_spec(s) is Some,
        decode_hex_spec(s)->0.len() * 2 == s.len(),
        hex_lower(decode_hex_spec(s)->0) == s.map_values(|c: u8| lower_byte(c)),
{
    assert forall|i: int| 0 <= i < s.len() / 2 implies #[trigger] hex_pair(s[2 * i], s[2 * i + 1]) is Some by {
        assert(hex_value(s[2 * i]) is Some);
        assert(hex_value(s[2 * i + 1]) is Some);
    }
    assert(hex_decodes(s));
    let v = decode_hex_spec(s)->0;
    let want = s.map_values(|c: u8| lower_byte(c));
    assert forall|j: int| 0 <= j < s.len() implies #[trigger] hex_lower(v)[j] == want[j] by {
        let k = j / 2;
        assert(0 <= k < s.len() / 2);
        assert(2 * k <= j <= 2 * k + 1);
        let a = s[2 * k];
        let b = s[2 * k + 1];
        assert(hex_value(a) is Some && hex_value(b) is Some);
        let x = hex_value(a)->0;
        let y = hex_value(b)->0;
        assert(0 <= x < 16 && 0 <= y < 16);
        assert(hex_pair(a, b) == Some(x * 16 + y));
        assert(v[k] == (x * 16 + y) as u8);
        assert((x * 16 + y) / 16 == x && (x * 16 + y) % 16 == y) by (nonlinear_arith)
            requires
                0 <= x < 16,
                0 <= y < 16,
        ;
        assert(hex_digit(x) == lower_byte(a));
        assert(hex_digit(y) == lower_byte(b));
        if j % 2 == 0 {
            assert(j == 2 * k);
        } else {
            assert(j == 2 * k + 1);
        }
    }
    assert(hex_lower(v) =~= want);
}

} // verus!
