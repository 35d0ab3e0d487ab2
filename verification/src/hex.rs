//! Hex text for byte strings: the info-hash travels as 40 hex
//! characters, and piece hashes are printed the same way.

use vstd::prelude::*;

use crate::value::latin1_chars;

verus! {

/// The lower-case hex digit character of a value below 16.
pub open spec fn hex_digit(n: u8) -> char {
    if n < 10 {
        (48 + n) as char
    } else {
        (87 + n) as char
    }
}

/// Lower-case hex text of a byte sequence, two digits per byte, high
/// digit first.
pub open spec fn hex_chars(b: Seq<u8>) -> Seq<char> {
    Seq::new(
        b.len() * 2,
        |i: int|
            if i % 2 == 0 {
                hex_digit(b[i / 2] / 16)
            } else {
                hex_digit(b[i / 2] % 16)
            },
    )
}

/// The byte is an ASCII hex digit, of either case.
pub open spec fn is_hex_byte(c: u8) -> bool {
    (48 <= c <= 57) || (97 <= c <= 102) || (65 <= c <= 70)
}

/// The value of one ASCII hex digit byte.
pub open spec fn hex_byte_val(c: u8) -> u8 {
    if 48 <= c <= 57 {
        (c - 48) as u8
    } else if 97 <= c <= 102 {
        (c - 87) as u8
    } else {
        (c - 55) as u8
    }
}

/// The bytes a hex text stands for, one byte per digit pair.
pub open spec fn bytes_of_hex(s: Seq<u8>) -> Seq<u8> {
    Seq::new(s.len() / 2, |i: int| (16 * hex_byte_val(s[2 * i]) + hex_byte_val(s[2 * i + 1])) as u8)
}

/// Every byte of `s` is an ASCII hex digit.
pub open spec fn all_hex(s: Seq<u8>) -> bool {
    forall|i: int| 0 <= i < s.len() ==> is_hex_byte(#[trigger] s[i])
}

/// Encodes bytes as lower-case hex text, two digits per byte.
pub fn hex_encode(b: &Vec<u8>) -> (r: String)
    ensures
        r@ == hex_chars(b@),
{
    let mut out = String::new();
    let mut i: usize = 0;
    let n = b.len();
    proof {
        assert(out@ =~= hex_chars(b@.subrange(0, 0)));
    }
    while i < n
        invariant
            0 <= i <= n,
            n == b@.len(),
            out@ == hex_chars(b@.subrange(0, i as int)),
        decreases n - i,
    {
        let x = b[i];
        let hi = x / 16;
        let lo = x % 16;
        let hc: u8 = if hi < 10 {
            48 + hi
        } else {
            87 + hi
        };
        let lc: u8 = if lo < 10 {
            48 + lo
        } else {
            87 + lo
        };
        out.push(hc as char);
        out.push(lc as char);
        proof {
            assert(hex_chars(b@.subrange(0, i as int + 1)) =~= out@);
        }
        i = i + 1;
    }
    proof {
        assert(b@.subrange(0, n as int) =~= b@);
    }
    out
}

/// The lower-case hex text of a byte vector; kept under the name the
/// callers use for printing binary fields.
pub fn encode_bytes_to_string(d: &Vec<u8>) -> (r: String)
    ensures
        r@ == hex_chars(d@),
{
    hex_encode(d)
}

/// Decodes hex text bytes into the bytes they stand for; accepts both
/// cases, and exactly the even-length all-hex inputs.
pub fn hex_decode(s: &Vec<u8>) -> (r: Option<Vec<u8>>)
    ensures
        match r {
            Some(v) => s@.len() % 2 == 0 && all_hex(s@) && v@ == bytes_of_hex(s@),
            None => !(s@.len() % 2 == 0 && all_hex(s@)),
        },
{
    let n = s.len();
    if n % 2 != 0 {
        return None;
    }
    let mut out: Vec<u8> = Vec::new();
    let mut i: usize = 0;
    proof {
        assert(out@ =~= bytes_of_hex(s@).subrange(0, 0));
    }
    while i < n
        invariant
            0 <= i <= n,
            i % 2 == 0,
            n % 2 == 0,
            n == s@.len(),
            forall|m: int| 0 <= m < i ==> is_hex_byte(#[trigger] s@[m]),
            out@ == bytes_of_hex(s@).subrange(0, i as int / 2),
        decreases n - i,
    {
        let a = s[i];
        let b = s[i + 1];
        let av = if a >= 48 && a <= 57 {
            a - 48
        } else if a >= 97 && a <= 102 {
            a - 87
        } else if a >= 65 && a <= 70 {
            a - 55
        } else {
            assert(!is_hex_byte(s@[i as int]));
            return None;
        };
        let bv = if b >= 48 && b <= 57 {
            b - 48
        } else if b >= 97 && b <= 102 {
            b - 87
        } else if b >= 65 && b <= 70 {
            b - 55
        } else {
            assert(!is_hex_byte(s@[i as int + 1]));
            return None;
        };
        out.push(16 * av + bv);
        proof {
            assert(out@ =~= bytes_of_hex(s@).subrange(0, (i as int + 2) / 2));
        }
        i = i + 2;
    }
    proof {
        assert(bytes_of_hex(s@).subrange(0, n as int / 2) =~= bytes_of_hex(s@));
    }
    Some(out)
}

/// Lower-casing of hex text: the letters `A` to `F` drop to their
/// lower-case forms, all else stays.
pub open spec fn lower_hex_bytes(s: Seq<u8>) -> Seq<u8> {
    Seq::new(
        s.len(),
        |i: int|
            if 65 <= s[i] <= 70 {
                (s[i] + 32) as u8
            } else {
                s[i]
            },
    )
}

/// Round trip: re-encoding decoded hex text yields the original text
/// lower-cased, so the hex form survives case-insensitively.
pub proof fn lemma_hex_round_trip(s: Seq<u8>)
    requires
        s.len() % 2 == 0,
        all_hex(s),
    ensures
        hex_chars(bytes_of_hex(s)) == latin1_chars(lower_hex_bytes(s)),
{
    let b = bytes_of_hex(s);
    assert forall|i: int| 0 <= i < s.len() implies hex_chars(b)[i] == latin1_chars(
        lower_hex_bytes(s),
    )[i] by {
        let j = i / 2;
        let hi = hex_byte_val(s[2 * j]);
        let lo = hex_byte_val(s[2 * j + 1]);
        assert(is_hex_byte(s[2 * j]));
        assert(is_hex_byte(s[2 * j + 1]));
        assert(hi < 16 && lo < 16);
        assert(b[j] == (16 * hi + lo) as u8);
        assert(b[j] / 16 == hi && b[j] % 16 == lo);
        if i % 2 == 0 {
            assert(i == 2 * j);
            assert(hex_chars(b)[i] == hex_digit(hi));
        } else {
            assert(i == 2 * j + 1);
            assert(hex_chars(b)[i] == hex_digit(lo));
        }
    }
    assert(hex_chars(b) =~= latin1_chars(lower_hex_bytes(s)));
}

} // verus!
