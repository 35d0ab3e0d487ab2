//! Small executable helpers over ASCII digit strings and byte order.

use vstd::prelude::*;

use crate::value::{all_digits, dec_val, is_digit, lemma_dec_val_nonneg, lemma_dec_val_prefix, lex_lt};

verus! {

/// Relies on String::push: appends the given character to the end of
/// the string.
pub assume_specification[ String::push ](s: &mut String, ch: char)
    ensures
        final(s)@ == old(s)@.push(ch),
;

/// The byte is an ASCII decimal digit.
pub fn u8_is_digit(n: &u8) -> (r: bool)
    ensures
        r == is_digit(*n),
{
    *n >= 48 && *n <= 57
}

/// Reads a digit slice as an unsigned decimal number.  Returns the
/// value exactly when the slice is all digits and the value fits
/// `usize`; an empty slice reads as zero.
pub fn char_slice_to_usize(data: &[u8]) -> (r: Option<usize>)
    ensures
        match r {
            Some(v) => all_digits(data@) && v == dec_val(data@),
            None => !(all_digits(data@) && dec_val(data@) <= usize::MAX),
        },
{
    let ghost s = data@;
    let mut ret: usize = 0;
    let mut i: usize = 0;
    let n = data.len();
    while i < n
        invariant
            0 <= i <= n,
            n == s.len(),
            s == data@,
            forall|m: int| 0 <= m < i ==> is_digit(#[trigger] s[m]),
            ret == dec_val(s.subrange(0, i as int)),
        decreases n - i,
    {
        let d = *vstd::slice::slice_index_get(data, i);
        if !(d >= 48 && d <= 57) {
            assert(!all_digits(s));
            return None;
        }
        let dd = (d - 48) as usize;
        proof {
            let pre = s.subrange(0, i as int);
            let cur = s.subrange(0, i as int + 1);
            assert(cur.drop_last() =~= pre);
            assert(cur.last() == s[i as int]);
            assert(dec_val(cur) == dec_val(pre) * 10 + dd);
        }
        let r10 = match ret.checked_mul(10) {
            Some(v) => v,
            None => {
                proof {
                    lemma_overflow(s, i as int + 1);
                }
                return None;
            },
        };
        let r2 = match r10.checked_add(dd) {
            Some(v) => v,
            None => {
                proof {
                    lemma_overflow(s, i as int + 1);
                }
                return None;
            },
        };
        ret = r2;
        i = i + 1;
    }
    proof {
        assert(s.subrange(0, n as int) =~= s);
    }
    Some(ret)
}

/// Reads a digit slice as an unsigned 64-bit decimal number, exactly
/// when the slice is all digits and the value fits `u64`.
pub fn char_slice_to_u64(data: &[u8]) -> (r: Option<u64>)
    ensures
        match r {
            Some(v) => all_digits(data@) && v == dec_val(data@),
            None => !(all_digits(data@) && dec_val(data@) <= u64::MAX),
        },
{
    let ghost s = data@;
    let mut ret: u64 = 0;
    let mut i: usize = 0;
    let n = data.len();
    while i < n
        invariant
            0 <= i <= n,
            n == s.len(),
            s == data@,
            forall|m: int| 0 <= m < i ==> is_digit(#[trigger] s[m]),
            ret == dec_val(s.subrange(0, i as int)),
        decreases n - i,
    {
        let d = *vstd::slice::slice_index_get(data, i);
        if !(d >= 48 && d <= 57) {
            assert(!all_digits(s));
            return None;
        }
        let dd = (d - 48) as u64;
        proof {
            let pre = s.subrange(0, i as int);
            let cur = s.subrange(0, i as int + 1);
            assert(cur.drop_last() =~= pre);
            assert(cur.last() == s[i as int]);
            assert(dec_val(cur) == dec_val(pre) * 10 + dd);
        }
        let r10 = match ret.checked_mul(10) {
            Some(v) => v,
            None => {
                proof {
                    lemma_overflow64(s, i as int + 1);
                }
                return None;
            },
        };
        let r2 = match r10.checked_add(dd) {
            Some(v) => v,
            None => {
                proof {
                    lemma_overflow64(s, i as int + 1);
                }
                return None;
            },
        };
        ret = r2;
        i = i + 1;
    }
    proof {
        assert(s.subrange(0, n as int) =~= s);
    }
    Some(ret)
}

/// If some digit prefix of `s` already exceeds `u64::MAX`, then so
/// does the whole digit string, whenever it is all digits.
proof fn lemma_overflow64(s: Seq<u8>, k: int)
    requires
        0 <= k <= s.len(),
        dec_val(s.subrange(0, k)) > u64::MAX,
    ensures
        !(all_digits(s) && dec_val(s) <= u64::MAX),
{
    if all_digits(s) {
        lemma_dec_val_prefix(s, k);
    }
}

/// If some digit prefix of `s` already exceeds `usize::MAX`, then so
/// does the whole digit string, whenever it is all digits.
proof fn lemma_overflow(s: Seq<u8>, k: int)
    requires
        0 <= k <= s.len(),
        dec_val(s.subrange(0, k)) > usize::MAX,
    ensures
        !(all_digits(s) && dec_val(s) <= usize::MAX),
{
    if all_digits(s) {
        lemma_dec_val_prefix(s, k);
    }
}

/// Reads a signed decimal slice: an optional leading minus sign, then
/// digits.  Mirrors `char_slice_to_usize`, with an empty digit part
/// reading as zero.  Returns the value exactly when the digit part is
/// all digits and the value fits `isize`.
pub fn char_slice_to_isize(data: &[u8]) -> (r: Option<isize>)
    ensures
        match r {
            Some(v) => int_slice_digits_ok(data@) && v == int_slice_val(data@),
            None => !(int_slice_digits_ok(data@) && isize::MIN <= int_slice_val(data@)
                <= isize::MAX),
        },
{
    let n = data.len();
    let neg = n > 0 && *vstd::slice::slice_index_get(data, 0) == 45;
    let start: usize = if neg {
        1
    } else {
        0
    };
    let digits = vstd::slice::slice_subrange(data, start, n);
    let ghost ds = data@.subrange(start as int, n as int);
    proof {
        if !neg {
            assert(ds =~= data@);
        }
        assert(0 <= isize::MAX < usize::MAX);
        assert(isize::MIN == -isize::MAX - 1);
    }
    let mag = match char_slice_to_usize(digits) {
        Some(v) => v,
        None => {
            proof {
                if all_digits(ds) {
                    lemma_dec_val_nonneg(ds);
                    assert(dec_val(ds) > usize::MAX);
                }
            }
            return None;
        },
    };
    proof {
        lemma_dec_val_nonneg(ds);
    }
    if neg {
        if mag <= (isize::MAX as usize) {
            Some(-(mag as isize))
        } else if mag == (isize::MAX as usize) + 1 {
            Some(isize::MIN)
        } else {
            None
        }
    } else {
        if mag <= (isize::MAX as usize) {
            Some(mag as isize)
        } else {
            None
        }
    }
}

/// The shape a signed decimal slice must have: after an optional
/// leading minus sign, only digits.
pub open spec fn int_slice_digits_ok(s: Seq<u8>) -> bool {
    if s.len() > 0 && s[0] == 45 {
        all_digits(s.subrange(1, s.len() as int))
    } else {
        all_digits(s)
    }
}

/// The value a signed decimal slice denotes.
pub open spec fn int_slice_val(s: Seq<u8>) -> int {
    if s.len() > 0 && s[0] == 45 {
        -dec_val(s.subrange(1, s.len() as int))
    } else {
        dec_val(s)
    }
}

/// Appends every byte of a slice.
pub fn push_all(out: &mut Vec<u8>, s: &[u8])
    ensures
        final(out)@ == old(out)@ + s@,
{
    let n = s.len();
    let mut i: usize = 0;
    proof {
        assert(old(out)@ + s@.subrange(0, 0) =~= old(out)@);
    }
    while i < n
        invariant
            0 <= i <= n,
            n == s@.len(),
            out@ == old(out)@ + s@.subrange(0, i as int),
        decreases n - i,
    {
        out.push(*vstd::slice::slice_index_get(s, i));
        proof {
            assert(old(out)@ + s@.subrange(0, i as int + 1) =~= out@);
        }
        i = i + 1;
    }
    proof {
        assert(s@.subrange(0, n as int) =~= s@);
    }
}

/// Byte-for-byte equality of two byte vectors.
pub fn bytes_eq(a: &Vec<u8>, b: &Vec<u8>) -> (r: bool)
    ensures
        r == (a@ == b@),
{
    if a.len() != b.len() {
        return false;
    }
    let n = a.len();
    let mut i: usize = 0;
    while i < n
        invariant
            0 <= i <= n,
            n == a@.len() == b@.len(),
            forall|m: int| 0 <= m < i ==> a@[m] == b@[m],
        decreases n - i,
    {
        if a[i] != b[i] {
            return false;
        }
        i = i + 1;
    }
    proof {
        assert(a@ =~= b@);
    }
    true
}

/// Raw bytes read as text, one character per byte.
pub fn latin1_string(b: &Vec<u8>) -> (r: String)
    ensures
        r@ == crate::value::latin1_chars(b@),
{
    let mut st = String::new();
    let mut i: usize = 0;
    let n = b.len();
    proof {
        assert(st@ =~= crate::value::latin1_chars(b@.subrange(0, 0)));
    }
    while i < n
        invariant
            0 <= i <= n,
            n == b@.len(),
            st@ == crate::value::latin1_chars(b@.subrange(0, i as int)),
        decreases n - i,
    {
        let c = b[i];
        st.push(c as char);
        proof {
            assert(crate::value::latin1_chars(b@.subrange(0, i as int + 1)) =~= st@);
        }
        i = i + 1;
    }
    proof {
        assert(b@.subrange(0, n as int) =~= b@);
    }
    st
}

/// Strict byte-wise comparison of two byte vectors.
pub fn lex_lt_bytes(a: &Vec<u8>, b: &Vec<u8>) -> (r: bool)
    ensures
        r == lex_lt(a@, b@),
{
    let mut i: usize = 0;
    proof {
        assert(a@.skip(0) =~= a@);
        assert(b@.skip(0) =~= b@);
    }
    loop
        invariant
            0 <= i <= a.len(),
            i <= b.len(),
            lex_lt(a@, b@) == lex_lt(a@.skip(i as int), b@.skip(i as int)),
        decreases a.len() - i,
    {
        if i >= b.len() {
            assert(b@.skip(i as int).len() == 0);
            return false;
        }
        if i >= a.len() {
            assert(a@.skip(i as int).len() == 0);
            assert(b@.skip(i as int).len() > 0);
            return true;
        }
        let x = a[i];
        let y = b[i];
        proof {
            assert(a@.skip(i as int)[0] == a@[i as int]);
            assert(b@.skip(i as int)[0] == b@[i as int]);
        }
        if x < y {
            return true;
        }
        if x > y {
            return false;
        }
        proof {
            let p = a@.skip(i as int);
            let q = b@.skip(i as int);
            assert(p.subrange(1, p.len() as int) =~= a@.skip(i as int + 1));
            assert(q.subrange(1, q.len() as int) =~= b@.skip(i as int + 1));
        }
        i = i + 1;
    }
}

} // verus!
