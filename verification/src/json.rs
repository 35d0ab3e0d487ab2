//! A JSON-like text form for decoded values, used by the `decode`
//! command: integers in decimal, byte strings quoted with one
//! character per byte and the usual escapes, lists bracketed,
//! dictionaries braced with keys in stored order.

use vstd::prelude::*;

use crate::hex::hex_digit;
use crate::value::{BValue, Bencode, bview, bview_entries, bview_items, int_lit, latin1_chars};

verus! {

/// The text standing for one byte inside a quoted string.
pub open spec fn esc_byte(x: u8) -> Seq<char> {
    if x == 34 {
        seq!['\\', '"']
    } else if x == 92 {
        seq!['\\', '\\']
    } else if x == 8 {
        seq!['\\', 'b']
    } else if x == 9 {
        seq!['\\', 't']
    } else if x == 10 {
        seq!['\\', 'n']
    } else if x == 12 {
        seq!['\\', 'f']
    } else if x == 13 {
        seq!['\\', 'r']
    } else if x < 32 {
        seq!['\\', 'u', '0', '0', hex_digit(x / 16), hex_digit(x % 16)]
    } else {
        seq![x as char]
    }
}

/// The quoted-string body for a byte string, from index `k` on.
pub open spec fn json_str_body(b: Seq<u8>, k: int) -> Seq<char>
    decreases b.len() - k,
{
    if k < 0 || k >= b.len() {
        Seq::empty()
    } else {
        esc_byte(b[k]) + json_str_body(b, k + 1)
    }
}

/// The text of one value.
pub open spec fn json_of(v: BValue) -> Seq<char>
    decreases v, 0int,
{
    match v {
        BValue::Int(n) => latin1_chars(int_lit(n)),
        BValue::Bytes(b) => seq!['"'] + json_str_body(b, 0) + seq!['"'],
        BValue::List(vs) => seq!['['] + json_items(vs, 0) + seq![']'],
        BValue::Dict(es) => seq!['{'] + json_entries(es, 0) + seq!['}'],
    }
}

/// The comma-separated texts of the list items from index `k` on.
pub open spec fn json_items(vs: Seq<BValue>, k: int) -> Seq<char>
    decreases vs, vs.len() - k,
{
    if k < 0 || k >= vs.len() {
        Seq::empty()
    } else {
        (if k > 0 {
            seq![',']
        } else {
            Seq::empty()
        }) + json_of(vs[k]) + json_items(vs, k + 1)
    }
}

/// The comma-separated `"key":value` texts of the dictionary entries
/// from index `k` on.
pub open spec fn json_entries(es: Seq<(Seq<u8>, BValue)>, k: int) -> Seq<char>
    decreases es, es.len() - k,
{
    if k < 0 || k >= es.len() {
        Seq::empty()
    } else {
        (if k > 0 {
            seq![',']
        } else {
            Seq::empty()
        }) + seq!['"'] + json_str_body(es[k].0, 0) + seq!['"', ':'] + json_of(es[k].1)
            + json_entries(es, k + 1)
    }
}

/// Appends the escape text of one byte.
fn push_escaped(out: &mut String, x: u8)
    ensures
        final(out)@ == old(out)@ + esc_byte(x),
{
    if x == 34 {
        out.push('\\');
        out.push('"');
        assert(old(out)@.push('\\').push('"') =~= old(out)@ + esc_byte(x));
    } else if x == 92 {
        out.push('\\');
        out.push('\\');
        assert(old(out)@.push('\\').push('\\') =~= old(out)@ + esc_byte(x));
    } else if x == 8 {
        out.push('\\');
        out.push('b');
        assert(old(out)@.push('\\').push('b') =~= old(out)@ + esc_byte(x));
    } else if x == 9 {
        out.push('\\');
        out.push('t');
        assert(old(out)@.push('\\').push('t') =~= old(out)@ + esc_byte(x));
    } else if x == 10 {
        out.push('\\');
        out.push('n');
        assert(old(out)@.push('\\').push('n') =~= old(out)@ + esc_byte(x));
    } else if x == 12 {
        out.push('\\');
        out.push('f');
        assert(old(out)@.push('\\').push('f') =~= old(out)@ + esc_byte(x));
    } else if x == 13 {
        out.push('\\');
        out.push('r');
        assert(old(out)@.push('\\').push('r') =~= old(out)@ + esc_byte(x));
    } else if x < 32 {
        out.push('\\');
        out.push('u');
        out.push('0');
        out.push('0');
        let hi = x / 16;
        let lo = x % 16;
        let hc: u8 = if hi < 10 {
            48 + hi
        } else {
            87 + hi
        };
        let lc: u8 = if lo < 10 {
            48 + lo
        } else {
            87 + lo
        };
        out.push(hc as char);
        out.push(lc as char);
        assert(old(out)@.push('\\').push('u').push('0').push('0').push(hex_digit(x / 16)).push(
            hex_digit(x % 16),
        ) =~= old(out)@ + esc_byte(x));
    } else {
        out.push(x as char);
        assert(old(out)@.push(x as char) =~= old(out)@ + esc_byte(x));
    }
}

/// Appends the quoted form of a byte string.
fn append_quoted(out: &mut String, b: &Vec<u8>)
    ensures
        final(out)@ == old(out)@ + seq!['"'] + json_str_body(b@, 0) + seq!['"'],
{
    out.push('"');
    let mut k: usize = 0;
    let n = b.len();
    proof {
        assert(old(out)@.push('"') =~= old(out)@ + seq!['"']);
    }
    while k < n
        invariant
            0 <= k <= n,
            n == b@.len(),
            out@ + json_str_body(b@, k as int) == old(out)@ + seq!['"'] + json_str_body(b@, 0),
        decreases n - k,
    {
        push_escaped(out, b[k]);
        proof {
            assert(json_str_body(b@, k as int) == esc_byte(b@[k as int]) + json_str_body(
                b@,
                k as int + 1,
            ));
            assert((out@ + esc_byte(b@[k as int])) + json_str_body(b@, k as int + 1) =~= out@
                + json_str_body(b@, k as int));
        }
        k = k + 1;
    }
    proof {
        assert(json_str_body(b@, n as int) =~= Seq::<char>::empty());
        assert(out@ + json_str_body(b@, n as int) =~= out@);
    }
    out.push('"');
    proof {
        assert((old(out)@ + seq!['"'] + json_str_body(b@, 0)).push('"') =~= old(out)@ + seq!['"']
            + json_str_body(b@, 0) + seq!['"']);
    }
}

/// Appends the decimal text of an integer.
fn append_int(out: &mut String, i: i64)
    ensures
        final(out)@ == old(out)@ + latin1_chars(int_lit(i as int)),
{
    let mut ec = crate::encode::EncodeContext::new();
    if i < 0 {
        ec.push_char('-');
        let mag: u64 = if i == i64::MIN {
            9223372036854775808u64
        } else {
            (-i) as u64
        };
        ec.push_u64(mag);
        proof {
            assert(mag as nat == (-(i as int)) as nat);
            assert(Seq::<u8>::empty().push('-' as u8) + crate::value::dec_digits(mag as nat)
                =~= int_lit(i as int));
        }
    } else {
        ec.push_u64(i as u64);
        proof {
            assert(Seq::<u8>::empty() + crate::value::dec_digits((i as u64) as nat) =~= int_lit(
                i as int,
            ));
        }
    }
    let digits = ec.consume();
    let mut k: usize = 0;
    let n = digits.len();
    proof {
        assert(out@ + latin1_chars(digits@.subrange(0, 0)) =~= out@);
    }
    while k < n
        invariant
            0 <= k <= n,
            n == digits@.len(),
            digits@ == int_lit(i as int),
            out@ == old(out)@ + latin1_chars(digits@.subrange(0, k as int)),
        decreases n - k,
    {
        let c = digits[k];
        out.push(c as char);
        proof {
            assert(latin1_chars(digits@.subrange(0, k as int + 1)) =~= latin1_chars(
                digits@.subrange(0, k as int),
            ).push(digits@[k as int] as char));
        }
        k = k + 1;
    }
    proof {
        assert(digits@.subrange(0, n as int) =~= digits@);
    }
}

/// Appends the text of one value.
fn append_value(out: &mut String, v: &Bencode)
    ensures
        final(out)@ == old(out)@ + json_of(v@),
    decreases v, 1int,
{
    match v {
        Bencode::Int(n) => {
            append_int(out, *n);
        },
        Bencode::Bytes(b) => {
            append_quoted(out, b);
            proof {
                assert((old(out)@ + seq!['"'] + json_str_body(b@, 0) + seq!['"']) =~= old(out)@
                    + json_of(v@));
            }
        },
        Bencode::List(l) => {
            append_list(out, l);
        },
        Bencode::Dict(d) => {
            append_dict(out, d);
        },
    }
}

/// Appends the bracketed, comma-separated text of a list.
fn append_list(out: &mut String, l: &Vec<Bencode>)
    ensures
        final(out)@ == old(out)@ + json_of(BValue::List(bview_items(l@, 0))),
    decreases l, 0int,
{
    let ghost vs = bview_items(l@, 0);
    proof {
        crate::value::lemma_bview_items_index(l@, 0);
    }
    out.push('[');
    let mut k: usize = 0;
    let n = l.len();
    proof {
        assert(old(out)@.push('[') =~= old(out)@ + seq!['[']);
    }
    while k < n
        invariant
            0 <= k <= n,
            n == l@.len(),
            vs == bview_items(l@, 0),
            vs.len() == n,
            forall|m: int| 0 <= m < n ==> vs[m] == bview(#[trigger] l@[m]),
            out@ + json_items(vs, k as int) == old(out)@ + seq!['['] + json_items(vs, 0),
        decreases n - k,
    {
        if k > 0 {
            out.push(',');
            append_value(out, &l[k]);
            proof {
                assert(json_items(vs, k as int) == seq![','] + json_of(vs[k as int]) + json_items(
                    vs,
                    k as int + 1,
                ));
                assert(((out@.push(',')) + json_of(vs[k as int])) + json_items(vs, k as int + 1)
                    =~= out@ + json_items(vs, k as int));
            }
        } else {
            append_value(out, &l[k]);
            proof {
                assert(json_items(vs, k as int) == Seq::<char>::empty() + json_of(vs[k as int])
                    + json_items(vs, k as int + 1));
                assert((out@ + json_of(vs[k as int])) + json_items(vs, k as int + 1) =~= out@
                    + json_items(vs, k as int));
            }
        }
        k = k + 1;
    }
    proof {
        assert(json_items(vs, n as int) =~= Seq::<char>::empty());
        assert(out@ + json_items(vs, n as int) =~= out@);
    }
    out.push(']');
    proof {
        assert((old(out)@ + seq!['['] + json_items(vs, 0)).push(']') =~= old(out)@ + json_of(
            BValue::List(vs),
        ));
    }
}

/// Appends the braced, comma-separated text of a dictionary.
fn append_dict(out: &mut String, d: &Vec<(Vec<u8>, Bencode)>)
    ensures
        final(out)@ == old(out)@ + json_of(BValue::Dict(bview_entries(d@, 0))),
    decreases d, 0int,
{
    let ghost es = bview_entries(d@, 0);
    proof {
        crate::value::lemma_bview_entries_index(d@, 0);
    }
    out.push('{');
    let mut k: usize = 0;
    let n = d.len();
    proof {
        assert(old(out)@.push('{') =~= old(out)@ + seq!['{']);
    }
    while k < n
        invariant
            0 <= k <= n,
            n == d@.len(),
            es == bview_entries(d@, 0),
            es.len() == n,
            forall|m: int| 0 <= m < n ==> es[m] == (#[trigger] d@[m].0@, bview(d@[m].1)),
            out@ + json_entries(es, k as int) == old(out)@ + seq!['{'] + json_entries(es, 0),
        decreases n - k,
    {
        let ghost pre = out@;
        if k > 0 {
            out.push(',');
        }
        append_quoted(out, &d[k].0);
        out.push(':');
        append_value(out, &d[k].1);
        proof {
            let sep: Seq<char> = if k > 0 {
                seq![',']
            } else {
                Seq::empty()
            };
            if k > 0 {
                assert(pre.push(',') =~= pre + sep);
            } else {
                assert(pre =~= pre + sep);
            }
            assert(json_entries(es, k as int) == sep + seq!['"'] + json_str_body(
                es[k as int].0,
                0,
            ) + seq!['"', ':'] + json_of(es[k as int].1) + json_entries(es, k as int + 1));
            assert(((pre + sep + seq!['"'] + json_str_body(es[k as int].0, 0) + seq!['"']).push(
                ':',
            ) + json_of(es[k as int].1)) + json_entries(es, k as int + 1) =~= pre + json_entries(
                es,
                k as int,
            ));
        }
        k = k + 1;
    }
    proof {
        assert(json_entries(es, n as int) =~= Seq::<char>::empty());
        assert(out@ + json_entries(es, n as int) =~= out@);
    }
    out.push('}');
    proof {
        assert((old(out)@ + seq!['{'] + json_entries(es, 0)).push('}') =~= old(out)@ + json_of(
            BValue::Dict(es),
        ));
    }
}

/// The JSON-like text of one decoded value.
pub fn to_json_string(v: &Bencode) -> (r: String)
    ensures
        r@ == json_of(v@),
{
    let mut out = String::new();
    append_value(&mut out, v);
    proof {
        assert(Seq::<char>::empty() + json_of(v@) =~= json_of(v@));
    }
    out
}

} // verus!
