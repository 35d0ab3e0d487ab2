//! Round-trip laws of the bencode codec.
//!
//! Soundness: whatever the parser accepts is well formed, and its
//! canonical encoding is exactly the bytes consumed.  Completeness:
//! the parser accepts the canonical encoding of every well-formed
//! value.  Together they give the round trip
//! `encode(decode(B)) == B` for every canonical byte sequence `B`.

use vstd::prelude::*;

use crate::decode::{
    digits_end, lemma_digits_end, spec_parse, spec_parse_bstr, spec_parse_entries,
    spec_parse_int, spec_parse_items,
};
use crate::value::{
    BValue, all_digits, bstr_enc, bval_enc, bval_wf, canon_digits, dec_digits, dec_val,
    enc_entries, enc_items, int_lit, is_digit, keys_sorted, lemma_canon_digits_round_trip,
    lemma_dec_digits_props, lex_lt, wf_entries, wf_items,
};

verus! {

/// Dropping the head of a list shifts the item encodings by one index.
pub proof fn lemma_enc_items_shift(vs: Seq<BValue>, k: int)
    requires
        vs.len() >= 1,
        0 <= k <= vs.len() - 1,
    ensures
        enc_items(vs, k + 1) == enc_items(vs.subrange(1, vs.len() as int), k),
    decreases vs.len() - k,
{
    let rest = vs.subrange(1, vs.len() as int);
    if k == vs.len() - 1 {
        assert(enc_items(vs, k + 1) =~= Seq::<u8>::empty());
        assert(enc_items(rest, k) =~= Seq::<u8>::empty());
    } else {
        lemma_enc_items_shift(vs, k + 1);
        assert(rest[k] == vs[k + 1]);
        assert(enc_items(vs, k + 1) =~= enc_items(rest, k));
    }
}

/// The item encodings of a nonempty list split into head and tail.
pub proof fn lemma_enc_items_cons(vs: Seq<BValue>)
    requires
        vs.len() >= 1,
    ensures
        enc_items(vs, 0) == bval_enc(vs[0]) + enc_items(vs.subrange(1, vs.len() as int), 0),
{
    lemma_enc_items_shift(vs, 0);
}

/// Dropping the head of a dictionary shifts the entry encodings by one.
pub proof fn lemma_enc_entries_shift(es: Seq<(Seq<u8>, BValue)>, k: int)
    requires
        es.len() >= 1,
        0 <= k <= es.len() - 1,
    ensures
        enc_entries(es, k + 1) == enc_entries(es.subrange(1, es.len() as int), k),
    decreases es.len() - k,
{
    let rest = es.subrange(1, es.len() as int);
    if k == es.len() - 1 {
        assert(enc_entries(es, k + 1) =~= Seq::<u8>::empty());
        assert(enc_entries(rest, k) =~= Seq::<u8>::empty());
    } else {
        lemma_enc_entries_shift(es, k + 1);
        assert(rest[k] == es[k + 1]);
        assert(enc_entries(es, k + 1) =~= enc_entries(rest, k));
    }
}

/// The entry encodings of a nonempty dictionary split into head and
/// tail.
pub proof fn lemma_enc_entries_cons(es: Seq<(Seq<u8>, BValue)>)
    requires
        es.len() >= 1,
    ensures
        enc_entries(es, 0) == bstr_enc(es[0].0) + bval_enc(es[0].1) + enc_entries(
            es.subrange(1, es.len() as int),
            0,
        ),
{
    lemma_enc_entries_shift(es, 0);
}

/// Well-formedness of all items equals head plus tail.
pub proof fn lemma_wf_items_shift(vs: Seq<BValue>, k: int)
    requires
        vs.len() >= 1,
        0 <= k <= vs.len() - 1,
    ensures
        wf_items(vs, k + 1) == wf_items(vs.subrange(1, vs.len() as int), k),
    decreases vs.len() - k,
{
    let rest = vs.subrange(1, vs.len() as int);
    if k < vs.len() - 1 {
        lemma_wf_items_shift(vs, k + 1);
        assert(rest[k] == vs[k + 1]);
    }
}

/// Well-formedness of all entries equals head plus tail.
pub proof fn lemma_wf_entries_shift(es: Seq<(Seq<u8>, BValue)>, k: int)
    requires
        es.len() >= 1,
        0 <= k <= es.len() - 1,
    ensures
        wf_entries(es, k + 1) == wf_entries(es.subrange(1, es.len() as int), k),
    decreases es.len() - k,
{
    let rest = es.subrange(1, es.len() as int);
    if k < es.len() - 1 {
        lemma_wf_entries_shift(es, k + 1);
        assert(rest[k] == es[k + 1]);
    }
}

/// Sortedness of a dictionary follows from sortedness of the tail and
/// the head key standing below the first tail key.
pub proof fn lemma_keys_sorted_cons(es: Seq<(Seq<u8>, BValue)>)
    requires
        es.len() >= 1,
        keys_sorted(es.subrange(1, es.len() as int)),
        es.len() >= 2 ==> lex_lt(es[0].0, es[1].0),
    ensures
        keys_sorted(es),
{
    let rest = es.subrange(1, es.len() as int);
    assert forall|i: int| 0 <= i && i + 1 < es.len() implies lex_lt(#[trigger] es[i].0, es[i + 1].0)
        by {
        if i >= 1 {
            assert(es[i] == rest[i - 1]);
            assert(es[i + 1] == rest[i]);
        }
    }
}

/// An encoded value is nonempty and never starts with the terminator
/// byte `e`.
pub proof fn lemma_enc_first(v: BValue)
    ensures
        bval_enc(v).len() >= 1,
        bval_enc(v)[0] != 101u8,
        is_digit(bval_enc(v)[0]) || bval_enc(v)[0] == 105u8 || bval_enc(v)[0] == 108u8 || bval_enc(
            v,
        )[0] == 100u8,
{
    match v {
        BValue::Int(n) => {
        },
        BValue::Bytes(b) => {
            lemma_dec_digits_props(b.len());
            let d = dec_digits(b.len());
            assert(bstr_enc(b)[0] == d[0]);
            assert(is_digit(d[0]));
        },
        BValue::List(vs) => {
        },
        BValue::Dict(es) => {
        },
    }
}

/// If `t` occupies the bytes of `s` from `i` on, every byte of `t`
/// can be read off `s` directly.
pub proof fn lemma_subrange_index(s: Seq<u8>, i: int, t: Seq<u8>)
    requires
        0 <= i,
        i + t.len() <= s.len(),
        s.subrange(i, i + t.len() as int) == t,
    ensures
        forall|m: int| 0 <= m < t.len() ==> #[trigger] t[m] == s[i + m],
{
    assert forall|m: int| 0 <= m < t.len() implies #[trigger] t[m] == s[i + m] by {
        assert(s.subrange(i, i + t.len() as int)[m] == s[i + m]);
    }
}

/// If two concatenated pieces occupy the bytes of `s` from `i` on,
/// each piece occupies its own subrange.
pub proof fn lemma_split2(s: Seq<u8>, i: int, a: Seq<u8>, b: Seq<u8>)
    requires
        0 <= i,
        i + a.len() + b.len() <= s.len(),
        s.subrange(i, i + a.len() + b.len()) == a + b,
    ensures
        s.subrange(i, i + a.len() as int) == a,
        s.subrange(i + a.len(), i + a.len() + b.len()) == b,
{
    let whole = a + b;
    lemma_subrange_index(s, i, whole);
    assert(s.subrange(i, i + a.len() as int) =~= a) by {
        assert forall|m: int| 0 <= m < a.len() implies s.subrange(i, i + a.len() as int)[m] == a[m]
            by {
            assert(whole[m] == s[i + m]);
            assert((a + b)[m] == a[m]);
        }
    }
    assert(s.subrange(i + a.len(), i + a.len() + b.len()) =~= b) by {
        assert forall|m: int| 0 <= m < b.len() implies s.subrange(
            i + a.len(),
            i + a.len() + b.len(),
        )[m] == b[m] by {
            assert(whole[a.len() + m] == s[i + a.len() + m]);
            assert((a + b)[a.len() + m] == b[m]);
        }
    }
}

/// If three concatenated pieces occupy the bytes of `s` from `i` on,
/// each piece occupies its own subrange.
pub proof fn lemma_split3(s: Seq<u8>, i: int, a: Seq<u8>, b: Seq<u8>, c: Seq<u8>)
    requires
        0 <= i,
        i + a.len() + b.len() + c.len() <= s.len(),
        s.subrange(i, i + a.len() + b.len() + c.len()) == a + b + c,
    ensures
        s.subrange(i, i + a.len() as int) == a,
        s.subrange(i + a.len(), i + a.len() + b.len()) == b,
        s.subrange(i + a.len() + b.len(), i + a.len() + b.len() + c.len()) == c,
{
    assert(s.subrange(i, i + (a + b).len() + c.len()) == (a + b) + c);
    lemma_split2(s, i, a + b, c);
    lemma_split2(s, i, a, b);
}

/// The byte standing alone in a one-byte subrange.
pub proof fn lemma_single_byte(s: Seq<u8>, i: int, x: u8)
    requires
        0 <= i < s.len(),
        s.subrange(i, i + 1) == seq![x],
    ensures
        s[i] == x,
{
    assert(s.subrange(i, i + 1)[0] == s[i]);
    assert(seq![x][0] == x);
}

/// If the bytes from `i` to `e` are digits and the byte at `e` is not
/// (or `e` is the end), the digit run stops exactly at `e`.
pub proof fn lemma_digits_end_exact(s: Seq<u8>, i: int, e: int)
    requires
        0 <= i <= e <= s.len(),
        forall|m: int| i <= m < e ==> is_digit(#[trigger] s[m]),
        e < s.len() ==> !is_digit(s[e]),
    ensures
        digits_end(s, i) == e,
    decreases e - i,
{
    if i < e {
        lemma_digits_end_exact(s, i + 1, e);
    }
}

/// Completeness for byte strings: the parser accepts the canonical
/// encoding of any byte string, whatever follows it.
pub proof fn lemma_parse_bstr_complete(s: Seq<u8>, i: int, b: Seq<u8>)
    requires
        0 <= i,
        i + bstr_enc(b).len() <= s.len(),
        s.subrange(i, i + bstr_enc(b).len()) == bstr_enc(b),
    ensures
        is_digit(s[i]),
        spec_parse(s, i) == Ok::<(BValue, int), crate::decode::BErr>(
            (BValue::Bytes(b), i + bstr_enc(b).len()),
        ),
{
    lemma_dec_digits_props(b.len());
    let ds = dec_digits(b.len());
    let dl = ds.len() as int;
    assert(bstr_enc(b) == ds + seq![58u8] + b);
    lemma_split3(s, i, ds, seq![58u8], b);
    lemma_single_byte(s, i + dl, 58u8);
    assert(is_digit(s[i])) by {
        assert(s.subrange(i, i + dl)[0] == s[i]);
    }
    assert forall|m: int| i <= m < i + dl implies is_digit(#[trigger] s[m]) by {
        assert(s.subrange(i, i + dl)[m - i] == s[m]);
        assert(all_digits(ds));
    }
    lemma_digits_end_exact(s, i, i + dl);
    assert(dec_val(s.subrange(i, i + dl)) == b.len());
    assert(bstr_enc(b).len() == dl + 1 + b.len());
}

/// Completeness for integers.
pub proof fn lemma_parse_int_complete(s: Seq<u8>, i: int, n: int)
    requires
        0 <= i,
        i64::MIN <= n <= i64::MAX,
        i + bval_enc(BValue::Int(n)).len() <= s.len(),
        s.subrange(i, i + bval_enc(BValue::Int(n)).len()) == bval_enc(BValue::Int(n)),
    ensures
        spec_parse(s, i) == Ok::<(BValue, int), crate::decode::BErr>(
            (BValue::Int(n), i + bval_enc(BValue::Int(n)).len()),
        ),
{
    let lit = int_lit(n);
    assert(bval_enc(BValue::Int(n)) == seq![105u8] + lit + seq![101u8]);
    lemma_split3(s, i, seq![105u8], lit, seq![101u8]);
    lemma_single_byte(s, i, 105u8);
    lemma_single_byte(s, i + 1 + lit.len(), 101u8);
    if n < 0 {
        lemma_dec_digits_props((-n) as nat);
        let ds = dec_digits((-n) as nat);
        let dl = ds.len() as int;
        assert(lit == seq![45u8] + ds);
        lemma_split2(s, i + 1, seq![45u8], ds);
        lemma_single_byte(s, i + 1, 45u8);
        assert forall|m: int| i + 2 <= m < i + 2 + dl implies is_digit(#[trigger] s[m]) by {
            assert(s.subrange(i + 2, i + 2 + dl)[m - i - 2] == s[m]);
            assert(all_digits(ds));
        }
        lemma_digits_end_exact(s, i + 2, i + 2 + dl);
        assert(dec_val(s.subrange(i + 2, i + 2 + dl)) == -n >= 1);
        assert(bval_enc(BValue::Int(n)).len() == dl + 3);
    } else {
        lemma_dec_digits_props(n as nat);
        let ds = dec_digits(n as nat);
        let dl = ds.len() as int;
        assert(lit == ds);
        assert(s[i + 1] != 45u8 && is_digit(s[i + 1])) by {
            assert(s.subrange(i + 1, i + 1 + dl)[0] == s[i + 1]);
            assert(canon_digits(ds));
        }
        assert forall|m: int| i + 1 <= m < i + 1 + dl implies is_digit(#[trigger] s[m]) by {
            assert(s.subrange(i + 1, i + 1 + dl)[m - i - 1] == s[m]);
            assert(all_digits(ds));
        }
        lemma_digits_end_exact(s, i + 1, i + 1 + dl);
        assert(dec_val(s.subrange(i + 1, i + 1 + dl)) == n);
        assert(bval_enc(BValue::Int(n)).len() == dl + 2);
    }
}

/// Completeness of the value parser: the canonical encoding of every
/// well-formed value parses back to that value, whatever follows it.
pub proof fn lemma_spec_parse_complete(s: Seq<u8>, i: int, v: BValue)
    requires
        0 <= i,
        bval_wf(v),
        i + bval_enc(v).len() <= s.len(),
        s.subrange(i, i + bval_enc(v).len()) == bval_enc(v),
    ensures
        spec_parse(s, i) == Ok::<(BValue, int), crate::decode::BErr>(
            (v, i + bval_enc(v).len()),
        ),
    decreases v, 0int,
{
    match v {
        BValue::Int(n) => {
            lemma_parse_int_complete(s, i, n);
        },
        BValue::Bytes(b) => {
            lemma_parse_bstr_complete(s, i, b);
        },
        BValue::List(vs) => {
            let inner = enc_items(vs, 0);
            assert(bval_enc(v) == seq![108u8] + inner + seq![101u8]);
            lemma_split3(s, i, seq![108u8], inner, seq![101u8]);
            lemma_single_byte(s, i, 108u8);
            lemma_single_byte(s, i + 1 + inner.len(), 101u8);
            lemma_items_complete(s, i + 1, vs);
        },
        BValue::Dict(es) => {
            let inner = enc_entries(es, 0);
            assert(bval_enc(v) == seq![100u8] + inner + seq![101u8]);
            lemma_split3(s, i, seq![100u8], inner, seq![101u8]);
            lemma_single_byte(s, i, 100u8);
            lemma_single_byte(s, i + 1 + inner.len(), 101u8);
            lemma_entries_complete(s, i + 1, es, Option::None);
        },
    }
}

/// Completeness of the list-item parser: a run of item encodings
/// closed by an `e` byte parses back to those items.
pub proof fn lemma_items_complete(s: Seq<u8>, p: int, vs: Seq<BValue>)
    requires
        0 <= p,
        wf_items(vs, 0),
        p + enc_items(vs, 0).len() + 1 <= s.len(),
        s.subrange(p, p + enc_items(vs, 0).len()) == enc_items(vs, 0),
        s[p + enc_items(vs, 0).len()] == 101u8,
    ensures
        spec_parse_items(s, p) == Ok::<(Seq<BValue>, int), crate::decode::BErr>(
            (vs, p + enc_items(vs, 0).len() + 1),
        ),
    decreases vs, 1int,
{
    if vs.len() == 0 {
        assert(enc_items(vs, 0).len() == 0);
        assert(vs =~= Seq::<BValue>::empty());
    } else {
        let v0 = vs[0];
        let rest = vs.subrange(1, vs.len() as int);
        lemma_enc_items_cons(vs);
        lemma_wf_items_shift(vs, 0);
        let e0 = bval_enc(v0);
        let re = enc_items(rest, 0);
        assert(enc_items(vs, 0) == e0 + re);
        lemma_split2(s, p, e0, re);
        lemma_enc_first(v0);
        assert(s[p] == e0[0]) by {
            assert(s.subrange(p, p + e0.len() as int)[0] == s[p]);
        }
        assert(s[p] != 101u8);
        lemma_spec_parse_complete(s, p, v0);
        let j = p + e0.len() as int;
        assert(s[j + re.len()] == 101u8);
        lemma_items_complete(s, j, rest);
        assert(seq![v0] + rest =~= vs);
    }
}

/// Completeness of the dictionary-entry parser: a run of sorted entry
/// encodings closed by an `e` byte parses back to those entries.
pub proof fn lemma_entries_complete(s: Seq<u8>, p: int, es: Seq<(Seq<u8>, BValue)>, prev: Option<
    Seq<u8>,
>)
    requires
        0 <= p,
        wf_entries(es, 0),
        keys_sorted(es),
        (es.len() > 0 && prev is Some) ==> lex_lt(prev->Some_0, es[0].0),
        p + enc_entries(es, 0).len() + 1 <= s.len(),
        s.subrange(p, p + enc_entries(es, 0).len()) == enc_entries(es, 0),
        s[p + enc_entries(es, 0).len()] == 101u8,
    ensures
        spec_parse_entries(s, p, prev) == Ok::<(Seq<(Seq<u8>, BValue)>, int), crate::decode::BErr>(
            (es, p + enc_entries(es, 0).len() + 1),
        ),
    decreases es, 1int,
{
    if es.len() == 0 {
        assert(enc_entries(es, 0).len() == 0);
        assert(es =~= Seq::<(Seq<u8>, BValue)>::empty());
    } else {
        let key = es[0].0;
        let val = es[0].1;
        let rest = es.subrange(1, es.len() as int);
        lemma_enc_entries_cons(es);
        lemma_wf_entries_shift(es, 0);
        let ek = bstr_enc(key);
        let ev = bval_enc(val);
        let re = enc_entries(rest, 0);
        assert(enc_entries(es, 0) == ek + ev + re);
        lemma_split3(s, p, ek, ev, re);
        lemma_parse_bstr_complete(s, p, key);
        assert(s[p] != 101u8);
        let j = p + ek.len() as int;
        assert(bval_wf(val)) by {
            assert(wf_entries(es, 0));
        }
        lemma_spec_parse_complete(s, j, val);
        let k = j + ev.len() as int;
        assert(s[k + re.len()] == 101u8);
        assert(keys_sorted(rest)) by {
            assert forall|a: int| 0 <= a && a + 1 < rest.len() implies lex_lt(
                #[trigger] rest[a].0,
                rest[a + 1].0,
            ) by {
                assert(rest[a] == es[a + 1]);
                assert(rest[a + 1] == es[a + 2]);
            }
        }
        if rest.len() > 0 {
            assert(rest[0] == es[1]);
            assert(lex_lt(es[0].0, es[1].0));
        }
        lemma_entries_complete(s, k, rest, Option::Some(key));
        assert(seq![(key, val)] + rest =~= es);
    }
}

/// Round trip, one direction: the canonical encoding of any
/// well-formed value decodes back to that value, consuming exactly
/// the whole sequence.  With `lemma_spec_parse_sound` this gives
/// `encode(decode(B)) == B` for every canonical byte sequence `B`.
pub proof fn lemma_encode_then_decode(v: BValue)
    requires
        bval_wf(v),
    ensures
        spec_parse(bval_enc(v), 0) == Ok::<(BValue, int), crate::decode::BErr>(
            (v, bval_enc(v).len() as int),
        ),
{
    let s = bval_enc(v);
    assert(s.subrange(0, s.len() as int) =~= s);
    lemma_spec_parse_complete(s, 0, v);
}

/// Decoding `i`, the shortest decimal literal of `n`, then `e`
/// yields exactly `n`; no other spelling of `n` is accepted.
pub proof fn lemma_integer_round_trip(n: int)
    requires
        i64::MIN <= n <= i64::MAX,
    ensures
        spec_parse(seq![105u8] + int_lit(n) + seq![101u8], 0) == Ok::<
            (BValue, int),
            crate::decode::BErr,
        >((BValue::Int(n), int_lit(n).len() + 2int)),
{
    lemma_encode_then_decode(BValue::Int(n));
}

/// Decoding the decimal length of `b`, then `:`, then `b` yields
/// exactly the bytes `b`, whatever they hold.
pub proof fn lemma_bytes_round_trip(b: Seq<u8>)
    ensures
        spec_parse(dec_digits(b.len()) + seq![58u8] + b, 0) == Ok::<
            (BValue, int),
            crate::decode::BErr,
        >((BValue::Bytes(b), dec_digits(b.len()).len() + 1int + b.len())),
{
    lemma_encode_then_decode(BValue::Bytes(b));
}

/// Strict byte-wise order is transitive.
pub proof fn lemma_lex_lt_trans(a: Seq<u8>, b: Seq<u8>, c: Seq<u8>)
    requires
        lex_lt(a, b),
        lex_lt(b, c),
    ensures
        lex_lt(a, c),
    decreases a.len(),
{
    if a.len() > 0 && b.len() > 0 && c.len() > 0 {
        if a[0] == b[0] && b[0] == c[0] {
            lemma_lex_lt_trans(
                a.subrange(1, a.len() as int),
                b.subrange(1, b.len() as int),
                c.subrange(1, c.len() as int),
            );
        }
    }
}

/// In a well-formed dictionary every key stands strictly below every
/// later key, so the emitted key order (stored order) is strictly
/// ascending in byte-wise comparison.
pub proof fn lemma_dict_keys_ascending(es: Seq<(Seq<u8>, BValue)>)
    requires
        bval_wf(BValue::Dict(es)),
    ensures
        forall|i: int, j: int| 0 <= i < j < es.len() ==> lex_lt(#[trigger] es[i].0, #[trigger] es[j].0),
{
    assert forall|i: int, j: int| 0 <= i < j < es.len() implies lex_lt(
        #[trigger] es[i].0,
        #[trigger] es[j].0,
    ) by {
        lemma_keys_sorted_pairwise(es, i, j);
    }
}

/// Chains adjacent key comparisons into one across any gap.
pub proof fn lemma_keys_sorted_pairwise(es: Seq<(Seq<u8>, BValue)>, i: int, j: int)
    requires
        keys_sorted(es),
        0 <= i < j < es.len(),
    ensures
        lex_lt(es[i].0, es[j].0),
    decreases j - i,
{
    if i + 1 == j {
    } else {
        lemma_keys_sorted_pairwise(es, i, j - 1);
        lemma_lex_lt_trans(es[i].0, es[j - 1].0, es[j].0);
    }
}

/// Soundness of the value parser: success yields a well-formed value
/// whose canonical encoding is exactly the consumed bytes.
pub proof fn lemma_spec_parse_sound(s: Seq<u8>, i: int)
    requires
        0 <= i,
    ensures
        spec_parse(s, i) matches Ok((v, j)) ==> {
            &&& i < j <= s.len()
            &&& bval_wf(v)
            &&& bval_enc(v) == s.subrange(i, j)
        },
    decreases s.len() - i, 0int,
{
    crate::decode::lemma_spec_parse_bounds(s, i);
    if i < s.len() {
        if is_digit(s[i]) {
            lemma_parse_bstr_sound(s, i);
        } else if s[i] == 105u8 {
            lemma_parse_int_sound(s, i);
        } else if s[i] == 108u8 {
            lemma_spec_parse_items_sound(s, i + 1);
            match spec_parse_items(s, i + 1) {
                Ok((vs, j)) => {
                    assert(bval_enc(BValue::List(vs)) =~= s.subrange(i, j)) by {
                        assert(enc_items(vs, 0) == s.subrange(i + 1, j - 1));
                        assert(s[j - 1] == 101u8);
                        assert(seq![s[i]] + s.subrange(i + 1, j - 1) + seq![s[j - 1]] =~= s
                            .subrange(i, j));
                    }
                },
                Err(_) => {},
            }
        } else if s[i] == 100u8 {
            lemma_spec_parse_entries_sound(s, i + 1, Option::None);
            match spec_parse_entries(s, i + 1, Option::None) {
                Ok((es, j)) => {
                    assert(bval_enc(BValue::Dict(es)) =~= s.subrange(i, j)) by {
                        assert(enc_entries(es, 0) == s.subrange(i + 1, j - 1));
                        assert(s[j - 1] == 101u8);
                        assert(seq![s[i]] + s.subrange(i + 1, j - 1) + seq![s[j - 1]] =~= s
                            .subrange(i, j));
                    }
                },
                Err(_) => {},
            }
        }
    }
}

/// Soundness of the byte-string parser.
pub proof fn lemma_parse_bstr_sound(s: Seq<u8>, i: int)
    requires
        0 <= i < s.len(),
        is_digit(s[i]),
    ensures
        spec_parse_bstr(s, i) matches Ok((v, j)) ==> {
            &&& i < j <= s.len()
            &&& bval_wf(v)
            &&& bval_enc(v) == s.subrange(i, j)
        },
{
    lemma_digits_end(s, i);
    let e = digits_end(s, i);
    match spec_parse_bstr(s, i) {
        Ok((v, j)) => {
            let ds = s.subrange(i, e);
            let n = dec_val(ds);
            lemma_canon_digits_round_trip(ds);
            let b = s.subrange(e + 1, e + 1 + n);
            assert(b.len() == n);
            assert(dec_digits(b.len() as nat) == ds);
            assert(bval_enc(v) == ds + seq![58u8] + b);
            assert(s[e] == 58u8);
            assert(ds + seq![s[e]] + b =~= s.subrange(i, j));
        },
        Err(_) => {},
    }
}

/// Soundness of the integer parser.
pub proof fn lemma_parse_int_sound(s: Seq<u8>, i: int)
    requires
        0 <= i < s.len(),
        s[i] == 105u8,
    ensures
        spec_parse_int(s, i) matches Ok((v, j)) ==> {
            &&& i < j <= s.len()
            &&& bval_wf(v)
            &&& bval_enc(v) == s.subrange(i, j)
        },
{
    let neg = i + 1 < s.len() && s[i + 1] == 45u8;
    let d = if neg {
        i + 2
    } else {
        i + 1
    };
    lemma_digits_end(s, d);
    let e = digits_end(s, d);
    match spec_parse_int(s, i) {
        Ok((v, j)) => {
            let ds = s.subrange(d, e);
            lemma_canon_digits_round_trip(ds);
            let m = if neg {
                -dec_val(ds)
            } else {
                dec_val(ds)
            };
            assert(v == BValue::Int(m));
            if neg {
                assert(dec_val(ds) >= 1);
                assert(int_lit(m) == seq![45u8] + ds);
                assert(bval_enc(v) == seq![105u8] + (seq![45u8] + ds) + seq![101u8]);
                assert(seq![s[i]] + (seq![s[i + 1]] + ds) + seq![s[e]] =~= s.subrange(i, j));
            } else {
                assert(int_lit(m) == ds);
                assert(seq![s[i]] + ds + seq![s[e]] =~= s.subrange(i, j));
            }
        },
        Err(_) => {},
    }
}

/// Soundness of the list-item parser: the encodings of the items plus
/// the closing byte are exactly the consumed bytes.
pub proof fn lemma_spec_parse_items_sound(s: Seq<u8>, i: int)
    requires
        0 <= i,
    ensures
        spec_parse_items(s, i) matches Ok((vs, j)) ==> {
            &&& i < j <= s.len()
            &&& wf_items(vs, 0)
            &&& enc_items(vs, 0) == s.subrange(i, j - 1)
            &&& s[j - 1] == 101u8
        },
    decreases s.len() - i, 1int,
{
    crate::decode::lemma_spec_parse_items_bounds(s, i);
    if i < s.len() {
        if s[i] == 101u8 {
            assert(enc_items(Seq::<BValue>::empty(), 0) =~= Seq::<u8>::empty());
            assert(s.subrange(i, i) =~= Seq::<u8>::empty());
        } else {
            lemma_spec_parse_sound(s, i);
            match spec_parse(s, i) {
                Ok((v, j)) => {
                    if i < j && j <= s.len() {
                        lemma_spec_parse_items_sound(s, j);
                        match spec_parse_items(s, j) {
                            Ok((vs, k)) => {
                                let t = seq![v] + vs;
                                assert(t.subrange(1, t.len() as int) =~= vs);
                                assert(t[0] == v);
                                lemma_enc_items_cons(t);
                                lemma_wf_items_shift(t, 0);
                                assert(wf_items(t, 0));
                                assert(enc_items(t, 0) == bval_enc(v) + enc_items(vs, 0));
                                assert(s.subrange(i, j) + s.subrange(j, k - 1) =~= s.subrange(
                                    i,
                                    k - 1,
                                ));
                            },
                            Err(_) => {},
                        }
                    }
                },
                Err(_) => {},
            }
        }
    }
}

/// Soundness of the dictionary-entry parser: well-formed entries with
/// strictly ascending keys, all above `prev` when one is given.
pub proof fn lemma_spec_parse_entries_sound(s: Seq<u8>, i: int, prev: Option<Seq<u8>>)
    requires
        0 <= i,
    ensures
        spec_parse_entries(s, i, prev) matches Ok((es, j)) ==> {
            &&& i < j <= s.len()
            &&& wf_entries(es, 0)
            &&& keys_sorted(es)
            &&& ((es.len() > 0 && prev is Some) ==> lex_lt(prev->Some_0, es[0].0))
            &&& enc_entries(es, 0) == s.subrange(i, j - 1)
            &&& s[j - 1] == 101u8
        },
    decreases s.len() - i, 1int,
{
    crate::decode::lemma_spec_parse_entries_bounds(s, i, prev);
    if i < s.len() {
        if s[i] == 101u8 {
            assert(enc_entries(Seq::<(Seq<u8>, BValue)>::empty(), 0) =~= Seq::<u8>::empty());
            assert(s.subrange(i, i) =~= Seq::<u8>::empty());
        } else {
            lemma_spec_parse_sound(s, i);
            match spec_parse(s, i) {
                Ok((kv, j)) => match kv {
                    BValue::Bytes(key) => {
                        let ord_ok = match prev {
                            Option::Some(p) => lex_lt(p, key),
                            Option::None => true,
                        };
                        if ord_ok && i < j && j <= s.len() {
                            lemma_spec_parse_sound(s, j);
                            match spec_parse(s, j) {
                                Ok((val, k)) => {
                                    if j < k && k <= s.len() {
                                        lemma_spec_parse_entries_sound(s, k, Option::Some(key));
                                        match spec_parse_entries(s, k, Option::Some(key)) {
                                            Ok((es, m)) => {
                                                let t = seq![(key, val)] + es;
                                                assert(t.subrange(1, t.len() as int) =~= es);
                                                assert(t[0] == (key, val));
                                                lemma_enc_entries_cons(t);
                                                lemma_wf_entries_shift(t, 0);
                                                assert(wf_entries(t, 0));
                                                if es.len() > 0 {
                                                    assert(t[1] == es[0]);
                                                }
                                                lemma_keys_sorted_cons(t);
                                                assert(bstr_enc(key) == bval_enc(kv));
                                                assert(enc_entries(t, 0) == bval_enc(kv)
                                                    + bval_enc(val) + enc_entries(es, 0));
                                                assert(s.subrange(i, j) + s.subrange(j, k) + s
                                                    .subrange(k, m - 1) =~= s.subrange(i, m - 1));
                                            },
                                            Err(_) => {},
                                        }
                                    }
                                },
                                Err(_) => {},
                            }
                        }
                    },
                    _ => {},
                },
                Err(_) => {},
            }
        }
    }
}

} // verus!
