//! The bencode value tree and its mathematical model.
//!
//! A decoded value keeps byte strings as raw octets; a dictionary keeps
//! its entries in stored order.  The model (`BValue`) and the canonical
//! encoding (`bval_enc`) are the vocabulary of every codec contract.

use vstd::prelude::*;

verus! {

/// Mathematical model of a bencode value.  The integer is unbounded
/// here; the executable tree narrows it to `i64`, which `bval_wf`
/// records.
pub enum BValue {
    Int(int),
    Bytes(Seq<u8>),
    List(Seq<BValue>),
    Dict(Seq<(Seq<u8>, BValue)>),
}

/// An executable bencode value: a tagged tree of integers, raw byte
/// strings, lists and dictionaries.
#[derive(Debug, PartialEq, Eq)]
pub enum Bencode {
    Int(i64),
    Bytes(Vec<u8>),
    List(Vec<Bencode>),
    Dict(Vec<(Vec<u8>, Bencode)>),
}

/// ASCII decimal digit.
pub open spec fn is_digit(b: u8) -> bool {
    48 <= b && b <= 57
}

/// Every byte of `s` is an ASCII decimal digit.
pub open spec fn all_digits(s: Seq<u8>) -> bool {
    forall|i: int| 0 <= i < s.len() ==> is_digit(#[trigger] s[i])
}

/// Canonical digit string: nonempty, digits only, and a leading zero
/// only in `"0"` itself.
pub open spec fn canon_digits(s: Seq<u8>) -> bool {
    s.len() > 0 && all_digits(s) && (s[0] != 48 || s.len() == 1)
}

/// Value of a decimal digit string, most significant digit first.
pub open spec fn dec_val(s: Seq<u8>) -> int
    decreases s.len(),
{
    if s.len() == 0 {
        0
    } else {
        dec_val(s.drop_last()) * 10 + (s.last() - 48)
    }
}

/// Raw bytes read as text, one character per byte.
pub open spec fn latin1_chars(b: Seq<u8>) -> Seq<char> {
    Seq::new(b.len(), |i: int| b[i] as char)
}

/// Strict lexicographic (byte-wise) order on byte sequences.
pub open spec fn lex_lt(a: Seq<u8>, b: Seq<u8>) -> bool
    decreases a.len(),
{
    if b.len() == 0 {
        false
    } else if a.len() == 0 {
        true
    } else if a[0] < b[0] {
        true
    } else if a[0] > b[0] {
        false
    } else {
        lex_lt(a.subrange(1, a.len() as int), b.subrange(1, b.len() as int))
    }
}

/// The shortest decimal digit string of `n`, most significant digit
/// first (`0` is written `"0"`).
pub open spec fn dec_digits(n: nat) -> Seq<u8>
    decreases n,
{
    if n < 10 {
        seq![(48 + n) as u8]
    } else {
        dec_digits(n / 10).push((48 + n % 10) as u8)
    }
}

/// The decimal literal of a signed integer: a minus sign if and only if
/// the value is negative, then the magnitude's shortest digits.
pub open spec fn int_lit(n: int) -> Seq<u8> {
    if n < 0 {
        seq![45u8] + dec_digits((-n) as nat)
    } else {
        dec_digits(n as nat)
    }
}

/// Encoding of one byte string: decimal length, `:`, the bytes.
pub open spec fn bstr_enc(b: Seq<u8>) -> Seq<u8> {
    dec_digits(b.len()) + seq![58u8] + b
}

/// Canonical bencode encoding of a model value: integers in shortest
/// decimal form, byte strings length-prefixed, dictionary entries in
/// stored order.
pub open spec fn bval_enc(v: BValue) -> Seq<u8>
    decreases v, 0int,
{
    match v {
        BValue::Int(n) => seq![105u8] + int_lit(n) + seq![101u8],
        BValue::Bytes(b) => bstr_enc(b),
        BValue::List(vs) => seq![108u8] + enc_items(vs, 0) + seq![101u8],
        BValue::Dict(es) => seq![100u8] + enc_entries(es, 0) + seq![101u8],
    }
}

/// Concatenated encodings of the list items from index `k` on.
pub open spec fn enc_items(vs: Seq<BValue>, k: int) -> Seq<u8>
    decreases vs, vs.len() - k,
{
    if k < 0 || k >= vs.len() {
        Seq::empty()
    } else {
        bval_enc(vs[k]) + enc_items(vs, k + 1)
    }
}

/// Concatenated `key value` encodings of the dictionary entries from
/// index `k` on.
pub open spec fn enc_entries(es: Seq<(Seq<u8>, BValue)>, k: int) -> Seq<u8>
    decreases es, es.len() - k,
{
    if k < 0 || k >= es.len() {
        Seq::empty()
    } else {
        bstr_enc(es[k].0) + bval_enc(es[k].1) + enc_entries(es, k + 1)
    }
}

/// Dictionary keys are strictly ascending in byte-wise order.
pub open spec fn keys_sorted(es: Seq<(Seq<u8>, BValue)>) -> bool {
    forall|i: int| 0 <= i && i + 1 < es.len() ==> lex_lt(#[trigger] es[i].0, es[i + 1].0)
}

/// Well-formed model value: every integer fits `i64` and every
/// dictionary has strictly ascending keys.
pub open spec fn bval_wf(v: BValue) -> bool
    decreases v, 0int,
{
    match v {
        BValue::Int(n) => i64::MIN <= n <= i64::MAX,
        BValue::Bytes(_) => true,
        BValue::List(vs) => wf_items(vs, 0),
        BValue::Dict(es) => keys_sorted(es) && wf_entries(es, 0),
    }
}

/// All list items from index `k` on are well formed.
pub open spec fn wf_items(vs: Seq<BValue>, k: int) -> bool
    decreases vs, vs.len() - k,
{
    if k < 0 || k >= vs.len() {
        true
    } else {
        bval_wf(vs[k]) && wf_items(vs, k + 1)
    }
}

/// All dictionary values from index `k` on are well formed.
pub open spec fn wf_entries(es: Seq<(Seq<u8>, BValue)>, k: int) -> bool
    decreases es, es.len() - k,
{
    if k < 0 || k >= es.len() {
        true
    } else {
        bval_wf(es[k].1) && wf_entries(es, k + 1)
    }
}

/// Model of an executable value.
pub open spec fn bview(v: Bencode) -> BValue
    decreases v, 0int,
{
    match v {
        Bencode::Int(n) => BValue::Int(n as int),
        Bencode::Bytes(b) => BValue::Bytes(b@),
        Bencode::List(l) => BValue::List(bview_items(l@, 0)),
        Bencode::Dict(d) => BValue::Dict(bview_entries(d@, 0)),
    }
}

/// Models of the items of `s` from index `k` on.
pub open spec fn bview_items(s: Seq<Bencode>, k: int) -> Seq<BValue>
    decreases s, s.len() - k,
{
    if k < 0 || k >= s.len() {
        Seq::empty()
    } else {
        seq![bview(s[k])] + bview_items(s, k + 1)
    }
}

/// Models of the entries of `s` from index `k` on.
pub open spec fn bview_entries(s: Seq<(Vec<u8>, Bencode)>, k: int) -> Seq<(Seq<u8>, BValue)>
    decreases s, s.len() - k,
{
    if k < 0 || k >= s.len() {
        Seq::empty()
    } else {
        seq![(s[k].0@, bview(s[k].1))] + bview_entries(s, k + 1)
    }
}

impl View for Bencode {
    type V = BValue;

    open spec fn view(&self) -> BValue {
        bview(*self)
    }
}

/// The value under the first entry named `key`, if any.
pub open spec fn dict_get(es: Seq<(Seq<u8>, BValue)>, key: Seq<u8>) -> Option<BValue>
    decreases es.len(),
{
    if es.len() == 0 {
        Option::None
    } else if es[0].0 == key {
        Option::Some(es[0].1)
    } else {
        dict_get(es.subrange(1, es.len() as int), key)
    }
}

/// Looks a key up in an executable dictionary, yielding the value
/// that `dict_get` names on its model.
pub fn dict_find<'a>(d: &'a Vec<(Vec<u8>, Bencode)>, key: &Vec<u8>) -> (r: Option<&'a Bencode>)
    ensures
        match r {
            Some(b) => dict_get(bview_entries(d@, 0), key@) == Option::Some(bview(*b)),
            None => dict_get(bview_entries(d@, 0), key@) is None,
        },
{
    let ghost es = bview_entries(d@, 0);
    proof {
        lemma_bview_entries_index(d@, 0);
        assert(es.subrange(0, es.len() as int) =~= es);
    }
    let n = d.len();
    let mut i: usize = 0;
    while i < n
        invariant
            0 <= i <= n,
            n == d@.len(),
            es == bview_entries(d@, 0),
            es.len() == n,
            forall|m: int| 0 <= m < n ==> es[m] == (#[trigger] d@[m].0@, bview(d@[m].1)),
            dict_get(es, key@) == dict_get(es.subrange(i as int, n as int), key@),
        decreases n - i,
    {
        proof {
            let suf = es.subrange(i as int, n as int);
            assert(suf[0] == es[i as int]);
            assert(suf.subrange(1, suf.len() as int) =~= es.subrange(i as int + 1, n as int));
        }
        if crate::utils::bytes_eq(&d[i].0, key) {
            return Some(&d[i].1);
        }
        i = i + 1;
    }
    proof {
        assert(es.subrange(n as int, n as int) =~= Seq::<(Seq<u8>, BValue)>::empty());
    }
    None
}

/// The shortest digit string of `n` is made of digits, is canonical,
/// and reads back as `n`.
pub proof fn lemma_dec_digits_props(n: nat)
    ensures
        canon_digits(dec_digits(n)),
        dec_val(dec_digits(n)) == n,
    decreases n,
{
    if n < 10 {
        let s = dec_digits(n);
        assert(s.drop_last() =~= Seq::<u8>::empty());
        assert(dec_val(Seq::<u8>::empty()) == 0);
        assert(dec_val(s) == n);
    } else {
        lemma_dec_digits_props(n / 10);
        let h = dec_digits(n / 10);
        let s = dec_digits(n);
        assert(s == h.push((48 + n % 10) as u8));
        assert(s.drop_last() =~= h);
        assert(dec_val(s) == dec_val(h) * 10 + n % 10);
        assert(s[0] == h[0]);
        if h.len() == 1 {
            assert(h.drop_last() =~= Seq::<u8>::empty());
            assert(dec_val(Seq::<u8>::empty()) == 0);
            assert(dec_val(h) == h[0] - 48);
            assert(h[0] != 48) by {
                assert(dec_val(h) == n / 10 >= 1);
            }
        }
    }
}

/// A nonempty digit string with a nonzero leading digit has a value of
/// at least 1, and a value below 10 only when it is a single digit.
pub proof fn lemma_dec_val_lower(s: Seq<u8>)
    requires
        all_digits(s),
        s.len() > 0,
        s[0] != 48,
    ensures
        dec_val(s) >= 1,
        s.len() > 1 ==> dec_val(s) >= 10,
    decreases s.len(),
{
    if s.len() == 1 {
        assert(dec_val(s.drop_last()) == 0) by {
            assert(s.drop_last() =~= Seq::<u8>::empty());
        }
        assert(is_digit(s[0]));
    } else {
        let h = s.drop_last();
        assert(h[0] == s[0]);
        assert(all_digits(h)) by {
            assert(forall|i: int| 0 <= i < h.len() ==> h[i] == #[trigger] s[i]);
        }
        lemma_dec_val_lower(h);
        assert(is_digit(s.last()));
    }
}

/// Digit strings have nonnegative values.
pub proof fn lemma_dec_val_nonneg(s: Seq<u8>)
    requires
        all_digits(s),
    ensures
        dec_val(s) >= 0,
    decreases s.len(),
{
    if s.len() > 0 {
        let h = s.drop_last();
        assert(all_digits(h)) by {
            assert(forall|i: int| 0 <= i < h.len() ==> h[i] == #[trigger] s[i]);
        }
        lemma_dec_val_nonneg(h);
        assert(is_digit(s.last()));
    }
}

/// A canonical digit string is the shortest digit string of its value.
pub proof fn lemma_canon_digits_round_trip(s: Seq<u8>)
    requires
        canon_digits(s),
    ensures
        dec_val(s) >= 0,
        dec_digits(dec_val(s) as nat) == s,
    decreases s.len(),
{
    lemma_dec_val_nonneg(s);
    if s.len() == 1 {
        assert(s.drop_last() =~= Seq::<u8>::empty());
        assert(dec_val(Seq::<u8>::empty()) == 0);
        assert(dec_val(s) == s[0] - 48 < 10);
        assert(dec_digits(dec_val(s) as nat) =~= s);
    } else {
        let h = s.drop_last();
        assert(h[0] == s[0]);
        assert(all_digits(h)) by {
            assert(forall|i: int| 0 <= i < h.len() ==> h[i] == #[trigger] s[i]);
        }
        assert(s[0] != 48);
        lemma_dec_val_lower(h);
        lemma_canon_digits_round_trip(h);
        let v = dec_val(s);
        assert(v == dec_val(h) * 10 + (s.last() - 48));
        assert(is_digit(s.last()));
        assert(v / 10 == dec_val(h) && v % 10 == s.last() - 48) by {
            assert(0 <= s.last() - 48 < 10);
        }
        assert(v >= 10);
        assert(dec_digits(v as nat) == dec_digits(dec_val(h) as nat).push(s.last()));
        assert(dec_digits(v as nat) =~= s) by {
            assert(h.push(s.last()) =~= s);
        }
    }
}

/// Extending a digit string to the right can only grow its value.
pub proof fn lemma_dec_val_prefix(s: Seq<u8>, k: int)
    requires
        all_digits(s),
        0 <= k <= s.len(),
    ensures
        dec_val(s) >= dec_val(s.subrange(0, k)),
    decreases s.len() - k,
{
    if k < s.len() {
        lemma_dec_val_prefix(s, k + 1);
        let a = s.subrange(0, k);
        let b = s.subrange(0, k + 1);
        assert(b.drop_last() =~= a);
        assert(b.last() == s[k]);
        assert(all_digits(a)) by {
            assert(forall|i: int| 0 <= i < a.len() ==> a[i] == #[trigger] s[i]);
        }
        lemma_dec_val_nonneg(a);
        assert(is_digit(s[k]));
        assert(dec_val(b) == dec_val(a) * 10 + (s[k] - 48) >= dec_val(a));
    } else {
        assert(s.subrange(0, k) =~= s);
    }
}

/// One more model item: pushing onto the executable list appends the
/// item's model.
pub proof fn lemma_bview_items_push(s: Seq<Bencode>, b: Bencode)
    ensures
        bview_items(s.push(b), 0) == bview_items(s, 0).push(bview(b)),
    decreases s.len(),
{
    lemma_bview_items_push_at(s, b, 0);
}

/// Helper for `lemma_bview_items_push`, generalized over the start.
pub proof fn lemma_bview_items_push_at(s: Seq<Bencode>, b: Bencode, k: int)
    requires
        0 <= k <= s.len(),
    ensures
        bview_items(s.push(b), k) == bview_items(s, k).push(bview(b)),
    decreases s.len() - k,
{
    let t = s.push(b);
    if k == s.len() {
        assert(bview_items(t, k + 1) =~= Seq::<BValue>::empty());
        assert(t[k] == b);
        assert(bview_items(t, k) =~= seq![bview(b)]);
        assert(bview_items(s, k).push(bview(b)) =~= seq![bview(b)]);
    } else {
        lemma_bview_items_push_at(s, b, k + 1);
        assert(t[k] == s[k]);
        assert(bview_items(t, k) =~= bview_items(s, k).push(bview(b)));
    }
}

/// One more model entry: pushing onto the executable dictionary appends
/// the entry's model.
pub proof fn lemma_bview_entries_push(s: Seq<(Vec<u8>, Bencode)>, k: Vec<u8>, b: Bencode)
    ensures
        bview_entries(s.push((k, b)), 0) == bview_entries(s, 0).push((k@, bview(b))),
{
    lemma_bview_entries_push_at(s, k, b, 0);
}

/// Helper for `lemma_bview_entries_push`, generalized over the start.
pub proof fn lemma_bview_entries_push_at(s: Seq<(Vec<u8>, Bencode)>, k: Vec<u8>, b: Bencode, j: int)
    requires
        0 <= j <= s.len(),
    ensures
        bview_entries(s.push((k, b)), j) == bview_entries(s, j).push((k@, bview(b))),
    decreases s.len() - j,
{
    let t = s.push((k, b));
    if j == s.len() {
        assert(bview_entries(t, j + 1) =~= Seq::<(Seq<u8>, BValue)>::empty());
        assert(t[j] == (k, b));
        assert(bview_entries(t, j) =~= seq![(k@, bview(b))]);
        assert(bview_entries(s, j).push((k@, bview(b))) =~= seq![(k@, bview(b))]);
    } else {
        lemma_bview_entries_push_at(s, k, b, j + 1);
        assert(t[j] == s[j]);
        assert(bview_entries(t, j) =~= bview_entries(s, j).push((k@, bview(b))));
    }
}

/// The models of a list line up index by index.
pub proof fn lemma_bview_items_index(s: Seq<Bencode>, k: int)
    requires
        0 <= k <= s.len(),
    ensures
        bview_items(s, k).len() == s.len() - k,
        forall|i: int| k <= i < s.len() ==> bview_items(s, k)[i - k] == bview(#[trigger] s[i]),
    decreases s.len() - k,
{
    if k < s.len() {
        lemma_bview_items_index(s, k + 1);
    }
}

/// The models of a dictionary line up index by index.
pub proof fn lemma_bview_entries_index(s: Seq<(Vec<u8>, Bencode)>, k: int)
    requires
        0 <= k <= s.len(),
    ensures
        bview_entries(s, k).len() == s.len() - k,
        forall|i: int| k <= i < s.len() ==> bview_entries(s, k)[i - k] == (#[trigger] s[i].0@,
        bview(s[i].1)),
    decreases s.len() - k,
{
    if k < s.len() {
        lemma_bview_entries_index(s, k + 1);
    }
}

} // verus!
