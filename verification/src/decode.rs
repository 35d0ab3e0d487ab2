//! The bencode decoder.
//!
//! `spec_parse` is the mathematical parser: a total function from a
//! byte sequence and a cursor to either the parsed value with the new
//! cursor, or the exact error.  The executable decoder mirrors it and
//! every decoding function is proved to return precisely what
//! `spec_parse` says.

use vstd::prelude::*;

use crate::utils::{char_slice_to_usize, lex_lt_bytes};
use crate::value::{
    BValue, Bencode, all_digits, bval_enc, bval_wf, bview, bview_entries, bview_items,
    canon_digits, dec_val, is_digit, lemma_bview_entries_push, lemma_bview_items_push, lex_lt,
};

verus! {

/// Decode error, over unbounded positions: the model of
/// [`BencodeError`].
pub enum BErr {
    /// The cursor ran off the end of the data.
    Truncated,
    /// No value can start with the byte at this position.
    InvalidPrefix(int),
    /// A malformed integer starting at this position.
    InvalidInteger(int),
    /// A malformed byte-string length starting at this position.
    InvalidLength(int),
    /// A dictionary key at this position is not a byte string.
    KeyNotString(int),
    /// The dictionary key at this position is not strictly above its
    /// predecessor.
    KeyOrder(int),
}

/// Decode error, carrying the byte position it was found at.
#[derive(Debug, Clone, Copy, PartialEq, Eq, Structural)]
pub enum BencodeError {
    /// The cursor ran off the end of the data.
    Truncated,
    /// No value can start with the byte at this position.
    InvalidPrefix(usize),
    /// A malformed integer starting at this position.
    InvalidInteger(usize),
    /// A malformed byte-string length starting at this position.
    InvalidLength(usize),
    /// A dictionary key at this position is not a byte string.
    KeyNotString(usize),
    /// The dictionary key at this position is not strictly above its
    /// predecessor.
    KeyOrder(usize),
}

impl View for BencodeError {
    type V = BErr;

    open spec fn view(&self) -> BErr {
        match *self {
            BencodeError::Truncated => BErr::Truncated,
            BencodeError::InvalidPrefix(p) => BErr::InvalidPrefix(p as int),
            BencodeError::InvalidInteger(p) => BErr::InvalidInteger(p as int),
            BencodeError::InvalidLength(p) => BErr::InvalidLength(p as int),
            BencodeError::KeyNotString(p) => BErr::KeyNotString(p as int),
            BencodeError::KeyOrder(p) => BErr::KeyOrder(p as int),
        }
    }
}

/// First position at or after `i` that does not hold a decimal digit
/// (or the end of the data).
pub open spec fn digits_end(s: Seq<u8>, i: int) -> int
    decreases s.len() - i,
{
    if i < 0 || i >= s.len() {
        i
    } else if is_digit(s[i]) {
        digits_end(s, i + 1)
    } else {
        i
    }
}

/// Parse one byte string at `i`, where a digit (or anything else:
/// then an error) stands.
pub open spec fn spec_parse_bstr(s: Seq<u8>, i: int) -> Result<(BValue, int), BErr> {
    let e = digits_end(s, i);
    if e >= s.len() {
        Err(BErr::Truncated)
    } else if s[e] != 58u8 {
        Err(BErr::InvalidLength(e))
    } else if !canon_digits(s.subrange(i, e)) {
        Err(BErr::InvalidLength(i))
    } else {
        let n = dec_val(s.subrange(i, e));
        if e + 1 + n > s.len() {
            Err(BErr::Truncated)
        } else {
            Ok((BValue::Bytes(s.subrange(e + 1, e + 1 + n)), e + 1 + n))
        }
    }
}

/// Parse one integer whose `i` marker stands at position `i`.
pub open spec fn spec_parse_int(s: Seq<u8>, i: int) -> Result<(BValue, int), BErr> {
    let neg = i + 1 < s.len() && s[i + 1] == 45u8;
    let d = if neg {
        i + 2
    } else {
        i + 1
    };
    let e = digits_end(s, d);
    if e >= s.len() {
        Err(BErr::Truncated)
    } else if s[e] != 101u8 {
        Err(BErr::InvalidInteger(e))
    } else {
        let ds = s.subrange(d, e);
        if !canon_digits(ds) || (neg && dec_val(ds) == 0) {
            Err(BErr::InvalidInteger(i))
        } else {
            let m = if neg {
                -dec_val(ds)
            } else {
                dec_val(ds)
            };
            if m < i64::MIN || m > i64::MAX {
                Err(BErr::InvalidInteger(i))
            } else {
                Ok((BValue::Int(m), e + 1))
            }
        }
    }
}

/// Parse one value at `i`: the dispatcher over the four shapes.
pub open spec fn spec_parse(s: Seq<u8>, i: int) -> Result<(BValue, int), BErr>
    decreases s.len() - i, 0int,
{
    if i < 0 || i >= s.len() {
        Err(BErr::Truncated)
    } else if is_digit(s[i]) {
        spec_parse_bstr(s, i)
    } else if s[i] == 105u8 {
        spec_parse_int(s, i)
    } else if s[i] == 108u8 {
        match spec_parse_items(s, i + 1) {
            Ok((vs, j)) => Ok((BValue::List(vs), j)),
            Err(e) => Err(e),
        }
    } else if s[i] == 100u8 {
        match spec_parse_entries(s, i + 1, Option::None) {
            Ok((es, j)) => Ok((BValue::Dict(es), j)),
            Err(e) => Err(e),
        }
    } else {
        Err(BErr::InvalidPrefix(i))
    }
}

/// Parse list items from `i` up to and over the closing `e`.
pub open spec fn spec_parse_items(s: Seq<u8>, i: int) -> Result<(Seq<BValue>, int), BErr>
    decreases s.len() - i, 1int,
{
    if i < 0 || i >= s.len() {
        Err(BErr::Truncated)
    } else if s[i] == 101u8 {
        Ok((Seq::empty(), i + 1))
    } else {
        match spec_parse(s, i) {
            Err(e) => Err(e),
            Ok((v, j)) => if i < j && j <= s.len() {
                match spec_parse_items(s, j) {
                    Err(e) => Err(e),
                    Ok((vs, k)) => Ok((seq![v] + vs, k)),
                }
            } else {
                Err(BErr::Truncated)
            },
        }
    }
}

/// Parse dictionary entries from `i` up to and over the closing `e`.
/// `prev` is the last key seen, which every further key must exceed.
pub open spec fn spec_parse_entries(s: Seq<u8>, i: int, prev: Option<Seq<u8>>) -> Result<
    (Seq<(Seq<u8>, BValue)>, int),
    BErr,
>
    decreases s.len() - i, 1int,
{
    if i < 0 || i >= s.len() {
        Err(BErr::Truncated)
    } else if s[i] == 101u8 {
        Ok((Seq::empty(), i + 1))
    } else {
        match spec_parse(s, i) {
            Err(e) => Err(e),
            Ok((kv, j)) => match kv {
                BValue::Bytes(key) => {
                    let ord_ok = match prev {
                        Option::Some(p) => lex_lt(p, key),
                        Option::None => true,
                    };
                    if !ord_ok {
                        Err(BErr::KeyOrder(i))
                    } else if i < j && j <= s.len() {
                        match spec_parse(s, j) {
                            Err(e) => Err(e),
                            Ok((val, k)) => if j < k && k <= s.len() {
                                match spec_parse_entries(s, k, Option::Some(key)) {
                                    Err(e) => Err(e),
                                    Ok((es, m)) => Ok((seq![(key, val)] + es, m)),
                                }
                            } else {
                                Err(BErr::Truncated)
                            },
                        }
                    } else {
                        Err(BErr::Truncated)
                    }
                },
                _ => Err(BErr::KeyNotString(i)),
            },
        }
    }
}

/// A cursor over the raw bytes being decoded.
pub struct DecodeContext {
    /// The raw data to decode.
    data: Vec<u8>,
    /// Index into `data` currently decoding.
    pos: usize,
}

impl DecodeContext {
    /// The bytes being decoded.
    pub closed spec fn data_seq(&self) -> Seq<u8> {
        self.data@
    }

    /// The cursor.
    pub closed spec fn at(&self) -> int {
        self.pos as int
    }

    /// A fresh cursor over `data`, standing at its start.
    pub fn new(data: Vec<u8>) -> (r: Self)
        ensures
            r.data_seq() == data@,
            r.at() == 0,
    {
        Self { data, pos: 0 }
    }

    /// The cursor's position.
    pub fn pos(&self) -> (r: usize)
        ensures
            r == self.at(),
    {
        self.pos
    }

    /// The offset, relative to the cursor, of the first occurrence of
    /// `ch` at or after it; `None` when the rest holds no `ch`.
    pub fn position(&self, ch: u8) -> (r: Option<usize>)
        requires
            self.at() <= self.data_seq().len(),
        ensures
            match r {
                Some(k) => {
                    &&& self.at() + k < self.data_seq().len()
                    &&& self.data_seq()[self.at() + k] == ch
                    &&& forall|m: int|
                        self.at() <= m < self.at() + k ==> #[trigger] self.data_seq()[m] != ch
                },
                None => forall|m: int|
                    self.at() <= m < self.data_seq().len() ==> #[trigger] self.data_seq()[m] != ch,
            },
    {
        let n = self.data.len();
        let mut i = self.pos;
        while i < n
            invariant
                self.pos <= i <= n,
                n == self.data@.len(),
                forall|m: int| self.pos <= m < i ==> #[trigger] self.data@[m] != ch,
            decreases n - i,
        {
            if self.data[i] == ch {
                return Some(i - self.pos);
            }
            i = i + 1;
        }
        None
    }

    /// Steps the cursor one byte forward.
    pub fn advance(&mut self)
        requires
            old(self).at() < old(self).data_seq().len(),
        ensures
            final(self).data_seq() == old(self).data_seq(),
            final(self).at() == old(self).at() + 1,
    {
        let n = self.data.len();
        assert(self.pos < n);
        self.pos = self.pos + 1;
    }

    /// The byte under the cursor, or `None` past the end.
    pub fn peek(&self) -> (r: Option<u8>)
        ensures
            match r {
                Some(b) => self.at() < self.data_seq().len() && b == self.data_seq()[self.at()],
                None => self.at() >= self.data_seq().len(),
            },
    {
        if self.ended() {
            return None;
        }
        Some(self.data[self.pos])
    }

    /// Takes the next `step` bytes, advancing over them; `None` when
    /// fewer are left, leaving the cursor alone.
    pub fn advance_many(&mut self, step: usize) -> (r: Option<Vec<u8>>)
        ensures
            final(self).data_seq() == old(self).data_seq(),
            match r {
                Some(v) => {
                    &&& old(self).at() + step <= old(self).data_seq().len()
                    &&& v@ == old(self).data_seq().subrange(
                        old(self).at(),
                        old(self).at() + step,
                    )
                    &&& final(self).at() == old(self).at() + step
                },
                None => {
                    &&& (old(self).at() >= old(self).data_seq().len() || old(self).at() + step
                        > old(self).data_seq().len())
                    &&& final(self).at() == old(self).at()
                },
            },
    {
        let n = self.data.len();
        if self.pos >= n || step > n - self.pos {
            return None;
        }
        let ret = vstd::slice::slice_to_vec(
            vstd::slice::slice_subrange(self.data.as_slice(), self.pos, self.pos + step),
        );
        self.pos = self.pos + step;
        Some(ret)
    }

    /// The cursor has passed the last byte.
    pub fn ended(&self) -> (r: bool)
        ensures
            r == (self.at() >= self.data_seq().len()),
    {
        self.pos >= self.data.len()
    }

    /// The bytes being decoded.
    pub fn data(&self) -> (r: &Vec<u8>)
        ensures
            r@ == self.data_seq(),
    {
        &self.data
    }
}

/// Finds the end of the digit run starting at `from`.
pub(crate) fn scan_digits(data: &Vec<u8>, from: usize) -> (e: usize)
    requires
        from <= data@.len(),
    ensures
        from <= e <= data@.len(),
        e as int == digits_end(data@, from as int),
{
    let ghost s = data@;
    let n = data.len();
    let mut e = from;
    loop
        invariant_except_break
            from <= e <= n,
            n == s.len(),
            s == data@,
            digits_end(s, from as int) == digits_end(s, e as int),
        ensures
            from <= e <= n,
            e as int == digits_end(s, from as int),
        decreases n - e,
    {
        if e >= n {
            break;
        }
        let c = data[e];
        if !(c >= 48 && c <= 57) {
            break;
        }
        e = e + 1;
    }
    e
}

/// Decodes one byte string (`"5:hello"` yields the raw bytes
/// `hello`), returning exactly what `spec_parse_bstr` prescribes at
/// the cursor.
pub fn decode_bytes(ctx: &mut DecodeContext) -> (r: Result<Vec<u8>, BencodeError>)
    requires
        old(ctx).at() <= old(ctx).data_seq().len(),
    ensures
        final(ctx).data_seq() == old(ctx).data_seq(),
        final(ctx).at() <= final(ctx).data_seq().len(),
        match spec_parse_bstr(old(ctx).data_seq(), old(ctx).at()) {
            Ok((v, j)) => {
                &&& r matches Ok(b)
                &&& v == BValue::Bytes(r->Ok_0@)
                &&& final(ctx).at() == j
            },
            Err(e) => r matches Err(er) && er@ == e && final(ctx).at() == old(ctx).at(),
        },
{
    let ghost s = ctx.data@;
    let ghost i0 = ctx.pos as int;
    proof {
        lemma_digits_end(s, i0);
    }
    let n = ctx.data.len();
    let e = scan_digits(&ctx.data, ctx.pos);
    if e >= n {
        return Err(BencodeError::Truncated);
    }
    if ctx.data[e] != 58 {
        return Err(BencodeError::InvalidLength(e));
    }
    let ghost ds = s.subrange(i0, e as int);
    if e == ctx.pos {
        assert(!canon_digits(ds));
        return Err(BencodeError::InvalidLength(ctx.pos));
    }
    proof {
        assert(ds[0] == s[i0]);
    }
    if ctx.data[ctx.pos] == 48 && e > ctx.pos + 1 {
        assert(!canon_digits(ds));
        return Err(BencodeError::InvalidLength(ctx.pos));
    }
    assert(canon_digits(ds));
    let len_digits = vstd::slice::slice_subrange(ctx.data.as_slice(), ctx.pos, e);
    let l = match char_slice_to_usize(len_digits) {
        Some(v) => v,
        None => {
            assert(dec_val(ds) > usize::MAX);
            return Err(BencodeError::Truncated);
        },
    };
    if l > n - e - 1 {
        return Err(BencodeError::Truncated);
    }
    let out = vstd::slice::slice_to_vec(
        vstd::slice::slice_subrange(ctx.data.as_slice(), e + 1, e + 1 + l),
    );
    ctx.pos = e + 1 + l;
    Ok(out)
}

/// Decodes one byte string and reads it as text, one character per
/// byte (`"5:hello"` yields `"hello"`).
pub fn decode_string(ctx: &mut DecodeContext) -> (r: Result<String, BencodeError>)
    requires
        old(ctx).at() <= old(ctx).data_seq().len(),
    ensures
        final(ctx).data_seq() == old(ctx).data_seq(),
        final(ctx).at() <= final(ctx).data_seq().len(),
        match spec_parse_bstr(old(ctx).data_seq(), old(ctx).at()) {
            Ok((v, j)) => {
                &&& r matches Ok(st)
                &&& v == BValue::Bytes(latin1_bytes_of(r->Ok_0@))
                &&& r->Ok_0@ == crate::value::latin1_chars(v->Bytes_0)
                &&& final(ctx).at() == j
            },
            Err(e) => r matches Err(er) && er@ == e && final(ctx).at() == old(ctx).at(),
        },
{
    let b = match decode_bytes(ctx) {
        Ok(b) => b,
        Err(e) => {
            return Err(e);
        },
    };
    let mut st = String::new();
    let mut i: usize = 0;
    let n = b.len();
    proof {
        assert(st@ =~= crate::value::latin1_chars(b@.subrange(0, 0)));
    }
    while i < n
        invariant
            0 <= i <= n,
            n == b@.len(),
            st@ == crate::value::latin1_chars(b@.subrange(0, i as int)),
        decreases n - i,
    {
        let c = b[i];
        st.push(c as char);
        proof {
            assert(crate::value::latin1_chars(b@.subrange(0, i as int + 1)) =~= st@);
        }
        i = i + 1;
    }
    proof {
        assert(b@.subrange(0, n as int) =~= b@);
        assert(latin1_bytes_of(st@) =~= b@);
    }
    Ok(st)
}

/// The bytes a latin-1 text stands for, one byte per character; only
/// meaningful for characters below 256.
pub open spec fn latin1_bytes_of(t: Seq<char>) -> Seq<u8> {
    Seq::new(t.len(), |i: int| t[i] as u8)
}

/// What `decode_integer` returns: first the check that an `i` marker
/// stands at the cursor, then the integer case of the grammar.
pub open spec fn spec_decode_integer(s: Seq<u8>, i: int) -> Result<(BValue, int), BErr> {
    if i >= s.len() {
        Err(BErr::Truncated)
    } else if s[i] != 105u8 {
        Err(BErr::InvalidInteger(i))
    } else {
        spec_parse_int(s, i)
    }
}

/// Decodes one integer (`"i52e"` yields `52`, `"i-52e"` yields
/// `-52`), exactly as the grammar prescribes: shortest form only, no
/// negative zero, and only values that fit `i64`.
pub fn decode_integer(ctx: &mut DecodeContext) -> (r: Result<i64, BencodeError>)
    requires
        old(ctx).at() <= old(ctx).data_seq().len(),
    ensures
        final(ctx).data_seq() == old(ctx).data_seq(),
        final(ctx).at() <= final(ctx).data_seq().len(),
        match spec_decode_integer(old(ctx).data_seq(), old(ctx).at()) {
            Ok((v, j)) => {
                &&& r matches Ok(m)
                &&& v == BValue::Int(r->Ok_0 as int)
                &&& final(ctx).at() == j
            },
            Err(e) => r matches Err(er) && er@ == e && final(ctx).at() == old(ctx).at(),
        },
{
    let ghost s = ctx.data@;
    let ghost i0 = ctx.pos as int;
    let n = ctx.data.len();
    if ctx.pos >= n {
        return Err(BencodeError::Truncated);
    }
    if ctx.data[ctx.pos] != 105 {
        return Err(BencodeError::InvalidInteger(ctx.pos));
    }
    let neg = ctx.pos + 1 < n && ctx.data[ctx.pos + 1] == 45;
    let d = if neg {
        ctx.pos + 2
    } else {
        ctx.pos + 1
    };
    proof {
        lemma_digits_end(s, d as int);
    }
    let e = scan_digits(&ctx.data, d);
    if e >= n {
        return Err(BencodeError::Truncated);
    }
    if ctx.data[e] != 101 {
        return Err(BencodeError::InvalidInteger(e));
    }
    let ghost ds = s.subrange(d as int, e as int);
    if e == d {
        assert(!canon_digits(ds));
        return Err(BencodeError::InvalidInteger(ctx.pos));
    }
    proof {
        assert(ds[0] == s[d as int]);
    }
    if ctx.data[d] == 48 && e > d + 1 {
        assert(!canon_digits(ds));
        return Err(BencodeError::InvalidInteger(ctx.pos));
    }
    assert(canon_digits(ds));
    let digits = vstd::slice::slice_subrange(ctx.data.as_slice(), d, e);
    let mag = match crate::utils::char_slice_to_u64(digits) {
        Some(v) => v,
        None => {
            assert(dec_val(ds) > u64::MAX);
            return Err(BencodeError::InvalidInteger(ctx.pos));
        },
    };
    if neg && mag == 0 {
        return Err(BencodeError::InvalidInteger(ctx.pos));
    }
    let val: i64;
    if neg {
        if mag > 9223372036854775808u64 {
            return Err(BencodeError::InvalidInteger(ctx.pos));
        }
        if mag == 9223372036854775808u64 {
            val = i64::MIN;
        } else {
            val = -(mag as i64);
        }
    } else {
        if mag > 9223372036854775807u64 {
            return Err(BencodeError::InvalidInteger(ctx.pos));
        }
        val = mag as i64;
    }
    ctx.pos = e + 1;
    Ok(val)
}

/// Decodes one list (`"l5:helloi52ee"`), whose `l` marker stands at
/// the cursor.
fn decode_list(ctx: &mut DecodeContext) -> (r: Result<Vec<Bencode>, BencodeError>)
    requires
        old(ctx).at() < old(ctx).data_seq().len(),
        old(ctx).data_seq()[old(ctx).at()] == 108u8,
    ensures
        final(ctx).data_seq() == old(ctx).data_seq(),
        final(ctx).at() <= final(ctx).data_seq().len(),
        match spec_parse(old(ctx).data_seq(), old(ctx).at()) {
            Ok((v, j)) => {
                &&& r matches Ok(l)
                &&& v == BValue::List(bview_items(r->Ok_0@, 0))
                &&& final(ctx).at() == j
            },
            Err(e) => r matches Err(er) && er@ == e,
        },
    decreases old(ctx).data_seq().len() - old(ctx).at(), 0int,
{
    let ghost s = ctx.data@;
    let ghost i0 = ctx.pos as int;
    let n = ctx.data.len();
    ctx.pos = ctx.pos + 1;
    let ghost p1 = i0 + 1;
    let mut out: Vec<Bencode> = Vec::new();
    proof {
        assert(bview_items(out@, 0) =~= Seq::<BValue>::empty());
    }
    loop
        invariant
            ctx.data@ == s,
            s == old(ctx).data_seq(),
            i0 == old(ctx).at(),
            0 <= i0 < s.len(),
            s[i0] == 108u8,
            p1 == i0 + 1,
            n == s.len(),
            p1 <= ctx.pos as int <= n,
            (match spec_parse_items(s, ctx.pos as int) {
                Ok((vs, k)) => spec_parse_items(s, p1) == Ok::<(Seq<BValue>, int), BErr>(
                    (bview_items(out@, 0) + vs, k),
                ),
                Err(e) => spec_parse_items(s, p1) == Err::<(Seq<BValue>, int), BErr>(e),
            }),
        decreases n - ctx.pos,
    {
        if ctx.pos >= n {
            return Err(BencodeError::Truncated);
        }
        let c = ctx.data[ctx.pos];
        if c == 101 {
            ctx.pos = ctx.pos + 1;
            proof {
                assert(bview_items(out@, 0) + Seq::<BValue>::empty() =~= bview_items(out@, 0));
            }
            return Ok(out);
        }
        let ghost cur = ctx.pos as int;
        let v = match decode_bencoded_value(ctx) {
            Ok(v) => v,
            Err(er) => {
                return Err(er);
            },
        };
        proof {
            lemma_spec_parse_bounds(s, cur);
            lemma_bview_items_push(out@, v);
            let vv = bview(v);
            match spec_parse_items(s, ctx.pos as int) {
                Ok((vs2, k2)) => {
                    assert(bview_items(out@, 0) + (seq![vv] + vs2) =~= (bview_items(
                        out@,
                        0,
                    ).push(vv)) + vs2);
                },
                Err(_) => {},
            }
        }
        out.push(v);
    }
}

/// The last dictionary key seen, as the spec parser tracks it.
pub open spec fn prev_view(p: Option<Vec<u8>>) -> Option<Seq<u8>> {
    match p {
        Option::Some(k) => Option::Some(k@),
        Option::None => Option::None,
    }
}

/// Decodes one dictionary (`"d3:foo3:bar5:helloi52ee"`), whose `d`
/// marker stands at the cursor.  Keys must be byte strings in
/// strictly ascending byte-wise order.
fn decode_dictionary(ctx: &mut DecodeContext) -> (r: Result<
    Vec<(Vec<u8>, Bencode)>,
    BencodeError,
>)
    requires
        old(ctx).at() < old(ctx).data_seq().len(),
        old(ctx).data_seq()[old(ctx).at()] == 100u8,
    ensures
        final(ctx).data_seq() == old(ctx).data_seq(),
        final(ctx).at() <= final(ctx).data_seq().len(),
        match spec_parse(old(ctx).data_seq(), old(ctx).at()) {
            Ok((v, j)) => {
                &&& r matches Ok(d)
                &&& v == BValue::Dict(bview_entries(r->Ok_0@, 0))
                &&& final(ctx).at() == j
            },
            Err(e) => r matches Err(er) && er@ == e,
        },
    decreases old(ctx).data_seq().len() - old(ctx).at(), 0int,
{
    let ghost s = ctx.data@;
    let ghost i0 = ctx.pos as int;
    let n = ctx.data.len();
    ctx.pos = ctx.pos + 1;
    let ghost p1 = i0 + 1;
    let mut out: Vec<(Vec<u8>, Bencode)> = Vec::new();
    let mut prev: Option<Vec<u8>> = None;
    proof {
        assert(bview_entries(out@, 0) =~= Seq::<(Seq<u8>, BValue)>::empty());
    }
    loop
        invariant
            ctx.data@ == s,
            s == old(ctx).data_seq(),
            i0 == old(ctx).at(),
            0 <= i0 < s.len(),
            s[i0] == 100u8,
            p1 == i0 + 1,
            n == s.len(),
            p1 <= ctx.pos as int <= n,
            (match spec_parse_entries(s, ctx.pos as int, prev_view(prev)) {
                Ok((es, k)) => spec_parse_entries(s, p1, Option::None) == Ok::<
                    (Seq<(Seq<u8>, BValue)>, int),
                    BErr,
                >((bview_entries(out@, 0) + es, k)),
                Err(e) => spec_parse_entries(s, p1, Option::None) == Err::<
                    (Seq<(Seq<u8>, BValue)>, int),
                    BErr,
                >(e),
            }),
        decreases n - ctx.pos,
    {
        if ctx.pos >= n {
            return Err(BencodeError::Truncated);
        }
        let c = ctx.data[ctx.pos];
        if c == 101 {
            ctx.pos = ctx.pos + 1;
            proof {
                assert(bview_entries(out@, 0) + Seq::<(Seq<u8>, BValue)>::empty() =~= bview_entries(
                    out@,
                    0,
                ));
            }
            return Ok(out);
        }
        let cur_pos = ctx.pos;
        let ghost cur = ctx.pos as int;
        let kv = match decode_bencoded_value(ctx) {
            Ok(v) => v,
            Err(er) => {
                return Err(er);
            },
        };
        proof {
            lemma_spec_parse_bounds(s, cur);
        }
        let key = match kv {
            Bencode::Bytes(b) => b,
            _ => {
                return Err(BencodeError::KeyNotString(cur_pos));
            },
        };
        let ord_ok = match &prev {
            Some(p) => lex_lt_bytes(p, &key),
            None => true,
        };
        if !ord_ok {
            return Err(BencodeError::KeyOrder(cur_pos));
        }
        let ghost j = ctx.pos as int;
        let val = match decode_bencoded_value(ctx) {
            Ok(v) => v,
            Err(er) => {
                return Err(er);
            },
        };
        proof {
            lemma_spec_parse_bounds(s, j);
            lemma_bview_entries_push(out@, key, val);
            let vv = bview(val);
            match spec_parse_entries(s, ctx.pos as int, Option::Some(key@)) {
                Ok((es2, k2)) => {
                    assert(bview_entries(out@, 0) + (seq![(key@, vv)] + es2) =~= (bview_entries(
                        out@,
                        0,
                    ).push((key@, vv))) + es2);
                },
                Err(_) => {},
            }
        }
        let key_copy = vstd::slice::slice_to_vec(key.as_slice());
        out.push((key, val));
        prev = Some(key_copy);
    }
}

/// Decodes one bencoded value of any shape at the cursor, exactly as
/// `spec_parse` prescribes: on success the value is well formed and
/// its canonical encoding is exactly the bytes consumed.
pub fn decode_bencoded_value(ctx: &mut DecodeContext) -> (r: Result<Bencode, BencodeError>)
    requires
        old(ctx).at() <= old(ctx).data_seq().len(),
    ensures
        final(ctx).data_seq() == old(ctx).data_seq(),
        final(ctx).at() <= final(ctx).data_seq().len(),
        match spec_parse(old(ctx).data_seq(), old(ctx).at()) {
            Ok((v, j)) => {
                &&& r matches Ok(b)
                &&& bview(r->Ok_0) == v
                &&& bval_wf(v)
                &&& bval_enc(v) == old(ctx).data_seq().subrange(old(ctx).at(), j)
                &&& final(ctx).at() == j
            },
            Err(e) => r matches Err(er) && er@ == e,
        },
    decreases old(ctx).data_seq().len() - old(ctx).at(), 1int,
{
    let ghost s = ctx.data@;
    let ghost i0 = ctx.pos as int;
    proof {
        crate::laws::lemma_spec_parse_sound(s, i0);
    }
    let n = ctx.data.len();
    if ctx.pos >= n {
        return Err(BencodeError::Truncated);
    }
    let flag = ctx.data[ctx.pos];
    if flag >= 48 && flag <= 57 {
        match decode_bytes(ctx) {
            Ok(b) => Ok(Bencode::Bytes(b)),
            Err(e) => Err(e),
        }
    } else if flag == 105 {
        match decode_integer(ctx) {
            Ok(v) => Ok(Bencode::Int(v)),
            Err(e) => Err(e),
        }
    } else if flag == 108 {
        match decode_list(ctx) {
            Ok(l) => Ok(Bencode::List(l)),
            Err(e) => Err(e),
        }
    } else if flag == 100 {
        match decode_dictionary(ctx) {
            Ok(d) => Ok(Bencode::Dict(d)),
            Err(e) => Err(e),
        }
    } else {
        Err(BencodeError::InvalidPrefix(ctx.pos))
    }
}

/// The run of digits found by `digits_end` is within bounds, is all
/// digits, and ends at a non-digit.
pub proof fn lemma_digits_end(s: Seq<u8>, i: int)
    requires
        0 <= i <= s.len(),
    ensures
        i <= digits_end(s, i) <= s.len(),
        all_digits(s.subrange(i, digits_end(s, i))),
        digits_end(s, i) < s.len() ==> !is_digit(s[digits_end(s, i)]),
        forall|m: int| i <= m < digits_end(s, i) ==> is_digit(#[trigger] s[m]),
    decreases s.len() - i,
{
    if i < s.len() && is_digit(s[i]) {
        lemma_digits_end(s, i + 1);
        let e = digits_end(s, i);
        assert(e == digits_end(s, i + 1));
        assert(forall|m: int| i <= m < e ==> is_digit(#[trigger] s[m]));
        assert(all_digits(s.subrange(i, e))) by {
            let sub = s.subrange(i, e);
            assert(forall|m: int| 0 <= m < sub.len() ==> #[trigger] sub[m] == s[m + i]);
        }
    } else {
        assert(s.subrange(i, i) =~= Seq::<u8>::empty());
    }
}

/// A successful parse consumes at least one byte and stays within the
/// data.
pub proof fn lemma_spec_parse_bounds(s: Seq<u8>, i: int)
    requires
        0 <= i,
    ensures
        spec_parse(s, i) matches Ok((v, j)) ==> i < j <= s.len(),
    decreases s.len() - i, 0int,
{
    if i < s.len() {
        if is_digit(s[i]) {
            lemma_digits_end(s, i);
            crate::value::lemma_dec_val_nonneg(s.subrange(i, digits_end(s, i)));
        } else if s[i] == 105u8 {
            let neg = i + 1 < s.len() && s[i + 1] == 45u8;
            let d = if neg {
                i + 2
            } else {
                i + 1
            };
            lemma_digits_end(s, d);
        } else if s[i] == 108u8 {
            lemma_spec_parse_items_bounds(s, i + 1);
        } else if s[i] == 100u8 {
            lemma_spec_parse_entries_bounds(s, i + 1, Option::None);
        }
    }
}

/// Bounds for the list-item parser.
pub proof fn lemma_spec_parse_items_bounds(s: Seq<u8>, i: int)
    requires
        0 <= i,
    ensures
        spec_parse_items(s, i) matches Ok((vs, j)) ==> i < j <= s.len(),
    decreases s.len() - i, 1int,
{
    if i < s.len() && s[i] != 101u8 {
        lemma_spec_parse_bounds(s, i);
        match spec_parse(s, i) {
            Ok((v, j)) => {
                if i < j && j <= s.len() {
                    lemma_spec_parse_items_bounds(s, j);
                }
            },
            Err(_) => {},
        }
    }
}

/// Bounds for the dictionary-entry parser.
pub proof fn lemma_spec_parse_entries_bounds(s: Seq<u8>, i: int, prev: Option<Seq<u8>>)
    requires
        0 <= i,
    ensures
        spec_parse_entries(s, i, prev) matches Ok((es, j)) ==> i < j <= s.len(),
    decreases s.len() - i, 1int,
{
    if i < s.len() && s[i] != 101u8 {
        lemma_spec_parse_bounds(s, i);
        match spec_parse(s, i) {
            Ok((kv, j)) => match kv {
                BValue::Bytes(key) => {
                    if i < j && j <= s.len() {
                        lemma_spec_parse_bounds(s, j);
                        match spec_parse(s, j) {
                            Ok((val, k)) => {
                                if j < k && k <= s.len() {
                                    lemma_spec_parse_entries_bounds(s, k, Option::Some(key));
                                }
                            },
                            Err(_) => {},
                        }
                    }
                },
                _ => {},
            },
            Err(_) => {},
        }
    }
}

} // verus!
