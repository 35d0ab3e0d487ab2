//! The bencode encoder.
//!
//! Every function appends the canonical encoding (`bval_enc`) of what
//! it is given to the output buffer: integers in shortest decimal
//! form, byte strings length-prefixed, dictionary entries in stored
//! order (the decoder only ever produces sorted dictionaries).

use vstd::prelude::*;

use crate::value::{
    BValue, Bencode, bstr_enc, bval_enc, bview, bview_entries, bview_items, dec_digits,
    enc_entries, enc_items, lemma_bview_entries_index, lemma_bview_items_index,
};

verus! {

/// An output buffer collecting encoded bytes.
pub struct EncodeContext {
    data: Vec<u8>,
}

/// Appends the shortest decimal digits of `v`.
fn push_u64_digits(out: &mut Vec<u8>, v: u64)
    ensures
        final(out)@ == old(out)@ + dec_digits(v as nat),
    decreases v,
{
    if v < 10 {
        out.push(48 + (v as u8));
        assert(old(out)@.push((48 + v) as u8) =~= old(out)@ + dec_digits(v as nat));
    } else {
        push_u64_digits(out, v / 10);
        out.push(48 + ((v % 10) as u8));
        assert(dec_digits(v as nat) == dec_digits((v as nat) / 10).push(
            (48 + (v as nat) % 10) as u8,
        ));
        assert((old(out)@ + dec_digits((v as nat) / 10)).push((48 + (v as nat) % 10) as u8) =~= old(
            out,
        )@ + dec_digits(v as nat));
    }
}

impl EncodeContext {
    /// The bytes emitted so far.
    pub closed spec fn out(&self) -> Seq<u8> {
        self.data@
    }

    /// An empty output buffer.
    pub fn new() -> (r: Self)
        ensures
            r.out() == Seq::<u8>::empty(),
    {
        Self { data: Vec::new() }
    }

    /// Appends one character as its byte.
    pub fn push_char(&mut self, v: char)
        ensures
            final(self).out() == old(self).out().push(v as u8),
    {
        self.data.push(v as u8);
    }

    /// Appends the shortest decimal digits of `v`.
    pub fn push_usize(&mut self, v: usize)
        ensures
            final(self).out() == old(self).out() + dec_digits(v as nat),
    {
        push_u64_digits(&mut self.data, v as u64);
    }

    /// Appends the shortest decimal digits of a 64-bit value.
    pub fn push_u64(&mut self, v: u64)
        ensures
            final(self).out() == old(self).out() + dec_digits(v as nat),
    {
        push_u64_digits(&mut self.data, v);
    }

    /// Appends raw bytes.
    pub fn append(&mut self, data: Vec<u8>)
        ensures
            final(self).out() == old(self).out() + data@,
    {
        let mut d = data;
        self.data.append(&mut d);
    }

    /// The bytes emitted so far.
    pub fn data(&self) -> (r: &Vec<u8>)
        ensures
            r@ == self.out(),
    {
        &self.data
    }

    /// Takes the emitted bytes.
    pub fn consume(self) -> (r: Vec<u8>)
        ensures
            r@ == self.out(),
    {
        self.data
    }
}

/// Appends the encoding of one byte string: decimal length, `:`, the
/// bytes (`"hello"` becomes `"5:hello"`).
pub fn encode_string(ctx: &mut EncodeContext, s: &Vec<u8>)
    ensures
        final(ctx).out() == old(ctx).out() + bstr_enc(s@),
{
    ctx.push_usize(s.len());
    ctx.push_char(':');
    let copy = vstd::slice::slice_to_vec(s.as_slice());
    ctx.append(copy);
    proof {
        assert((old(ctx).out() + dec_digits(s@.len())).push(':' as u8) + s@ =~= old(ctx).out()
            + bstr_enc(s@));
    }
}

/// Appends the encoding of one integer: `i`, a minus sign if and only
/// if the value is negative, the decimal magnitude, `e`.
pub fn encode_integer(ctx: &mut EncodeContext, i: i64)
    ensures
        final(ctx).out() == old(ctx).out() + bval_enc(BValue::Int(i as int)),
{
    ctx.push_char('i');
    if i < 0 {
        ctx.push_char('-');
        let mag: u64 = if i == i64::MIN {
            9223372036854775808u64
        } else {
            (-i) as u64
        };
        ctx.push_u64(mag);
        proof {
            assert(mag as nat == (-(i as int)) as nat);
            assert(old(ctx).out().push('i' as u8).push('-' as u8) + dec_digits(mag as nat)
                =~= old(ctx).out() + (seq![105u8] + (seq![45u8] + dec_digits(
                (-(i as int)) as nat,
            ))));
        }
    } else {
        ctx.push_u64(i as u64);
        proof {
            assert(old(ctx).out().push('i' as u8) + dec_digits((i as u64) as nat) =~= old(
                ctx,
            ).out() + (seq![105u8] + dec_digits((i as int) as nat)));
        }
    }
    ctx.push_char('e');
    proof {
        if i < 0 {
            assert((old(ctx).out() + (seq![105u8] + (seq![45u8] + dec_digits(
                (-(i as int)) as nat,
            )))).push('e' as u8) =~= old(ctx).out() + bval_enc(BValue::Int(i as int)));
        } else {
            assert((old(ctx).out() + (seq![105u8] + dec_digits((i as int) as nat))).push(
                'e' as u8,
            ) =~= old(ctx).out() + bval_enc(BValue::Int(i as int)));
        }
    }
}

/// Appends the encoding of one list: `l`, the items, `e`.
pub fn encode_list(ctx: &mut EncodeContext, v: &Vec<Bencode>)
    ensures
        final(ctx).out() == old(ctx).out() + bval_enc(BValue::List(bview_items(v@, 0))),
    decreases v, 0int,
{
    let ghost vs = bview_items(v@, 0);
    proof {
        lemma_bview_items_index(v@, 0);
    }
    ctx.push_char('l');
    let mut k: usize = 0;
    let n = v.len();
    proof {
        assert(old(ctx).out().push('l' as u8) =~= old(ctx).out() + seq![108u8]);
    }
    while k < n
        invariant
            0 <= k <= n,
            n == v@.len(),
            vs == bview_items(v@, 0),
            vs.len() == n,
            forall|m: int| 0 <= m < n ==> vs[m] == bview(#[trigger] v@[m]),
            ctx.out() + enc_items(vs, k as int) == old(ctx).out() + seq![108u8] + enc_items(
                vs,
                0,
            ),
        decreases n - k,
    {
        encode_value(ctx, &v[k]);
        proof {
            assert(enc_items(vs, k as int) == bval_enc(vs[k as int]) + enc_items(
                vs,
                k as int + 1,
            ));
            assert((ctx.out() + bval_enc(vs[k as int])) + enc_items(vs, k as int + 1) =~= ctx.out()
                + enc_items(vs, k as int));
        }
        k = k + 1;
    }
    proof {
        assert(enc_items(vs, n as int) =~= Seq::<u8>::empty());
        assert(ctx.out() + enc_items(vs, n as int) =~= ctx.out());
    }
    ctx.push_char('e');
    proof {
        assert((old(ctx).out() + seq![108u8] + enc_items(vs, 0)).push('e' as u8) =~= old(
            ctx,
        ).out() + bval_enc(BValue::List(vs)));
    }
}

/// Appends the encoding of one dictionary: `d`, then each entry as
/// `key value` in stored order, then `e`.  With sorted entries, as
/// the decoder yields, the emitted key order is strictly ascending.
pub fn encode_dictionary(ctx: &mut EncodeContext, v: &Vec<(Vec<u8>, Bencode)>)
    ensures
        final(ctx).out() == old(ctx).out() + bval_enc(BValue::Dict(bview_entries(v@, 0))),
    decreases v, 0int,
{
    let ghost es = bview_entries(v@, 0);
    proof {
        lemma_bview_entries_index(v@, 0);
    }
    ctx.push_char('d');
    let mut k: usize = 0;
    let n = v.len();
    proof {
        assert(old(ctx).out().push('d' as u8) =~= old(ctx).out() + seq![100u8]);
    }
    while k < n
        invariant
            0 <= k <= n,
            n == v@.len(),
            es == bview_entries(v@, 0),
            es.len() == n,
            forall|m: int| 0 <= m < n ==> es[m] == (#[trigger] v@[m].0@, bview(v@[m].1)),
            ctx.out() + enc_entries(es, k as int) == old(ctx).out() + seq![100u8] + enc_entries(
                es,
                0,
            ),
        decreases n - k,
    {
        encode_string(ctx, &v[k].0);
        encode_value(ctx, &v[k].1);
        proof {
            assert(enc_entries(es, k as int) == bstr_enc(es[k as int].0) + bval_enc(
                es[k as int].1,
            ) + enc_entries(es, k as int + 1));
            assert(((ctx.out() + bstr_enc(es[k as int].0)) + bval_enc(es[k as int].1))
                + enc_entries(es, k as int + 1) =~= ctx.out() + enc_entries(es, k as int));
        }
        k = k + 1;
    }
    proof {
        assert(enc_entries(es, n as int) =~= Seq::<u8>::empty());
        assert(ctx.out() + enc_entries(es, n as int) =~= ctx.out());
    }
    ctx.push_char('e');
    proof {
        assert((old(ctx).out() + seq![100u8] + enc_entries(es, 0)).push('e' as u8) =~= old(
            ctx,
        ).out() + bval_enc(BValue::Dict(es)));
    }
}

/// Appends the canonical encoding of one value of any shape.
pub fn encode_value(ctx: &mut EncodeContext, v: &Bencode)
    ensures
        final(ctx).out() == old(ctx).out() + bval_enc(v@),
    decreases v, 1int,
{
    match v {
        Bencode::Int(n) => {
            encode_integer(ctx, *n);
        },
        Bencode::Bytes(b) => {
            encode_string(ctx, b);
        },
        Bencode::List(l) => {
            encode_list(ctx, l);
        },
        Bencode::Dict(d) => {
            encode_dictionary(ctx, d);
        },
    }
}

} // verus!
