//! The peer wire framing: the fixed 68-byte handshake and the
//! length-prefixed typed messages exchanged after it.  All integers
//! are big-endian.

use vstd::prelude::*;

use crate::utils::push_all;

verus! {

/// The four big-endian bytes of a 32-bit value.
pub open spec fn be32(n: int) -> Seq<u8> {
    seq![
        ((n / 0x1000000) % 256) as u8,
        ((n / 0x10000) % 256) as u8,
        ((n / 0x100) % 256) as u8,
        (n % 256) as u8,
    ]
}

/// The value the four big-endian bytes stand for.
pub open spec fn be32_val(s: Seq<u8>) -> int {
    s[0] * 0x1000000 + s[1] * 0x10000 + s[2] * 0x100 + s[3]
}

/// Reading back the four bytes of a 32-bit value gives the value.
pub proof fn lemma_be32_round_trip(n: int)
    requires
        0 <= n < 0x100000000,
    ensures
        be32_val(be32(n)) == n,
        be32(n).len() == 4,
{
}

/// Appends the four big-endian bytes of `n`.
pub fn push_be32(out: &mut Vec<u8>, n: u32)
    ensures
        final(out)@ == old(out)@ + be32(n as int),
{
    out.push((n / 0x1000000) as u8);
    out.push(((n / 0x10000) % 256) as u8);
    out.push(((n / 0x100) % 256) as u8);
    out.push((n % 256) as u8);
    proof {
        assert((n as int / 0x1000000) % 256 == n as int / 0x1000000);
        assert(old(out)@.push((n / 0x1000000) as u8).push(((n / 0x10000) % 256) as u8).push(
            ((n / 0x100) % 256) as u8,
        ).push((n % 256) as u8) =~= old(out)@ + be32(n as int));
    }
}

/// Reads four big-endian bytes at `off`.
pub fn read_u32_be(b: &[u8], off: usize) -> (r: u32)
    requires
        off + 4 <= b@.len(),
    ensures
        r as int == be32_val(b@.subrange(off as int, off as int + 4)),
{
    let n = b.len();
    assert(off + 4 <= n);
    let b0 = *vstd::slice::slice_index_get(b, off);
    let b1 = *vstd::slice::slice_index_get(b, off + 1);
    let b2 = *vstd::slice::slice_index_get(b, off + 2);
    let b3 = *vstd::slice::slice_index_get(b, off + 3);
    let r = (b0 as u32) * 0x1000000 + (b1 as u32) * 0x10000 + (b2 as u32) * 0x100 + (b3 as u32);
    proof {
        let s = b@.subrange(off as int, off as int + 4);
        assert(s[0] == b@[off as int]);
        assert(s[1] == b@[off as int + 1]);
        assert(s[2] == b@[off as int + 2]);
        assert(s[3] == b@[off as int + 3]);
    }
    r
}

/// The 19 bytes of `BitTorrent protocol`.
pub open spec fn protocol_str() -> Seq<u8> {
    seq![
        'B' as u8,
        'i' as u8,
        't' as u8,
        'T' as u8,
        'o' as u8,
        'r' as u8,
        'r' as u8,
        'e' as u8,
        'n' as u8,
        't' as u8,
        ' ' as u8,
        'p' as u8,
        'r' as u8,
        'o' as u8,
        't' as u8,
        'o' as u8,
        'c' as u8,
        'o' as u8,
        'l' as u8,
    ]
}

/// The protocol string as bytes.
fn protocol_bytes() -> (r: Vec<u8>)
    ensures
        r@ == protocol_str(),
{
    let mut v: Vec<u8> = Vec::new();
    v.push(66);
    v.push(105);
    v.push(116);
    v.push(84);
    v.push(111);
    v.push(114);
    v.push(114);
    v.push(101);
    v.push(110);
    v.push(116);
    v.push(32);
    v.push(112);
    v.push(114);
    v.push(111);
    v.push(116);
    v.push(111);
    v.push(99);
    v.push(111);
    v.push(108);
    proof {
        assert(v@ =~= protocol_str());
    }
    v
}

/// The fixed 68-byte base handshake.
#[derive(Debug, Clone, Copy, PartialEq, Eq)]
pub struct HandshakeMessage {
    /// Reserved flag bytes; bit `0x10` of the sixth byte advertises
    /// extension support.
    pub reserved: [u8; 8],
    /// The info-hash of the content the session is about.
    pub info_hash: [u8; 20],
    /// The sender's peer id.
    pub peer_id: [u8; 20],
}

/// The 68 bytes of a handshake: length byte 19, the protocol string,
/// reserved flags, info-hash, peer id.
pub open spec fn handshake_bytes(m: HandshakeMessage) -> Seq<u8> {
    seq![19u8] + protocol_str() + m.reserved@ + m.info_hash@ + m.peer_id@
}

/// Why handshake bytes were rejected.
#[derive(Debug, Clone, Copy, PartialEq, Eq, Structural)]
pub enum WireError {
    /// Not the 68 bytes a handshake must be.
    BadHandshakeLength,
    /// The length byte or the protocol string is wrong.
    BadProtocol,
    /// The message payload does not fit its id.
    BadLength,
    /// No message has this id.
    UnknownId(u8),
}

impl HandshakeMessage {
    /// A handshake with all reserved bits clear.
    pub fn new(info_hash: [u8; 20], peer_id: [u8; 20]) -> (r: Self)
        ensures
            r.info_hash == info_hash,
            r.peer_id == peer_id,
            r.reserved@ =~= seq![0u8, 0u8, 0u8, 0u8, 0u8, 0u8, 0u8, 0u8],
    {
        HandshakeMessage { reserved: [0, 0, 0, 0, 0, 0, 0, 0], info_hash, peer_id }
    }

    /// A handshake with the given reserved bytes; passing `0x10` in
    /// the sixth advertises extension support.
    pub fn with_ext(info_hash: [u8; 20], peer_id: [u8; 20], reserved: [u8; 8]) -> (r: Self)
        ensures
            r.info_hash == info_hash,
            r.peer_id == peer_id,
            r.reserved == reserved,
    {
        HandshakeMessage { reserved, info_hash, peer_id }
    }

    /// The wire length of a handshake.
    pub fn length() -> (r: usize)
        ensures
            r == 68,
    {
        68
    }

    /// The 68 wire bytes.
    pub fn to_bytes(&self) -> (r: Vec<u8>)
        ensures
            r@ == handshake_bytes(*self),
            r@.len() == 68,
    {
        let mut out: Vec<u8> = Vec::new();
        out.push(19);
        let p = protocol_bytes();
        push_all(&mut out, p.as_slice());
        push_all(&mut out, self.reserved.as_slice());
        push_all(&mut out, self.info_hash.as_slice());
        push_all(&mut out, self.peer_id.as_slice());
        proof {
            assert(seq![19u8] + protocol_str() + self.reserved@ + self.info_hash@ + self.peer_id@
                =~= out@);
        }
        out
    }

    /// Reads a handshake back from its wire bytes: exactly 68 bytes,
    /// the length byte, the protocol string, then the three fields.
    pub fn from_bytes(b: &[u8]) -> (r: Result<HandshakeMessage, WireError>)
        ensures
            match r {
                Ok(m) => {
                    &&& b@.len() == 68
                    &&& b@ == handshake_bytes(m)
                },
                Err(e) => {
                    &&& !(b@.len() == 68 && b@[0] == 19 && b@.subrange(1, 20) == protocol_str())
                    &&& (e is BadHandshakeLength <==> b@.len() != 68)
                },
            },
    {
        if b.len() != 68 {
            return Err(WireError::BadHandshakeLength);
        }
        if *vstd::slice::slice_index_get(b, 0) != 19 {
            proof {
                assert(b@[0] != 19);
            }
            return Err(WireError::BadProtocol);
        }
        let p = protocol_bytes();
        let mut i: usize = 0;
        while i < 19
            invariant
                0 <= i <= 19,
                b@.len() == 68,
                p@ == protocol_str(),
                p@.len() == 19,
                forall|m: int| 0 <= m < i ==> #[trigger] b@[1 + m] == protocol_str()[m],
            decreases 19 - i,
        {
            if *vstd::slice::slice_index_get(b, 1 + i) != p[i] {
                proof {
                    assert(b@.subrange(1, 20)[i as int] == b@[1 + i as int]);
                }
                return Err(WireError::BadProtocol);
            }
            i = i + 1;
        }
        proof {
            assert forall|m: int| 0 <= m < 19 implies b@.subrange(1, 20)[m] == protocol_str()[m]
                by {
                assert(b@.subrange(1, 20)[m] == b@[1 + m]);
            }
            assert(b@.subrange(1, 20) =~= protocol_str());
        }
        let mut reserved = [0u8; 8];
        let mut k: usize = 0;
        while k < 8
            invariant
                0 <= k <= 8,
                b@.len() == 68,
                reserved@.len() == 8,
                forall|m: int| 0 <= m < k ==> #[trigger] reserved@[m] == b@[20 + m],
            decreases 8 - k,
        {
            reserved[k] = *vstd::slice::slice_index_get(b, 20 + k);
            k = k + 1;
        }
        let mut info_hash = [0u8; 20];
        let mut k2: usize = 0;
        while k2 < 20
            invariant
                0 <= k2 <= 20,
                b@.len() == 68,
                info_hash@.len() == 20,
                forall|m: int| 0 <= m < k2 ==> #[trigger] info_hash@[m] == b@[28 + m],
            decreases 20 - k2,
        {
            info_hash[k2] = *vstd::slice::slice_index_get(b, 28 + k2);
            k2 = k2 + 1;
        }
        let mut peer_id = [0u8; 20];
        let mut k3: usize = 0;
        while k3 < 20
            invariant
                0 <= k3 <= 20,
                b@.len() == 68,
                peer_id@.len() == 20,
                forall|m: int| 0 <= m < k3 ==> #[trigger] peer_id@[m] == b@[48 + m],
            decreases 20 - k3,
        {
            peer_id[k3] = *vstd::slice::slice_index_get(b, 48 + k3);
            k3 = k3 + 1;
        }
        let m = HandshakeMessage { reserved, info_hash, peer_id };
        proof {
            assert(b@ =~= handshake_bytes(m));
        }
        Ok(m)
    }

    /// The peer advertises the extension protocol: bit `0x10` of the
    /// sixth reserved byte.
    pub fn has_ext(&self) -> (r: bool)
        ensures
            r == (self.reserved@[5] & 0x10 != 0),
    {
        let x = *vstd::array::array_index_get(&self.reserved, 5);
        x & 0x10 != 0
    }
}

/// One typed peer message, the payload of a length-prefixed frame.
#[derive(Debug, PartialEq, Eq)]
pub enum PeerMessage {
    /// An empty frame; consumed silently.
    KeepAlive,
    /// The peer will not serve requests.
    Choke,
    /// The peer will serve requests.
    Unchoke,
    /// We want to download.
    Interested,
    /// We do not want to download.
    NotInterested,
    /// The peer acquired the piece with this index.
    Have(u32),
    /// One bit per piece, most significant bit first in each byte.
    Bitfield(Vec<u8>),
    /// A request for a block of a piece.
    Request {
        /// Piece index.
        index: u32,
        /// Byte offset within the piece.
        begin: u32,
        /// Block length in bytes.
        length: u32,
    },
    /// A block of a piece.
    Piece {
        /// Piece index.
        index: u32,
        /// Byte offset within the piece.
        begin: u32,
        /// The block bytes.
        block: Vec<u8>,
    },
    /// Withdraws an earlier request.
    Cancel {
        /// Piece index.
        index: u32,
        /// Byte offset within the piece.
        begin: u32,
        /// Block length in bytes.
        length: u32,
    },
    /// An extension-protocol message.
    Extension {
        /// The extension message id agreed in the extension handshake.
        ext_id: u8,
        /// The extension payload.
        payload: Vec<u8>,
    },
}

impl PeerMessage {
    /// The message id on the wire.
    pub fn id(&self) -> (r: u8)
        ensures
            r == spec_msg_id(*self),
    {
        match self {
            PeerMessage::KeepAlive => 255,
            PeerMessage::Choke => 0,
            PeerMessage::Unchoke => 1,
            PeerMessage::Interested => 2,
            PeerMessage::NotInterested => 3,
            PeerMessage::Have(_) => 4,
            PeerMessage::Bitfield(_) => 5,
            PeerMessage::Request { .. } => 6,
            PeerMessage::Piece { .. } => 7,
            PeerMessage::Cancel { .. } => 8,
            PeerMessage::Extension { .. } => 20,
        }
    }
}

/// The id of each message; a keep-alive has none and is marked 255.
pub open spec fn spec_msg_id(m: PeerMessage) -> u8 {
    match m {
        PeerMessage::KeepAlive => 255,
        PeerMessage::Choke => 0,
        PeerMessage::Unchoke => 1,
        PeerMessage::Interested => 2,
        PeerMessage::NotInterested => 3,
        PeerMessage::Have(_) => 4,
        PeerMessage::Bitfield(_) => 5,
        PeerMessage::Request { .. } => 6,
        PeerMessage::Piece { .. } => 7,
        PeerMessage::Cancel { .. } => 8,
        PeerMessage::Extension { .. } => 20,
    }
}

/// The payload of a message: its id byte followed by its body; a
/// keep-alive has no payload at all.
pub open spec fn payload_of(m: PeerMessage) -> Seq<u8> {
    match m {
        PeerMessage::KeepAlive => Seq::empty(),
        PeerMessage::Choke => seq![0u8],
        PeerMessage::Unchoke => seq![1u8],
        PeerMessage::Interested => seq![2u8],
        PeerMessage::NotInterested => seq![3u8],
        PeerMessage::Have(i) => seq![4u8] + be32(i as int),
        PeerMessage::Bitfield(b) => seq![5u8] + b@,
        PeerMessage::Request { index, begin, length } => seq![6u8] + be32(index as int) + be32(
            begin as int,
        ) + be32(length as int),
        PeerMessage::Piece { index, begin, block } => seq![7u8] + be32(index as int) + be32(
            begin as int,
        ) + block@,
        PeerMessage::Cancel { index, begin, length } => seq![8u8] + be32(index as int) + be32(
            begin as int,
        ) + be32(length as int),
        PeerMessage::Extension { ext_id, payload } => seq![20u8, ext_id] + payload@,
    }
}

/// Four bytes read back from their value are the same four bytes.
pub proof fn lemma_be32_of_val(s: Seq<u8>)
    requires
        s.len() == 4,
    ensures
        be32(be32_val(s)) == s,
        0 <= be32_val(s) < 0x100000000,
{
    let a = s[0] as int;
    let b = s[1] as int;
    let c = s[2] as int;
    let d = s[3] as int;
    let v = be32_val(s);
    assert(v == a * 0x1000000 + (b * 0x10000 + c * 0x100 + d));
    vstd::arithmetic::div_mod::lemma_fundamental_div_mod_converse(
        v,
        0x1000000,
        a,
        b * 0x10000 + c * 0x100 + d,
    );
    assert(v == (a * 0x100 + b) * 0x10000 + (c * 0x100 + d));
    vstd::arithmetic::div_mod::lemma_fundamental_div_mod_converse(
        v,
        0x10000,
        a * 0x100 + b,
        c * 0x100 + d,
    );
    vstd::arithmetic::div_mod::lemma_fundamental_div_mod_converse(a * 0x100 + b, 0x100, a, b);
    assert(v == (a * 0x10000 + b * 0x100 + c) * 0x100 + d);
    vstd::arithmetic::div_mod::lemma_fundamental_div_mod_converse(
        v,
        0x100,
        a * 0x10000 + b * 0x100 + c,
        d,
    );
    vstd::arithmetic::div_mod::lemma_fundamental_div_mod_converse(
        a * 0x10000 + b * 0x100 + c,
        0x100,
        a * 0x100 + b,
        c,
    );
    assert(be32(v) =~= s);
}

impl PeerMessage {
    /// The wire frame of a message: four big-endian length bytes,
    /// then the payload.
    pub fn to_bytes(&self) -> (r: Vec<u8>)
        requires
            msg_wf(*self),
        ensures
            r@ == frame_of(*self),
    {
        let mut payload: Vec<u8> = Vec::new();
        match self {
            PeerMessage::KeepAlive => {
                proof {
                    assert(payload@ =~= payload_of(*self));
                }
            },
            PeerMessage::Choke => {
                payload.push(0);
                proof {
                    assert(payload@ =~= payload_of(*self));
                }
            },
            PeerMessage::Unchoke => {
                payload.push(1);
                proof {
                    assert(payload@ =~= payload_of(*self));
                }
            },
            PeerMessage::Interested => {
                payload.push(2);
                proof {
                    assert(payload@ =~= payload_of(*self));
                }
            },
            PeerMessage::NotInterested => {
                payload.push(3);
                proof {
                    assert(payload@ =~= payload_of(*self));
                }
            },
            PeerMessage::Have(i) => {
                payload.push(4);
                push_be32(&mut payload, *i);
                proof {
                    assert(payload@ =~= payload_of(*self));
                }
            },
            PeerMessage::Bitfield(b) => {
                payload.push(5);
                push_all(&mut payload, b.as_slice());
                proof {
                    assert(payload@ =~= payload_of(*self));
                }
            },
            PeerMessage::Request { index, begin, length } => {
                payload.push(6);
                push_be32(&mut payload, *index);
                push_be32(&mut payload, *begin);
                push_be32(&mut payload, *length);
                proof {
                    assert(payload@ =~= payload_of(*self));
                }
            },
            PeerMessage::Piece { index, begin, block } => {
                payload.push(7);
                push_be32(&mut payload, *index);
                push_be32(&mut payload, *begin);
                push_all(&mut payload, block.as_slice());
                proof {
                    assert(payload@ =~= payload_of(*self));
                }
            },
            PeerMessage::Cancel { index, begin, length } => {
                payload.push(8);
                push_be32(&mut payload, *index);
                push_be32(&mut payload, *begin);
                push_be32(&mut payload, *length);
                proof {
                    assert(payload@ =~= payload_of(*self));
                }
            },
            PeerMessage::Extension { ext_id, payload: p } => {
                payload.push(20);
                payload.push(*ext_id);
                push_all(&mut payload, p.as_slice());
                proof {
                    assert(payload@ =~= payload_of(*self));
                }
            },
        }
        let len = payload.len();
        let mut out: Vec<u8> = Vec::new();
        push_be32(&mut out, len as u32);
        push_all(&mut out, payload.as_slice());
        proof {
            assert(Seq::<u8>::empty() + be32(len as u32 as int) + payload@ =~= frame_of(*self));
        }
        out
    }
}

/// An id some message carries on the wire.
pub open spec fn valid_id(id: u8) -> bool {
    id <= 8 || id == 20
}

/// The payload length fits the id.
pub open spec fn payload_len_ok(b: Seq<u8>) -> bool {
    if b[0] <= 3 {
        b.len() == 1
    } else if b[0] == 4 {
        b.len() == 5
    } else if b[0] == 5 {
        true
    } else if b[0] == 6 || b[0] == 8 {
        b.len() == 13
    } else if b[0] == 7 {
        b.len() >= 9
    } else {
        b.len() >= 2
    }
}

/// Reads one message back from its payload bytes (the frame with the
/// four length bytes already removed).  An empty payload is a
/// keep-alive; otherwise the first byte is the id.  Succeeds exactly
/// when the id is known and the length fits it, and then yields the
/// message whose payload these bytes are.
pub fn parse_message(b: &Vec<u8>) -> (r: Result<PeerMessage, WireError>)
    requires
        b@.len() < 0x100000000,
    ensures
        match r {
            Ok(m) => msg_wf(m) && payload_of(m) == b@,
            Err(e) => {
                &&& b@.len() >= 1
                &&& (e is UnknownId <==> !valid_id(b@[0]))
                &&& (e matches WireError::UnknownId(id) ==> id == b@[0])
                &&& (e is BadLength <==> valid_id(b@[0]) && !payload_len_ok(b@))
            },
        },
        r is Ok <==> (b@.len() == 0 || (valid_id(b@[0]) && payload_len_ok(b@))),
{
    let n = b.len();
    if n == 0 {
        proof {
            assert(payload_of(PeerMessage::KeepAlive) =~= b@);
        }
        return Ok(PeerMessage::KeepAlive);
    }
    let id = b[0];
    if id == 0 {
        if n != 1 {
            return Err(WireError::BadLength);
        }
        proof {
            assert(payload_of(PeerMessage::Choke) =~= b@);
        }
        Ok(PeerMessage::Choke)
    } else if id == 1 {
        if n != 1 {
            return Err(WireError::BadLength);
        }
        proof {
            assert(payload_of(PeerMessage::Unchoke) =~= b@);
        }
        Ok(PeerMessage::Unchoke)
    } else if id == 2 {
        if n != 1 {
            return Err(WireError::BadLength);
        }
        proof {
            assert(payload_of(PeerMessage::Interested) =~= b@);
        }
        Ok(PeerMessage::Interested)
    } else if id == 3 {
        if n != 1 {
            return Err(WireError::BadLength);
        }
        proof {
            assert(payload_of(PeerMessage::NotInterested) =~= b@);
        }
        Ok(PeerMessage::NotInterested)
    } else if id == 4 {
        if n != 5 {
            return Err(WireError::BadLength);
        }
        let i = read_u32_be(b.as_slice(), 1);
        proof {
            lemma_be32_of_val(b@.subrange(1, 5));
            assert(payload_of(PeerMessage::Have(i)) =~= b@);
        }
        Ok(PeerMessage::Have(i))
    } else if id == 5 {
        let bits = vstd::slice::slice_to_vec(vstd::slice::slice_subrange(b.as_slice(), 1, n));
        proof {
            assert(payload_of(PeerMessage::Bitfield(bits)) =~= b@);
        }
        Ok(PeerMessage::Bitfield(bits))
    } else if id == 6 || id == 8 {
        if n != 13 {
            return Err(WireError::BadLength);
        }
        let index = read_u32_be(b.as_slice(), 1);
        let begin = read_u32_be(b.as_slice(), 5);
        let length = read_u32_be(b.as_slice(), 9);
        proof {
            lemma_be32_of_val(b@.subrange(1, 5));
            lemma_be32_of_val(b@.subrange(5, 9));
            lemma_be32_of_val(b@.subrange(9, 13));
        }
        if id == 6 {
            proof {
                assert(payload_of(PeerMessage::Request { index, begin, length }) =~= b@);
            }
            Ok(PeerMessage::Request { index, begin, length })
        } else {
            proof {
                assert(payload_of(PeerMessage::Cancel { index, begin, length }) =~= b@);
            }
            Ok(PeerMessage::Cancel { index, begin, length })
        }
    } else if id == 7 {
        if n < 9 {
            return Err(WireError::BadLength);
        }
        let index = read_u32_be(b.as_slice(), 1);
        let begin = read_u32_be(b.as_slice(), 5);
        let block = vstd::slice::slice_to_vec(vstd::slice::slice_subrange(b.as_slice(), 9, n));
        proof {
            lemma_be32_of_val(b@.subrange(1, 5));
            lemma_be32_of_val(b@.subrange(5, 9));
            assert(payload_of(PeerMessage::Piece { index, begin, block }) =~= b@);
        }
        Ok(PeerMessage::Piece { index, begin, block })
    } else if id == 20 {
        if n < 2 {
            return Err(WireError::BadLength);
        }
        let ext_id = b[1];
        let payload = vstd::slice::slice_to_vec(vstd::slice::slice_subrange(b.as_slice(), 2, n));
        proof {
            assert(payload_of(PeerMessage::Extension { ext_id, payload }) =~= b@);
        }
        Ok(PeerMessage::Extension { ext_id, payload })
    } else {
        Err(WireError::UnknownId(id))
    }
}

/// The payload fits in a frame: its length fits 32 bits.
pub open spec fn msg_wf(m: PeerMessage) -> bool {
    payload_of(m).len() < 0x100000000
}

/// The whole frame: the payload length as four big-endian bytes, then
/// the payload.
pub open spec fn frame_of(m: PeerMessage) -> Seq<u8> {
    be32(payload_of(m).len() as int) + payload_of(m)
}

} // verus!
