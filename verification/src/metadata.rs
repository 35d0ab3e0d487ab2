//! The extension protocol (message id 20) and its ut_metadata
//! messages, used to fetch the info dictionary when bootstrapping
//! from a magnet link.

use vstd::prelude::*;

use crate::decode::{BencodeError, DecodeContext, decode_bencoded_value, spec_parse};
use crate::encode::{EncodeContext, encode_value};
use crate::torrent::{TorrentInfo, info_matches, info_shape};
use crate::value::{BValue, Bencode, bval_enc, dict_get};
use crate::wire::{HandshakeMessage, be32};

verus! {

/// The ut_metadata extension id this client advertises.
pub const EXT_METADATA_ID: u8 = 1;

/// The `m` key of the extension handshake dictionary.
pub open spec fn m_key() -> Seq<u8> {
    seq!['m' as u8]
}

/// The `ut_metadata` key.
pub open spec fn ut_metadata_key() -> Seq<u8> {
    seq![
        'u' as u8,
        't' as u8,
        '_' as u8,
        'm' as u8,
        'e' as u8,
        't' as u8,
        'a' as u8,
        'd' as u8,
        'a' as u8,
        't' as u8,
        'a' as u8,
    ]
}

/// The `msg_type` key of a ut_metadata message.
pub open spec fn msg_type_key() -> Seq<u8> {
    seq!['m' as u8, 's' as u8, 'g' as u8, '_' as u8, 't' as u8, 'y' as u8, 'p' as u8, 'e' as u8]
}

/// The `piece` key of a ut_metadata message.
pub open spec fn piece_key() -> Seq<u8> {
    seq!['p' as u8, 'i' as u8, 'e' as u8, 'c' as u8, 'e' as u8]
}

/// The kinds of ut_metadata message.
#[derive(Debug, Clone, Copy, PartialEq, Eq, Structural)]
pub enum MessageType {
    /// Requests a piece of metadata from the peer.
    Request,
    /// Carries a piece of metadata.
    Data,
    /// The peer does not have the requested piece.
    Reject,
}

/// The wire id of each kind.
pub open spec fn spec_type_id(t: MessageType) -> u8 {
    match t {
        MessageType::Request => 0,
        MessageType::Data => 1,
        MessageType::Reject => 2,
    }
}

impl MessageType {
    /// The wire id of this kind.
    pub fn id(&self) -> (r: u8)
        ensures
            r == spec_type_id(*self),
    {
        match self {
            MessageType::Request => 0,
            MessageType::Data => 1,
            MessageType::Reject => 2,
        }
    }

    /// The kind with this wire id, if any.
    pub fn from_id(value: u8) -> (r: Option<MessageType>)
        ensures
            match r {
                Some(t) => spec_type_id(t) == value,
                None => value > 2,
            },
    {
        if value == 0 {
            Some(MessageType::Request)
        } else if value == 1 {
            Some(MessageType::Data)
        } else if value == 2 {
            Some(MessageType::Reject)
        } else {
            None
        }
    }
}

/// The dictionary a ut_metadata message of kind-id `t` carries:
/// `{"msg_type": t, "piece": 0}` (this client only ever asks for
/// piece zero).
pub open spec fn metadata_msg_dict(t: u8) -> BValue {
    BValue::Dict(
        seq![
            (msg_type_key(), BValue::Int(t as int)),
            (piece_key(), BValue::Int(0)),
        ],
    )
}

/// A ut_metadata message to send.
pub struct Message {
    /// The id of the metadata extension, as the other peer announced
    /// it in its extension handshake.
    pub ext_id: u8,
    /// The kind of the message.
    pub msg_type: MessageType,
}

impl Message {
    /// A message of the given kind toward the peer that announced
    /// `ext_id`.
    pub fn new(ext_id: u8, msg_type: MessageType) -> (r: Self)
        ensures
            r.ext_id == ext_id,
            r.msg_type == msg_type,
    {
        Self { ext_id, msg_type }
    }

    /// The full wire frame: length, message id 20, the extension id,
    /// the bencoded dictionary.
    pub fn to_bytes(&self) -> (r: Vec<u8>)
        ensures
            ({
                let e = bval_enc(metadata_msg_dict(spec_type_id(self.msg_type)));
                r@ == be32(2 + e.len() as int) + seq![20u8, self.ext_id] + e
            }),
    {
        let t = self.msg_type.id();
        let dict = build_msg_dict(t);
        let mut ec = EncodeContext::new();
        encode_value(&mut ec, &dict);
        let db = ec.consume();
        proof {
            assert(Seq::<u8>::empty() + bval_enc(dict@) =~= bval_enc(dict@));
            lemma_msg_dict_enc_len(t);
        }
        let mut out: Vec<u8> = Vec::new();
        crate::wire::push_be32(&mut out, (2 + db.len()) as u32);
        out.push(20);
        out.push(self.ext_id);
        crate::utils::push_all(&mut out, db.as_slice());
        proof {
            let e = bval_enc(metadata_msg_dict(spec_type_id(self.msg_type)));
            assert((Seq::<u8>::empty() + be32(2 + e.len() as int)).push(20u8).push(self.ext_id) + e
                =~= be32(2 + e.len() as int) + seq![20u8, self.ext_id] + e);
        }
        out
    }
}

/// The executable form of the ut_metadata message dictionary.
fn build_msg_dict(t: u8) -> (r: Bencode)
    ensures
        r@ == metadata_msg_dict(t),
{
    let mut k1: Vec<u8> = Vec::new();
    k1.push(109);
    k1.push(115);
    k1.push(103);
    k1.push(95);
    k1.push(116);
    k1.push(121);
    k1.push(112);
    k1.push(101);
    proof {
        assert(k1@ =~= msg_type_key());
    }
    let mut k2: Vec<u8> = Vec::new();
    k2.push(112);
    k2.push(105);
    k2.push(101);
    k2.push(99);
    k2.push(101);
    proof {
        assert(k2@ =~= piece_key());
    }
    let mut entries: Vec<(Vec<u8>, Bencode)> = Vec::new();
    entries.push((k1, Bencode::Int(t as i64)));
    entries.push((k2, Bencode::Int(0)));
    let r = Bencode::Dict(entries);
    proof {
        let ev = entries@;
        assert(ev.len() == 2);
        assert(ev[1].0@ == piece_key());
        assert(crate::value::bview(ev[1].1) == BValue::Int(0));
        assert(ev[0].0@ == msg_type_key());
        assert(crate::value::bview(ev[0].1) == BValue::Int(t as int));
        assert(crate::value::bview_entries(ev, 2) =~= Seq::<(Seq<u8>, BValue)>::empty());
        assert(crate::value::bview_entries(ev, 1) =~~= seq![(piece_key(), BValue::Int(0))]);
        assert(crate::value::bview_entries(ev, 0) =~~= metadata_msg_dict(t)->Dict_0);
    }
    r
}

/// The encoded ut_metadata dictionary is small, so its frame length
/// fits four bytes.
proof fn lemma_msg_dict_enc_len(t: u8)
    ensures
        bval_enc(metadata_msg_dict(t)).len() < 100,
{
    let es = metadata_msg_dict(t)->Dict_0;
    assert(es.len() == 2);
    assert(crate::value::enc_entries(es, 2) =~= Seq::<u8>::empty());
    assert(crate::value::dec_digits(8).len() == 1);
    assert(crate::value::dec_digits(5).len() == 1);
    assert(crate::value::dec_digits(0).len() == 1);
    lemma_dec_digits_len_small(t as nat);
    assert(crate::value::int_lit(t as int) == crate::value::dec_digits(t as nat));
    assert(crate::value::int_lit(0).len() == 1);
    assert(crate::value::bstr_enc(msg_type_key()).len() == 10);
    assert(crate::value::bstr_enc(piece_key()).len() == 7);
    assert(bval_enc(es[0].1).len() <= 5);
    assert(bval_enc(es[1].1).len() == 3);
    assert(crate::value::enc_entries(es, 1).len() == 10);
    assert(crate::value::enc_entries(es, 0).len() <= 25);
}

/// A byte's digit string has at most three digits.
proof fn lemma_dec_digits_len_small(n: nat)
    requires
        n < 1000,
    ensures
        crate::value::dec_digits(n).len() <= 3,
{
    if n >= 10 {
        if n >= 100 {
            assert(n / 10 / 10 < 10);
            assert(crate::value::dec_digits(n / 10 / 10).len() == 1);
            assert(crate::value::dec_digits(n / 10).len() == 2);
            assert(crate::value::dec_digits(n).len() == 3);
        } else {
            assert(crate::value::dec_digits(n / 10).len() == 1);
            assert(crate::value::dec_digits(n).len() == 2);
        }
    } else {
        assert(crate::value::dec_digits(n).len() == 1);
    }
}

/// What a successful magnet handshake yields: the peer's handshake,
/// the peer's ut_metadata id, and the info dictionary when it was
/// requested.
pub struct MagnetHandshakeResult {
    /// The peer's base handshake.
    pub message: HandshakeMessage,
    /// The id under which the peer wants ut_metadata messages.
    pub ut_metadata_id: u32,
    /// The fetched info dictionary, when metadata was requested.
    pub torrent_info: Option<TorrentInfo>,
}

/// Why an extension handshake payload was rejected.
#[derive(Debug, Clone, Copy, PartialEq, Eq, Structural)]
pub enum ExtError {
    /// The payload is not bencoded.
    Bencode(BencodeError),
    /// The payload is not a dictionary of the handshake's shape.
    Shape,
}

/// The extension-handshake payload announces a usable ut_metadata id:
/// a dictionary whose `m` entry maps `ut_metadata` to a byte-sized
/// integer.
pub open spec fn ext_handshake_ok(b: Seq<u8>) -> bool {
    match spec_parse(b, 0) {
        Ok((v, _)) => match v {
            BValue::Dict(es) => match dict_get(es, m_key()) {
                Option::Some(BValue::Dict(ms)) => match dict_get(ms, ut_metadata_key()) {
                    Option::Some(BValue::Int(id)) => 0 <= id <= 255,
                    _ => false,
                },
                _ => false,
            },
            _ => false,
        },
        Err(_) => false,
    }
}

/// The ut_metadata id an extension-handshake payload announces.
pub open spec fn ext_handshake_id(b: Seq<u8>) -> int {
    dict_get(
        dict_get(spec_parse(b, 0)->Ok_0.0->Dict_0, m_key())->Some_0->Dict_0,
        ut_metadata_key(),
    )->Some_0->Int_0
}

/// Reads the peer's extension-handshake payload (the bencoded
/// dictionary carried under extension message id 0) and yields the
/// peer's ut_metadata id.  Succeeds exactly on payloads of the
/// handshake's shape.
pub fn parse_extension_handshake(payload: &Vec<u8>) -> (r: Result<u8, ExtError>)
    requires
        payload@.len() < 0x100000000,
    ensures
        match r {
            Ok(id) => ext_handshake_ok(payload@) && id == ext_handshake_id(payload@),
            Err(_) => !ext_handshake_ok(payload@),
        },
{
    let mut ctx = DecodeContext::new(vstd::slice::slice_to_vec(payload.as_slice()));
    let v = match decode_bencoded_value(&mut ctx) {
        Ok(v) => v,
        Err(e) => {
            return Err(ExtError::Bencode(e));
        },
    };
    let es = match &v {
        Bencode::Dict(es) => es,
        _ => {
            return Err(ExtError::Shape);
        },
    };
    let mut mk: Vec<u8> = Vec::new();
    mk.push(109);
    proof {
        assert(mk@ =~= m_key());
    }
    let ms = match crate::value::dict_find(es, &mk) {
        Some(x) => match x {
            Bencode::Dict(ms) => ms,
            _ => {
                return Err(ExtError::Shape);
            },
        },
        None => {
            return Err(ExtError::Shape);
        },
    };
    let mut uk: Vec<u8> = Vec::new();
    uk.push(117);
    uk.push(116);
    uk.push(95);
    uk.push(109);
    uk.push(101);
    uk.push(116);
    uk.push(97);
    uk.push(100);
    uk.push(97);
    uk.push(116);
    uk.push(97);
    proof {
        assert(uk@ =~= ut_metadata_key());
    }
    let id = match crate::value::dict_find(ms, &uk) {
        Some(x) => match x {
            Bencode::Int(n) => *n,
            _ => {
                return Err(ExtError::Shape);
            },
        },
        None => {
            return Err(ExtError::Shape);
        },
    };
    if id < 0 || id > 255 {
        return Err(ExtError::Shape);
    }
    Ok(id as u8)
}

/// Why a ut_metadata data response was rejected.
#[derive(Debug, Clone, Copy, PartialEq, Eq, Structural)]
pub enum MetadataError {
    /// The frame is shorter than a header can be.
    TooShort,
    /// The frame is not as long as its declared length.
    LengthMismatch,
    /// The first byte is not the extension message id 20.
    NotExtension,
    /// The extension id is not the ut_metadata id this client
    /// announced.
    BadExtId,
    /// The header or the metadata piece is not bencoded.
    Bencode(BencodeError),
    /// The header is not a data message, or the piece is not a
    /// well-shaped info dictionary.
    Invalid,
}

/// A well-formed ut_metadata data response: declared length matching,
/// message id 20, our announced extension id, then a bencoded header
/// dictionary whose `msg_type` is 1, followed in the same frame by
/// the metadata piece, itself the bencoded info dictionary.
pub open spec fn metadata_response_ok(length: int, data: Seq<u8>) -> bool {
    &&& data.len() == length
    &&& length >= 3
    &&& data[0] == 20
    &&& data[1] == EXT_METADATA_ID
    &&& match spec_parse(data.subrange(2, data.len() as int), 0) {
        Ok((h, j)) => match h {
            BValue::Dict(hs) => match dict_get(hs, msg_type_key()) {
                Option::Some(BValue::Int(t)) => t == 1 && match spec_parse(
                    data.subrange(2, data.len() as int),
                    j,
                ) {
                    Ok((iv, _)) => iv matches BValue::Dict(is) && info_shape(is),
                    Err(_) => false,
                },
                _ => false,
            },
            _ => false,
        },
        Err(_) => false,
    }
}

/// The info value a well-formed ut_metadata data response carries.
pub open spec fn metadata_response_info(data: Seq<u8>) -> BValue {
    let tail = data.subrange(2, data.len() as int);
    spec_parse(tail, spec_parse(tail, 0)->Ok_0.1)->Ok_0.0
}

/// Builds the info dictionary out of a ut_metadata data response of
/// declared length `length`.  Succeeds exactly on well-formed
/// responses.
pub fn parse_torrent_data(length: u32, data: &[u8]) -> (r: Result<TorrentInfo, MetadataError>)
    ensures
        match r {
            Ok(ti) => metadata_response_ok(length as int, data@) && info_matches(
                ti,
                metadata_response_info(data@),
            ),
            Err(_) => !metadata_response_ok(length as int, data@),
        },
{
    if length < 3 {
        return Err(MetadataError::TooShort);
    }
    let n = data.len();
    if n as u64 != length as u64 {
        return Err(MetadataError::LengthMismatch);
    }
    if *vstd::slice::slice_index_get(data, 0) != 20 {
        return Err(MetadataError::NotExtension);
    }
    if *vstd::slice::slice_index_get(data, 1) != EXT_METADATA_ID {
        return Err(MetadataError::BadExtId);
    }
    let tail = vstd::slice::slice_to_vec(vstd::slice::slice_subrange(data, 2, n));
    let mut ctx = DecodeContext::new(tail);
    let h = match decode_bencoded_value(&mut ctx) {
        Ok(v) => v,
        Err(e) => {
            return Err(MetadataError::Bencode(e));
        },
    };
    let hs = match &h {
        Bencode::Dict(hs) => hs,
        _ => {
            return Err(MetadataError::Invalid);
        },
    };
    let mut tk: Vec<u8> = Vec::new();
    tk.push(109);
    tk.push(115);
    tk.push(103);
    tk.push(95);
    tk.push(116);
    tk.push(121);
    tk.push(112);
    tk.push(101);
    proof {
        assert(tk@ =~= msg_type_key());
    }
    let t = match crate::value::dict_find(hs, &tk) {
        Some(x) => match x {
            Bencode::Int(t) => *t,
            _ => {
                return Err(MetadataError::Invalid);
            },
        },
        None => {
            return Err(MetadataError::Invalid);
        },
    };
    if t != 1 {
        return Err(MetadataError::Invalid);
    }
    let iv = match decode_bencoded_value(&mut ctx) {
        Ok(v) => v,
        Err(e) => {
            return Err(MetadataError::Bencode(e));
        },
    };
    match TorrentInfo::from_bencode(&iv) {
        Ok(ti) => Ok(ti),
        Err(_) => Err(MetadataError::Invalid),
    }
}

} // verus!
