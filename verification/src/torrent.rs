//! Torrent metadata: the decoded root dictionary gives the tracker
//! url and the info dictionary; the info-hash is the SHA-1 of the
//! re-encoded info dictionary, the identity of the content.

use vstd::prelude::*;

use crate::decode::{BErr, BencodeError, DecodeContext, decode_bencoded_value, spec_parse};
use crate::encode::{EncodeContext, encode_value};
use crate::hex::{hex_chars, hex_encode};
use crate::utils::latin1_string;
use crate::value::{BValue, Bencode, bval_enc, bview, dict_find, dict_get, latin1_chars};

verus! {

/// The SHA-1 digest of a byte sequence: 20 bytes that depend on the
/// bytes alone.
pub uninterp spec fn sha1_of(s: Seq<u8>) -> Seq<u8>;

/// Relies on sha1::Sha1 through the Digest trait: hashes the bytes;
/// the 20-byte digest depends on the bytes alone.
#[verifier::external_body]
pub(crate) fn sha1_digest(data: &Vec<u8>) -> (r: [u8; 20])
    ensures
        r@ == sha1_of(data@),
{
    let mut h: sha1::Sha1 = sha1::Digest::new();
    sha1::Digest::update(&mut h, data.as_slice());
    let out: [u8; 20] = sha1::Digest::finalize(h).into();
    out
}

/// The 20-byte SHA-1 digest of a byte vector, as a vector.
pub fn sha1_bytes(data: &Vec<u8>) -> (r: Vec<u8>)
    ensures
        r@ == sha1_of(data@),
        r@.len() == 20,
{
    let d = sha1_digest(data);
    vstd::slice::slice_to_vec(d.as_slice())
}

/// The `announce` key.
pub open spec fn announce_key() -> Seq<u8> {
    seq!['a' as u8, 'n' as u8, 'n' as u8, 'o' as u8, 'u' as u8, 'n' as u8, 'c' as u8, 'e' as u8]
}

/// The `info` key.
pub open spec fn info_key() -> Seq<u8> {
    seq!['i' as u8, 'n' as u8, 'f' as u8, 'o' as u8]
}

/// The `length` key.
pub open spec fn length_key() -> Seq<u8> {
    seq!['l' as u8, 'e' as u8, 'n' as u8, 'g' as u8, 't' as u8, 'h' as u8]
}

/// The `name` key.
pub open spec fn name_key() -> Seq<u8> {
    seq!['n' as u8, 'a' as u8, 'm' as u8, 'e' as u8]
}

/// The `piece length` key.
pub open spec fn piece_length_key() -> Seq<u8> {
    seq![
        'p' as u8,
        'i' as u8,
        'e' as u8,
        'c' as u8,
        'e' as u8,
        ' ' as u8,
        'l' as u8,
        'e' as u8,
        'n' as u8,
        'g' as u8,
        't' as u8,
        'h' as u8,
    ]
}

/// The `pieces` key.
pub open spec fn pieces_key() -> Seq<u8> {
    seq!['p' as u8, 'i' as u8, 'e' as u8, 'c' as u8, 'e' as u8, 's' as u8]
}

/// How many pieces a file of `l` bytes has under pieces of `pl`
/// bytes: the rounded-up quotient.
pub open spec fn num_pieces_of(l: int, pl: int) -> int {
    l / pl + if l % pl == 0 {
        0int
    } else {
        1int
    }
}

/// The shape of a valid single-file info dictionary: `length`,
/// `name`, `piece length` and `pieces` of the right kinds, the piece
/// hashes 20 bytes each, and as many of them as the length demands.
pub open spec fn info_shape(is: Seq<(Seq<u8>, BValue)>) -> bool {
    match (
        dict_get(is, length_key()),
        dict_get(is, name_key()),
        dict_get(is, piece_length_key()),
        dict_get(is, pieces_key()),
    ) {
        (
            Option::Some(BValue::Int(l)),
            Option::Some(BValue::Bytes(_)),
            Option::Some(BValue::Int(pl)),
            Option::Some(BValue::Bytes(ps)),
        ) => {
            &&& 0 <= l <= usize::MAX
            &&& 1 <= pl <= usize::MAX
            &&& ps.len() % 20 == 0
            &&& ps.len() / 20 == num_pieces_of(l, pl)
        },
        _ => false,
    }
}

/// The shape of a valid torrent value: a dictionary with an
/// `announce` byte string and a well-shaped `info` dictionary.
pub open spec fn torrent_shape(v: BValue) -> bool {
    match v {
        BValue::Dict(es) => {
            &&& dict_get(es, announce_key()) matches Option::Some(BValue::Bytes(_))
            &&& match dict_get(es, info_key()) {
                Option::Some(BValue::Dict(is)) => info_shape(is),
                _ => false,
            }
        },
        _ => false,
    }
}

/// The info dictionary of a single-file torrent.
pub struct TorrentInfo {
    /// Total file length in bytes.
    pub length: usize,
    /// Suggested file name.
    pub name: String,
    /// Piece size in bytes (every piece except possibly the last).
    pub piece_length: usize,
    /// All piece hashes, 20 bytes each, concatenated.
    pub pieces: Vec<u8>,
    /// The piece hashes, one 20-byte entry per piece.
    pub piece_hashes: Vec<Vec<u8>>,
}

/// A parsed torrent: tracker url, info dictionary, and the info-hash
/// derived from the re-encoded info dictionary.
pub struct Torrent {
    /// The tracker url (`announce`).
    pub tracker_url: String,
    /// The info dictionary.
    pub info: TorrentInfo,
    /// SHA-1 of the re-encoded info dictionary, as 40 hex characters.
    pub info_hash: String,
}

/// Why a decoded value was rejected as a torrent.
#[derive(Debug, Clone, Copy, PartialEq, Eq, Structural)]
pub enum TorrentError {
    /// The value does not have the shape of a single-file torrent.
    Invalid,
}

/// Why raw bytes were rejected as a torrent file.
#[derive(Debug, Clone, Copy, PartialEq, Eq, Structural)]
pub enum TorrentFileError {
    /// The bytes are not bencoded.
    Bencode(BencodeError),
    /// The decoded value does not have the shape of a torrent.
    Invalid,
}

/// The fields an info structure built from the value `iv` must hold.
pub open spec fn info_matches(ti: TorrentInfo, iv: BValue) -> bool {
    let is = iv->Dict_0;
    let l = dict_get(is, length_key())->Some_0->Int_0;
    let nm = dict_get(is, name_key())->Some_0->Bytes_0;
    let pl = dict_get(is, piece_length_key())->Some_0->Int_0;
    let ps = dict_get(is, pieces_key())->Some_0->Bytes_0;
    &&& ti.length == l
    &&& ti.name@ == latin1_chars(nm)
    &&& ti.piece_length == pl
    &&& ti.pieces@ == ps
    &&& ti.piece_hashes@.len() == ps.len() / 20
    &&& (forall|k: int|
        0 <= k < ps.len() / 20 ==> #[trigger] ti.piece_hashes@[k]@ == ps.subrange(
            20 * k,
            20 * k + 20,
        ))
}

/// The fields a torrent built from the value `v` must hold.
pub open spec fn torrent_matches(t: Torrent, v: BValue) -> bool {
    let es = v->Dict_0;
    let ann = dict_get(es, announce_key())->Some_0->Bytes_0;
    let iv = dict_get(es, info_key())->Some_0;
    &&& t.tracker_url@ == latin1_chars(ann)
    &&& info_matches(t.info, iv)
    &&& t.info_hash@ == hex_chars(sha1_of(bval_enc(iv)))
}

impl TorrentInfo {
    /// Builds the info structure from a decoded info dictionary.
    /// Succeeds exactly on values of info shape.
    pub fn from_bencode(v: &Bencode) -> (r: Result<TorrentInfo, TorrentError>)
        ensures
            match r {
                Ok(ti) => {
                    &&& v@ matches BValue::Dict(is) && info_shape(is)
                    &&& info_matches(ti, v@)
                },
                Err(_) => !(v@ matches BValue::Dict(is) && info_shape(is)),
            },
    {
        let id = match v {
            Bencode::Dict(id) => id,
            _ => {
                return Err(TorrentError::Invalid);
            },
        };
        let k_length = key_length();
        let k_name = key_name();
        let k_piece_length = key_piece_length();
        let k_pieces = key_pieces();
        let length_i = match dict_find(id, &k_length) {
            Some(x) => match x {
                Bencode::Int(n) => *n,
                _ => {
                    return Err(TorrentError::Invalid);
                },
            },
            _ => {
                return Err(TorrentError::Invalid);
            },
        };
        let name_b = match dict_find(id, &k_name) {
            Some(x) => match x {
                Bencode::Bytes(b) => b,
                _ => {
                    return Err(TorrentError::Invalid);
                },
            },
            _ => {
                return Err(TorrentError::Invalid);
            },
        };
        let pl_i = match dict_find(id, &k_piece_length) {
            Some(x) => match x {
                Bencode::Int(n) => *n,
                _ => {
                    return Err(TorrentError::Invalid);
                },
            },
            _ => {
                return Err(TorrentError::Invalid);
            },
        };
        let pieces_b = match dict_find(id, &k_pieces) {
            Some(x) => match x {
                Bencode::Bytes(b) => b,
                _ => {
                    return Err(TorrentError::Invalid);
                },
            },
            _ => {
                return Err(TorrentError::Invalid);
            },
        };
        if length_i < 0 || (length_i as u64) > (usize::MAX as u64) {
            return Err(TorrentError::Invalid);
        }
        let length = length_i as usize;
        if pl_i < 1 || (pl_i as u64) > (usize::MAX as u64) {
            return Err(TorrentError::Invalid);
        }
        let piece_length = pl_i as usize;
        let pn = pieces_b.len();
        if pn % 20 != 0 {
            return Err(TorrentError::Invalid);
        }
        let np = pn / 20;
        let q = length / piece_length;
        let rem = length % piece_length;
        let expect: usize = if rem == 0 {
            q
        } else {
            match q.checked_add(1) {
                Some(e) => e,
                None => {
                    return Err(TorrentError::Invalid);
                },
            }
        };
        if np != expect {
            return Err(TorrentError::Invalid);
        }
        let mut piece_hashes: Vec<Vec<u8>> = Vec::new();
        let mut k: usize = 0;
        while k < np
            invariant
                0 <= k <= np,
                pn == pieces_b@.len(),
                np == pn / 20,
                pn % 20 == 0,
                piece_hashes@.len() == k,
                forall|m: int|
                    0 <= m < k ==> #[trigger] piece_hashes@[m]@ == pieces_b@.subrange(
                        20 * m,
                        20 * m + 20,
                    ),
            decreases np - k,
        {
            proof {
                assert(pn == 20 * (pn as int / 20) + pn as int % 20);
                assert(20 * (np as int) == pn);
                assert(20 * (k as int) + 20 <= 20 * (np as int));
            }
            let h = vstd::slice::slice_to_vec(
                vstd::slice::slice_subrange(pieces_b.as_slice(), 20 * k, 20 * k + 20),
            );
            piece_hashes.push(h);
            k = k + 1;
        }
        let name = latin1_string(name_b);
        let pieces = vstd::slice::slice_to_vec(pieces_b.as_slice());
        Ok(TorrentInfo { length, name, piece_length, pieces, piece_hashes })
    }
}

impl Torrent {
    /// Builds a torrent from a decoded value: reads the fields,
    /// re-encodes the info dictionary and hashes it.  Succeeds
    /// exactly on values of torrent shape.
    pub fn from_bencode(v: &Bencode) -> (r: Result<Torrent, TorrentError>)
        ensures
            match r {
                Ok(t) => torrent_shape(v@) && torrent_matches(t, v@),
                Err(_) => !torrent_shape(v@),
            },
    {
        let d = match v {
            Bencode::Dict(d) => d,
            _ => {
                return Err(TorrentError::Invalid);
            },
        };
        let k_announce = key_announce();
        let k_info = key_info();
        let ann = match dict_find(d, &k_announce) {
            Some(x) => match x {
                Bencode::Bytes(b) => b,
                _ => {
                    return Err(TorrentError::Invalid);
                },
            },
            None => {
                return Err(TorrentError::Invalid);
            },
        };
        let info_ref = match dict_find(d, &k_info) {
            Some(x) => x,
            None => {
                return Err(TorrentError::Invalid);
            },
        };
        let info = match TorrentInfo::from_bencode(info_ref) {
            Ok(ti) => ti,
            Err(_) => {
                return Err(TorrentError::Invalid);
            },
        };
        let mut ec = EncodeContext::new();
        encode_value(&mut ec, info_ref);
        let enc_bytes = ec.consume();
        proof {
            assert(Seq::<u8>::empty() + bval_enc(bview(*info_ref)) =~= bval_enc(bview(*info_ref)));
        }
        let digest = sha1_bytes(&enc_bytes);
        let info_hash = hex_encode(&digest);
        let tracker_url = latin1_string(ann);
        Ok(Torrent { tracker_url, info, info_hash })
    }

    /// Builds a torrent from the raw bytes of a torrent file:
    /// decodes one value and reads it as a torrent.
    pub fn from_bytes(data: &Vec<u8>) -> (r: Result<Torrent, TorrentFileError>)
        ensures
            match spec_parse(data@, 0) {
                Ok((v, j)) => {
                    if torrent_shape(v) {
                        r matches Ok(t) && torrent_matches(t, v)
                    } else {
                        r matches Err(e) && e is Invalid
                    }
                },
                Err(pe) => r matches Err(e) && e matches TorrentFileError::Bencode(be) && be@
                    == pe,
            },
    {
        let mut ctx = DecodeContext::new(vstd::slice::slice_to_vec(data.as_slice()));
        let v = match decode_bencoded_value(&mut ctx) {
            Ok(v) => v,
            Err(e) => {
                return Err(TorrentFileError::Bencode(e));
            },
        };
        match Torrent::from_bencode(&v) {
            Ok(t) => Ok(t),
            Err(_) => Err(TorrentFileError::Invalid),
        }
    }

    /// The tracker url.
    pub fn tracker_url(&self) -> (r: &str)
        ensures
            r@ == self.tracker_url@,
    {
        self.tracker_url.as_str()
    }

    /// The info-hash as 40 hex characters.
    pub fn info_hash(&self) -> (r: &str)
        ensures
            r@ == self.info_hash@,
    {
        self.info_hash.as_str()
    }

    /// The total file length in bytes.
    pub fn length(&self) -> (r: usize)
        ensures
            r == self.info.length,
    {
        self.info.length
    }
}

/// The info-hash law: a torrent built from a decoded value carries as
/// its info-hash exactly the SHA-1 of the re-encoded info dictionary.
pub proof fn lemma_info_hash_is_sha1(t: Torrent, v: BValue)
    requires
        torrent_shape(v),
        torrent_matches(t, v),
    ensures
        t.info_hash@ == hex_chars(sha1_of(bval_enc(dict_get(v->Dict_0, info_key())->Some_0))),
{
}

/// The `announce` key bytes.
fn key_announce() -> (r: Vec<u8>)
    ensures
        r@ == announce_key(),
{
    let mut v: Vec<u8> = Vec::new();
    v.push(97);
    v.push(110);
    v.push(110);
    v.push(111);
    v.push(117);
    v.push(110);
    v.push(99);
    v.push(101);
    proof {
        assert(v@ =~= announce_key());
    }
    v
}

/// The `info` key bytes.
fn key_info() -> (r: Vec<u8>)
    ensures
        r@ == info_key(),
{
    let mut v: Vec<u8> = Vec::new();
    v.push(105);
    v.push(110);
    v.push(102);
    v.push(111);
    proof {
        assert(v@ =~= info_key());
    }
    v
}

/// The `length` key bytes.
fn key_length() -> (r: Vec<u8>)
    ensures
        r@ == length_key(),
{
    let mut v: Vec<u8> = Vec::new();
    v.push(108);
    v.push(101);
    v.push(110);
    v.push(103);
    v.push(116);
    v.push(104);
    proof {
        assert(v@ =~= length_key());
    }
    v
}

/// The `name` key bytes.
fn key_name() -> (r: Vec<u8>)
    ensures
        r@ == name_key(),
{
    let mut v: Vec<u8> = Vec::new();
    v.push(110);
    v.push(97);
    v.push(109);
    v.push(101);
    proof {
        assert(v@ =~= name_key());
    }
    v
}

/// The `piece length` key bytes.
fn key_piece_length() -> (r: Vec<u8>)
    ensures
        r@ == piece_length_key(),
{
    let mut v: Vec<u8> = Vec::new();
    v.push(112);
    v.push(105);
    v.push(101);
    v.push(99);
    v.push(101);
    v.push(32);
    v.push(108);
    v.push(101);
    v.push(110);
    v.push(103);
    v.push(116);
    v.push(104);
    proof {
        assert(v@ =~= piece_length_key());
    }
    v
}

/// The `pieces` key bytes.
fn key_pieces() -> (r: Vec<u8>)
    ensures
        r@ == pieces_key(),
{
    let mut v: Vec<u8> = Vec::new();
    v.push(112);
    v.push(105);
    v.push(101);
    v.push(99);
    v.push(101);
    v.push(115);
    proof {
        assert(v@ =~= pieces_key());
    }
    v
}

} // verus!
