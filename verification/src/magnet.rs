//! Magnet URIs: `magnet:?xt=urn:btih:<40-hex>[&dn=<name>][&tr=<url>]`.
//!
//! The fixed prefix and the hex info-hash are parsed and verified
//! here; the `&key=value` tail goes through the url-encoded form
//! decoder, and the recognized fields are picked out of its pairs by
//! verified code.

use vstd::prelude::*;

use crate::hex::{all_hex, bytes_of_hex, hex_decode};
use vstd::string::{StrSliceExecFns, StringSliceAdditionalSpecFns};

verus! {

/// A parsed magnet descriptor.
#[derive(Debug, PartialEq, Eq)]
pub struct Magnet {
    /// Hash of the info dictionary.
    pub info_hash: [u8; 20],
    /// Optional download file name (`dn`).
    pub download_name: Option<String>,
    /// Optional tracker url (`tr`).
    pub tracker_url: Option<String>,
}

/// Why a magnet string was rejected.
#[derive(Debug, Clone, Copy, PartialEq, Eq, Structural)]
pub enum MagnetError {
    /// Not `magnet:?xt=urn:btih:` followed by at least 40 characters.
    BadPrefix,
    /// The 40 characters after the prefix are not all hex digits.
    BadHash,
    /// The `&key=value` tail cannot be read.
    BadQuery,
}

impl MagnetError {
    /// A one-line description.
    pub fn message(&self) -> (r: String)
        ensures
            self is BadPrefix ==> r@ == "invalid prefix or too short"@,
            self is BadHash ==> r@ == "invalid info hash hex code"@,
            self is BadQuery ==> r@ == "invalid magnet str segments"@,
    {
        match self {
            MagnetError::BadPrefix => String::from_str("invalid prefix or too short"),
            MagnetError::BadHash => String::from_str("invalid info hash hex code"),
            MagnetError::BadQuery => String::from_str("invalid magnet str segments"),
        }
    }
}

/// The 20 bytes of `magnet:?xt=urn:btih:`.
pub open spec fn magnet_prefix() -> Seq<u8> {
    seq![
        'm' as u8,
        'a' as u8,
        'g' as u8,
        'n' as u8,
        'e' as u8,
        't' as u8,
        ':' as u8,
        '?' as u8,
        'x' as u8,
        't' as u8,
        '=' as u8,
        'u' as u8,
        'r' as u8,
        'n' as u8,
        ':' as u8,
        'b' as u8,
        't' as u8,
        'i' as u8,
        'h' as u8,
        ':' as u8,
    ]
}

/// What the url-encoded form decoder reads from a query string: the
/// decoded `key=value` pairs in order, or nothing when the text
/// cannot be read.  The outcome depends on the bytes alone.
pub uninterp spec fn query_pairs_of(s: Seq<u8>) -> Option<Seq<(Seq<char>, Seq<char>)>>;

/// Decoded pairs seen as character sequences.
pub open spec fn pairs_view(v: Seq<(String, String)>) -> Seq<(Seq<char>, Seq<char>)> {
    Seq::new(v.len(), |i: int| (v[i].0@, v[i].1@))
}

/// Relies on serde_urlencoded::from_bytes: decodes the
/// `&`-separated, percent-encoded `key=value` pairs of a query
/// string, in order; success and result depend on the bytes alone.
#[verifier::external_body]
fn parse_query_pairs(s: &Vec<u8>) -> (r: Option<Vec<(String, String)>>)
    ensures
        match r {
            Some(v) => query_pairs_of(s@) == Option::Some(pairs_view(v@)),
            None => query_pairs_of(s@) is None,
        },
{
    serde_urlencoded::from_bytes::<Vec<(String, String)>>(s.as_slice()).ok()
}

/// The value of the last pair named `key`, if any.
pub open spec fn last_param(ps: Seq<(Seq<char>, Seq<char>)>, key: Seq<char>) -> Option<Seq<char>>
    decreases ps.len(),
{
    if ps.len() == 0 {
        Option::None
    } else if ps.last().0 == key {
        Option::Some(ps.last().1)
    } else {
        last_param(ps.drop_last(), key)
    }
}

/// An optional string seen as its characters.
pub open spec fn opt_str_view(o: Option<String>) -> Option<Seq<char>> {
    match o {
        Option::Some(s) => Option::Some(s@),
        Option::None => Option::None,
    }
}

/// The string holds exactly the two given characters.
fn str_is2(s: &String, a: char, b: char) -> (r: bool)
    ensures
        r == (s@ == seq![a, b]),
{
    let st = s.as_str();
    if st.unicode_len() != 2 {
        return false;
    }
    let c0 = st.get_char(0);
    let c1 = st.get_char(1);
    if c0 == a && c1 == b {
        proof {
            assert(s@ =~= seq![a, b]);
        }
        true
    } else {
        false
    }
}

/// Picks the display name and tracker url out of decoded query
/// pairs: for each of `dn` and `tr`, the last occurrence wins.
pub fn magnet_fields_from_pairs(pairs: &Vec<(String, String)>) -> (r: (
    Option<String>,
    Option<String>,
))
    ensures
        opt_str_view(r.0) == last_param(pairs_view(pairs@), seq!['d', 'n']),
        opt_str_view(r.1) == last_param(pairs_view(pairs@), seq!['t', 'r']),
{
    let ghost dnk = seq!['d', 'n'];
    let ghost trk = seq!['t', 'r'];
    let mut dn: Option<String> = None;
    let mut tr: Option<String> = None;
    let mut i: usize = 0;
    let n = pairs.len();
    proof {
        assert(pairs_view(pairs@.subrange(0, 0)).len() == 0);
    }
    while i < n
        invariant
            0 <= i <= n,
            n == pairs@.len(),
            opt_str_view(dn) == last_param(pairs_view(pairs@.subrange(0, i as int)), dnk),
            opt_str_view(tr) == last_param(pairs_view(pairs@.subrange(0, i as int)), trk),
            dnk == seq!['d', 'n'],
            trk == seq!['t', 'r'],
        decreases n - i,
    {
        proof {
            let pre = pairs_view(pairs@.subrange(0, i as int));
            let cur = pairs_view(pairs@.subrange(0, i as int + 1));
            assert(cur.drop_last() =~= pre);
            assert(cur.last() == (pairs@[i as int].0@, pairs@[i as int].1@));
        }
        if str_is2(&pairs[i].0, 'd', 'n') {
            dn = Some(pairs[i].1.clone());
        } else if str_is2(&pairs[i].0, 't', 'r') {
            tr = Some(pairs[i].1.clone());
        }
        i = i + 1;
    }
    proof {
        assert(pairs@.subrange(0, n as int) =~= pairs@);
    }
    (dn, tr)
}

/// The first 20 bytes are the magnet prefix.
fn has_magnet_prefix(b: &[u8]) -> (r: bool)
    requires
        b@.len() >= 20,
    ensures
        r == (b@.subrange(0, 20) == magnet_prefix()),
{
    let mut pv: Vec<u8> = Vec::new();
    pv.push(109);
    pv.push(97);
    pv.push(103);
    pv.push(110);
    pv.push(101);
    pv.push(116);
    pv.push(58);
    pv.push(63);
    pv.push(120);
    pv.push(116);
    pv.push(61);
    pv.push(117);
    pv.push(114);
    pv.push(110);
    pv.push(58);
    pv.push(98);
    pv.push(116);
    pv.push(105);
    pv.push(104);
    pv.push(58);
    proof {
        assert(pv@ =~= magnet_prefix());
    }
    let mut i: usize = 0;
    while i < 20
        invariant
            0 <= i <= 20,
            pv@ == magnet_prefix(),
            pv@.len() == 20,
            b@.len() >= 20,
            forall|m: int| 0 <= m < i ==> #[trigger] b@[m] == magnet_prefix()[m],
        decreases 20 - i,
    {
        let x = *vstd::slice::slice_index_get(b, i);
        if x != pv[i] {
            proof {
                assert(b@.subrange(0, 20)[i as int] == b@[i as int]);
            }
            return false;
        }
        i = i + 1;
    }
    proof {
        assert(b@.subrange(0, 20) =~= magnet_prefix());
    }
    true
}

/// The shape a well-formed magnet string's bytes must have: the fixed
/// prefix, 40 hex digits, and a readable query tail if any.
pub open spec fn magnet_ok(b: Seq<u8>) -> bool {
    &&& b.len() >= 60
    &&& b.subrange(0, 20) == magnet_prefix()
    &&& all_hex(b.subrange(20, 60))
    &&& (b.len() == 60 || query_pairs_of(b.subrange(60, b.len() as int)) is Some)
}

impl Magnet {
    /// Parses a magnet string: the info-hash comes from the 40 hex
    /// characters after the prefix, and `dn` and `tr` from the tail,
    /// last occurrence winning; other parameters are ignored.
    pub fn new(magnet_str: &str) -> (r: Result<Magnet, MagnetError>)
        ensures
            ({
                let b = magnet_str.spec_bytes();
                match r {
                    Ok(m) => {
                        &&& magnet_ok(b)
                        &&& m.info_hash@ == bytes_of_hex(b.subrange(20, 60))
                        &&& (b.len() == 60 ==> m.download_name is None && m.tracker_url is None)
                        &&& (b.len() > 60 ==> {
                            let ps = query_pairs_of(b.subrange(60, b.len() as int))->Some_0;
                            &&& opt_str_view(m.download_name) == last_param(ps, seq!['d', 'n'])
                            &&& opt_str_view(m.tracker_url) == last_param(ps, seq!['t', 'r'])
                        })
                    },
                    Err(e) => {
                        &&& !magnet_ok(b)
                        &&& (e is BadPrefix <==> (b.len() < 60 || b.subrange(0, 20)
                            != magnet_prefix()))
                        &&& (e is BadHash <==> (b.len() >= 60 && b.subrange(0, 20)
                            == magnet_prefix() && !all_hex(b.subrange(20, 60))))
                        &&& (e is BadQuery <==> (b.len() > 60 && b.subrange(0, 20)
                            == magnet_prefix() && all_hex(b.subrange(20, 60)) && query_pairs_of(
                            b.subrange(60, b.len() as int),
                        ) is None))
                    },
                }
            }),
    {
        let b = magnet_str.as_bytes();
        let ghost bs = magnet_str.spec_bytes();
        let n = b.len();
        if n < 60 {
            return Err(MagnetError::BadPrefix);
        }
        if !has_magnet_prefix(b) {
            return Err(MagnetError::BadPrefix);
        }
        let hexpart = vstd::slice::slice_to_vec(vstd::slice::slice_subrange(b, 20, 60));
        let hash = match hex_decode(&hexpart) {
            Some(v) => v,
            None => {
                return Err(MagnetError::BadHash);
            },
        };
        let mut ih = [0u8; 20];
        let mut i: usize = 0;
        while i < 20
            invariant
                0 <= i <= 20,
                hash@.len() == 20,
                ih@.len() == 20,
                forall|m: int| 0 <= m < i ==> #[trigger] ih@[m] == hash@[m],
            decreases 20 - i,
        {
            ih[i] = hash[i];
            i = i + 1;
        }
        proof {
            assert(ih@ =~= hash@);
        }
        if n == 60 {
            return Ok(Magnet { info_hash: ih, download_name: None, tracker_url: None });
        }
        let tail = vstd::slice::slice_to_vec(vstd::slice::slice_subrange(b, 60, n));
        let pairs = match parse_query_pairs(&tail) {
            Some(p) => p,
            None => {
                return Err(MagnetError::BadQuery);
            },
        };
        let fields = magnet_fields_from_pairs(&pairs);
        Ok(Magnet { info_hash: ih, download_name: fields.0, tracker_url: fields.1 })
    }

    /// The info-hash as 40 lower-case hex characters.
    pub fn info_hash_hex(&self) -> (r: String)
        ensures
            r@ == crate::hex::hex_chars(self.info_hash@),
    {
        let v = vstd::slice::slice_to_vec(self.info_hash.as_slice());
        crate::hex::hex_encode(&v)
    }
}

/// Round trip: the hex text of a parsed magnet's info-hash is the
/// original 40 hex characters, lower-cased; a magnet URI thus keeps
/// its identity through parsing and formatting, case-insensitively.
pub proof fn lemma_magnet_hash_round_trip(b: Seq<u8>)
    requires
        magnet_ok(b),
    ensures
        crate::hex::hex_chars(bytes_of_hex(b.subrange(20, 60))) == crate::value::latin1_chars(
            crate::hex::lower_hex_bytes(b.subrange(20, 60)),
        ),
{
    crate::hex::lemma_hex_round_trip(b.subrange(20, 60));
}

} // verus!
