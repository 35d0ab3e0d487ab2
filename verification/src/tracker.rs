//! The tracker client's computations: the announce query with the
//! per-byte percent-encoded info-hash, the compact peer list, and
//! address text.

use vstd::prelude::*;

use crate::decode::{DecodeContext, decode_bencoded_value, digits_end, scan_digits, spec_parse};
use crate::utils::{char_slice_to_usize, latin1_string, push_all};
use crate::value::{
    BValue, Bencode, all_digits, canon_digits, dec_digits, dec_val, dict_find, dict_get,
    latin1_chars,
};
use vstd::string::StringSliceAdditionalSpecFns;

verus! {

/// One peer from the compact list: an IPv4 address and a port.
#[derive(Debug, Clone, Copy, PartialEq, Eq)]
pub struct Peer {
    /// The four address bytes.
    pub ip: [u8; 4],
    /// The port, read big-endian from two bytes.
    pub port: u16,
}

/// A url-unreserved byte: letters, digits, `-`, `.`, `_`, `~`.
pub open spec fn is_unreserved(b: u8) -> bool {
    (48 <= b <= 57) || (65 <= b <= 90) || (97 <= b <= 122) || b == 45 || b == 46 || b == 95 || b
        == 126
}

/// The upper-case hex digit byte of a value below 16.
pub open spec fn up_hex_digit(n: u8) -> u8 {
    if n < 10 {
        (48 + n) as u8
    } else {
        (55 + n) as u8
    }
}

/// The percent-encoding of one byte: itself when unreserved, else
/// `%` and two upper-case hex digits.
pub open spec fn pct_byte(b: u8) -> Seq<u8> {
    if is_unreserved(b) {
        seq![b]
    } else {
        seq![37u8, up_hex_digit(b / 16), up_hex_digit(b % 16)]
    }
}

/// The percent-encoding of the bytes of `s` from index `k` on.
pub open spec fn pct_enc(s: Seq<u8>, k: int) -> Seq<u8>
    decreases s.len() - k,
{
    if k < 0 || k >= s.len() {
        Seq::empty()
    } else {
        pct_byte(s[k]) + pct_enc(s, k + 1)
    }
}

/// Appends the percent-encoding of every byte of `s`.
fn append_pct(out: &mut Vec<u8>, s: &[u8])
    ensures
        final(out)@ == old(out)@ + pct_enc(s@, 0),
{
    let n = s.len();
    let mut i: usize = 0;
    proof {
        assert(old(out)@ + pct_enc(s@, 0) =~= old(out)@ + pct_enc(s@, 0));
    }
    while i < n
        invariant
            0 <= i <= n,
            n == s@.len(),
            out@ + pct_enc(s@, i as int) == old(out)@ + pct_enc(s@, 0),
        decreases n - i,
    {
        let b = *vstd::slice::slice_index_get(s, i);
        let ghost pre = out@;
        if (b >= 48 && b <= 57) || (b >= 65 && b <= 90) || (b >= 97 && b <= 122) || b == 45 || b
            == 46 || b == 95 || b == 126 {
            out.push(b);
            proof {
                assert(pre.push(b) =~= pre + pct_byte(s@[i as int]));
            }
        } else {
            out.push(37);
            let hi = b / 16;
            let lo = b % 16;
            let hc: u8 = if hi < 10 {
                48 + hi
            } else {
                55 + hi
            };
            let lc: u8 = if lo < 10 {
                48 + lo
            } else {
                55 + lo
            };
            out.push(hc);
            out.push(lc);
            proof {
                assert(pre.push(37u8).push(hc).push(lc) =~= pre + pct_byte(s@[i as int]));
            }
        }
        proof {
            assert(pct_enc(s@, i as int) == pct_byte(s@[i as int]) + pct_enc(s@, i as int + 1));
            assert((pre + pct_byte(s@[i as int])) + pct_enc(s@, i as int + 1) =~= pre + pct_enc(
                s@,
                i as int,
            ));
        }
        i = i + 1;
    }
    proof {
        assert(pct_enc(s@, n as int) =~= Seq::<u8>::empty());
        assert(out@ + pct_enc(s@, n as int) =~= out@);
    }
}

/// The literal `?info_hash=`.
pub open spec fn q_info_hash() -> Seq<u8> {
    seq![
        '?' as u8,
        'i' as u8,
        'n' as u8,
        'f' as u8,
        'o' as u8,
        '_' as u8,
        'h' as u8,
        'a' as u8,
        's' as u8,
        'h' as u8,
        '=' as u8,
    ]
}

/// The literal `&peer_id=`.
pub open spec fn q_peer_id() -> Seq<u8> {
    seq![
        '&' as u8,
        'p' as u8,
        'e' as u8,
        'e' as u8,
        'r' as u8,
        '_' as u8,
        'i' as u8,
        'd' as u8,
        '=' as u8,
    ]
}

/// The literal `&port=`.
pub open spec fn q_port() -> Seq<u8> {
    seq!['&' as u8, 'p' as u8, 'o' as u8, 'r' as u8, 't' as u8, '=' as u8]
}

/// The literal `&uploaded=0&downloaded=0&left=`.
pub open spec fn q_left() -> Seq<u8> {
    seq![
        '&' as u8,
        'u' as u8,
        'p' as u8,
        'l' as u8,
        'o' as u8,
        'a' as u8,
        'd' as u8,
        'e' as u8,
        'd' as u8,
        '=' as u8,
        '0' as u8,
        '&' as u8,
        'd' as u8,
        'o' as u8,
        'w' as u8,
        'n' as u8,
        'l' as u8,
        'o' as u8,
        'a' as u8,
        'd' as u8,
        'e' as u8,
        'd' as u8,
        '=' as u8,
        '0' as u8,
        '&' as u8,
        'l' as u8,
        'e' as u8,
        'f' as u8,
        't' as u8,
        '=' as u8,
    ]
}

/// The literal `&compact=1`.
pub open spec fn q_compact() -> Seq<u8> {
    seq![
        '&' as u8,
        'c' as u8,
        'o' as u8,
        'm' as u8,
        'p' as u8,
        'a' as u8,
        'c' as u8,
        't' as u8,
        '=' as u8,
        '1' as u8,
    ]
}

/// The bytes of the announce query: the tracker url, then
/// `info_hash` and `peer_id` percent-encoded byte by byte, the port,
/// `uploaded=0`, `downloaded=0`, the bytes left, and `compact=1`.
pub open spec fn tracker_url_bytes(
    announce: Seq<u8>,
    ih: Seq<u8>,
    pid: Seq<u8>,
    port: int,
    left: int,
) -> Seq<u8> {
    announce + q_info_hash() + pct_enc(ih, 0) + q_peer_id() + pct_enc(pid, 0) + q_port()
        + dec_digits(port as nat) + q_left() + dec_digits(left as nat) + q_compact()
}

/// Builds the announce query url.  The info-hash and peer id travel
/// as raw bytes, each byte percent-encoded on its own; they are
/// never treated as text.
pub fn tracker_query_url(
    announce: &str,
    info_hash: &[u8; 20],
    peer_id: &[u8; 20],
    port: u16,
    left: u64,
) -> (r: String)
    ensures
        r@ == latin1_chars(
            tracker_url_bytes(
                announce.spec_bytes(),
                info_hash@,
                peer_id@,
                port as int,
                left as int,
            ),
        ),
{
    let mut out: Vec<u8> = Vec::new();
    push_all(&mut out, announce.as_bytes());
    let mut lit1: Vec<u8> = Vec::new();
    lit1.push(63);
    lit1.push(105);
    lit1.push(110);
    lit1.push(102);
    lit1.push(111);
    lit1.push(95);
    lit1.push(104);
    lit1.push(97);
    lit1.push(115);
    lit1.push(104);
    lit1.push(61);
    proof {
        assert(lit1@ =~= q_info_hash());
    }
    push_all(&mut out, lit1.as_slice());
    append_pct(&mut out, info_hash.as_slice());
    let mut lit2: Vec<u8> = Vec::new();
    lit2.push(38);
    lit2.push(112);
    lit2.push(101);
    lit2.push(101);
    lit2.push(114);
    lit2.push(95);
    lit2.push(105);
    lit2.push(100);
    lit2.push(61);
    proof {
        assert(lit2@ =~= q_peer_id());
    }
    push_all(&mut out, lit2.as_slice());
    append_pct(&mut out, peer_id.as_slice());
    let mut lit3: Vec<u8> = Vec::new();
    lit3.push(38);
    lit3.push(112);
    lit3.push(111);
    lit3.push(114);
    lit3.push(116);
    lit3.push(61);
    proof {
        assert(lit3@ =~= q_port());
    }
    push_all(&mut out, lit3.as_slice());
    let mut ec = crate::encode::EncodeContext::new();
    ec.push_u64(port as u64);
    let pd = ec.consume();
    proof {
        assert(Seq::<u8>::empty() + dec_digits(port as u64 as nat) =~= dec_digits(port as nat));
    }
    push_all(&mut out, pd.as_slice());
    let mut lit4: Vec<u8> = Vec::new();
    lit4.push(38);
    lit4.push(117);
    lit4.push(112);
    lit4.push(108);
    lit4.push(111);
    lit4.push(97);
    lit4.push(100);
    lit4.push(101);
    lit4.push(100);
    lit4.push(61);
    lit4.push(48);
    lit4.push(38);
    lit4.push(100);
    lit4.push(111);
    lit4.push(119);
    lit4.push(110);
    lit4.push(108);
    lit4.push(111);
    lit4.push(97);
    lit4.push(100);
    lit4.push(101);
    lit4.push(100);
    lit4.push(61);
    lit4.push(48);
    lit4.push(38);
    lit4.push(108);
    lit4.push(101);
    lit4.push(102);
    lit4.push(116);
    lit4.push(61);
    proof {
        assert(lit4@ =~= q_left());
    }
    push_all(&mut out, lit4.as_slice());
    let mut ec2 = crate::encode::EncodeContext::new();
    ec2.push_u64(left);
    let ld = ec2.consume();
    proof {
        assert(Seq::<u8>::empty() + dec_digits(left as nat) =~= dec_digits(left as nat));
    }
    push_all(&mut out, ld.as_slice());
    let mut lit5: Vec<u8> = Vec::new();
    lit5.push(38);
    lit5.push(99);
    lit5.push(111);
    lit5.push(109);
    lit5.push(112);
    lit5.push(97);
    lit5.push(99);
    lit5.push(116);
    lit5.push(61);
    lit5.push(49);
    proof {
        assert(lit5@ =~= q_compact());
    }
    push_all(&mut out, lit5.as_slice());
    proof {
        assert(out@ =~= tracker_url_bytes(
            announce.spec_bytes(),
            info_hash@,
            peer_id@,
            port as int,
            left as int,
        ));
    }
    latin1_string(&out)
}

/// The `peers` key of a tracker response.
pub open spec fn peers_key() -> Seq<u8> {
    seq!['p' as u8, 'e' as u8, 'e' as u8, 'r' as u8, 's' as u8]
}

/// Why a tracker exchange failed.
#[derive(Debug, Clone, Copy, PartialEq, Eq, Structural)]
pub enum TrackerError {
    /// The tracker answered with this non-200 status.
    Http(u16),
    /// The tracker body is not a dictionary with a compact peer
    /// list.
    Decode,
}

/// The tracker response has the compact shape: a dictionary whose
/// `peers` value is a byte string of whole 6-byte entries.
pub open spec fn tracker_response_ok(b: Seq<u8>) -> bool {
    match spec_parse(b, 0) {
        Ok((v, _)) => match v {
            BValue::Dict(es) => match dict_get(es, peers_key()) {
                Option::Some(BValue::Bytes(ps)) => ps.len() % 6 == 0,
                _ => false,
            },
            _ => false,
        },
        Err(_) => false,
    }
}

/// The peer bytes of a well-shaped tracker response.
pub open spec fn tracker_peer_bytes(b: Seq<u8>) -> Seq<u8> {
    dict_get(spec_parse(b, 0)->Ok_0.0->Dict_0, peers_key())->Some_0->Bytes_0
}

/// Reads the compact peer list out of a tracker response body: each
/// 6 bytes are four address bytes and a big-endian port.  Succeeds
/// exactly on well-shaped responses.
pub fn parse_compact_peers(body: &Vec<u8>) -> (r: Result<Vec<Peer>, TrackerError>)
    ensures
        match r {
            Ok(ps) => tracker_response_ok(body@) && ({
                let pb = tracker_peer_bytes(body@);
                &&& ps@.len() == pb.len() / 6
                &&& forall|k: int|
                    0 <= k < ps@.len() ==> {
                        &&& (#[trigger] ps@[k]).ip@ == pb.subrange(6 * k, 6 * k + 4)
                        &&& ps@[k].port == pb[6 * k + 4] * 256 + pb[6 * k + 5]
                    }
            }),
            Err(e) => !tracker_response_ok(body@) && e is Decode,
        },
{
    let mut ctx = DecodeContext::new(vstd::slice::slice_to_vec(body.as_slice()));
    let v = match decode_bencoded_value(&mut ctx) {
        Ok(v) => v,
        Err(_) => {
            return Err(TrackerError::Decode);
        },
    };
    let es = match &v {
        Bencode::Dict(es) => es,
        _ => {
            return Err(TrackerError::Decode);
        },
    };
    let mut pk: Vec<u8> = Vec::new();
    pk.push(112);
    pk.push(101);
    pk.push(101);
    pk.push(114);
    pk.push(115);
    proof {
        assert(pk@ =~= peers_key());
    }
    let pv = match dict_find(es, &pk) {
        Some(x) => match x {
            Bencode::Bytes(b) => b,
            _ => {
                return Err(TrackerError::Decode);
            },
        },
        None => {
            return Err(TrackerError::Decode);
        },
    };
    let pn = pv.len();
    if pn % 6 != 0 {
        return Err(TrackerError::Decode);
    }
    let np = pn / 6;
    let mut peers: Vec<Peer> = Vec::new();
    let mut k: usize = 0;
    while k < np
        invariant
            0 <= k <= np,
            pn == pv@.len(),
            np == pn / 6,
            pn % 6 == 0,
            peers@.len() == k,
            forall|m: int|
                0 <= m < k ==> {
                    &&& (#[trigger] peers@[m]).ip@ == pv@.subrange(6 * m, 6 * m + 4)
                    &&& peers@[m].port == pv@[6 * m + 4] * 256 + pv@[6 * m + 5]
                },
        decreases np - k,
    {
        proof {
            assert(pn == 6 * (pn as int / 6) + pn as int % 6);
            assert(6 * (np as int) == pn);
            assert(6 * (k as int) + 6 <= 6 * (np as int));
        }
        let j = 6 * k;
        let ip = [pv[j], pv[j + 1], pv[j + 2], pv[j + 3]];
        let port = (pv[j + 4] as u16) * 256 + (pv[j + 5] as u16);
        proof {
            assert(ip@ =~= pv@.subrange(6 * (k as int), 6 * (k as int) + 4));
        }
        peers.push(Peer { ip, port });
        k = k + 1;
    }
    Ok(peers)
}

/// The text `a.b.c.d:port` of a peer address.
pub open spec fn addr_bytes(ip: Seq<u8>, port: int) -> Seq<u8> {
    dec_digits(ip[0] as nat) + seq!['.' as u8] + dec_digits(ip[1] as nat) + seq!['.' as u8]
        + dec_digits(ip[2] as nat) + seq!['.' as u8] + dec_digits(ip[3] as nat) + seq![':' as u8]
        + dec_digits(port as nat)
}

impl Peer {
    /// The `a.b.c.d:port` text of this peer.
    pub fn addr_string(&self) -> (r: String)
        ensures
            r@ == latin1_chars(addr_bytes(self.ip@, self.port as int)),
    {
        let mut ec = crate::encode::EncodeContext::new();
        ec.push_u64(*vstd::array::array_index_get(&self.ip, 0) as u64);
        ec.push_char('.');
        ec.push_u64(*vstd::array::array_index_get(&self.ip, 1) as u64);
        ec.push_char('.');
        ec.push_u64(*vstd::array::array_index_get(&self.ip, 2) as u64);
        ec.push_char('.');
        ec.push_u64(*vstd::array::array_index_get(&self.ip, 3) as u64);
        ec.push_char(':');
        ec.push_u64(self.port as u64);
        let out = ec.consume();
        proof {
            assert(out@ =~= addr_bytes(self.ip@, self.port as int));
        }
        latin1_string(&out)
    }
}

/// A decimal octet text: canonical digits whose value fits one byte.
pub open spec fn is_octet_text(s: Seq<u8>) -> bool {
    canon_digits(s) && dec_val(s) <= 255
}

/// Dotted-quad text, checked group by group: each of the four groups
/// is an octet, and a `.` stands between them.
pub open spec fn ipv4_text_valid(s: Seq<u8>, groups: int) -> bool
    decreases groups,
{
    let e = digits_end(s, 0);
    let octet_ok = is_octet_text(s.subrange(0, e));
    if groups <= 1 {
        octet_ok && e == s.len()
    } else {
        octet_ok && 0 <= e < s.len() && s[e] == 46 && ipv4_text_valid(
            s.subrange(e + 1, s.len() as int),
            groups - 1,
        )
    }
}

/// A port text: digits whose value fits 16 bits (leading zeros are
/// accepted, as ordinary number parsing does).
pub open spec fn port_text_valid(s: Seq<u8>) -> bool {
    s.len() > 0 && all_digits(s) && dec_val(s) <= 65535
}

/// Checks the remaining dotted-quad groups from `from` on.
fn check_ip_groups(data: &Vec<u8>, from: usize, groups: u8) -> (r: bool)
    requires
        from <= data@.len(),
        1 <= groups,
    ensures
        r == ipv4_text_valid(data@.subrange(from as int, data@.len() as int), groups as int),
    decreases groups,
{
    let ghost s = data@.subrange(from as int, data@.len() as int);
    let n = data.len();
    let e = scan_digits(data, from);
    proof {
        lemma_digits_end_shift(data@, from as int);
        crate::decode::lemma_digits_end(data@, from as int);
        crate::value::lemma_dec_val_nonneg(data@.subrange(from as int, e as int));
        assert(data@.subrange(from as int, e as int) =~= s.subrange(0, e - from));
    }
    if e == from {
        return false;
    }
    if e - from > 3 {
        proof {
            if canon_digits(s.subrange(0, e - from)) {
                lemma_octet_len(s.subrange(0, e - from));
            }
        }
        return false;
    }
    let octet = vstd::slice::slice_subrange(data.as_slice(), from, e);
    let ok = match char_slice_to_usize(octet) {
        Some(v) => v <= 255,
        None => false,
    };
    let first = data[from];
    let canon_ok = ok && (first != 48 || e == from + 1);
    if !canon_ok {
        return false;
    }
    if groups == 1 {
        return e == n;
    }
    if e >= n {
        return false;
    }
    if data[e] != 46 {
        proof {
            assert(s[e - from] == data@[e as int]);
        }
        return false;
    }
    let rec = check_ip_groups(data, e + 1, groups - 1);
    proof {
        assert(data@.subrange(e as int + 1, n as int) =~= s.subrange(e - from + 1, s.len() as int));
    }
    rec
}

/// The digit run of a suffix starts where the suffix starts.
proof fn lemma_digits_end_shift(s: Seq<u8>, from: int)
    requires
        0 <= from <= s.len(),
    ensures
        digits_end(s.subrange(from, s.len() as int), 0) == digits_end(s, from) - from,
    decreases s.len() - from,
{
    let suf = s.subrange(from, s.len() as int);
    if from < s.len() && crate::value::is_digit(s[from]) {
        lemma_digits_end_shift(s, from + 1);
        assert(suf[0] == s[from]);
        assert(s.subrange(from + 1, s.len() as int) =~= suf.subrange(1, suf.len() as int));
        lemma_digits_end_tail(suf);
    } else {
        if from < s.len() {
            assert(suf[0] == s[from]);
        }
    }
}

/// The digit run of a sequence whose head is a digit continues in its
/// tail.
proof fn lemma_digits_end_tail(s: Seq<u8>)
    requires
        s.len() > 0,
        crate::value::is_digit(s[0]),
    ensures
        digits_end(s, 0) == 1 + digits_end(s.subrange(1, s.len() as int), 0),
{
    lemma_digits_end_from(s, 1);
}

/// Digit runs shift by one when a sequence loses its head.
proof fn lemma_digits_end_from(s: Seq<u8>, k: int)
    requires
        1 <= k <= s.len(),
    ensures
        digits_end(s, k) == 1 + digits_end(s.subrange(1, s.len() as int), k - 1),
    decreases s.len() - k,
{
    let t = s.subrange(1, s.len() as int);
    if k < s.len() && crate::value::is_digit(s[k]) {
        lemma_digits_end_from(s, k + 1);
        assert(t[k - 1] == s[k]);
    } else {
        if k < s.len() {
            assert(t[k - 1] == s[k]);
        }
    }
}

/// A canonical digit string worth at most 255 has at most three
/// digits.
proof fn lemma_octet_len(s: Seq<u8>)
    requires
        canon_digits(s),
        s.len() > 3,
    ensures
        dec_val(s) > 255,
{
    let p2 = s.subrange(0, 2);
    let p3 = s.subrange(0, 3);
    let p4 = s.subrange(0, 4);
    assert(all_digits(p2) && all_digits(p3) && all_digits(p4)) by {
        assert(forall|i: int| 0 <= i < p2.len() ==> p2[i] == #[trigger] s[i]);
        assert(forall|i: int| 0 <= i < p3.len() ==> p3[i] == #[trigger] s[i]);
        assert(forall|i: int| 0 <= i < p4.len() ==> p4[i] == #[trigger] s[i]);
    }
    assert(p2[0] == s[0] && s[0] != 48);
    crate::value::lemma_dec_val_lower(p2);
    assert(p3.drop_last() =~= p2);
    assert(p3.last() == s[2] && crate::value::is_digit(s[2]));
    assert(dec_val(p3) >= 100);
    assert(p4.drop_last() =~= p3);
    assert(p4.last() == s[3] && crate::value::is_digit(s[3]));
    assert(dec_val(p4) >= 1000);
    crate::value::lemma_dec_val_prefix(s, 4);
}

/// Splits `ip:port` text at its first colon and accepts exactly a
/// dotted-quad address and a 16-bit port.
pub fn validate_ip_port(s: &str) -> (r: Option<(String, u16)>)
    ensures
        ({
            let b = s.spec_bytes();
            match r {
                Some((ip, port)) => {
                    &&& exists|c: int|
                        {
                            &&& 0 <= c < b.len()
                            &&& b[c] == 58
                            &&& (forall|m: int| 0 <= m < c ==> #[trigger] b[m] != 58)
                            &&& ipv4_text_valid(b.subrange(0, c), 4)
                            &&& port_text_valid(b.subrange(c + 1, b.len() as int))
                            &&& ip@ == latin1_chars(b.subrange(0, c))
                            &&& port == dec_val(b.subrange(c + 1, b.len() as int))
                        }
                },
                None => !exists|c: int|
                    {
                        &&& 0 <= c < b.len()
                        &&& b[c] == 58
                        &&& (forall|m: int| 0 <= m < c ==> #[trigger] b[m] != 58)
                        &&& ipv4_text_valid(b.subrange(0, c), 4)
                        &&& port_text_valid(b.subrange(c + 1, b.len() as int))
                    },
            }
        }),
{
    let bs = vstd::slice::slice_to_vec(s.as_bytes());
    let ghost b = s.spec_bytes();
    let n = bs.len();
    let mut c: usize = 0;
    while c < n && bs[c] != 58
        invariant
            0 <= c <= n,
            n == b.len(),
            bs@ == b,
            forall|m: int| 0 <= m < c ==> #[trigger] b[m] != 58,
        decreases n - c,
    {
        c = c + 1;
    }
    if c >= n {
        proof {
            assert forall|cc: int| !(0 <= cc < b.len() && b[cc] == 58 && (forall|m: int|
                0 <= m < cc ==> #[trigger] b[m] != 58) && ipv4_text_valid(b.subrange(0, cc), 4)
                && port_text_valid(b.subrange(cc + 1, b.len() as int))) by {
                if 0 <= cc < b.len() {
                    assert(b[cc] != 58);
                }
            }
        }
        return None;
    }
    let ip_part = vstd::slice::slice_to_vec(vstd::slice::slice_subrange(bs.as_slice(), 0, c));
    let ip_ok = check_ip_groups(&ip_part, 0, 4);
    proof {
        assert(ip_part@.subrange(0, ip_part@.len() as int) =~= b.subrange(0, c as int));
    }
    let port_part = vstd::slice::slice_subrange(bs.as_slice(), c + 1, n);
    let port_ok: Option<u16> = match char_slice_to_usize(port_part) {
        Some(v) => if c + 1 < n && v <= 65535 {
            Some(v as u16)
        } else {
            None
        },
        None => None,
    };
    proof {
        if all_digits(b.subrange(c as int + 1, b.len() as int)) {
            crate::value::lemma_dec_val_nonneg(b.subrange(c as int + 1, b.len() as int));
        }
    }
    match (ip_ok, port_ok) {
        (true, Some(p)) => {
            let ip_str = latin1_string(&ip_part);
            proof {
                lemma_colon_unique(b, c as int);
            }
            Some((ip_str, p))
        },
        _ => {
            proof {
                lemma_colon_unique(b, c as int);
            }
            None
        },
    }
}

/// Only the first colon can satisfy the split: any candidate with no
/// colon before it is the first colon itself.
proof fn lemma_colon_unique(b: Seq<u8>, c: int)
    requires
        0 <= c < b.len(),
        b[c] == 58,
        forall|m: int| 0 <= m < c ==> #[trigger] b[m] != 58,
    ensures
        forall|cc: int|
            (0 <= cc < b.len() && b[cc] == 58 && (forall|m: int|
                0 <= m < cc ==> #[trigger] b[m] != 58)) ==> cc == c,
{
}

} // verus!
