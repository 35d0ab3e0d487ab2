//! Magnet, torrent, tracker and ut_metadata behavior on concrete
//! values, with the real outside crates linked.

use bittorrent::encode::{EncodeContext, encode_value};
use bittorrent::engine::{DownloadState, PieceBuffer, block_layout, piece_size, verify_piece};
use bittorrent::hex::{hex_decode, hex_encode};
use bittorrent::magnet::{Magnet, MagnetError};
use bittorrent::metadata::{self, MessageType};
use bittorrent::torrent::Torrent;
use bittorrent::tracker::{parse_compact_peers, tracker_query_url, validate_ip_port};
use bittorrent::value::Bencode;

fn sample_info_value() -> Bencode {
    // A two-piece file: 40000 bytes in 32768-byte pieces.
    let mut pieces: Vec<u8> = Vec::new();
    for i in 0..40u8 {
        pieces.push(i);
    }
    Bencode::Dict(vec![
        (b"length".to_vec(), Bencode::Int(40000)),
        (b"name".to_vec(), Bencode::Bytes(b"sample.txt".to_vec())),
        (b"piece length".to_vec(), Bencode::Int(32768)),
        (b"pieces".to_vec(), Bencode::Bytes(pieces)),
    ])
}

fn sample_torrent_bytes() -> Vec<u8> {
    let root = Bencode::Dict(vec![
        (b"announce".to_vec(), Bencode::Bytes(b"http://tracker.example/announce".to_vec())),
        (b"info".to_vec(), sample_info_value()),
    ]);
    let mut ec = EncodeContext::new();
    encode_value(&mut ec, &root);
    ec.consume()
}

#[test]
fn torrent_fields_and_info_hash() {
    let bytes = sample_torrent_bytes();
    let t = Torrent::from_bytes(&bytes).unwrap();
    assert_eq!(t.tracker_url(), "http://tracker.example/announce");
    assert_eq!(t.length(), 40000);
    assert_eq!(t.info.name, "sample.txt");
    assert_eq!(t.info.piece_length, 32768);
    assert_eq!(t.info.piece_hashes.len(), 2);
    assert_eq!(t.info.piece_hashes[0], (0..20u8).collect::<Vec<u8>>());
    assert_eq!(t.info.piece_hashes[1], (20..40u8).collect::<Vec<u8>>());

    // The stored info-hash is the SHA-1 of the re-encoded info
    // dictionary.
    let mut ec = EncodeContext::new();
    encode_value(&mut ec, &sample_info_value());
    let info_bytes = ec.consume();
    let mut h = <sha1::Sha1 as sha1::Digest>::new();
    sha1::Digest::update(&mut h, info_bytes.as_slice());
    let digest: [u8; 20] = sha1::Digest::finalize(h).into();
    let expected = hex_encode(&digest.to_vec());
    assert_eq!(t.info_hash(), expected.as_str());
}

#[test]
fn torrent_rejects_bad_geometry() {
    // One piece hash too few for the length.
    let root = Bencode::Dict(vec![
        (b"announce".to_vec(), Bencode::Bytes(b"http://t/a".to_vec())),
        (
            b"info".to_vec(),
            Bencode::Dict(vec![
                (b"length".to_vec(), Bencode::Int(40000)),
                (b"name".to_vec(), Bencode::Bytes(b"x".to_vec())),
                (b"piece length".to_vec(), Bencode::Int(32768)),
                (b"pieces".to_vec(), Bencode::Bytes(vec![0u8; 20])),
            ]),
        ),
    ]);
    let mut ec = EncodeContext::new();
    encode_value(&mut ec, &root);
    let bytes = ec.consume();
    assert!(Torrent::from_bytes(&bytes).is_err());
}

#[test]
fn magnet_parse_sample() {
    let m = Magnet::new(
        "magnet:?xt=urn:btih:d69f91e6b2ae4c542468d1073a71d4ea13879a7f&dn=sample.txt&tr=http://tracker.example/announce",
    )
    .unwrap();
    let expected_hash = hex_decode(&b"d69f91e6b2ae4c542468d1073a71d4ea13879a7f".to_vec()).unwrap();
    assert_eq!(m.info_hash.to_vec(), expected_hash);
    assert_eq!(m.download_name.as_deref(), Some("sample.txt"));
    assert_eq!(m.tracker_url.as_deref(), Some("http://tracker.example/announce"));
}

#[test]
fn magnet_hash_hex_round_trip() {
    // Formatting the parsed info-hash yields the original hex,
    // case-insensitively.
    let upper = "magnet:?xt=urn:btih:D69F91E6B2AE4C542468D1073A71D4EA13879A7F";
    let m = Magnet::new(upper).unwrap();
    assert_eq!(m.info_hash_hex(), "d69f91e6b2ae4c542468d1073a71d4ea13879a7f");
    assert!(m.download_name.is_none());
    assert!(m.tracker_url.is_none());
}

#[test]
fn magnet_last_occurrence_wins() {
    let m = Magnet::new(
        "magnet:?xt=urn:btih:d69f91e6b2ae4c542468d1073a71d4ea13879a7f&dn=first&x=1&dn=second",
    )
    .unwrap();
    assert_eq!(m.download_name.as_deref(), Some("second"));
    assert!(m.tracker_url.is_none());
}

#[test]
fn magnet_errors() {
    assert_eq!(Magnet::new("http://example/"), Err(MagnetError::BadPrefix));
    assert_eq!(Magnet::new("magnet:?xt=urn:btih:tooshort"), Err(MagnetError::BadPrefix));
    assert_eq!(
        Magnet::new("magnet:?xt=urn:btih:zzzz91e6b2ae4c542468d1073a71d4ea13879a7f"),
        Err(MagnetError::BadHash)
    );
}

#[test]
fn hex_codec() {
    assert_eq!(hex_encode(&vec![0x00, 0xab, 0x1f]), "00ab1f");
    assert_eq!(hex_decode(&b"00AB1f".to_vec()), Some(vec![0x00, 0xab, 0x1f]));
    assert_eq!(hex_decode(&b"0g".to_vec()), None);
    assert_eq!(hex_decode(&b"abc".to_vec()), None);
}

#[test]
fn tracker_url_percent_encodes_raw_bytes() {
    let info_hash = [0xaau8; 20];
    let peer_id = *b"00112233445566778899";
    let url = tracker_query_url("http://tracker.example/announce", &info_hash, &peer_id, 6881, 12345);
    let mut expected = String::from("http://tracker.example/announce?info_hash=");
    for _ in 0..20 {
        expected.push_str("%AA");
    }
    expected.push_str("&peer_id=00112233445566778899&port=6881");
    expected.push_str("&uploaded=0&downloaded=0&left=12345&compact=1");
    assert_eq!(url, expected);
}

#[test]
fn compact_peer_list() {
    let mut body = b"d5:peers12:".to_vec();
    body.extend_from_slice(&[1, 2, 3, 4, 0x1a, 0x2b, 10, 0, 0, 1, 0, 80]);
    body.push(b'e');
    let peers = parse_compact_peers(&body).unwrap();
    assert_eq!(peers.len(), 2);
    assert_eq!(peers[0].ip, [1, 2, 3, 4]);
    assert_eq!(peers[0].port, 0x1a2b);
    assert_eq!(peers[0].addr_string(), "1.2.3.4:6699");
    assert_eq!(peers[1].ip, [10, 0, 0, 1]);
    assert_eq!(peers[1].port, 80);

    assert!(parse_compact_peers(&b"d5:peers5:aaaaae".to_vec()).is_err());
    assert!(parse_compact_peers(&b"le".to_vec()).is_err());
}

#[test]
fn ip_port_validation() {
    assert_eq!(
        validate_ip_port("192.168.0.1:54321"),
        Some((String::from("192.168.0.1"), 54321))
    );
    assert_eq!(validate_ip_port("1.2.3.4:0"), Some((String::from("1.2.3.4"), 0)));
    assert_eq!(validate_ip_port("1.2.3.4"), None);
    assert_eq!(validate_ip_port("1.2.3:80"), None);
    assert_eq!(validate_ip_port("256.1.1.1:80"), None);
    assert_eq!(validate_ip_port("01.2.3.4:80"), None);
    assert_eq!(validate_ip_port("1.2.3.4:99999"), None);
    assert_eq!(validate_ip_port("1.2.3.4:"), None);
}

#[test]
fn metadata_request_frame() {
    let msg = metadata::Message::new(3, MessageType::Request);
    let bytes = msg.to_bytes();
    let dict = b"d8:msg_typei0e5:piecei0ee";
    let mut expected: Vec<u8> = vec![0, 0, 0, (2 + dict.len()) as u8, 20, 3];
    expected.extend_from_slice(dict);
    assert_eq!(bytes, expected);
    assert_eq!(MessageType::Request.id(), 0);
    assert_eq!(MessageType::Data.id(), 1);
    assert_eq!(MessageType::Reject.id(), 2);
    assert_eq!(MessageType::from_id(1), Some(MessageType::Data));
    assert_eq!(MessageType::from_id(9), None);
}

#[test]
fn extension_handshake_parses_ut_metadata_id() {
    let payload_value = Bencode::Dict(vec![(
        b"m".to_vec(),
        Bencode::Dict(vec![(b"ut_metadata".to_vec(), Bencode::Int(7))]),
    )]);
    let mut ec = EncodeContext::new();
    encode_value(&mut ec, &payload_value);
    let payload = ec.consume();
    assert_eq!(metadata::parse_extension_handshake(&payload), Ok(7));

    assert!(metadata::parse_extension_handshake(&b"de".to_vec()).is_err());
    assert!(metadata::parse_extension_handshake(&b"xx".to_vec()).is_err());
}

#[test]
fn whole_file_reassembles_and_verifies() {
    // A stub peer serving a two-piece file: every piece fetched in
    // blocks, reassembled, verified against the torrent's hashes, and
    // the finished file hashes window by window.
    let content: Vec<u8> = (0..40000u32).map(|x| (x * 7 + 3) as u8).collect();
    let piece_length: usize = 32768;
    let mut pieces: Vec<u8> = Vec::new();
    for chunk in content.chunks(piece_length) {
        let mut h = <sha1::Sha1 as sha1::Digest>::new();
        sha1::Digest::update(&mut h, chunk);
        let d: [u8; 20] = sha1::Digest::finalize(h).into();
        pieces.extend_from_slice(&d);
    }
    let root = Bencode::Dict(vec![
        (b"announce".to_vec(), Bencode::Bytes(b"http://t/a".to_vec())),
        (
            b"info".to_vec(),
            Bencode::Dict(vec![
                (b"length".to_vec(), Bencode::Int(content.len() as i64)),
                (b"name".to_vec(), Bencode::Bytes(b"blob".to_vec())),
                (b"piece length".to_vec(), Bencode::Int(piece_length as i64)),
                (b"pieces".to_vec(), Bencode::Bytes(pieces)),
            ]),
        ),
    ]);
    let mut ec = EncodeContext::new();
    encode_value(&mut ec, &root);
    let t = Torrent::from_bytes(&ec.consume()).unwrap();

    let num_pieces = t.info.piece_hashes.len();
    let mut state = DownloadState::new(num_pieces);
    let mut out = vec![0u8; t.length()];
    while let Some(idx) = state.assign_next(0) {
        let plen = piece_size(idx, t.length(), t.info.piece_length);
        let mut buf = PieceBuffer::new(plen as u32);
        for (begin, len) in block_layout(plen as u32) {
            let start = idx * piece_length + begin as usize;
            let block = content[start..start + len as usize].to_vec();
            assert!(buf.add_block(begin, block));
        }
        assert!(buf.complete());
        let data = buf.assemble();
        assert!(verify_piece(&data, &t.info.piece_hashes[idx]));
        let start = idx * piece_length;
        out[start..start + data.len()].copy_from_slice(&data);
        state.mark_done(idx);
    }
    assert!(state.all_done());
    assert_eq!(out.len(), t.length());
    assert_eq!(out, content);
    for (k, chunk) in out.chunks(piece_length).enumerate() {
        let mut h = <sha1::Sha1 as sha1::Digest>::new();
        sha1::Digest::update(&mut h, chunk);
        let d: [u8; 20] = sha1::Digest::finalize(h).into();
        assert_eq!(d.to_vec(), t.info.piece_hashes[k]);
    }
}

#[test]
fn metadata_data_response() {
    let mut ec = EncodeContext::new();
    encode_value(&mut ec, &sample_info_value());
    let info_bytes = ec.consume();
    let mut data: Vec<u8> = vec![20, 1];
    data.extend_from_slice(b"d8:msg_typei1e5:piecei0ee");
    data.extend_from_slice(&info_bytes);
    let ti = metadata::parse_torrent_data(data.len() as u32, &data).unwrap();
    assert_eq!(ti.length, 40000);
    assert_eq!(ti.name, "sample.txt");
    assert_eq!(ti.piece_length, 32768);
    assert_eq!(ti.piece_hashes.len(), 2);

    // A reject header is not a data message.
    let mut bad: Vec<u8> = vec![20, 1];
    bad.extend_from_slice(b"d8:msg_typei2e5:piecei0ee");
    bad.extend_from_slice(&info_bytes);
    assert!(metadata::parse_torrent_data(bad.len() as u32, &bad).is_err());
    // A wrong extension id is rejected.
    let mut bad2 = data.clone();
    bad2[1] = 9;
    assert!(metadata::parse_torrent_data(bad2.len() as u32, &bad2).is_err());
}
