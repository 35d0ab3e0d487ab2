//! Wire framing, session transitions, and download bookkeeping on
//! concrete values.

use bittorrent::engine::{DownloadState, PieceBuffer, block_layout, piece_size, verify_piece};
use bittorrent::session::{PeerSession, SessionAction, SessionEvent, SessionState};
use bittorrent::wire::{HandshakeMessage, PeerMessage, WireError, parse_message, read_u32_be};

#[test]
fn handshake_round_trip() {
    let info_hash = [7u8; 20];
    let peer_id = *b"-qB0001-abcdefghijkl";
    let m = HandshakeMessage::with_ext(info_hash, peer_id, [0, 0, 0, 0, 0, 0x10, 0, 0]);
    let bytes = m.to_bytes();
    assert_eq!(bytes.len(), 68);
    assert_eq!(HandshakeMessage::length(), 68);
    assert_eq!(bytes[0], 19);
    assert_eq!(&bytes[1..20], b"BitTorrent protocol");
    let back = HandshakeMessage::from_bytes(&bytes).unwrap();
    assert_eq!(back, m);
    assert!(back.has_ext());

    let plain = HandshakeMessage::new(info_hash, peer_id);
    let back2 = HandshakeMessage::from_bytes(&plain.to_bytes()).unwrap();
    assert!(!back2.has_ext());

    assert_eq!(HandshakeMessage::from_bytes(&bytes[..67]), Err(WireError::BadHandshakeLength));
    let mut wrong = bytes.clone();
    wrong[3] = b'x';
    assert_eq!(HandshakeMessage::from_bytes(&wrong), Err(WireError::BadProtocol));
}

fn frame_round_trip(m: PeerMessage) {
    let frame = m.to_bytes();
    let len = read_u32_be(&frame, 0) as usize;
    assert_eq!(frame.len(), 4 + len);
    let payload = frame[4..].to_vec();
    let back = parse_message(&payload).unwrap();
    assert_eq!(back, m);
}

#[test]
fn message_frames_round_trip() {
    frame_round_trip(PeerMessage::KeepAlive);
    frame_round_trip(PeerMessage::Choke);
    frame_round_trip(PeerMessage::Unchoke);
    frame_round_trip(PeerMessage::Interested);
    frame_round_trip(PeerMessage::NotInterested);
    frame_round_trip(PeerMessage::Have(0xDEADBEEF));
    frame_round_trip(PeerMessage::Bitfield(vec![0b1010_0000, 0x01]));
    frame_round_trip(PeerMessage::Request { index: 1, begin: 16384, length: 16384 });
    frame_round_trip(PeerMessage::Piece { index: 1, begin: 16384, block: vec![1, 2, 3] });
    frame_round_trip(PeerMessage::Cancel { index: 2, begin: 0, length: 100 });
    frame_round_trip(PeerMessage::Extension { ext_id: 1, payload: b"d1:md11:ut_metadatai1eee".to_vec() });
}

#[test]
fn message_frame_layout() {
    let m = PeerMessage::Request { index: 1, begin: 2, length: 3 };
    assert_eq!(m.id(), 6);
    assert_eq!(
        m.to_bytes(),
        vec![0, 0, 0, 13, 6, 0, 0, 0, 1, 0, 0, 0, 2, 0, 0, 0, 3]
    );
    let i = PeerMessage::Interested;
    assert_eq!(i.to_bytes(), vec![0, 0, 0, 1, 2]);
}

#[test]
fn message_parse_errors() {
    assert_eq!(parse_message(&vec![9]), Err(WireError::UnknownId(9)));
    assert_eq!(parse_message(&vec![4, 0, 0]), Err(WireError::BadLength));
    assert_eq!(parse_message(&vec![7, 0, 0, 0, 0]), Err(WireError::BadLength));
    assert_eq!(parse_message(&vec![20]), Err(WireError::BadLength));
}

#[test]
fn session_plain_flow() {
    let mut s = PeerSession::new();
    assert_eq!(s.state, SessionState::Init);
    assert_eq!(s.on_event(SessionEvent::HandshakeOk { ext: false }), SessionAction::Wait);
    assert_eq!(s.state, SessionState::Handshook);
    assert_eq!(s.on_event(SessionEvent::KeepAlive), SessionAction::Wait);
    assert_eq!(s.state, SessionState::Handshook);
    assert_eq!(s.on_event(SessionEvent::Bitfield), SessionAction::SendInterested);
    assert_eq!(s.state, SessionState::BitfieldKnown);
    assert_eq!(s.on_event(SessionEvent::Unchoke), SessionAction::Wait);
    assert_eq!(s.state, SessionState::Ready);
    assert_eq!(s.on_event(SessionEvent::BlockArrived), SessionAction::Wait);
    assert_eq!(s.on_event(SessionEvent::Choke), SessionAction::DropRequests);
    assert_eq!(s.state, SessionState::BitfieldKnown);
    assert_eq!(s.on_event(SessionEvent::Unchoke), SessionAction::Wait);
    assert_eq!(s.state, SessionState::Ready);
    assert_eq!(s.on_event(SessionEvent::Failure), SessionAction::Close);
    assert_eq!(s.state, SessionState::Closed);
}

#[test]
fn session_extension_flow() {
    let mut s = PeerSession::new();
    assert_eq!(s.on_event(SessionEvent::HandshakeOk { ext: true }), SessionAction::Wait);
    assert_eq!(s.on_event(SessionEvent::Bitfield), SessionAction::SendExtHandshake);
    assert_eq!(s.on_event(SessionEvent::ExtHandshakeDone), SessionAction::SendInterested);
    assert_eq!(s.state, SessionState::ExtReady);
    assert_eq!(s.on_event(SessionEvent::Unchoke), SessionAction::Wait);
    assert_eq!(s.state, SessionState::Ready);
}

#[test]
fn session_protocol_violation_closes() {
    let mut s = PeerSession::new();
    s.on_event(SessionEvent::HandshakeOk { ext: false });
    // The first post-handshake message must be the bitfield.
    assert_eq!(s.on_event(SessionEvent::Unchoke), SessionAction::Close);
    assert_eq!(s.state, SessionState::Closed);
}

#[test]
fn block_partition() {
    let layout = block_layout(32773);
    assert_eq!(layout, vec![(0, 16384), (16384, 16384), (32768, 5)]);
    assert_eq!(block_layout(16384), vec![(0, 16384)]);
    assert_eq!(block_layout(0), vec![]);
    assert_eq!(block_layout(1), vec![(0, 1)]);
}

#[test]
fn piece_sizes() {
    assert_eq!(piece_size(0, 40000, 32768), 32768);
    assert_eq!(piece_size(1, 40000, 32768), 7232);
    assert_eq!(piece_size(0, 32768, 32768), 32768);
}

#[test]
fn piece_buffer_reassembles() {
    let mut buf = PieceBuffer::new(16384 + 5);
    assert!(!buf.complete());
    let first: Vec<u8> = (0..16384u32).map(|x| x as u8).collect();
    let second: Vec<u8> = vec![9, 9, 9, 9, 9];
    // Blocks may arrive in any order.
    assert!(buf.add_block(16384, second.clone()));
    assert!(!buf.complete());
    assert!(buf.add_block(0, first.clone()));
    assert!(buf.complete());
    let whole = buf.assemble();
    assert_eq!(whole.len(), 16384 + 5);
    assert_eq!(&whole[..16384], first.as_slice());
    assert_eq!(&whole[16384..], second.as_slice());

    // Misaligned, out-of-range and wrong-sized blocks are refused.
    let mut buf2 = PieceBuffer::new(100);
    assert!(!buf2.add_block(1, vec![0; 99]));
    assert!(!buf2.add_block(16384, vec![0; 100]));
    assert!(!buf2.add_block(0, vec![0; 99]));
    assert!(buf2.add_block(0, vec![7; 100]));
}

#[test]
fn piece_verification() {
    let data = b"hello world".to_vec();
    let mut h = <sha1::Sha1 as sha1::Digest>::new();
    sha1::Digest::update(&mut h, data.as_slice());
    let digest: [u8; 20] = sha1::Digest::finalize(h).into();
    assert!(verify_piece(&data, &digest.to_vec()));
    let mut wrong = digest.to_vec();
    wrong[0] ^= 1;
    assert!(!verify_piece(&data, &wrong));
}

#[test]
fn download_assignment() {
    let mut st = DownloadState::new(3);
    assert!(!st.all_done());
    assert_eq!(st.assign_next(7), Some(0));
    assert_eq!(st.assign_next(8), Some(1));
    st.mark_done(1);
    // Losing session 7 returns its piece to the pool.
    st.release_session(7);
    assert_eq!(st.assign_next(9), Some(0));
    assert_eq!(st.assign_next(9), Some(2));
    st.mark_done(0);
    st.mark_done(2);
    assert!(st.all_done());
    assert_eq!(st.assign_next(9), None);
}
