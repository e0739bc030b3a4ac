use rrdt::ack::{AckFrame, AckRange};
use rrdt::codec::{get_u16, get_u64, put_u16, put_u64};
use rrdt::frame::{
    CompressedParams, Frame, FrameMeta, HandshakeFrame, MaxStreamDataFrame, StreamDataFrame, TransportParams,
};
use rrdt::handshake::{client_outcome, listener_reply, try_compress, ConnectionListenerParams, HandshakeOutcome};
use rrdt::packet::{CompressedPacket, HandshakePacket, LongPacket, Packet, MAX_PACKET_SIZE};

#[test]
fn integers_are_big_endian() {
    let mut buf = Vec::new();
    put_u16(&mut buf, 0x0a0b);
    put_u64(&mut buf, 0x0102_0304_0506_0708);
    assert_eq!(buf, vec![0x0a, 0x0b, 1, 2, 3, 4, 5, 6, 7, 8]);
    assert_eq!(get_u16(&buf, 0), 0x0a0b);
    assert_eq!(get_u64(&buf, 2), 0x0102_0304_0506_0708);
}

#[test]
fn transport_params_layout() {
    let p = TransportParams::default();
    assert_eq!(p.max_ack_delay, 100);
    assert_eq!(p.initial_max_stream_data, 1024 * 1024);
    assert_eq!(p.streams, 10);
    let p = p.with_streams(3).with_max_ack_delay(7).with_initial_max_stream_data(65536);
    let mut buf = Vec::new();
    p.encode(&mut buf);
    assert_eq!(buf, vec![0, 0, 0, 0, 0, 0, 0, 7, 0, 0, 0, 0, 0, 1, 0, 0, 0, 3]);
    let (back, end) = TransportParams::decode(&buf, 0).unwrap();
    assert_eq!(back, p);
    assert_eq!(end, 18);
    assert!(TransportParams::decode(&buf[..17], 0).is_none());
}

#[test]
fn stream_frame_round_trip() {
    let f = Frame::Stream(StreamDataFrame { id: 3, offset: 1000, data: vec![9, 8, 7], fin: true });
    assert_eq!(f.len(), 22);
    let mut buf = Vec::new();
    f.encode(&mut buf);
    assert_eq!(buf[0], 0x03);
    assert_eq!(buf.len(), 22);
    let (back, end) = Frame::decode(&buf, 0).unwrap();
    assert_eq!(end, 22);
    match back {
        Frame::Stream(s) => {
            assert_eq!(s.id, 3);
            assert_eq!(s.offset, 1000);
            assert_eq!(s.data, vec![9, 8, 7]);
            assert!(s.fin);
        }
        _ => panic!("wrong frame"),
    }
    assert!(Frame::decode(&buf[..21], 0).is_none());
}

#[test]
fn other_frames_round_trip() {
    let frames = vec![
        Frame::MaxStreamData(MaxStreamDataFrame { id: 2, max_data: 1 << 20 }),
        Frame::Handshake(HandshakeFrame { params: TransportParams::default() }),
        Frame::Ack(AckFrame { largest_ack: 10, delay: 3, first_ack_range: 2, ack_ranges: vec![AckRange { gap: 2, length: 4 }] }),
    ];
    let mut buf = Vec::new();
    for f in &frames {
        f.encode(&mut buf);
    }
    assert_eq!(buf.len(), 11 + 19 + 25);
    let (a, p) = Frame::decode(&buf, 0).unwrap();
    assert!(matches!(a, Frame::MaxStreamData(MaxStreamDataFrame { id: 2, max_data: 1048576 })));
    let (b, q) = Frame::decode(&buf, p).unwrap();
    assert!(matches!(b, Frame::Handshake(h) if h.params == TransportParams::default()));
    let (c, r) = Frame::decode(&buf, q).unwrap();
    assert_eq!(r, buf.len());
    match c {
        Frame::Ack(a) => {
            assert_eq!(a.largest_ack, 10);
            assert_eq!(a.ack_ranges, vec![AckRange { gap: 2, length: 4 }]);
        }
        _ => panic!("wrong frame"),
    }
}

#[test]
fn unknown_frame_type_is_refused() {
    assert!(Frame::decode(&[0x09, 0, 0], 0).is_none());
    assert!(Frame::decode(&[], 0).is_none());
}

#[test]
fn packet_round_trip_and_meta() {
    let mut p = Packet::new(42);
    p.push(Frame::Stream(StreamDataFrame { id: 1, offset: 5, data: vec![1, 2, 3, 4], fin: false }));
    p.push(Frame::Ack(AckFrame { largest_ack: 1, delay: 0, first_ack_range: 1, ack_ranges: vec![] }));
    p.push(Frame::MaxStreamData(MaxStreamDataFrame { id: 1, max_data: 99 }));
    assert_eq!(p.len(), 8 + 23 + 21 + 11);
    assert_eq!(p.remaining(), MAX_PACKET_SIZE - 63);
    assert!(p.is_ack_eliciting());
    let meta = p.meta(777);
    assert_eq!(meta.packet_num, 42);
    assert_eq!(meta.sent, 777);
    assert_eq!(meta.bytes, 63);
    assert_eq!(meta.frame_meta.len(), 2);
    match &meta.frame_meta[0] {
        FrameMeta::Stream(d) => {
            assert_eq!(d.id, 1);
            assert_eq!(d.range, 5..9);
        }
        _ => panic!("wrong meta"),
    }
    let mut buf = Vec::new();
    p.encode(&mut buf);
    let back = Packet::decode(&buf).unwrap();
    assert_eq!(back.packet_num(), 42);
    assert_eq!(back.frames.len(), 3);
    assert!(Packet::decode(&buf[..buf.len() - 1]).is_none());
    assert!(Packet::decode(&buf[..4]).is_none());
}

#[test]
fn pure_ack_packet_is_not_ack_eliciting() {
    let mut p = Packet::new(1);
    assert!(!p.is_ack_eliciting());
    p.push(Frame::Ack(AckFrame::empty()));
    assert!(!p.is_ack_eliciting());
    let meta = p.meta(0);
    assert!(!meta.is_ack_eliciting);
    assert!(meta.frame_meta.is_empty());
}

#[test]
fn long_packets_round_trip() {
    let h = LongPacket::Handshake(HandshakePacket::new(TransportParams::default().with_streams(4)));
    let mut buf = Vec::new();
    h.encode(&mut buf);
    assert_eq!(buf.len(), h.len());
    assert_eq!(buf[0], 1);
    assert_eq!(LongPacket::decode(&buf), Some(h));
    assert!(LongPacket::decode(&[7]).is_none());
    assert!(LongPacket::decode(&buf[..10]).is_none());
}

#[test]
fn same_byte_file_takes_compressed_path() {
    let prefix = [0x5Au8; 64];
    assert_eq!(try_compress(&prefix), Some(0x5A));
    let reply = listener_reply(&ConnectionListenerParams::Compress(CompressedParams { byte: 0x5A, size: 1 << 30 }));
    let mut buf = Vec::new();
    reply.encode(&mut buf);
    assert_eq!(buf, vec![3, 0x5A, 0, 0, 0, 0, 0x40, 0, 0, 0]);
    let got = LongPacket::decode(&buf).unwrap();
    assert_eq!(got, LongPacket::Compressed(CompressedPacket::new(CompressedParams { byte: 0x5A, size: 1 << 30 })));
    assert_eq!(client_outcome(got), Some(HandshakeOutcome::Compressed(CompressedParams { byte: 0x5A, size: 1 << 30 })));
}

#[test]
fn prescan_rejects_mixed_bytes() {
    let mut prefix = [7u8; 64];
    prefix[10] = 8;
    assert_eq!(try_compress(&prefix), None);
    assert_eq!(try_compress(&[]), None);
    assert_eq!(try_compress(&[0, 0]), Some(0));
}

#[test]
fn listener_with_transport_params_starts_data_plane() {
    let params = TransportParams::default().with_streams(2);
    let reply = listener_reply(&ConnectionListenerParams::Transport(params));
    assert_eq!(client_outcome(reply), Some(HandshakeOutcome::Connection(params)));
}

#[test]
fn prescan_looks_at_sixty_four_bytes() {
    let mut data = vec![0x5Au8; 1000];
    data[500] = 1;
    assert_eq!(try_compress(&data), Some(0x5A));
    data[63] = 0x5B;
    assert_eq!(try_compress(&data), None);
}
