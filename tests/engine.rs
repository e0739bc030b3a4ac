use rrdt::ack::AckSpans;
use rrdt::ack_sender::{AckAction, AckSender, AckState};
use rrdt::congestion::RttEstimator;
use rrdt::frame::{Frame, FrameMeta, MaxStreamDataFrame, StreamDataFrame, StreamDataMeta, StreamFrame};
use rrdt::inflight::Inflight;
use rrdt::packet::PacketMeta;
use rrdt::packetizer::Packetizer;
use rrdt::ack::AckFrame;
use rrdt::streams::{budget, choose_order, AcceptOutcome, StreamsInner};

fn sends(a: &AckAction) -> bool {
    matches!(a, AckAction::Send { .. })
}

#[test]
fn in_order_packets_are_acknowledged_in_pairs() {
    let mut s = AckSender::new(100);
    let mut acks = 0;
    let a = s.on_recv(1, true, 0, 0);
    assert!(matches!(a, AckAction::ArmTimer));
    let a = s.on_recv(2, true, 1000, 1000);
    assert!(matches!(a, AckAction::Send { cancel_timer: true, .. }));
    if let AckAction::Send { frame, .. } = &a {
        assert_eq!(frame.largest_ack, 2);
        assert_eq!(frame.first_ack_range, 2);
    }
    acks += sends(&a) as u32;
    let a = s.on_recv(3, true, 2000, 2000);
    assert!(matches!(a, AckAction::ArmTimer));
    let a = s.on_recv(4, true, 3000, 3000);
    acks += sends(&a) as u32;
    if let AckAction::Send { frame, .. } = &a {
        assert_eq!(frame.largest_ack, 4);
    }
    let a = s.on_recv(5, true, 4000, 4000);
    assert!(matches!(a, AckAction::ArmTimer));
    assert_eq!(acks, 2);
    assert_eq!(s.state, AckState::Waiting(1));
    let f = s.on_timeout().unwrap();
    assert_eq!(f.delay, 100);
    assert_eq!(f.largest_ack, 5);
    assert_eq!(s.state, AckState::Idle);
    assert!(s.on_timeout().is_none());
}

#[test]
fn gap_forces_immediate_ack() {
    let mut s = AckSender::new(100);
    s.on_recv(1, true, 0, 0);
    s.on_recv(2, true, 0, 0);
    let a = s.on_recv(4, true, 5000, 7000);
    match a {
        AckAction::Send { frame, cancel_timer } => {
            assert!(!cancel_timer);
            assert_eq!(frame.delay, 2);
            let got = AckSpans::from_frame(&frame).unwrap();
            assert!(got.contains(1) && got.contains(2) && got.contains(4));
            assert!(!got.contains(3));
        }
        _ => panic!("expected an immediate ACK"),
    }
    let a = s.on_recv(3, true, 0, 0);
    assert!(sends(&a));
}

#[test]
fn pure_acks_are_not_acknowledged() {
    let mut s = AckSender::new(100);
    let a = s.on_recv(7, false, 0, 0);
    assert!(matches!(a, AckAction::Nothing));
    assert_eq!(s.acked, 7);
    assert!(s.spans.contains(7));
    let a = s.on_recv(8, true, 0, 0);
    assert!(matches!(a, AckAction::ArmTimer));
}

#[test]
fn packet_numbers_increase_and_acks_flush() {
    let mut p = Packetizer::new();
    let (out, arm) = p.handle(Frame::MaxStreamData(MaxStreamDataFrame { id: 0, max_data: 10 }));
    assert!(out.is_empty());
    assert!(arm);
    let (out, arm) = p.handle(Frame::Ack(AckFrame::empty()));
    assert_eq!(out.len(), 1);
    assert!(!arm);
    assert_eq!(out[0].packet_num(), 0);
    assert_eq!(out[0].frames.len(), 2);
    let (out, _) = p.handle(Frame::Ack(AckFrame::empty()));
    assert_eq!(out[0].packet_num(), 1);
    p.handle(Frame::MaxStreamData(MaxStreamDataFrame { id: 0, max_data: 11 }));
    let out = p.on_timeout();
    assert_eq!(out.len(), 1);
    assert_eq!(out[0].packet_num(), 2);
    assert!(p.on_timeout().is_empty());
}

#[test]
fn large_stream_frame_is_split_into_full_packets() {
    let mut p = Packetizer::new();
    let data: Vec<u8> = (0..20000u32).map(|i| (i % 251) as u8).collect();
    let (out, _) = p.handle(Frame::Stream(StreamDataFrame { id: 4, offset: 100, data: data.clone(), fin: true }));
    assert_eq!(out.len(), 2);
    let mut next = 100u64;
    let mut joined = Vec::new();
    let mut pieces: Vec<StreamDataFrame> = Vec::new();
    for pk in &out {
        assert_eq!(pk.len(), 8192);
        for f in &pk.frames {
            if let Frame::Stream(s) = f { pieces.push(s.clone()); }
        }
    }
    for f in &p.current.frames {
        if let Frame::Stream(s) = f { pieces.push(s.clone()); }
    }
    for (i, s) in pieces.iter().enumerate() {
        assert_eq!(s.offset, next);
        assert_eq!(s.fin, i == pieces.len() - 1);
        next += s.data.len() as u64;
        joined.extend_from_slice(&s.data);
    }
    assert_eq!(joined, data);
    assert_eq!(out[0].packet_num(), 0);
    assert_eq!(out[1].packet_num(), 1);
    assert_eq!(p.current.header.packet_num(), 2);
}

fn stream_meta(pn: u64, id: u16, a: u64, b: u64) -> PacketMeta {
    PacketMeta {
        packet_num: pn,
        frame_meta: vec![FrameMeta::Stream(StreamDataMeta { id, range: a..b })],
        sent: pn * 1000,
        bytes: 1200,
        is_ack_eliciting: true,
    }
}

#[test]
fn loss_is_retransmitted_and_fills_the_hole() {
    let est = RttEstimator::new(100_000);
    let mut inflight = Inflight::new();
    let mut streams = StreamsInner::new(0, 1 << 20);
    let id = streams.open().unwrap();
    let data: Vec<u8> = (0..1000u32).map(|i| (i % 256) as u8).collect();
    streams.send_streams[0].write(&data).unwrap();
    let mut frames = Vec::new();
    for pn in 0..10u64 {
        let f = streams.send_streams[0].read(19 + 100).unwrap();
        assert_eq!(f.offset, pn * 100);
        let rto = inflight.on_sent(stream_meta(pn, id, f.offset, f.offset + 100), &est);
        assert_eq!(rto, Some(est.rto()));
        frames.push(f);
    }
    let lost = inflight.on_rto(7).unwrap();
    assert_eq!(lost.packet_num, 7);
    assert!(inflight.on_rto(7).is_none());
    let grants = streams.on_lost(&lost);
    assert!(grants.is_empty());
    let again = streams.send_streams[0].read(19 + 500).unwrap();
    assert_eq!(again.offset, 700);
    assert_eq!(again.data, data[700..800].to_vec());

    let mut recv = StreamsInner::new(1, 1 << 20);
    for (k, f) in frames.iter().enumerate() {
        if k != 7 {
            recv.dispatch(StreamFrame::Data(f.clone())).unwrap();
        }
    }
    assert_eq!(recv.accept(), AcceptOutcome::Stream(id));
    assert_eq!(recv.accept(), AcceptOutcome::Done);
    let s = &mut recv.recv_streams[0];
    match s.read(5000) {
        rrdt::stream::ReadOutcome::Data(d) => assert_eq!(d, data[..700].to_vec()),
        _ => panic!("expected data"),
    }
    assert!(matches!(s.read(5000), rrdt::stream::ReadOutcome::Pending));
    recv.dispatch(StreamFrame::Data(again)).unwrap();
    let s = &mut recv.recv_streams[0];
    match s.read(5000) {
        rrdt::stream::ReadOutcome::Data(d) => assert_eq!(d, data[700..].to_vec()),
        _ => panic!("expected data"),
    }
    assert_eq!(s.window.consumed(), 1000);
}

#[test]
fn ack_removes_tracked_packets_and_samples_rtt() {
    let mut est = RttEstimator::new(0);
    let mut inflight = Inflight::new();
    for pn in 0..4u64 {
        inflight.on_sent(stream_meta(pn, 0, pn * 10, pn * 10 + 10), &est);
    }
    let mut spans = AckSpans::new();
    spans.insert(1);
    spans.insert(3);
    let mut frame = spans.to_frame();
    frame.set_delay(0);
    let acked = inflight.on_ack(&frame, 53_000, &mut est);
    let nums: Vec<u64> = acked.iter().map(|m| m.packet_num).collect();
    assert_eq!(nums, vec![1, 3]);
    assert_eq!(est.latest, 50_000);
    assert_eq!(est.rtt(), 50_000);
    let again = inflight.on_ack(&frame, 60_000, &mut est);
    assert!(again.is_empty());
    assert_eq!(est.latest, 50_000);
    assert!(inflight.on_rto(1).is_none());
    assert_eq!(inflight.on_rto(2).unwrap().packet_num, 2);
}

#[test]
fn pure_ack_packets_are_not_tracked() {
    let est = RttEstimator::new(0);
    let mut inflight = Inflight::new();
    let meta = PacketMeta { packet_num: 0, frame_meta: vec![], sent: 0, bytes: 29, is_ack_eliciting: false };
    assert_eq!(inflight.on_sent(meta, &est), None);
    assert!(inflight.packets.is_empty());
}

#[test]
fn random_order_visits_each_stream_once() {
    for n in [1usize, 2, 10, 33] {
        let mut order = choose_order(n);
        assert_eq!(order.len(), n);
        order.sort();
        assert_eq!(order, (0..n).collect::<Vec<_>>());
    }
    assert!(choose_order(0).is_empty());
}

#[test]
fn scheduler_budget() {
    assert_eq!(budget(12000, 333_000), 15000 * 1000 / 333_000);
    assert_eq!(budget(4000, 0), 5000 * 1000);
    assert_eq!(budget(0, 100), 0);
}

#[test]
fn schedule_reads_within_budget() {
    let mut streams = StreamsInner::new(0, 1 << 20);
    for _ in 0..3 {
        let id = streams.open().unwrap();
        let i = streams.get_send(id);
        streams.send_streams[i].write(&[1u8; 100]).unwrap();
    }
    let frames = streams.schedule(19 * 3 + 150);
    let total: usize = frames.iter().map(|f| 19 + f.data.len()).sum();
    assert!(total <= 19 * 3 + 150);
    assert!(!frames.is_empty());
    let mut ids: Vec<u16> = frames.iter().map(|f| f.id).collect();
    ids.sort();
    ids.dedup();
    assert_eq!(ids.len(), frames.len());
}

#[test]
fn open_and_accept() {
    let mut s = StreamsInner::new(2, 1 << 20);
    assert_eq!(s.open(), Some(0));
    assert_eq!(s.open(), Some(1));
    assert_eq!(s.accept(), AcceptOutcome::Wait);
    s.dispatch(StreamFrame::Data(StreamDataFrame { id: 5, offset: 0, data: vec![1], fin: false })).unwrap();
    s.dispatch(StreamFrame::MaxData(MaxStreamDataFrame { id: 0, max_data: 1 << 30 })).unwrap();
    assert_eq!(s.send_streams[0].window.max_data, 1 << 30);
    assert_eq!(s.accept(), AcceptOutcome::Stream(5));
    assert_eq!(s.accept(), AcceptOutcome::Wait);
    s.dispatch(StreamFrame::Data(StreamDataFrame { id: 6, offset: 0, data: vec![1], fin: false })).unwrap();
    assert_eq!(s.accept(), AcceptOutcome::Stream(6));
    assert_eq!(s.accept(), AcceptOutcome::Done);
    let mut none = StreamsInner::new(0, 1 << 20);
    assert_eq!(none.accept(), AcceptOutcome::Done);
}

#[test]
fn lost_grant_is_renewed_while_stream_receives() {
    let mut s = StreamsInner::new(1, 1 << 20);
    s.dispatch(StreamFrame::Data(StreamDataFrame { id: 2, offset: 0, data: vec![1, 2, 3], fin: false })).unwrap();
    let meta = PacketMeta {
        packet_num: 5,
        frame_meta: vec![FrameMeta::MaxStreamData(rrdt::frame::MaxStreamDataMeta { id: 2 })],
        sent: 0,
        bytes: 40,
        is_ack_eliciting: true,
    };
    let grants = s.on_lost(&meta);
    assert_eq!(grants.len(), 1);
    assert_eq!((grants[0].id, grants[0].max_data), (2, 1 << 20));
    s.dispatch(StreamFrame::Data(StreamDataFrame { id: 2, offset: 3, data: vec![], fin: true })).unwrap();
    s.dispatch(StreamFrame::Data(StreamDataFrame { id: 2, offset: 3, data: vec![4], fin: true })).unwrap();
    assert!(s.on_lost(&meta).is_empty());
    let r = s.dispatch(StreamFrame::Data(StreamDataFrame { id: 2, offset: 4, data: vec![5], fin: false }));
    assert_eq!(r, Err(rrdt::stream::StreamError::Closed));
}

#[test]
fn acked_ranges_reach_their_windows() {
    let mut s = StreamsInner::new(0, 1 << 20);
    let id = s.open().unwrap();
    s.write_stream(id, &[0u8; 300]).unwrap();
    s.set_wrote_stream(id);
    let f = s.send_streams[0].read(19 + 300).unwrap();
    assert!(f.fin);
    let metas = vec![stream_meta(0, id, 0, 100), stream_meta(1, id, 100, 300)];
    let closed = s.on_acked(&metas);
    assert_eq!(closed, vec![id]);
    assert_eq!(s.send_streams[0].window.acked(), 300);
    assert!(s.all_closed());
}
