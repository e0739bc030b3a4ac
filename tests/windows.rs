use rrdt::recv_window::RecvWindow;
use rrdt::send_window::{SendWindow, MAX_WINDOW_SIZE};
use rrdt::stream::{ReadOutcome, RecvState, RecvStreamInner, SendState, SendStreamInner, StreamError};
use rrdt::window_buf::{Chunk, WindowBuf};

#[test]
fn flow_control_stall_and_resume() {
    let limit = 64 * 1024;
    let mut w = SendWindow::with_max_data(limit);
    let data = vec![0xABu8; 1024 * 1024];
    assert_eq!(w.write(&data), 1024 * 1024);
    let mut sent = 0u64;
    while let Some((Chunk(bytes, offset), fin)) = w.read(8000) {
        assert_eq!(offset, sent);
        assert!(!fin);
        sent += bytes.len() as u64;
    }
    assert_eq!(sent, limit);
    assert_eq!(w.available(), 0);

    let mut r = RecvWindow::new();
    assert_eq!(r.max_stream_data(), MAX_WINDOW_SIZE);
    assert_eq!(r.write(Chunk(vec![1u8; 64 * 1024], 0), false), 64 * 1024);
    let got = r.read(32 * 1024).unwrap();
    assert_eq!(got.len(), 32 * 1024);
    assert!(!r.should_update());
    w.set_max_data(r.consumed() + MAX_WINDOW_SIZE);
    assert_eq!(w.available(), (1024 * 1024 - 64 * 1024) as usize);
    let (Chunk(bytes, offset), _) = w.read(100).unwrap();
    assert_eq!(offset, limit);
    assert_eq!(bytes.len(), 100);
}

#[test]
fn window_update_after_half_is_read() {
    let mut r = RecvWindow::new();
    let half = (MAX_WINDOW_SIZE / 2) as usize;
    assert_eq!(r.write(Chunk(vec![2u8; half + 10], 0), false), half + 10);
    r.read(half).unwrap();
    assert!(!r.should_update());
    r.read(1).unwrap();
    assert!(r.should_update());
    let grant = r.update();
    assert_eq!(grant, (half + 1) as u64 + MAX_WINDOW_SIZE);
    assert_eq!(r.max_stream_data(), grant);
    assert!(!r.should_update());
    assert_eq!(r.read(100).unwrap(), vec![2u8; 9]);
}

#[test]
fn bytes_come_out_in_stream_order() {
    let mut r = RecvWindow::new();
    assert_eq!(r.write(Chunk(vec![5, 6, 7], 5), true), 3);
    assert!(r.read(10).is_none());
    assert!(!r.recvd());
    assert_eq!(r.write(Chunk(vec![0, 1, 2], 0), false), 3);
    assert_eq!(r.read(10).unwrap(), vec![0, 1, 2]);
    assert!(r.read(10).is_none());
    assert_eq!(r.write(Chunk(vec![3, 4], 3), false), 2);
    assert!(!r.done());
    assert!(r.recvd());
    assert_eq!(r.read(4).unwrap(), vec![3, 4, 5, 6]);
    assert_eq!(r.read(4).unwrap(), vec![7]);
    assert!(r.done());
    assert_eq!(r.consumed(), 8);
}

#[test]
fn stale_empty_and_excess_writes_are_ignored() {
    let mut r = RecvWindow::new();
    r.write(Chunk(vec![1, 2], 0), false);
    r.read(2).unwrap();
    assert_eq!(r.write(Chunk(vec![9], 1), false), 0);
    assert_eq!(r.write(Chunk(vec![], 2), true), 0);
    assert_eq!(r.write(Chunk(vec![1], MAX_WINDOW_SIZE), false), 0);
    assert!(r.read(5).is_none());
}

#[test]
fn send_window_acks_advance_and_retransmits_come_first() {
    let mut w = SendWindow::new();
    w.write(&[1, 2, 3, 4, 5, 6, 7, 8, 9, 10]);
    w.set_wrote();
    let (Chunk(a, _), fin) = w.read(4).unwrap();
    assert_eq!(a, vec![1, 2, 3, 4]);
    assert!(!fin);
    let (Chunk(b, off), fin) = w.read(100).unwrap();
    assert_eq!(off, 4);
    assert_eq!(b, vec![5, 6, 7, 8, 9, 10]);
    assert!(fin);
    assert!(w.read(100).is_none());
    w.retransmit(0..4);
    w.ack(4..10);
    assert_eq!(w.acked(), 0);
    assert!(!w.done());
    let (Chunk(c, off), fin) = w.read(2).unwrap();
    assert_eq!((c, off, fin), (vec![1, 2], 0, false));
    w.ack(0..4);
    assert_eq!(w.acked(), 10);
    assert!(w.done());
    assert!(w.read(10).is_none());
    w.ack(0..3);
    assert_eq!(w.acked(), 10);
}

#[test]
fn ack_inside_pending_retransmit_is_ignored() {
    let mut w = SendWindow::new();
    w.write(&[0u8; 20]);
    w.read(20).unwrap();
    w.retransmit(5..15);
    w.ack(6..10);
    assert!(!w.acks.contains(7));
    w.ack(0..5);
    assert_eq!(w.acked(), 5);
}

#[test]
fn window_buf_reads_and_writes_at_offsets() {
    let mut b = WindowBuf::with_capacity(16);
    b.extend_from_slice(&[1, 2, 3, 4]);
    let Chunk(d, off) = b.read(1, 3);
    assert_eq!((d, off), (vec![2, 3], 1));
    assert_eq!(b.write(&[9, 9], 6), 2);
    assert_eq!(b.buf, vec![1, 2, 3, 4, 0, 0, 9, 9]);
    assert_eq!(b.split_to(2), vec![1, 2]);
    assert_eq!(b.start(), 2);
    b.resize(3, 0);
    assert_eq!(b.buf, vec![3, 4, 0]);
    let z = WindowBuf::zeroed(5);
    assert_eq!(z.buf, vec![0; 5]);
}

#[test]
fn send_stream_states() {
    let mut s = SendStreamInner::new(3, 1 << 20);
    assert_eq!(s.write(&[1, 2, 3]), Ok(3));
    s.set_wrote();
    assert_eq!(s.write(&[4]), Err(StreamError::Reset));
    assert!(s.read(19).is_none());
    let f = s.read(19 + 2).unwrap();
    assert_eq!(s.state, SendState::Send);
    assert_eq!((f.id, f.offset, f.data.clone(), f.fin), (3, 0, vec![1, 2], false));
    let f = s.read(100).unwrap();
    assert!(f.fin);
    assert_eq!(s.state, SendState::DataSent);
    assert!(!s.ack(0..2));
    assert!(s.ack(2..3));
    assert!(s.is_closed());
    assert!(s.read(100).is_none());
}

#[test]
fn recv_stream_states() {
    let mut s = RecvStreamInner::new(1);
    assert_eq!(s.write(vec![4, 5], 2, true), Ok(2));
    assert_eq!(s.state, RecvState::SizeKnown);
    assert!(matches!(s.read(10), ReadOutcome::Pending));
    assert_eq!(s.write(vec![2, 3], 0, false), Ok(2));
    assert_eq!(s.state, RecvState::DataRecvd);
    assert_eq!(s.write(vec![1], 0, false), Err(StreamError::Closed));
    match s.read(10) {
        ReadOutcome::Data(d) => assert_eq!(d, vec![2, 3, 4, 5]),
        _ => panic!("expected data"),
    }
    assert_eq!(s.state, RecvState::DataRead);
    assert!(s.is_closed());
    assert!(matches!(s.read(10), ReadOutcome::Eof));
    assert!(s.update().is_none());
    let mut t = RecvStreamInner::new(2);
    t.write(vec![0u8; 10], 0, false).unwrap();
    t.read(10);
    let g = t.update().unwrap();
    assert_eq!((g.id, g.max_data), (2, 10 + MAX_WINDOW_SIZE));
}
