use rrdt::ack::{AckFrame, AckRange, AckSpans};

#[test]
fn ack_test() {
    let mut spans = AckSpans::new();

    spans.insert(0);
    spans.insert(1);
    spans.insert(2);
    spans.insert(4);
    spans.insert(6);
    spans.insert(9);

    println!("spans = {:?}", spans);
    let frame: AckFrame = spans.to_frame();
    println!("frame = {:?}", frame);
    let recv_spans: AckSpans = AckSpans::from_frame(&frame).unwrap();
    println!("recv_spans = {:?}", recv_spans);

    assert_eq!(spans, recv_spans);
}

#[test]
fn ack_frame_fields_describe_ranges_downwards() {
    let mut spans = AckSpans::new();
    for x in [1u64, 2, 4] {
        spans.insert(x);
    }
    let frame = spans.to_frame();
    assert_eq!(frame.largest_ack, 4);
    assert_eq!(frame.first_ack_range, 1);
    assert_eq!(frame.delay, 0);
    assert_eq!(frame.ack_ranges, vec![AckRange { gap: 1, length: 2 }]);
    let back = AckSpans::from_frame(&frame).unwrap();
    assert!(back.contains(1) && back.contains(2) && back.contains(4));
    assert!(!back.contains(3) && !back.contains(0) && !back.contains(5));
}

#[test]
fn empty_spans_give_empty_frame() {
    let spans = AckSpans::new();
    let frame = spans.to_frame();
    assert_eq!(frame.largest_ack, 0);
    assert_eq!(frame.first_ack_range, 0);
    assert!(frame.ack_ranges.is_empty());
    let back = AckSpans::from_frame(&frame).unwrap();
    assert_eq!(back, spans);
}

#[test]
fn round_trip_with_many_ranges() {
    let mut spans = AckSpans::new();
    for k in 0..150u64 {
        spans.insert(3 * k);
        spans.insert(3 * k + 1);
    }
    let frame = spans.to_frame();
    assert_eq!(frame.ack_ranges.len(), 149);
    let back = AckSpans::from_frame(&frame).unwrap();
    assert_eq!(back, spans);
}

#[test]
fn ranges_limit_drops_oldest() {
    let mut spans = AckSpans::new().with_ranges_limit(2);
    for x in [0u64, 2, 4, 6, 8] {
        spans.insert(x);
    }
    let frame = spans.to_frame();
    assert_eq!(frame.largest_ack, 8);
    assert_eq!(frame.ack_ranges.len(), 2);
    let back = AckSpans::from_frame(&frame).unwrap();
    assert!(back.contains(8) && back.contains(6) && back.contains(4));
    assert!(!back.contains(2) && !back.contains(0));
}

#[test]
fn frame_running_below_zero_is_refused() {
    let frame = AckFrame { largest_ack: 3, delay: 0, first_ack_range: 2, ack_ranges: vec![AckRange { gap: 5, length: 1 }] };
    assert!(AckSpans::from_frame(&frame).is_none());
    let frame = AckFrame { largest_ack: 1, delay: 0, first_ack_range: 5, ack_ranges: vec![] };
    assert!(AckSpans::from_frame(&frame).is_none());
    let frame = AckFrame { largest_ack: u64::MAX, delay: 0, first_ack_range: 1, ack_ranges: vec![] };
    assert!(AckSpans::from_frame(&frame).is_none());
}

#[test]
fn reduce_to_drops_oldest_ranges() {
    let mut frame = AckFrame {
        largest_ack: 100,
        delay: 7,
        first_ack_range: 1,
        ack_ranges: vec![AckRange { gap: 1, length: 1 }, AckRange { gap: 2, length: 1 }, AckRange { gap: 3, length: 1 }],
    };
    assert_eq!(frame.len(), 21 + 12);
    frame.reduce_to(21 + 4);
    assert_eq!(frame.ack_ranges, vec![AckRange { gap: 1, length: 1 }]);
    frame.reduce_to(10);
    assert!(frame.ack_ranges.is_empty());
    assert_eq!(frame.delay, 7);
    frame.set_delay(9);
    assert_eq!(frame.delay, 9);
}

#[test]
fn ack_frame_bytes_round_trip() {
    let frame = AckFrame {
        largest_ack: 0x0102_0304_0506_0708,
        delay: 25,
        first_ack_range: 3,
        ack_ranges: vec![AckRange { gap: 1, length: 2 }],
    };
    let mut buf = Vec::new();
    frame.encode(&mut buf);
    assert_eq!(buf.len(), 24);
    assert_eq!(&buf[..8], &[1, 2, 3, 4, 5, 6, 7, 8]);
    assert_eq!(&buf[16..18], &[0, 1]);
    let (back, end) = AckFrame::decode(&buf, 0).unwrap();
    assert_eq!(end, 24);
    assert_eq!(back.largest_ack, frame.largest_ack);
    assert_eq!(back.delay, 25);
    assert_eq!(back.first_ack_range, 3);
    assert_eq!(back.ack_ranges, frame.ack_ranges);
    assert!(AckFrame::decode(&buf[..23], 0).is_none());
}
