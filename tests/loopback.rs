use rrdt::connection::Connection;
use rrdt::frame::TransportParams;
use rrdt::stream::ReadOutcome;
use rrdt::streams::AcceptOutcome;

fn pseudo_random(len: usize, seed: u64) -> Vec<u8> {
    let mut x = seed;
    (0..len)
        .map(|_| {
            x = x.wrapping_mul(6364136223846793005).wrapping_add(1442695040888963407);
            (x >> 33) as u8
        })
        .collect()
}

/// Runs a transfer of `payloads` over two in-memory endpoints, dropping the
/// sender's datagrams whose index `drop` picks. Returns what the receiver read.
fn transfer(payloads: &[Vec<u8>], drop: &dyn Fn(usize) -> bool) -> Vec<Vec<u8>> {
    let tx_params = TransportParams::default().with_streams(payloads.len() as u16);
    let rx_params = TransportParams::default();
    let mut tx = Connection::new(tx_params, rx_params, 0).unwrap();
    let mut rx = Connection::new(rx_params, tx_params, 0).unwrap();
    for p in payloads {
        let id = tx.open().unwrap();
        assert_eq!(tx.send(id, p), Ok(p.len()));
        tx.wrote(id);
    }
    let mut got: Vec<(u16, Vec<u8>, bool)> = Vec::new();
    let mut all_accepted = false;
    let mut sent_count = 0usize;
    let mut to_tx: Vec<Vec<u8>> = Vec::new();
    for step in 0..40000u64 {
        let now = step * 1000;
        let mut to_rx = tx.on_wake(now);
        for d in to_tx.drain(..) {
            to_rx.extend(tx.on_datagram(&d, now));
        }
        for d in to_rx {
            let keep = !drop(sent_count);
            sent_count += 1;
            if keep {
                to_tx.extend(rx.on_datagram(&d, now));
            }
        }
        to_tx.extend(rx.on_wake(now));
        while !all_accepted {
            match rx.accept() {
                AcceptOutcome::Stream(id) => got.push((id, Vec::new(), false)),
                AcceptOutcome::Wait => break,
                AcceptOutcome::Done => all_accepted = true,
            }
        }
        for (id, bytes, finished) in got.iter_mut() {
            while !*finished {
                let (r, out) = rx.recv(*id, 4096, now);
                to_tx.extend(out);
                match r {
                    ReadOutcome::Data(d) => bytes.extend_from_slice(&d),
                    ReadOutcome::Pending => break,
                    ReadOutcome::Eof => *finished = true,
                }
            }
        }
        if all_accepted && got.iter().all(|g| g.2) && tx.close_ready() {
            break;
        }
    }
    assert!(all_accepted);
    assert!(got.iter().all(|g| g.2), "not every stream reached its end");
    assert!(tx.close_ready(), "sender still waits for acknowledgements");
    assert!(rx.close_ready());
    got.sort_by_key(|g| g.0);
    got.into_iter().map(|g| g.1).collect()
}

#[test]
fn loopback_transfer_is_bytewise_equal() {
    let payloads = vec![pseudo_random(150_000, 1), pseudo_random(90_000, 2), pseudo_random(1, 3)];
    let received = transfer(&payloads, &|_| false);
    assert_eq!(received, payloads);
}

#[test]
fn dropped_datagram_is_resent() {
    let payloads = vec![pseudo_random(60_000, 9)];
    let received = transfer(&payloads, &|i| i == 7);
    assert_eq!(received, payloads);
}

#[test]
fn peer_initial_credit_limits_new_streams() {
    let tx_params = TransportParams::default().with_streams(1);
    let rx_params = TransportParams::default().with_initial_max_stream_data(64 * 1024);
    let mut tx = Connection::new(tx_params, rx_params, 0).unwrap();
    let id = tx.open().unwrap();
    assert_eq!(tx.send(id, &vec![7u8; 1024 * 1024]), Ok(1024 * 1024));
    let i = tx.streams.get_send(id);
    assert_eq!(tx.streams.send_streams[i].window.max_data, 64 * 1024);
    assert_eq!(tx.streams.send_streams[i].available(), 64 * 1024);
    assert_eq!(tx.congestion.window(), 12000);
    assert_eq!(tx.packetizer.current.packet_num(), 0);
}

#[test]
fn undecodable_datagram_changes_nothing() {
    let p = TransportParams::default();
    let mut c = Connection::new(p, p, 0).unwrap();
    let mut bad = vec![0u8; 8];
    bad.push(0x09);
    assert!(c.on_datagram(&bad, 10).is_empty());
    assert!(c.on_datagram(&[1, 2, 3], 10).is_empty());
    assert!(c.ack_sender.spans.to_frame().ack_ranges.is_empty());
    assert_eq!(c.ack_sender.spans.to_frame().first_ack_range, 0);
}
