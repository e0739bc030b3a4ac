//! A reliable, multi-stream transport over unreliable datagrams: the
//! connection engine's data structures, codecs and decision logic.

pub mod range_set;
pub mod range_ext;
pub mod ack;
pub mod congestion;
pub mod ack_sender;
pub mod window_buf;
pub mod send_window;
pub mod recv_window;
pub mod codec;
pub mod frame;
pub mod packet;
pub mod packetizer;
pub mod inflight;
pub mod stream;
pub mod streams;
pub mod handshake;
pub mod connection;
