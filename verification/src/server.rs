//! The decisions of the benchmark server: what to answer each WebSocket
//! message with, what to count, and which keys close its terminal view.
use vstd::prelude::*;
use crate::messages::{
    decode_request, encode_response, receipt, receipt_text, request_decode, response_bytes,
    utf8_len,
};
use crate::metrics::Metrics;
use crate::decimal::lemma_decimal_len_u64;
use crate::messages::{
    lemma_request_roundtrip, lemma_response_roundtrip, request_bytes, response_decode, RequestView,
};
use crate::wire::lemma_utf8_len_bound;
use vstd::utf8::encode_utf8;

verus! {

/// A WebSocket message as the server receives it.
pub enum SocketMessage {
    /// A binary frame: one encoded request.
    Binary(Vec<u8>),
    /// A ping, with its application data.
    Ping(Vec<u8>),
    /// The peer closes the connection.
    Close,
    /// The stream reported an error.
    Failure,
    /// Any other frame (text, pong, continuation).
    Other,
}

/// What the server does in answer to a message.
#[derive(Debug, PartialEq, Eq)]
pub enum SocketReply {
    /// Send this binary frame back (an encoded response).
    Send(Vec<u8>),
    /// The frame held no request: report that and go on.
    Undecodable,
    /// Answer the ping with a pong carrying these bytes.
    Pong(Vec<u8>),
    /// Close the session and stop reading.
    Close,
    /// Stop reading.
    Stop,
    /// Nothing to do.
    Ignore,
}

/// The answer to a binary frame holding `bytes`: the receipt of the request
/// it encodes, or `Undecodable`.
pub open spec fn binary_reply_ok(bytes: Seq<u8>, reply: SocketReply) -> bool {
    match request_decode(bytes) {
        Some(req) => reply matches SocketReply::Send(out) && out@ == response_bytes(
            receipt_text(utf8_len(req.payload)),
        ),
        None => reply == SocketReply::Undecodable,
    }
}

/// The answer to an encoded request reads back, on the client, as the
/// receipt of that request: the number of bytes of its payload.
pub proof fn lemma_reply_reads_back(r: RequestView, reply: SocketReply)
    requires
        encode_utf8(r.action).len() <= u64::MAX,
        encode_utf8(r.payload).len() <= u64::MAX,
        binary_reply_ok(request_bytes(r), reply),
    ensures
        reply matches SocketReply::Send(out) && response_decode(out@) == Some(
            receipt_text(utf8_len(r.payload)),
        ),
{
    lemma_request_roundtrip(r);
    let n = utf8_len(r.payload);
    lemma_decimal_len_u64(n as u64);
    reveal_strlit("server received ");
    reveal_strlit(" bytes");
    let text = receipt_text(n);
    assert(text.len() <= 42);
    lemma_utf8_len_bound(text);
    lemma_response_roundtrip(text);
}

/// What the server answers a message with.
pub fn respond_to(msg: &SocketMessage) -> (reply: SocketReply)
    ensures
        match msg {
            SocketMessage::Binary(bytes) => binary_reply_ok(bytes@, reply),
            SocketMessage::Ping(data) => reply matches SocketReply::Pong(out) && out@ == data@,
            SocketMessage::Close => reply == SocketReply::Close,
            SocketMessage::Failure => reply == SocketReply::Stop,
            SocketMessage::Other => reply == SocketReply::Ignore,
        },
{
    match msg {
        SocketMessage::Binary(bytes) => match decode_request(bytes.as_slice()) {
            Ok(req) => SocketReply::Send(encode_response(&receipt(&req))),
            Err(_) => SocketReply::Undecodable,
        },
        SocketMessage::Ping(data) => SocketReply::Pong(data.clone()),
        SocketMessage::Close => SocketReply::Close,
        SocketMessage::Failure => SocketReply::Stop,
        SocketMessage::Other => SocketReply::Ignore,
    }
}

impl Metrics {
    /// Counts a message: a binary frame counts as a packet of its length;
    /// other messages are not counted.
    pub fn record_message(&mut self, msg: &SocketMessage)
        ensures
            match msg {
                SocketMessage::Binary(bytes) => {
                    &&& final(self).current_packets == if old(self).current_packets == u64::MAX {
                        u64::MAX as int
                    } else {
                        old(self).current_packets + 1
                    }
                    &&& final(self).current_bytes == if old(self).current_bytes + bytes@.len()
                        > u64::MAX {
                        u64::MAX as int
                    } else {
                        old(self).current_bytes + bytes@.len()
                    }
                    &&& final(self).last_packet_bytes == bytes@.len()
                    &&& final(self).packets_series@ == old(self).packets_series@
                    &&& final(self).bytes_series@ == old(self).bytes_series@
                    &&& final(self).last_packets == old(self).last_packets
                    &&& final(self).last_bytes == old(self).last_bytes
                },
                _ => *final(self) == *old(self),
            },
    {
        match msg {
            SocketMessage::Binary(bytes) => {
                let len = bytes.len() as u64;
                self.record_packet(len);
            },
            _ => {},
        }
    }
}

/// A key pressed in the server's terminal view.
#[derive(Clone, Copy, PartialEq, Eq, Structural, Debug)]
pub enum KeyPress {
    Char(char),
    Esc,
    Other,
}

/// Whether a key press closes the terminal view: `q`, Escape, or `c` with
/// Control held.
pub fn closes_view(key: KeyPress, control: bool) -> (quit: bool)
    ensures
        quit == (key == KeyPress::Char('q') || key == KeyPress::Esc || (key == KeyPress::Char('c')
            && control)),
{
    match key {
        KeyPress::Char(c) => c == 'q' || (c == 'c' && control),
        KeyPress::Esc => true,
        KeyPress::Other => false,
    }
}

} // verus!
