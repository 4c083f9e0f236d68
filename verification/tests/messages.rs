use ws_bench::decimal::decimal_string;
use ws_bench::messages::{
    bench_request, decode_request, decode_response, decode_string_fields, encode_request,
    encode_response, ping_request, receipt, MalformedMessage, Request, Response,
};

fn req(action: &str, payload: &str) -> Request {
    Request { action: action.to_string(), payload: payload.to_string() }
}

#[test]
fn ping_request_encodes_as_protobuf() {
    let bytes = encode_request(&ping_request());
    assert_eq!(bytes, vec![0x0a, 4, b'p', b'i', b'n', b'g', 0x12, 1, b'p']);
}

#[test]
fn empty_fields_are_left_out() {
    assert_eq!(encode_request(&req("", "")), Vec::<u8>::new());
    assert_eq!(encode_request(&req("", "x")), vec![0x12, 1, b'x']);
    assert_eq!(encode_response(&Response { result: String::new() }), Vec::<u8>::new());
}

#[test]
fn long_payload_uses_multibyte_length() {
    let r = bench_request(300);
    assert_eq!(r.action, "bench");
    assert_eq!(r.payload, "A".repeat(300));
    let bytes = encode_request(&r);
    // key 0x0a, len 5, "bench", key 0x12, varint 300 = 0xac 0x02, then payload
    assert_eq!(&bytes[..9], &[0x0a, 5, b'b', b'e', b'n', b'c', b'h', 0x12, 0xac]);
    assert_eq!(bytes[9], 0x02);
    assert_eq!(bytes.len(), 10 + 300);
}

#[test]
fn request_roundtrip() {
    for (a, p) in [("ping", "p"), ("bench", "AAAA"), ("", ""), ("héllo", "wörld ✓")] {
        let r = req(a, p);
        assert_eq!(decode_request(&encode_request(&r)), Ok(r));
    }
    let big = bench_request(32768);
    assert_eq!(decode_request(&encode_request(&big)), Ok(big));
}

#[test]
fn response_roundtrip() {
    let r = Response { result: "server received 64 bytes".to_string() };
    assert_eq!(decode_response(&encode_response(&r)), Ok(r));
}

#[test]
fn decode_accepts_any_order_and_last_value_wins() {
    let bytes = vec![0x12, 1, b'x', 0x0a, 1, b'a', 0x0a, 1, b'b'];
    assert_eq!(decode_request(&bytes), Ok(req("b", "x")));
}

#[test]
fn decode_skips_unknown_fields() {
    // field 3 varint 150, field 4 fixed32, then field 1
    let bytes = vec![0x18, 0x96, 0x01, 0x25, 1, 2, 3, 4, 0x0a, 2, b'o', b'k'];
    assert_eq!(decode_request(&bytes), Ok(req("ok", "")));
    // for a response, field 2 is unknown
    let bytes = vec![0x12, 1, b'z', 0x0a, 1, b'r'];
    assert_eq!(decode_response(&bytes), Ok(Response { result: "r".to_string() }));
}

#[test]
fn decode_skips_every_kind_of_unknown_field() {
    // field 3 length-delimited (3 bytes), field 5 fixed64, field 6 group, then field 2
    let bytes = vec![
        0x1a, 3, 9, 9, 9, 0x29, 1, 2, 3, 4, 5, 6, 7, 8, 0x33, 0x08, 1, 0x34, 0x12, 1, b'p',
    ];
    assert_eq!(decode_request(&bytes), Ok(req("", "p")));
    // an unknown length-delimited field longer than what remains
    assert_eq!(decode_request(&[0x1a, 5, 1, 2]), Err(MalformedMessage));
    // an unknown fixed64 cut short
    assert_eq!(decode_request(&[0x29, 1, 2, 3]), Err(MalformedMessage));
    // an unknown fixed32 cut short
    assert_eq!(decode_request(&[0x2d, 1, 2, 3]), Err(MalformedMessage));
}

#[test]
fn decode_rejects_malformed_input() {
    // truncated string
    assert_eq!(decode_request(&[0x0a, 5, b'a']), Err(MalformedMessage));
    // field number zero
    assert_eq!(decode_request(&[0x02, 0]), Err(MalformedMessage));
    // wire type 7
    assert_eq!(decode_request(&[0x0f]), Err(MalformedMessage));
    // field 1 as a varint
    assert_eq!(decode_request(&[0x08, 1]), Err(MalformedMessage));
    // not UTF-8
    assert_eq!(decode_request(&[0x0a, 1, 0xff]), Err(MalformedMessage));
    // unterminated varint key
    assert_eq!(decode_response(&[0x80]), Err(MalformedMessage));
    // end-group without start
    assert_eq!(decode_response(&[0x1c]), Err(MalformedMessage));
}

#[test]
fn decode_fields_of_empty_message() {
    let v = decode_string_fields(&[], 3).unwrap();
    assert_eq!(v, vec![String::new(), String::new(), String::new()]);
}

#[test]
fn decimal_strings() {
    assert_eq!(decimal_string(0), "0");
    assert_eq!(decimal_string(7), "7");
    assert_eq!(decimal_string(10), "10");
    assert_eq!(decimal_string(1234567890), "1234567890");
    assert_eq!(decimal_string(usize::MAX), usize::MAX.to_string());
}

#[test]
fn receipt_counts_payload_bytes() {
    assert_eq!(receipt(&req("bench", "AAAAA")).result, "server received 5 bytes");
    assert_eq!(receipt(&req("x", "")).result, "server received 0 bytes");
    // bytes, not characters
    assert_eq!(receipt(&req("x", "é")).result, "server received 2 bytes");
}
