//! The two messages of the benchmark and their Protobuf encoding.
//!
//! `Request { action = 1, payload = 2 }` goes from client to server and
//! `Response { result = 1 }` back; every field is a `string`.  Encoding
//! follows proto3: a field that holds the empty string is left out.
//! Decoding accepts the fields in any order and any number of times (the
//! last one wins) and passes over fields of other numbers.
use vstd::prelude::*;
use vstd::string::*;
use vstd::utf8::*;
use crate::decimal::{decimal, decimal_string};
use crate::wire::{
    lemma_string_field_roundtrip, MAX_FIELD_TAG, WireKind, key_bytes,
    key_decode, lemma_leb128_decode_len, put_string_field, read_key, read_string_field, skip_field,
    skipped_field_len, string_field_bytes, string_field_decode,
};

verus! {

/// A message that is not a valid encoding of the expected kind.
#[derive(Clone, Copy, PartialEq, Eq, Structural, Debug)]
pub struct MalformedMessage;

/// The bytes of string field `tag` in proto3: nothing for the empty string.
pub open spec fn optional_field_bytes(tag: nat, value: Seq<char>) -> Seq<u8> {
    if value.len() == 0 {
        Seq::empty()
    } else {
        string_field_bytes(tag, value)
    }
}

/// `count` empty strings: the value of a message in which no field is set.
pub open spec fn empty_fields(count: nat) -> Seq<Seq<char>> {
    Seq::new(count, |i: int| Seq::<char>::empty())
}

/// Reads the fields of a message whose fields `1..=acc.len()` are strings,
/// starting from the values `acc`: each string field read replaces the value
/// of its number, every other field is passed over as prost passes over it.
pub open spec fn fields_merge(s: Seq<u8>, acc: Seq<Seq<char>>) -> Option<Seq<Seq<char>>>
    decreases s.len(),
{
    if s.len() == 0 {
        Some(acc)
    } else {
        match key_decode(s) {
            None => None,
            Some((tag, k, n)) => {
                proof {
                    lemma_leb128_decode_len(s, 10);
                }
                let rest = s.skip(n as int);
                if 1 <= tag <= acc.len() {
                    match string_field_decode(k, rest) {
                        None => None,
                        Some((v, m)) => {
                            proof {
                                lemma_leb128_decode_len(rest, 10);
                            }
                            fields_merge(rest.skip(m as int), acc.update(tag - 1, v))
                        },
                    }
                } else {
                    match skipped_field_len(k, tag as u32, rest) {
                        None => None,
                        Some(m) => {
                            if m <= rest.len() {
                                fields_merge(rest.skip(m as int), acc)
                            } else {
                                None
                            }
                        },
                    }
                }
            },
        }
    }
}

/// Decodes a message whose fields `1..=count` are strings; unset fields are
/// empty.
pub open spec fn fields_decode(s: Seq<u8>, count: nat) -> Option<Seq<Seq<char>>> {
    fields_merge(s, empty_fields(count))
}

/// Decodes a message whose fields `1..=count` are strings, as prost decodes
/// it: the values of fields `1..=count`, in that order.
pub fn decode_string_fields(bytes: &[u8], count: usize) -> (r: Result<Vec<String>, MalformedMessage>)
    ensures
        match r {
            Ok(v) => v.len() == count && fields_decode(bytes@, count as nat) == Some(v.deep_view()),
            Err(_) => fields_decode(bytes@, count as nat) is None,
        },
{
    let mut fields: Vec<String> = Vec::new();
    let mut i: usize = 0;
    while i < count
        invariant
            i <= count,
            fields.len() == i,
            forall|j: int| 0 <= j < i ==> (#[trigger] fields[j])@ == Seq::<char>::empty(),
        decreases count - i,
    {
        fields.push(String::new());
        i = i + 1;
    }
    assert(fields.deep_view() =~= empty_fields(count as nat));
    let mut rest: &[u8] = bytes;
    while rest.len() > 0
        invariant
            fields.len() == count,
            fields_decode(bytes@, count as nat) == fields_merge(rest@, fields.deep_view()),
        decreases rest.len(),
    {
        let ghost s = rest@;
        proof {
            lemma_leb128_decode_len(s, 10);
        }
        let (tag, k, after) = match read_key(rest) {
            Ok(key) => key,
            Err(_) => {
                return Err(MalformedMessage);
            },
        };
        if 1 <= tag && (tag as usize) <= count {
            let (value, next) = match read_string_field(k, after) {
                Ok(field) => field,
                Err(_) => {
                    return Err(MalformedMessage);
                },
            };
            proof {
                lemma_leb128_decode_len(after@, 10);
            }
            let ghost old_fields = fields.deep_view();
            fields.set((tag - 1) as usize, value);
            assert(fields.deep_view() =~= old_fields.update(tag - 1, value@));
            rest = next;
        } else {
            let next = match skip_field(k, tag, after) {
                Ok(next) => next,
                Err(_) => {
                    return Err(MalformedMessage);
                },
            };
            rest = next;
        }
    }
    Ok(fields)
}

/// A string field at the front of a message sets that field, and reading
/// goes on right after it.
pub proof fn lemma_merge_string_field(tag: nat, value: Seq<char>, rest: Seq<u8>, acc: Seq<Seq<char>>)
    requires
        1 <= tag <= acc.len(),
        tag <= MAX_FIELD_TAG,
        encode_utf8(value).len() <= u64::MAX,
    ensures
        fields_merge(string_field_bytes(tag, value) + rest, acc) == fields_merge(
            rest,
            acc.update(tag - 1, value),
        ),
{
    let s = string_field_bytes(tag, value) + rest;
    let klen = key_bytes(tag, WireKind::LengthDelimited).len();
    lemma_string_field_roundtrip(tag, value, rest);
    let flen = (string_field_bytes(tag, value).len() - klen) as nat;
    assert(s.skip(klen as int).skip(flen as int) =~= rest);
}

/// A field written in proto3 form at the front of a message leaves that field
/// holding the value written, provided it held the empty string before.
pub proof fn lemma_merge_optional_field(tag: nat, value: Seq<char>, rest: Seq<u8>, acc: Seq<Seq<char>>)
    requires
        1 <= tag <= acc.len(),
        tag <= MAX_FIELD_TAG,
        encode_utf8(value).len() <= u64::MAX,
        acc[tag - 1] == Seq::<char>::empty(),
    ensures
        fields_merge(optional_field_bytes(tag, value) + rest, acc) == fields_merge(
            rest,
            acc.update(tag - 1, value),
        ),
{
    if value.len() == 0 {
        assert(optional_field_bytes(tag, value) + rest =~= rest);
        assert(value =~= Seq::<char>::empty());
        assert(acc.update(tag - 1, value) =~= acc);
    } else {
        lemma_merge_string_field(tag, value, rest, acc);
    }
}

/// Decoding the encoding of a request gives the request back.
pub proof fn lemma_request_roundtrip(r: RequestView)
    requires
        encode_utf8(r.action).len() <= u64::MAX,
        encode_utf8(r.payload).len() <= u64::MAX,
    ensures
        request_decode(request_bytes(r)) == Some(r),
{
    let e = empty_fields(2);
    let second = optional_field_bytes(2, r.payload) + Seq::<u8>::empty();
    assert(request_bytes(r) =~= optional_field_bytes(1, r.action) + second);
    lemma_merge_optional_field(1, r.action, second, e);
    let e1 = e.update(0, r.action);
    lemma_merge_optional_field(2, r.payload, Seq::<u8>::empty(), e1);
    let f = e1.update(1, r.payload);
    assert(fields_merge(Seq::<u8>::empty(), f) == Some(f));
}

/// Decoding the encoding of a response gives its text back.
pub proof fn lemma_response_roundtrip(result: Seq<char>)
    requires
        encode_utf8(result).len() <= u64::MAX,
    ensures
        response_decode(response_bytes(result)) == Some(result),
{
    let e = empty_fields(1);
    assert(response_bytes(result) =~= optional_field_bytes(1, result) + Seq::<u8>::empty());
    lemma_merge_optional_field(1, result, Seq::<u8>::empty(), e);
    let f = e.update(0, result);
    assert(fields_merge(Seq::<u8>::empty(), f) == Some(f));
}

/// A request from the client: what to do, and the bytes to carry.
#[derive(Debug, PartialEq, Eq)]
pub struct Request {
    pub action: String,
    pub payload: String,
}

/// The characters of the fields of a request.
pub struct RequestView {
    pub action: Seq<char>,
    pub payload: Seq<char>,
}

impl View for Request {
    type V = RequestView;

    open spec fn view(&self) -> RequestView {
        RequestView { action: self.action@, payload: self.payload@ }
    }
}

/// The answer of the server: a line of text.
#[derive(Debug, PartialEq, Eq)]
pub struct Response {
    pub result: String,
}

impl View for Response {
    type V = Seq<char>;

    open spec fn view(&self) -> Seq<char> {
        self.result@
    }
}

/// The encoding of a request.
pub open spec fn request_bytes(r: RequestView) -> Seq<u8> {
    optional_field_bytes(1, r.action) + optional_field_bytes(2, r.payload)
}

/// The request that `s` encodes, if any.
pub open spec fn request_decode(s: Seq<u8>) -> Option<RequestView> {
    match fields_decode(s, 2) {
        Some(f) => Some(RequestView { action: f[0], payload: f[1] }),
        None => None,
    }
}

/// The encoding of a response whose text is `result`.
pub open spec fn response_bytes(result: Seq<char>) -> Seq<u8> {
    optional_field_bytes(1, result)
}

/// The text of the response that `s` encodes, if any.
pub open spec fn response_decode(s: Seq<u8>) -> Option<Seq<char>> {
    match fields_decode(s, 1) {
        Some(f) => Some(f[0]),
        None => None,
    }
}

/// Encodes a request.  (Writing into a growable buffer cannot run out of
/// room, so unlike `prost::Message::encode` this cannot fail.)
pub fn encode_request(r: &Request) -> (bytes: Vec<u8>)
    ensures
        bytes@ == request_bytes(r@),
{
    let mut buf: Vec<u8> = Vec::new();
    if !r.action.as_str().is_empty() {
        put_string_field(1, &r.action, &mut buf);
    }
    if !r.payload.as_str().is_empty() {
        put_string_field(2, &r.payload, &mut buf);
    }
    assert(buf@ =~= request_bytes(r@));
    buf
}

/// Decodes a request.
pub fn decode_request(bytes: &[u8]) -> (r: Result<Request, MalformedMessage>)
    ensures
        match r {
            Ok(req) => request_decode(bytes@) == Some(req@),
            Err(_) => request_decode(bytes@) is None,
        },
{
    match decode_string_fields(bytes, 2) {
        Ok(mut fields) => {
            let ghost f = fields.deep_view();
            let payload = fields.pop().unwrap();
            let action = fields.pop().unwrap();
            assert(f[0] == action@ && f[1] == payload@);
            Ok(Request { action, payload })
        },
        Err(e) => Err(e),
    }
}

/// Encodes a response.
pub fn encode_response(r: &Response) -> (bytes: Vec<u8>)
    ensures
        bytes@ == response_bytes(r@),
{
    let mut buf: Vec<u8> = Vec::new();
    if !r.result.as_str().is_empty() {
        put_string_field(1, &r.result, &mut buf);
    }
    assert(buf@ =~= response_bytes(r@));
    buf
}

/// Decodes a response.
pub fn decode_response(bytes: &[u8]) -> (r: Result<Response, MalformedMessage>)
    ensures
        match r {
            Ok(resp) => response_decode(bytes@) == Some(resp@),
            Err(_) => response_decode(bytes@) is None,
        },
{
    match decode_string_fields(bytes, 1) {
        Ok(mut fields) => {
            let ghost f = fields.deep_view();
            let result = fields.pop().unwrap();
            assert(f[0] == result@);
            Ok(Response { result })
        },
        Err(e) => Err(e),
    }
}

/// The number of bytes that the UTF-8 form of `s` takes, as `str::len`
/// reports it.
pub open spec fn utf8_len(s: Seq<char>) -> nat {
    (encode_utf8(s).len() as usize) as nat
}

/// The text with which the server acknowledges a request whose payload
/// takes `payload_len` bytes.
pub open spec fn receipt_text(payload_len: nat) -> Seq<char> {
    "server received "@ + decimal(payload_len) + " bytes"@
}

/// The server's answer to a request: how many bytes of payload it carried.
pub fn receipt(req: &Request) -> (resp: Response)
    ensures
        resp@ == receipt_text(utf8_len(req.payload@)),
{
    let n = req.payload.as_str().len();
    let text = "server received ".to_owned().concat(decimal_string(n).as_str()).concat(" bytes");
    Response { result: text }
}

/// The request with which the client measures the round trip first.
pub fn ping_request() -> (r: Request)
    ensures
        r@.action == "ping"@,
        r@.payload == "p"@,
{
    Request { action: "ping".to_owned(), payload: "p".to_owned() }
}

/// `size` times the letter `A`.
pub open spec fn filler(size: nat) -> Seq<char> {
    Seq::new(size, |i: int| 'A')
}

/// The request that carries `size` bytes of payload in a benchmark run.
pub fn bench_request(size: usize) -> (r: Request)
    ensures
        r@.action == "bench"@,
        r@.payload == filler(size as nat),
{
    let mut payload = String::new();
    let mut i: usize = 0;
    while i < size
        invariant
            i <= size,
            payload@ == filler(i as nat),
        decreases size - i,
    {
        proof {
            reveal_strlit("A");
        }
        payload = payload.concat("A");
        i = i + 1;
        assert(payload@ =~= filler(i as nat));
    }
    Request { action: "bench".to_owned(), payload }
}

} // verus!
