//! The Protobuf wire format at the level of single fields: varints, field
//! keys and length-delimited string fields.  The byte-level work is done by
//! `prost::encoding`; this module states what those functions produce and
//! accept.
use vstd::prelude::*;
use vstd::utf8::*;
use prost::encoding::WireType;

verus! {

/// The six wire types of the Protobuf encoding, in the order of their codes.
#[derive(Clone, Copy, PartialEq, Eq, Structural, Debug)]
pub enum WireKind {
    Varint,
    SixtyFourBit,
    LengthDelimited,
    StartGroup,
    EndGroup,
    ThirtyTwoBit,
}

/// The code that a wire kind carries in the low three bits of a field key.
pub open spec fn wire_code(k: WireKind) -> nat {
    match k {
        WireKind::Varint => 0,
        WireKind::SixtyFourBit => 1,
        WireKind::LengthDelimited => 2,
        WireKind::StartGroup => 3,
        WireKind::EndGroup => 4,
        WireKind::ThirtyTwoBit => 5,
    }
}

/// The wire kind of a code below six.
pub open spec fn wire_kind_of(code: nat) -> WireKind {
    if code == 0 {
        WireKind::Varint
    } else if code == 1 {
        WireKind::SixtyFourBit
    } else if code == 2 {
        WireKind::LengthDelimited
    } else if code == 3 {
        WireKind::StartGroup
    } else if code == 4 {
        WireKind::EndGroup
    } else {
        WireKind::ThirtyTwoBit
    }
}

/// The largest field number that Protobuf allows.
pub const MAX_FIELD_TAG: u32 = 536_870_911;

/// LEB128: seven bits per byte, least significant group first, the high bit
/// of every byte but the last set.
pub open spec fn leb128(v: nat) -> Seq<u8>
    decreases v,
{
    if v < 128 {
        seq![v as u8]
    } else {
        seq![(v % 128 + 128) as u8] + leb128(v / 128)
    }
}

/// Reads a LEB128 number from the front of `s`, using at most `budget` bytes;
/// the last byte allowed by the budget may only carry the value 0 or 1 (so
/// that ten bytes never exceed 64 bits).  Gives the value and the number of
/// bytes read.
pub open spec fn leb128_decode(s: Seq<u8>, budget: nat) -> Option<(nat, nat)>
    decreases budget,
{
    if budget == 0 || s.len() == 0 {
        None
    } else if s[0] < 128 {
        if budget == 1 && s[0] >= 2 {
            None
        } else {
            Some((s[0] as nat, 1nat))
        }
    } else {
        match leb128_decode(s.drop_first(), (budget - 1) as nat) {
            Some((v, n)) => Some((((s[0] - 128) + 128 * v) as nat, n + 1)),
            None => None,
        }
    }
}

/// A Protobuf varint at the front of `s`: at most ten bytes, at most 64 bits.
pub open spec fn varint_decode(s: Seq<u8>) -> Option<(nat, nat)> {
    leb128_decode(s, 10)
}

/// The bytes of the key of field `tag` with wire kind `k`.
pub open spec fn key_bytes(tag: nat, k: WireKind) -> Seq<u8> {
    leb128(tag * 8 + wire_code(k))
}

/// Reads a field key from the front of `s`: field number, wire kind and the
/// number of bytes read.  A key must fit in 32 bits, carry a known wire kind
/// and name a field number of at least one.
pub open spec fn key_decode(s: Seq<u8>) -> Option<(nat, WireKind, nat)> {
    match varint_decode(s) {
        None => None,
        Some((key, n)) => {
            if key > u32::MAX {
                None
            } else if key % 8 > 5 {
                None
            } else if key / 8 < 1 {
                None
            } else {
                Some((key / 8, wire_kind_of(key % 8), n))
            }
        },
    }
}

/// The bytes of string field `tag` holding `value`: key, byte length, UTF-8.
pub open spec fn string_field_bytes(tag: nat, value: Seq<char>) -> Seq<u8> {
    key_bytes(tag, WireKind::LengthDelimited) + leb128(encode_utf8(value).len()) + encode_utf8(
        value,
    )
}

/// Reads the body of a string field whose key announced wire kind `k`: the
/// characters and the number of bytes read.  Only a length-delimited field
/// whose length fits in `s` and whose bytes are UTF-8 is accepted.
pub open spec fn string_field_decode(k: WireKind, s: Seq<u8>) -> Option<(Seq<char>, nat)> {
    if k != WireKind::LengthDelimited {
        None
    } else {
        match varint_decode(s) {
            None => None,
            Some((len, n)) => {
                if len > s.len() - n {
                    None
                } else if !valid_utf8(s.subrange(n as int, (n + len) as int)) {
                    None
                } else {
                    Some((decode_utf8(s.subrange(n as int, (n + len) as int)), n + len))
                }
            },
        }
    }
}

/// How many bytes `prost::encoding::skip_field` passes over when it skips the
/// body of a group (wire kind `StartGroup`) of field `tag` at the front of
/// `bytes`, or `None` where it reports an error.
pub uninterp spec fn skipped_group_len(tag: u32, bytes: Seq<u8>) -> Option<nat>;

/// How many bytes are passed over when the body of field `tag` of wire kind
/// `k` at the front of `bytes` is skipped, or `None` where that fails: a
/// varint; eight or four bytes; a varint length and that many bytes; a group
/// as prost skips it; never a lone end of group.
pub open spec fn skipped_field_len(k: WireKind, tag: u32, bytes: Seq<u8>) -> Option<nat> {
    match k {
        WireKind::Varint => match varint_decode(bytes) {
            Some((_, n)) => Some(n),
            None => None,
        },
        WireKind::SixtyFourBit => if bytes.len() >= 8 {
            Some(8nat)
        } else {
            None
        },
        WireKind::LengthDelimited => match varint_decode(bytes) {
            Some((len, n)) => if len <= bytes.len() - n {
                Some(n + len)
            } else {
                None
            },
            None => None,
        },
        WireKind::StartGroup => skipped_group_len(tag, bytes),
        WireKind::EndGroup => None,
        WireKind::ThirtyTwoBit => if bytes.len() >= 4 {
            Some(4nat)
        } else {
            None
        },
    }
}

/// The largest value plus one that `budget` LEB128 bytes can carry under the
/// rule of `leb128_decode`.
pub open spec fn leb128_limit(budget: nat) -> nat
    decreases budget,
{
    if budget <= 1 {
        2
    } else {
        128 * leb128_limit((budget - 1) as nat)
    }
}

/// Ten bytes carry exactly the 64-bit numbers.
pub proof fn lemma_varint_limit()
    ensures
        leb128_limit(10) == 0x1_0000_0000_0000_0000,
{
    reveal_with_fuel(leb128_limit, 10);
}

/// A decoded number never reads more bytes than there are, and at least one.
pub proof fn lemma_leb128_decode_len(s: Seq<u8>, budget: nat)
    ensures
        leb128_decode(s, budget) matches Some((v, n)) ==> 1 <= n <= s.len() && n <= budget,
    decreases budget,
{
    if budget > 0 && s.len() > 0 && s[0] >= 128 {
        lemma_leb128_decode_len(s.drop_first(), (budget - 1) as nat);
    }
}

/// The LEB128 form of `v` is read back as `v`, whatever follows it, as long
/// as `v` fits in the budget.
pub proof fn lemma_leb128_roundtrip(v: nat, rest: Seq<u8>, budget: nat)
    requires
        budget >= 1,
        v < leb128_limit(budget),
    ensures
        leb128_decode(leb128(v) + rest, budget) == Some((v, leb128(v).len())),
    decreases v,
{
    let s = leb128(v) + rest;
    if v < 128 {
        assert(s[0] == v as u8);
        if budget == 1 {
            assert(v < 2);
        }
    } else {
        let hi = v / 128;
        assert(s[0] == (v % 128 + 128) as u8);
        if budget == 1 {
            assert(false);
        }
        assert(leb128_limit(budget) == 128 * leb128_limit((budget - 1) as nat));
        assert(hi < leb128_limit((budget - 1) as nat));
        lemma_leb128_roundtrip(hi, rest, (budget - 1) as nat);
        assert(s.drop_first() =~= leb128(hi) + rest);
    }
}

/// A varint written for a 64-bit number is read back whatever follows it.
pub proof fn lemma_varint_roundtrip(v: nat, rest: Seq<u8>)
    requires
        v <= u64::MAX,
    ensures
        varint_decode(leb128(v) + rest) == Some((v, leb128(v).len())),
{
    lemma_varint_limit();
    lemma_leb128_roundtrip(v, rest, 10);
}

/// A key written for a field is read back as that field and kind.
pub proof fn lemma_key_roundtrip(tag: nat, k: WireKind, rest: Seq<u8>)
    requires
        1 <= tag <= MAX_FIELD_TAG,
    ensures
        key_decode(key_bytes(tag, k) + rest) == Some((tag, k, key_bytes(tag, k).len())),
{
    lemma_varint_roundtrip(tag * 8 + wire_code(k), rest);
}

/// A string field is read back as its characters, whatever follows it.
pub proof fn lemma_string_field_roundtrip(tag: nat, value: Seq<char>, rest: Seq<u8>)
    requires
        1 <= tag <= MAX_FIELD_TAG,
        encode_utf8(value).len() <= u64::MAX,
    ensures
        key_decode(string_field_bytes(tag, value) + rest) == Some(
            (tag, WireKind::LengthDelimited, key_bytes(tag, WireKind::LengthDelimited).len()),
        ),
        string_field_decode(
            WireKind::LengthDelimited,
            (string_field_bytes(tag, value) + rest).skip(
                key_bytes(tag, WireKind::LengthDelimited).len() as int,
            ),
        ) == Some((value, (string_field_bytes(tag, value).len() - key_bytes(
            tag,
            WireKind::LengthDelimited,
        ).len()) as nat)),
{
    let key = key_bytes(tag, WireKind::LengthDelimited);
    let body = encode_utf8(value);
    let len_bytes = leb128(body.len());
    let all = string_field_bytes(tag, value) + rest;
    assert(all =~= key + (len_bytes + body + rest));
    lemma_key_roundtrip(tag, WireKind::LengthDelimited, len_bytes + body + rest);
    let after = all.skip(key.len() as int);
    assert(after =~= len_bytes + (body + rest));
    lemma_varint_roundtrip(body.len(), body + rest);
    assert(after.subrange(len_bytes.len() as int, (len_bytes.len() + body.len()) as int) =~= body);
    encode_utf8_valid_utf8(value);
    encode_utf8_decode_utf8(value);
}

/// A number takes at most one LEB128 byte more than its value.
pub proof fn lemma_leb128_len_bound(v: nat)
    ensures
        1 <= leb128(v).len() <= v + 1,
    decreases v,
{
    if v >= 128 {
        lemma_leb128_len_bound(v / 128);
    }
}

/// UTF-8 takes at most four bytes per character.
pub proof fn lemma_utf8_len_bound(chars: Seq<char>)
    ensures
        encode_utf8(chars).len() <= 4 * chars.len(),
    decreases chars.len(),
{
    if chars.len() > 0 {
        lemma_utf8_len_bound(chars.drop_first());
    }
}

/// `prost::DecodeError`, the error of every decoding function of prost.
#[verifier::external_type_specification]
#[verifier::external_body]
pub struct ExDecodeError(prost::DecodeError);

/// Calls `prost::encoding::string::encode`, which writes the key of field
/// `tag` with the length-delimited wire kind, the byte length of `value` as a
/// varint and the UTF-8 bytes of `value`, after what `buf` held.
#[verifier::external_body]
pub(crate) fn put_string_field(tag: u32, value: &String, buf: &mut Vec<u8>)
    requires
        1 <= tag <= MAX_FIELD_TAG,
    ensures
        final(buf)@ == old(buf)@ + string_field_bytes(tag as nat, value@),
{
    prost::encoding::string::encode(tag, value, buf);
}

/// Calls `prost::encoding::decode_key` on the front of `buf`: it reads a
/// varint key, refuses one above 32 bits, one with wire code six or seven and
/// one with field number zero, and otherwise gives the field number and the
/// wire kind and moves past the key.
#[verifier::external_body]
pub(crate) fn read_key<'a>(buf: &'a [u8]) -> (r: Result<(u32, WireKind, &'a [u8]), prost::DecodeError>)
    ensures
        match r {
            Ok((tag, k, rest)) => key_decode(buf@) matches Some((t, kk, n)) && t == tag && kk == k
                && rest@ == buf@.skip(n as int),
            Err(_) => key_decode(buf@) is None,
        },
{
    let mut b: &[u8] = buf;
    match prost::encoding::decode_key(&mut b) {
        Ok((tag, WireType::Varint)) => Ok((tag, WireKind::Varint, b)),
        Ok((tag, WireType::SixtyFourBit)) => Ok((tag, WireKind::SixtyFourBit, b)),
        Ok((tag, WireType::LengthDelimited)) => Ok((tag, WireKind::LengthDelimited, b)),
        Ok((tag, WireType::StartGroup)) => Ok((tag, WireKind::StartGroup, b)),
        Ok((tag, WireType::EndGroup)) => Ok((tag, WireKind::EndGroup, b)),
        Ok((tag, WireType::ThirtyTwoBit)) => Ok((tag, WireKind::ThirtyTwoBit, b)),
        Err(e) => Err(e),
    }
}

/// Calls `prost::encoding::string::merge` on the front of `buf` for a field
/// whose key announced wire kind `k`: it requires the length-delimited kind,
/// reads the byte length as a varint, requires that many bytes to follow and
/// to be UTF-8, and gives the string they spell and what follows them.
#[verifier::external_body]
pub(crate) fn read_string_field<'a>(k: WireKind, buf: &'a [u8]) -> (r: Result<(String, &'a [u8]), prost::DecodeError>)
    ensures
        match r {
            Ok((value, rest)) => string_field_decode(k, buf@) matches Some((v, n)) && value@ == v
                && rest@ == buf@.skip(n as int),
            Err(_) => string_field_decode(k, buf@) is None,
        },
{
    let wire_type = match k {
        WireKind::Varint => WireType::Varint,
        WireKind::SixtyFourBit => WireType::SixtyFourBit,
        WireKind::LengthDelimited => WireType::LengthDelimited,
        WireKind::StartGroup => WireType::StartGroup,
        WireKind::EndGroup => WireType::EndGroup,
        WireKind::ThirtyTwoBit => WireType::ThirtyTwoBit,
    };
    let mut value = String::new();
    let mut b: &[u8] = buf;
    match prost::encoding::string::merge(wire_type, &mut value, &mut b, Default::default()) {
        Ok(()) => Ok((value, b)),
        Err(e) => Err(e),
    }
}

/// Calls `prost::encoding::skip_field` on the front of `buf` for the body of
/// field `tag` of wire kind `k`, with a fresh decoding context (100 levels of
/// nested groups): it passes over a varint, eight or four bytes, or a varint
/// length and that many bytes, skips a group field by field up to its end,
/// and refuses an end of group and a body that does not fit in `buf`; on
/// success it has moved forward within `buf` by `skipped_field_len(k, tag,
/// buf@)` bytes.
#[verifier::external_body]
pub(crate) fn skip_field<'a>(k: WireKind, tag: u32, buf: &'a [u8]) -> (r: Result<&'a [u8], prost::DecodeError>)
    ensures
        match r {
            Ok(rest) => skipped_field_len(k, tag, buf@) matches Some(n) && n <= buf@.len()
                && rest@ == buf@.skip(n as int),
            Err(_) => skipped_field_len(k, tag, buf@) is None,
        },
        k == WireKind::StartGroup ==> match r {
            Ok(rest) => skipped_group_len(tag, buf@) matches Some(n) && rest@ == buf@.skip(n as int),
            Err(_) => skipped_group_len(tag, buf@) is None,
        },
{
    let wire_type = match k {
        WireKind::Varint => WireType::Varint,
        WireKind::SixtyFourBit => WireType::SixtyFourBit,
        WireKind::LengthDelimited => WireType::LengthDelimited,
        WireKind::StartGroup => WireType::StartGroup,
        WireKind::EndGroup => WireType::EndGroup,
        WireKind::ThirtyTwoBit => WireType::ThirtyTwoBit,
    };
    let mut b: &[u8] = buf;
    match prost::encoding::skip_field(wire_type, tag, &mut b, Default::default()) {
        Ok(()) => Ok(b),
        Err(e) => Err(e),
    }
}

} // verus!
