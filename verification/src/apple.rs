//! Apple WPS wire format: the hand-rolled protobuf request encoder and the
//! response decoder.
//!
//! The request is a fixed ARPC envelope followed by a protobuf `AppleWLoc`
//! message; the response (after a 10-byte header the caller strips) is a
//! protobuf message whose field 2 repeats `WifiDevice` sub-messages.

use vstd::prelude::*;
use crate::text::{chars_of, chars_eq, from_utf8_lossy, utf8_lossy, strings_view};
use crate::scanner::{normalize_bssid, normalized};

verus! {

/// Why a protobuf buffer could not be decoded.
#[derive(Debug, Clone, Copy, PartialEq, Eq)]
pub enum ProtoError {
    /// A varint ran past the end of the data.
    UnexpectedEnd,
    /// A varint had more than ten bytes.
    VarintTooLong,
    /// A length-delimited field extends past the end of the data.
    LengthPastEnd,
    /// A 64-bit field is cut short.
    Truncated64,
    /// A 32-bit field is cut short.
    Truncated32,
    /// A wire type other than 0, 1, 2 or 5.
    UnknownWireType(u8),
}

/// What the decoder says about each error.
pub open spec fn proto_error_text(e: ProtoError) -> Seq<char> {
    match e {
        ProtoError::UnexpectedEnd => "unexpected end of protobuf data"@,
        ProtoError::VarintTooLong => "varint too long"@,
        ProtoError::LengthPastEnd => "protobuf length-delimited field extends past end of data"@,
        ProtoError::Truncated64 => "unexpected end of data for 64-bit field"@,
        ProtoError::Truncated32 => "unexpected end of data for 32-bit field"@,
        ProtoError::UnknownWireType(_) => "unknown wire type"@,
    }
}

impl ProtoError {
    /// Human-readable description.
    pub fn message(&self) -> (r: String)
        ensures
            r@ == proto_error_text(*self),
    {
        let mut r = String::new();
        match self {
            ProtoError::UnexpectedEnd => crate::text::push_str(&mut r, "unexpected end of protobuf data"),
            ProtoError::VarintTooLong => crate::text::push_str(&mut r, "varint too long"),
            ProtoError::LengthPastEnd => crate::text::push_str(&mut r, "protobuf length-delimited field extends past end of data"),
            ProtoError::Truncated64 => crate::text::push_str(&mut r, "unexpected end of data for 64-bit field"),
            ProtoError::Truncated32 => crate::text::push_str(&mut r, "unexpected end of data for 32-bit field"),
            ProtoError::UnknownWireType(_) => crate::text::push_str(&mut r, "unknown wire type"),
        }
        assert(r@ =~= proto_error_text(*self));
        r
    }
}

// ---------------------------------------------------------------------------
// Varints
// ---------------------------------------------------------------------------

/// Base-128 little-endian encoding of `v`; every byte but the last has its
/// high bit set.
pub open spec fn varint_encoding(v: nat) -> Seq<u8>
    decreases v,
{
    if v < 128 {
        seq![v as u8]
    } else {
        seq![(v % 128 + 128) as u8] + varint_encoding(v / 128)
    }
}

/// `128^k`.
pub open spec fn pow128(k: nat) -> nat
    decreases k,
{
    if k == 0 {
        1
    } else {
        128 * pow128((k - 1) as nat)
    }
}

/// Prepends one continuation digit `d` to a decoded tail.
pub open spec fn prepend_digit(r: Result<(nat, nat), ProtoError>, d: nat) -> Result<(nat, nat), ProtoError> {
    match r {
        Ok((v, l)) => Ok((d + 128 * v, l + 1)),
        Err(e) => Err(e),
    }
}

/// Decodes the varint at the start of `s`, whose first byte is digit number
/// `k` of the varint. Yields the (unbounded) value and the number of bytes read.
pub open spec fn varint_digits(s: Seq<u8>, k: nat) -> Result<(nat, nat), ProtoError>
    decreases s.len(),
{
    if s.len() == 0 {
        Err(ProtoError::UnexpectedEnd)
    } else if s[0] < 128 {
        Ok((s[0] as nat, 1))
    } else if k >= 9 {
        Err(ProtoError::VarintTooLong)
    } else {
        prepend_digit(varint_digits(s.drop_first(), k + 1), (s[0] - 128) as nat)
    }
}

/// `v` reduced to 64 bits.
pub open spec fn wrap64(v: nat) -> u64 {
    (v % 0x1_0000_0000_0000_0000) as u64
}

/// The varint at `pos` of `data`: its 64-bit value and the position after it.
pub open spec fn varint_at(data: Seq<u8>, pos: int) -> Result<(u64, int), ProtoError> {
    if pos < 0 || pos >= data.len() {
        Err(ProtoError::UnexpectedEnd)
    } else {
        match varint_digits(data.subrange(pos, data.len() as int), 0) {
            Ok((v, l)) => Ok((wrap64(v), pos + l)),
            Err(e) => Err(e),
        }
    }
}

/// `varint_digits(s, k)`, shifted as seen from digit 0 after `k` digits of
/// value `val` with weight `mult` were read.
pub open spec fn shifted(r: Result<(nat, nat), ProtoError>, val: nat, mult: nat, k: nat) -> Result<(nat, nat), ProtoError> {
    match r {
        Ok((v, l)) => Ok((val + mult * v, l + k)),
        Err(e) => Err(e),
    }
}

proof fn lemma_shift_step(r: Result<(nat, nat), ProtoError>, d: nat, val: nat, mult: nat, k: nat)
    ensures
        shifted(prepend_digit(r, d), val, mult, k) == shifted(r, val + mult * d, mult * 128, k + 1),
{
    match r {
        Ok((v, l)) => {
            assert(mult * (d + 128 * v) == mult * d + (mult * 128) * v) by (nonlinear_arith);
        },
        Err(e) => {},
    }
}

proof fn lemma_pow128_table()
    ensures
        pow128(0) == 1,
        pow128(1) == 128,
        pow128(2) == 0x4000,
        pow128(3) == 0x20_0000,
        pow128(4) == 0x1000_0000,
        pow128(5) == 0x8_0000_0000,
        pow128(6) == 0x400_0000_0000,
        pow128(7) == 0x2_0000_0000_0000,
        pow128(8) == 0x100_0000_0000_0000,
        pow128(9) == 0x8000_0000_0000_0000,
        pow128(10) == 0x40_0000_0000_0000_0000,
{
    reveal_with_fuel(pow128, 11);
}

proof fn lemma_wrap_top_digit(val: nat, b: nat)
    requires
        val < 0x8000_0000_0000_0000,
        b < 128,
    ensures
        wrap64(val + 0x8000_0000_0000_0000 * b) == val + 0x8000_0000_0000_0000 * (b % 2),
{
    let q = b / 2;
    let r = b % 2;
    assert(b == 2 * q + r);
    assert(val + 0x8000_0000_0000_0000 * b == (val + 0x8000_0000_0000_0000 * r) + 0x1_0000_0000_0000_0000 * q) by (nonlinear_arith)
        requires b == 2 * q + r;
    assert((val + 0x8000_0000_0000_0000 * r) < 0x1_0000_0000_0000_0000) by (nonlinear_arith)
        requires val < 0x8000_0000_0000_0000, r < 2;
    vstd::arithmetic::div_mod::lemma_mod_multiples_vanish(
        q as int,
        (val + 0x8000_0000_0000_0000 * r) as int,
        0x1_0000_0000_0000_0000int,
    );
    vstd::arithmetic::div_mod::lemma_small_mod(
        (val + 0x8000_0000_0000_0000 * r) as nat,
        0x1_0000_0000_0000_0000nat,
    );
}

/// Appends the varint encoding of `val` to `buf`.
pub fn encode_varint(buf: &mut Vec<u8>, val: u64)
    ensures
        final(buf)@ == old(buf)@ + varint_encoding(val as nat),
{
    let mut v = val;
    loop
        invariant
            buf@ + varint_encoding(v as nat) == old(buf)@ + varint_encoding(val as nat),
        decreases v,
    {
        let byte = (v % 128) as u8;
        let next = v / 128;
        if next == 0 {
            let ghost before = buf@;
            buf.push(byte);
            assert(buf@ =~= before + varint_encoding(v as nat));
            return;
        }
        let ghost before = buf@;
        buf.push(byte + 128);
        assert(before + varint_encoding(v as nat) =~= buf@ + varint_encoding(next as nat));
        v = next;
    }
}

/// Decodes the varint at `pos`.
pub fn decode_varint(data: &[u8], pos: usize) -> (r: Result<(u64, usize), ProtoError>)
    ensures
        r matches Ok((v, p)) ==> varint_at(data@, pos as int) == Ok::<(u64, int), ProtoError>((v, p as int)),
        r matches Err(e) ==> varint_at(data@, pos as int) == Err::<(u64, int), ProtoError>(e),
{
    if pos >= data.len() {
        return Err(ProtoError::UnexpectedEnd);
    }
    let ghost s0 = data@.subrange(pos as int, data@.len() as int);
    let mut val: u64 = 0;
    let mut mult: u64 = 1;
    let mut k: usize = 0;
    let mut p: usize = pos;
    proof {
        lemma_pow128_table();
        assert(data@.subrange(p as int, data@.len() as int) =~= s0);
    }
    loop
        invariant
            pos <= p <= data@.len(),
            p == pos + k,
            k <= 9,
            mult as nat == pow128(k as nat),
            val < mult,
            s0 == data@.subrange(pos as int, data@.len() as int),
            varint_digits(s0, 0) == shifted(
                varint_digits(data@.subrange(p as int, data@.len() as int), k as nat),
                val as nat,
                mult as nat,
                k as nat,
            ),
        decreases data@.len() - p,
    {
        proof {
            lemma_pow128_table();
        }
        let ghost sp = data@.subrange(p as int, data@.len() as int);
        if p >= data.len() {
            return Err(ProtoError::UnexpectedEnd);
        }
        let byte = data[p];
        assert(sp[0] == byte);
        p = p + 1;
        if byte < 128 {
            if k < 9 {
                assert(val + mult * (byte as nat) < 0x8000_0000_0000_0000) by (nonlinear_arith)
                    requires val < mult, mult <= 0x100_0000_0000_0000, byte < 128;
                val = val + mult * (byte as u64);
                assert(wrap64(val as nat) == val);
            } else {
                proof {
                    lemma_wrap_top_digit(val as nat, byte as nat);
                }
                if byte % 2 == 1 {
                    val = val + mult;
                }
            }
            return Ok((val, p));
        }
        if k >= 9 {
            return Err(ProtoError::VarintTooLong);
        }
        proof {
            assert(sp.drop_first() =~= data@.subrange(p as int, data@.len() as int));
            lemma_shift_step(
                varint_digits(sp.drop_first(), (k + 1) as nat),
                (byte - 128) as nat,
                val as nat,
                mult as nat,
                k as nat,
            );
        }
        assert(val + mult * ((byte - 128) as nat) < mult * 128) by (nonlinear_arith)
            requires val < mult, byte >= 128, byte < 256;
        assert(mult * 128 <= 0x8000_0000_0000_0000) by (nonlinear_arith)
            requires mult <= 0x100_0000_0000_0000;
        val = val + mult * ((byte - 128) as u64);
        mult = mult * 128;
        k = k + 1;
    }
}


proof fn lemma_digits_roundtrip(w: nat, rest: Seq<u8>, k: nat)
    requires
        k <= 9,
        varint_encoding(w).len() + k <= 10,
    ensures
        varint_digits(varint_encoding(w) + rest, k) == Ok::<(nat, nat), ProtoError>((w, varint_encoding(w).len())),
    decreases w,
{
    let s = varint_encoding(w) + rest;
    if w < 128 {
        assert(s[0] == w as u8);
    } else {
        let tail = varint_encoding(w / 128);
        assert(s[0] == (w % 128 + 128) as u8);
        assert(s.drop_first() =~= tail + rest);
        lemma_digits_roundtrip(w / 128, rest, k + 1);
    }
}

proof fn lemma_encoding_len(w: nat, n: nat)
    requires
        n >= 1,
        w < pow128(n),
    ensures
        varint_encoding(w).len() <= n,
    decreases w,
{
    if w >= 128 {
        if n == 1 {
            reveal_with_fuel(pow128, 2);
        } else {
            assert(pow128(n) == 128 * pow128((n - 1) as nat));
            assert(w / 128 < pow128((n - 1) as nat)) by (nonlinear_arith)
                requires w < 128 * pow128((n - 1) as nat);
            lemma_encoding_len(w / 128, (n - 1) as nat);
        }
    }
}

/// A varint encoding of at most ten bytes, the longest any `u64` needs.
pub proof fn lemma_varint_encoding_len(v: u64)
    ensures
        1 <= varint_encoding(v as nat).len() <= 10,
{
    lemma_pow128_table();
    lemma_encoding_len(v as nat, 10);
}

/// Law: decoding the encoding of any `u64`, followed by any bytes, gives back
/// the value and stops right after the encoding.
pub proof fn lemma_varint_roundtrip(v: u64, rest: Seq<u8>)
    ensures
        varint_at(varint_encoding(v as nat) + rest, 0) == Ok::<(u64, int), ProtoError>(
            (v, varint_encoding(v as nat).len() as int),
        ),
{
    let data = varint_encoding(v as nat) + rest;
    lemma_varint_encoding_len(v);
    assert(data.subrange(0, data.len() as int) =~= data);
    lemma_digits_roundtrip(v as nat, rest, 0);
    assert(wrap64(v as nat) == v);
}

proof fn lemma_digits_len(s: Seq<u8>, k: nat)
    requires
        k <= 9,
    ensures
        varint_digits(s, k) matches Ok((v, l)) ==> 1 <= l <= s.len(),
    decreases s.len(),
{
    if s.len() > 0 && s[0] >= 128 && k < 9 {
        lemma_digits_len(s.drop_first(), k + 1);
    }
}

/// A decoded varint consumes at least one byte and stays inside the data.
pub proof fn lemma_varint_at_advances(data: Seq<u8>, pos: int)
    requires
        0 <= pos <= data.len(),
    ensures
        varint_at(data, pos) matches Ok((v, p)) ==> pos < p <= data.len(),
{
    lemma_digits_len(data.subrange(pos, data.len() as int), 0);
}

// ---------------------------------------------------------------------------
// Tags, length-delimited fields, skipping
// ---------------------------------------------------------------------------

/// The field tag at `pos`: field number (truncated to 32 bits as the decoder
/// does), wire type, and the position after the tag.
pub open spec fn tag_at(data: Seq<u8>, pos: int) -> Result<(u32, u8, int), ProtoError> {
    match varint_at(data, pos) {
        Ok((v, p)) => Ok((((v / 8) % 0x1_0000_0000) as u32, (v % 8) as u8, p)),
        Err(e) => Err(e),
    }
}

/// The length-delimited payload at `pos`: its start and end positions.
pub open spec fn delimited_at(data: Seq<u8>, pos: int) -> Result<(int, int), ProtoError> {
    match varint_at(data, pos) {
        Ok((len, p)) => if p + len <= data.len() {
            Ok((p, p + len))
        } else {
            Err(ProtoError::LengthPastEnd)
        },
        Err(e) => Err(e),
    }
}

/// The position after a field of wire type `wire` whose value starts at `pos`.
pub open spec fn skip_at(data: Seq<u8>, pos: int, wire: u8) -> Result<int, ProtoError> {
    if wire == 0 {
        match varint_at(data, pos) {
            Ok((_, p)) => Ok(p),
            Err(e) => Err(e),
        }
    } else if wire == 1 {
        if pos + 8 > data.len() {
            Err(ProtoError::Truncated64)
        } else {
            Ok(pos + 8)
        }
    } else if wire == 2 {
        match delimited_at(data, pos) {
            Ok((_, e)) => Ok(e),
            Err(x) => Err(x),
        }
    } else if wire == 5 {
        if pos + 4 > data.len() {
            Err(ProtoError::Truncated32)
        } else {
            Ok(pos + 4)
        }
    } else {
        Err(ProtoError::UnknownWireType(wire))
    }
}

/// Fields consumed by `skip_at`, `delimited_at` and `tag_at` stay inside the
/// data and make progress (a skipped field may be empty only after its tag).
pub proof fn lemma_field_bounds(data: Seq<u8>, pos: int, wire: u8)
    requires
        0 <= pos <= data.len(),
    ensures
        tag_at(data, pos) matches Ok((f, w, p)) ==> pos < p <= data.len(),
        delimited_at(data, pos) matches Ok((s, e)) ==> pos < s <= e <= data.len(),
        skip_at(data, pos, wire) matches Ok(p) ==> pos <= p <= data.len(),
{
    lemma_varint_at_advances(data, pos);
}

/// Decodes the field tag at `pos`.
pub fn decode_tag(data: &[u8], pos: usize) -> (r: Result<(u32, u8, usize), ProtoError>)
    ensures
        r matches Ok((f, w, p)) ==> tag_at(data@, pos as int) == Ok::<(u32, u8, int), ProtoError>((f, w, p as int)),
        r matches Err(e) ==> tag_at(data@, pos as int) == Err::<(u32, u8, int), ProtoError>(e),
{
    let (val, new_pos) = decode_varint(data, pos)?;
    let field_num = ((val / 8) % 0x1_0000_0000) as u32;
    let wire_type = (val % 8) as u8;
    Ok((field_num, wire_type, new_pos))
}

/// Decodes the length-delimited field at `pos`; returns its payload and the
/// position after it.
pub fn decode_length_delimited(data: &[u8], pos: usize) -> (r: Result<(&[u8], usize), ProtoError>)
    ensures
        r matches Ok((sub, e)) ==> delimited_at(data@, pos as int) == Ok::<(int, int), ProtoError>(
            ((e - sub@.len()) as int, e as int),
        ) && sub@ == data@.subrange(e - sub@.len(), e as int),
        r matches Err(x) ==> delimited_at(data@, pos as int) == Err::<(int, int), ProtoError>(x),
{
    if pos >= data.len() {
        return Err(ProtoError::UnexpectedEnd);
    }
    proof {
        lemma_varint_at_advances(data@, pos as int);
    }
    let (len, new_pos) = decode_varint(data, pos)?;
    if len > (data.len() - new_pos) as u64 {
        return Err(ProtoError::LengthPastEnd);
    }
    let end = new_pos + len as usize;
    Ok((&data[new_pos..end], end))
}

/// Skips the value of a field of wire type `wire` starting at `pos`.
pub fn skip_field(data: &[u8], pos: usize, wire_type: u8) -> (r: Result<usize, ProtoError>)
    ensures
        r matches Ok(p) ==> skip_at(data@, pos as int, wire_type) == Ok::<int, ProtoError>(p as int),
        r matches Err(e) ==> skip_at(data@, pos as int, wire_type) == Err::<int, ProtoError>(e),
{
    match wire_type {
        0 => {
            let (_, new_pos) = decode_varint(data, pos)?;
            Ok(new_pos)
        },
        1 => {
            if pos > data.len() || data.len() - pos < 8 {
                return Err(ProtoError::Truncated64);
            }
            Ok(pos + 8)
        },
        2 => {
            let (_, new_pos) = decode_length_delimited(data, pos)?;
            Ok(new_pos)
        },
        5 => {
            if pos > data.len() || data.len() - pos < 4 {
                return Err(ProtoError::Truncated32);
            }
            Ok(pos + 4)
        },
        _ => Err(ProtoError::UnknownWireType(wire_type)),
    }
}


// ---------------------------------------------------------------------------
// Request encoding
// ---------------------------------------------------------------------------

/// A varint field (wire type 0) with number `field` and value `v`.
pub open spec fn varint_field(field: nat, v: nat) -> Seq<u8> {
    varint_encoding(field * 8) + varint_encoding(v)
}

/// A length-delimited field (wire type 2) with number `field` and payload `data`.
pub open spec fn bytes_field(field: nat, data: Seq<u8>) -> Seq<u8> {
    varint_encoding(field * 8 + 2) + varint_encoding(data.len()) + data
}

/// The `WifiDevice` entry that asks for one BSSID: field 2 wrapping a
/// `bssid` string in field 1.
pub open spec fn device_request(bssid: Seq<char>) -> Seq<u8> {
    bytes_field(2, bytes_field(1, vstd::utf8::encode_utf8(bssid)))
}

/// The `WifiDevice` entries for `bssids`, in order.
pub open spec fn devices_payload(bssids: Seq<Seq<char>>) -> Seq<u8>
    decreases bssids.len(),
{
    if bssids.len() == 0 {
        Seq::empty()
    } else {
        devices_payload(bssids.drop_last()) + device_request(bssids.last())
    }
}

/// The protobuf `AppleWLoc` request: one `WifiDevice` per BSSID, then field 3
/// (`unknown_value1`) = 0 and field 4 (`return_single_result`) = 1.
pub open spec fn request_payload(bssids: Seq<Seq<char>>) -> Seq<u8> {
    devices_payload(bssids) + varint_field(3, 0) + varint_field(4, 1)
}

/// The fixed ARPC header: version 1, locale `en_US`, app id
/// `com.apple.locationd`, OS version `8.1.12B411`, flag 1.
pub open spec fn apple_header() -> Seq<u8> {
    seq![
        0u8, 1, 0, 5, 101, 110, 95, 85, 83,
        0, 19, 99, 111, 109, 46, 97, 112, 112, 108, 101, 46, 108, 111, 99, 97, 116, 105, 111, 110, 100,
        0, 10, 56, 46, 49, 46, 49, 50, 66, 52, 49, 49,
        0, 0, 0, 1,
    ]
}

/// Offset of the 4-byte payload length in the envelope.
pub open spec fn payload_len_offset() -> int {
    46
}

/// `n` as four big-endian bytes (its low 32 bits).
pub open spec fn be32(n: nat) -> Seq<u8> {
    seq![
        ((n / 0x100_0000) % 256) as u8,
        ((n / 0x1_0000) % 256) as u8,
        ((n / 0x100) % 256) as u8,
        (n % 256) as u8,
    ]
}

/// The number that four big-endian bytes spell.
pub open spec fn be32_value(b: Seq<u8>) -> nat {
    (b[0] as nat) * 0x100_0000 + (b[1] as nat) * 0x1_0000 + (b[2] as nat) * 0x100 + (b[3] as nat)
}

/// The full request body for `payload`: header, big-endian payload length,
/// payload.
pub open spec fn envelope(payload: Seq<u8>) -> Seq<u8> {
    apple_header() + be32(payload.len()) + payload
}

/// Appends `data` to `buf`.
fn append_bytes(buf: &mut Vec<u8>, data: &[u8])
    ensures
        final(buf)@ == old(buf)@ + data@,
{
    let mut i: usize = 0;
    while i < data.len()
        invariant
            i <= data@.len(),
            buf@ == old(buf)@ + data@.take(i as int),
        decreases data.len() - i,
    {
        buf.push(data[i]);
        assert(data@.take(i + 1) =~= data@.take(i as int).push(data@[i as int]));
        i = i + 1;
    }
    assert(data@.take(data@.len() as int) =~= data@);
}

pub fn encode_varint_field(buf: &mut Vec<u8>, field: u32, val: u64)
    ensures
        final(buf)@ == old(buf)@ + varint_field(field as nat, val as nat),
{
    encode_varint(buf, (field as u64) * 8);
    encode_varint(buf, val);
    assert(final(buf)@ =~= old(buf)@ + varint_field(field as nat, val as nat));
}

pub fn encode_bytes(buf: &mut Vec<u8>, field: u32, data: &[u8])
    ensures
        final(buf)@ == old(buf)@ + bytes_field(field as nat, data@),
{
    encode_varint(buf, (field as u64) * 8 + 2);
    encode_varint(buf, data.len() as u64);
    append_bytes(buf, data);
    assert(final(buf)@ =~= old(buf)@ + bytes_field(field as nat, data@));
}

pub fn encode_string(buf: &mut Vec<u8>, field: u32, s: &str)
    ensures
        final(buf)@ == old(buf)@ + bytes_field(field as nat, vstd::utf8::encode_utf8(s@)),
{
    encode_bytes(buf, field, s.as_bytes());
}

/// Encode the Apple WPS request for `bssids`.
/// Hand-encoded to avoid a protobuf dependency.
pub fn encode_request(bssids: &[String]) -> (r: Vec<u8>)
    ensures
        r@ == envelope(request_payload(strings_view(bssids@))),
        r@.len() >= 54,
        r@.subrange(r@.len() - 4, r@.len() as int) == seq![0x18u8, 0x00u8, 0x20u8, 0x01u8],
{
    let ghost sv = strings_view(bssids@);
    let mut proto: Vec<u8> = Vec::new();
    let mut i: usize = 0;
    while i < bssids.len()
        invariant
            i <= bssids@.len(),
            sv == strings_view(bssids@),
            proto@ == devices_payload(sv.take(i as int)),
        decreases bssids.len() - i,
    {
        let mut wifi_device: Vec<u8> = Vec::new();
        encode_string(&mut wifi_device, 1, bssids[i].as_str());
        let ghost before = proto@;
        encode_bytes(&mut proto, 2, wifi_device.as_slice());
        assert(sv.take(i + 1).drop_last() =~= sv.take(i as int));
        assert(sv.take(i + 1).last() == bssids@[i as int]@);
        i = i + 1;
    }
    assert(sv.take(bssids@.len() as int) =~= sv);
    encode_varint_field(&mut proto, 3, 0);
    encode_varint_field(&mut proto, 4, 1);
    assert(proto@ =~= request_payload(sv));

    let header: [u8; 46] = [
        0, 1, 0, 5, 101, 110, 95, 85, 83,
        0, 19, 99, 111, 109, 46, 97, 112, 112, 108, 101, 46, 108, 111, 99, 97, 116, 105, 111, 110, 100,
        0, 10, 56, 46, 49, 46, 49, 50, 66, 52, 49, 49,
        0, 0, 0, 1,
    ];
    assert(header@ =~= apple_header());
    let mut out: Vec<u8> = Vec::new();
    append_bytes(&mut out, header.as_slice());
    let n = proto.len() as u64;
    out.push(((n / 0x100_0000) % 256) as u8);
    out.push(((n / 0x1_0000) % 256) as u8);
    out.push(((n / 0x100) % 256) as u8);
    out.push((n % 256) as u8);
    append_bytes(&mut out, proto.as_slice());
    assert(out@ =~= envelope(request_payload(sv)));
    proof {
        lemma_request_asks_single_result(sv);
    }
    out
}

/// Law: every request, whatever BSSIDs it names, ends with field 3
/// (`unknown_value1`) set to 0 and then field 4 (`return_single_result`)
/// set to 1, so the envelope's last four bytes are `0x18 0x00 0x20 0x01`
/// and the payload is at least those four bytes long.
pub proof fn lemma_request_asks_single_result(bssids: Seq<Seq<char>>)
    ensures
        request_payload(bssids).len() >= 4,
        envelope(request_payload(bssids)).len() >= 54,
        envelope(request_payload(bssids)).subrange(
            envelope(request_payload(bssids)).len() - 4,
            envelope(request_payload(bssids)).len() as int,
        ) == seq![0x18u8, 0x00u8, 0x20u8, 0x01u8],
{
    let d = devices_payload(bssids);
    assert(varint_field(3, 0) =~= seq![0x18u8, 0x00u8]) by {
        assert(varint_encoding(24) == seq![24u8]);
        assert(varint_encoding(0) == seq![0u8]);
    }
    assert(varint_field(4, 1) =~= seq![0x20u8, 0x01u8]) by {
        assert(varint_encoding(32) == seq![32u8]);
        assert(varint_encoding(1) == seq![1u8]);
    }
    let p = request_payload(bssids);
    assert(p =~= d + seq![0x18u8, 0x00u8, 0x20u8, 0x01u8]);
    let e = envelope(p);
    assert(e =~= apple_header() + be32(p.len()) + d + seq![0x18u8, 0x00u8, 0x20u8, 0x01u8]);
    assert(e.subrange(e.len() - 4, e.len() as int) =~= seq![0x18u8, 0x00u8, 0x20u8, 0x01u8]);
}

/// Law: the payload-length field of every request envelope spells the
/// payload's length (for payloads under 4 GiB), and the payload follows it.
pub proof fn lemma_envelope_length_field(payload: Seq<u8>)
    requires
        payload.len() < 0x1_0000_0000,
    ensures
        envelope(payload).len() == 50 + payload.len(),
        be32_value(envelope(payload).subrange(payload_len_offset(), payload_len_offset() + 4))
            == envelope(payload).len() - 50,
        envelope(payload).subrange(50, envelope(payload).len() as int) == payload,
{
    let e = envelope(payload);
    let n = payload.len();
    assert(e.subrange(46, 50) =~= be32(n));
    assert(e.subrange(50, e.len() as int) =~= payload);
    let b3 = n / 0x100_0000;
    let b2 = (n / 0x1_0000) % 256;
    let b1 = (n / 0x100) % 256;
    let b0 = n % 256;
    assert(b3 % 256 == b3) by (nonlinear_arith)
        requires b3 == n / 0x100_0000, n < 0x1_0000_0000;
    assert(b3 * 0x100_0000 + b2 * 0x1_0000 + b1 * 0x100 + b0 == n) by (nonlinear_arith)
        requires
            b3 == n / 0x100_0000,
            b2 == (n / 0x1_0000) % 256,
            b1 == (n / 0x100) % 256,
            b0 == n % 256,
    ;
}


// ---------------------------------------------------------------------------
// Response decoding
// ---------------------------------------------------------------------------

/// The (lat, lon) fields of a `Location` message, read from `pos` on, given
/// the values `lat` and `lon` seen so far. Fields 1 and 2 with wire type 0
/// set latitude and longitude (plain, not zig-zag, signed varints; the last
/// occurrence wins); all other fields are skipped.
pub open spec fn location_fields(data: Seq<u8>, pos: int, lat: i64, lon: i64) -> Result<(i64, i64), ProtoError>
    decreases data.len() - pos,
{
    if pos < 0 || pos >= data.len() {
        Ok((lat, lon))
    } else {
        match tag_at(data, pos) {
            Err(e) => Err(e),
            Ok((f, w, p1)) => {
                proof {
                    lemma_field_bounds(data, pos, w);
                    lemma_field_bounds(data, p1, w);
                }
                if w == 0 {
                    match varint_at(data, p1) {
                        Err(e) => Err(e),
                        Ok((v, p2)) => {
                            proof {
                                lemma_varint_at_advances(data, p1);
                            }
                            location_fields(
                                data,
                                p2,
                                if f == 1 { v as i64 } else { lat },
                                if f == 2 { v as i64 } else { lon },
                            )
                        },
                    }
                } else {
                    match skip_at(data, p1, w) {
                        Err(e) => Err(e),
                        Ok(p2) => location_fields(data, p2, lat, lon),
                    }
                }
            },
        }
    }
}

/// Parse a Location submessage: fields 1 (lat) and 2 (lon) are varint
/// int64 in units of 1e-8 degrees. Apple encodes them as plain signed
/// varints (not zigzag), so the 64-bit value is reinterpreted directly.
/// Missing fields read as 0.
pub fn parse_location(data: &[u8]) -> (r: Result<(i64, i64), ProtoError>)
    ensures
        r == location_fields(data@, 0, 0, 0),
{
    let mut lat: i64 = 0;
    let mut lon: i64 = 0;
    let mut pos: usize = 0;
    while pos < data.len()
        invariant
            pos <= data@.len(),
            location_fields(data@, 0, 0, 0) == location_fields(data@, pos as int, lat, lon),
        decreases data@.len() - pos,
    {
        proof {
            lemma_field_bounds(data@, pos as int, 0);
        }
        let (field_num, wire_type, p1) = decode_tag(data, pos)?;
        proof {
            lemma_field_bounds(data@, p1 as int, wire_type);
        }
        if wire_type == 0 {
            let (val, p2) = decode_varint(data, p1)?;
            proof {
                lemma_varint_at_advances(data@, p1 as int);
            }
            if field_num == 1 {
                lat = val as i64;
            } else if field_num == 2 {
                lon = val as i64;
            }
            pos = p2;
        } else {
            pos = skip_field(data, p1, wire_type)?;
        }
    }
    Ok((lat, lon))
}

/// The fields of a `WifiDevice` message from `pos` on: the raw `bssid`
/// bytes (field 1) and the location (field 2), the last occurrence of each
/// winning; all other fields are skipped.
pub open spec fn device_fields(
    data: Seq<u8>,
    pos: int,
    bssid: Option<Seq<u8>>,
    loc: Option<(i64, i64)>,
) -> Result<(Option<Seq<u8>>, Option<(i64, i64)>), ProtoError>
    decreases data.len() - pos,
{
    if pos < 0 || pos >= data.len() {
        Ok((bssid, loc))
    } else {
        match tag_at(data, pos) {
            Err(e) => Err(e),
            Ok((f, w, p1)) => {
                proof {
                    lemma_field_bounds(data, pos, w);
                    lemma_field_bounds(data, p1, w);
                }
                if f == 1 && w == 2 {
                    match delimited_at(data, p1) {
                        Err(e) => Err(e),
                        Ok((st, en)) => device_fields(data, en, Some(data.subrange(st, en)), loc),
                    }
                } else if f == 2 && w == 2 {
                    match delimited_at(data, p1) {
                        Err(e) => Err(e),
                        Ok((st, en)) => match location_fields(data.subrange(st, en), 0, 0, 0) {
                            Err(x) => Err(x),
                            Ok(ll) => device_fields(data, en, bssid, Some(ll)),
                        },
                    }
                } else {
                    match skip_at(data, p1, w) {
                        Err(e) => Err(e),
                        Ok(p2) => device_fields(data, p2, bssid, loc),
                    }
                }
            },
        }
    }
}

/// Apple answers `(-180, -180)` for a BSSID it does not know: both
/// coordinates below -179 degrees (in 1e-8 degree units).
pub open spec fn is_not_found_sentinel(lat: i64, lon: i64) -> bool {
    lat < -17_900_000_000 && lon < -17_900_000_000
}

/// A resolved AP position from Apple WPS.
#[derive(Debug, Clone)]
pub struct AppleFix {
    /// Normalized BSSID.
    pub bssid: String,
    /// Latitude in units of 1e-8 degrees.
    pub lat_e8: i64,
    /// Longitude in units of 1e-8 degrees.
    pub lon_e8: i64,
}

impl View for AppleFix {
    type V = (Seq<char>, i64, i64);

    open spec fn view(&self) -> (Seq<char>, i64, i64) {
        (self.bssid@, self.lat_e8, self.lon_e8)
    }
}

/// What `parse_wifi_device` yields for `data`: a fix when the message has a
/// BSSID and a location that is not Apple's not-found sentinel.
pub open spec fn wifi_device_spec(data: Seq<u8>) -> Result<Option<(Seq<char>, i64, i64)>, ProtoError> {
    match device_fields(data, 0, None, None) {
        Err(e) => Err(e),
        Ok((Some(b), Some((lt, ln)))) => if is_not_found_sentinel(lt, ln) {
            Ok(None)
        } else {
            Ok(Some((normalized(utf8_lossy(b)), lt, ln)))
        },
        Ok(_) => Ok(None),
    }
}

/// Parse a single WifiDevice protobuf message.
pub fn parse_wifi_device(data: &[u8]) -> (r: Result<Option<AppleFix>, ProtoError>)
    ensures
        r matches Ok(Some(fix)) ==> wifi_device_spec(data@) == Ok::<Option<(Seq<char>, i64, i64)>, ProtoError>(Some(fix@)),
        r matches Ok(None) ==> wifi_device_spec(data@) == Ok::<Option<(Seq<char>, i64, i64)>, ProtoError>(None),
        r matches Err(e) ==> wifi_device_spec(data@) == Err::<Option<(Seq<char>, i64, i64)>, ProtoError>(e),
{
    let mut bssid: Option<(usize, usize)> = None;
    let mut loc: Option<(i64, i64)> = None;
    let mut pos: usize = 0;
    while pos < data.len()
        invariant
            pos <= data@.len(),
            bssid matches Some((st, en)) ==> st <= en <= data@.len(),
            device_fields(data@, 0, None, None) == device_fields(
                data@,
                pos as int,
                match bssid {
                    Some((st, en)) => Some(data@.subrange(st as int, en as int)),
                    None => None,
                },
                loc,
            ),
        decreases data@.len() - pos,
    {
        proof {
            lemma_field_bounds(data@, pos as int, 0);
        }
        let (field_num, wire_type, p1) = decode_tag(data, pos)?;
        proof {
            lemma_field_bounds(data@, p1 as int, wire_type);
        }
        if field_num == 1 && wire_type == 2 {
            let (sub, en) = decode_length_delimited(data, p1)?;
            bssid = Some((en - sub.len(), en));
            pos = en;
        } else if field_num == 2 && wire_type == 2 {
            let (sub, en) = decode_length_delimited(data, p1)?;
            let ll = parse_location(sub)?;
            loc = Some(ll);
            pos = en;
        } else {
            pos = skip_field(data, p1, wire_type)?;
        }
    }
    match (bssid, loc) {
        (Some((st, en)), Some((lt, ln))) => {
            if lt < -17_900_000_000 && ln < -17_900_000_000 {
                return Ok(None);
            }
            let raw = from_utf8_lossy(&data[st..en]);
            let b = normalize_bssid(raw.as_str());
            Ok(Some(AppleFix { bssid: b, lat_e8: lt, lon_e8: ln }))
        },
        _ => Ok(None),
    }
}


/// The fixes in a response message from `pos` on, appended to `acc`. Each
/// field 2 (wire type 2) is a `WifiDevice`; a fix is kept only when its
/// BSSID is among `requested` (already normalized). Other fields are skipped.
pub open spec fn response_fields(
    data: Seq<u8>,
    pos: int,
    requested: Seq<Seq<char>>,
    acc: Seq<(Seq<char>, i64, i64)>,
) -> Result<Seq<(Seq<char>, i64, i64)>, ProtoError>
    decreases data.len() - pos,
{
    if pos < 0 || pos >= data.len() {
        Ok(acc)
    } else {
        match tag_at(data, pos) {
            Err(e) => Err(e),
            Ok((f, w, p1)) => {
                proof {
                    lemma_field_bounds(data, pos, w);
                    lemma_field_bounds(data, p1, w);
                }
                if f == 2 && w == 2 {
                    match delimited_at(data, p1) {
                        Err(e) => Err(e),
                        Ok((st, en)) => match wifi_device_spec(data.subrange(st, en)) {
                            Err(x) => Err(x),
                            Ok(None) => response_fields(data, en, requested, acc),
                            Ok(Some(fix)) => response_fields(
                                data,
                                en,
                                requested,
                                if requested.contains(fix.0) { acc.push(fix) } else { acc },
                            ),
                        },
                    }
                } else {
                    match skip_at(data, p1, w) {
                        Err(e) => Err(e),
                        Ok(p2) => response_fields(data, p2, requested, acc),
                    }
                }
            },
        }
    }
}

/// The normalized form of each requested BSSID.
pub open spec fn normalized_all(requested: Seq<String>) -> Seq<Seq<char>> {
    requested.map_values(|s: String| normalized(s@))
}

/// Views of a list of fixes.
pub open spec fn fixes_view(v: Seq<AppleFix>) -> Seq<(Seq<char>, i64, i64)> {
    v.map_values(|f: AppleFix| f@)
}

fn contains_chars(list: &Vec<Vec<char>>, x: &[char]) -> (r: bool)
    ensures
        r == list@.map_values(|v: Vec<char>| v@).contains(x@),
{
    let ghost lv = list@.map_values(|v: Vec<char>| v@);
    let mut i: usize = 0;
    while i < list.len()
        invariant
            i <= list@.len(),
            lv == list@.map_values(|v: Vec<char>| v@),
            forall|j: int| 0 <= j < i ==> lv[j] != x@,
        decreases list.len() - i,
    {
        if chars_eq(list[i].as_slice(), x) {
            assert(lv[i as int] == x@);
            return true;
        }
        i = i + 1;
    }
    false
}

/// Decode the Apple WPS protobuf response (after its 10-byte header).
/// Returns a fix for each `WifiDevice` with valid coordinates whose BSSID
/// was requested; strays the server returned unasked are dropped.
pub fn decode_response(data: &[u8], requested: &[String]) -> (r: Result<Vec<AppleFix>, ProtoError>)
    ensures
        r matches Ok(v) ==> response_fields(data@, 0, normalized_all(requested@), Seq::empty())
            == Ok::<Seq<(Seq<char>, i64, i64)>, ProtoError>(fixes_view(v@)),
        r matches Err(e) ==> response_fields(data@, 0, normalized_all(requested@), Seq::empty())
            == Err::<Seq<(Seq<char>, i64, i64)>, ProtoError>(e),
{
    let ghost req = normalized_all(requested@);
    let mut wanted: Vec<Vec<char>> = Vec::new();
    let mut i: usize = 0;
    while i < requested.len()
        invariant
            i <= requested@.len(),
            req == normalized_all(requested@),
            wanted@.map_values(|v: Vec<char>| v@) =~= req.take(i as int),
        decreases requested.len() - i,
    {
        let n = normalize_bssid(requested[i].as_str());
        let ghost before = wanted@;
        wanted.push(chars_of(n.as_str()));
        assert(wanted@.map_values(|v: Vec<char>| v@) =~= before.map_values(|v: Vec<char>| v@).push(
            normalized(requested@[i as int]@),
        ));
        assert(req.take(i + 1) =~= req.take(i as int).push(req[i as int]));
        i = i + 1;
    }
    assert(req.take(requested@.len() as int) =~= req);
    let mut results: Vec<AppleFix> = Vec::new();
    let mut pos: usize = 0;
    assert(fixes_view(results@) =~= Seq::<(Seq<char>, i64, i64)>::empty());
    while pos < data.len()
        invariant
            pos <= data@.len(),
            wanted@.map_values(|v: Vec<char>| v@) == req,
            req == normalized_all(requested@),
            response_fields(data@, 0, req, Seq::empty()) == response_fields(
                data@,
                pos as int,
                req,
                fixes_view(results@),
            ),
        decreases data@.len() - pos,
    {
        proof {
            lemma_field_bounds(data@, pos as int, 0);
        }
        let (field_num, wire_type, p1) = decode_tag(data, pos)?;
        proof {
            lemma_field_bounds(data@, p1 as int, wire_type);
        }
        if field_num == 2 && wire_type == 2 {
            let (sub, en) = decode_length_delimited(data, p1)?;
            let parsed = parse_wifi_device(sub)?;
            if let Some(fix) = parsed {
                let cs = chars_of(fix.bssid.as_str());
                if contains_chars(&wanted, cs.as_slice()) {
                    let ghost before = results@;
                    results.push(fix);
                    assert(fixes_view(results@) =~= fixes_view(before).push(fix@));
                }
            }
            pos = en;
        } else {
            pos = skip_field(data, p1, wire_type)?;
        }
    }
    Ok(results)
}

// ---------------------------------------------------------------------------
// The HTTP reply
// ---------------------------------------------------------------------------

/// Why an Apple WPS reply could not be used.
#[derive(Debug, Clone)]
pub enum AppleReplyError {
    /// The service answered with a status outside 200..=299 (as printed).
    Http(String),
    /// The body is shorter than the 10-byte header (its length).
    TooShort(usize),
    /// The protobuf after the header could not be decoded.
    Proto(ProtoError),
}

impl AppleReplyError {
    /// Human-readable description.
    pub fn message(&self) -> (r: String)
        ensures
            self is Http ==> r@ == "Apple WPS returned HTTP "@ + self->Http_0@,
            self is TooShort ==> r@ == "Apple WPS response too short ("@ + crate::text::decimal(self->TooShort_0 as nat) + " bytes)"@,
            self is Proto ==> r@ == proto_error_text(self->Proto_0),
    {
        let mut r = String::new();
        match self {
            AppleReplyError::Http(s) => {
                crate::text::push_str(&mut r, "Apple WPS returned HTTP ");
                crate::text::push_str(&mut r, s.as_str());
            },
            AppleReplyError::TooShort(n) => {
                crate::text::push_str(&mut r, "Apple WPS response too short (");
                crate::text::push_decimal(&mut r, *n as u64);
                crate::text::push_str(&mut r, " bytes)");
            },
            AppleReplyError::Proto(e) => {
                let m = e.message();
                crate::text::push_str(&mut r, m.as_str());
            },
        }
        assert(Seq::<char>::empty() + "Apple WPS returned HTTP "@ =~= "Apple WPS returned HTTP "@);
        assert(Seq::<char>::empty() + "Apple WPS response too short ("@ =~= "Apple WPS response too short ("@);
        if let AppleReplyError::Proto(e) = self {
            assert(Seq::<char>::empty() + proto_error_text(*e) =~= proto_error_text(*e));
        }
        r
    }
}

/// Length of the header that precedes the protobuf in a reply.
pub const REPLY_HEADER_LEN: usize = 10;

/// What a reply with HTTP status `status` (printed as `status_text`) and
/// body `data` yields for the `requested` BSSIDs: a failed status or a body
/// shorter than the header is an error; otherwise the protobuf after the
/// header is decoded.
pub fn decode_reply(status: u16, status_text: &str, data: &[u8], requested: &[String]) -> (r: Result<Vec<AppleFix>, AppleReplyError>)
    ensures
        !(200 <= status <= 299) ==> (r matches Err(AppleReplyError::Http(t)) && t@ == status_text@),
        (200 <= status <= 299) && data@.len() < REPLY_HEADER_LEN ==> (r matches Err(AppleReplyError::TooShort(n)) && n == data@.len()),
        (200 <= status <= 299) && data@.len() >= REPLY_HEADER_LEN ==> match r {
            Ok(v) => response_fields(data@.skip(REPLY_HEADER_LEN as int), 0, normalized_all(requested@), Seq::empty())
                == Ok::<Seq<(Seq<char>, i64, i64)>, ProtoError>(fixes_view(v@)),
            Err(AppleReplyError::Proto(e)) => response_fields(data@.skip(REPLY_HEADER_LEN as int), 0, normalized_all(requested@), Seq::empty())
                == Err::<Seq<(Seq<char>, i64, i64)>, ProtoError>(e),
            Err(_) => false,
        },
{
    if !(200 <= status && status <= 299) {
        let mut t = String::new();
        crate::text::push_str(&mut t, status_text);
        assert(Seq::<char>::empty() + status_text@ =~= status_text@);
        return Err(AppleReplyError::Http(t));
    }
    if data.len() < REPLY_HEADER_LEN {
        return Err(AppleReplyError::TooShort(data.len()));
    }
    let mut body: Vec<u8> = Vec::new();
    let mut i: usize = REPLY_HEADER_LEN;
    while i < data.len()
        invariant
            REPLY_HEADER_LEN <= i <= data@.len(),
            body@ == data@.subrange(REPLY_HEADER_LEN as int, i as int),
        decreases data.len() - i,
    {
        body.push(data[i]);
        assert(data@.subrange(REPLY_HEADER_LEN as int, i + 1) =~= data@.subrange(REPLY_HEADER_LEN as int, i as int).push(data@[i as int]));
        i = i + 1;
    }
    assert(body@ =~= data@.skip(REPLY_HEADER_LEN as int));
    match decode_response(body.as_slice(), requested) {
        Ok(v) => Ok(v),
        Err(e) => Err(AppleReplyError::Proto(e)),
    }
}

} // verus!
