//! Protobuf wire primitives used by the pprof codec.
//!
//! Only two wire types are ever written: varint (type 0) and
//! length-delimited (type 2). Every field number used by pprof is below 16,
//! so each tag is a single byte.

use vstd::prelude::*;
use vstd::utf8::encode_utf8;

verus! {

/// The base-128 varint encoding of `v`: seven bits per byte, least
/// significant group first, high bit set on every byte but the last.
pub open spec fn varint_bytes(v: nat) -> Seq<u8>
    decreases v,
{
    if v < 128 {
        seq![v as u8]
    } else {
        seq![(v % 128 + 128) as u8] + varint_bytes(v / 128)
    }
}

/// Appends the varint encoding of `v` to `buf`.
pub fn encode_varint(buf: &mut Vec<u8>, v: u64)
    ensures
        final(buf)@ == old(buf)@ + varint_bytes(v as nat),
{
    let ghost v0 = v;
    let mut v = v;
    while v >= 128
        invariant
            old(buf)@ + varint_bytes(v0 as nat) == buf@ + varint_bytes(v as nat),
        decreases v,
    {
        let byte = ((v & 0x7F) | 0x80) as u8;
        assert(((v & 0x7F) | 0x80) as u8 == (v % 128 + 128) as u8) by (bit_vector)
            requires v >= 128;
        assert(v >> 7 == v / 128) by (bit_vector);
        let ghost before = buf@;
        buf.push(byte);
        assert(varint_bytes(v as nat) == seq![byte] + varint_bytes((v / 128) as nat));
        assert(before + varint_bytes(v as nat) == buf@ + varint_bytes((v / 128) as nat));
        v = v >> 7;
    }
    buf.push(v as u8);
}


/// The one-byte tag of a field: `field << 3 | wire_type`, truncated to a byte.
pub open spec fn tag_byte(field: nat, wire_type: u8) -> u8 {
    ((field * 8 + wire_type) % 256) as u8
}

/// A varint field (wire type 0); a zero value is omitted entirely.
pub open spec fn varint_field_bytes(field: nat, value: u64) -> Seq<u8> {
    if value == 0 {
        Seq::empty()
    } else {
        varint_entry_bytes(field, value)
    }
}

/// A varint field (wire type 0) that is written whatever its value.
pub open spec fn varint_entry_bytes(field: nat, value: u64) -> Seq<u8> {
    seq![tag_byte(field, 0)] + varint_bytes(value as nat)
}

/// A length-delimited field (wire type 2) that is always written, empty or not.
pub open spec fn string_field_bytes(field: nat, data: Seq<u8>) -> Seq<u8> {
    seq![tag_byte(field, 2)] + varint_bytes(data.len()) + data
}

/// A length-delimited field (wire type 2); empty data is omitted entirely.
pub open spec fn ld_field_bytes(field: nat, data: Seq<u8>) -> Seq<u8> {
    if data.len() == 0 {
        Seq::empty()
    } else {
        string_field_bytes(field as nat, data)
    }
}

/// The concatenated varint encodings of `values`.
pub open spec fn varints_bytes(values: Seq<u64>) -> Seq<u8>
    decreases values.len(),
{
    if values.len() == 0 {
        Seq::empty()
    } else {
        varints_bytes(values.drop_last()) + varint_bytes(values.last() as nat)
    }
}

/// Length-delimited fields, one per payload, each omitted when empty.
pub open spec fn ld_fields_bytes(field: nat, payloads: Seq<Seq<u8>>) -> Seq<u8>
    decreases payloads.len(),
{
    if payloads.len() == 0 {
        Seq::empty()
    } else {
        ld_fields_bytes(field, payloads.drop_last()) + ld_field_bytes(field, payloads.last())
    }
}

/// String fields, one per payload, each written even when empty.
pub open spec fn string_fields_bytes(field: nat, payloads: Seq<Seq<u8>>) -> Seq<u8>
    decreases payloads.len(),
{
    if payloads.len() == 0 {
        Seq::empty()
    } else {
        string_fields_bytes(field, payloads.drop_last()) + string_field_bytes(
            field,
            payloads.last(),
        )
    }
}

/// Varint fields, one per value, zero included.
pub open spec fn varint_fields_bytes(field: nat, values: Seq<u64>) -> Seq<u8>
    decreases values.len(),
{
    if values.len() == 0 {
        Seq::empty()
    } else {
        varint_fields_bytes(field, values.drop_last()) + varint_entry_bytes(field, values.last())
    }
}

/// Reinterprets each signed value as its two's-complement `u64`.
pub open spec fn as_unsigned(values: Seq<i64>) -> Seq<u64> {
    values.map_values(|v: i64| v as u64)
}

/// Appends a varint field; nothing is written for a zero value.
pub fn encode_varint_field(buf: &mut Vec<u8>, field: u32, value: u64)
    ensures
        final(buf)@ == old(buf)@ + varint_field_bytes(field as nat, value),
{
    if value == 0 {
        assert(old(buf)@ + Seq::<u8>::empty() =~= old(buf)@);
        return;
    }
    let tag = (field << 3) as u8;
    assert((field << 3) as u8 == ((field * 8 + 0u8) % 256) as u8) by (bit_vector);
    assert(tag == tag_byte(field as nat, 0));
    buf.push(tag);
    encode_varint(buf, value);
    assert(final(buf)@ =~= old(buf)@ + varint_field_bytes(field as nat, value));
}

/// Appends a signed varint field as its two's-complement bit pattern.
pub fn encode_sint64_field(buf: &mut Vec<u8>, field: u32, value: i64)
    ensures
        final(buf)@ == old(buf)@ + varint_field_bytes(field as nat, value as u64),
{
    encode_varint_field(buf, field, value as u64);
}

/// Appends all of `data` to `buf`.
fn append_bytes(buf: &mut Vec<u8>, data: &[u8])
    ensures
        final(buf)@ == old(buf)@ + data@,
{
    let mut i: usize = 0;
    while i < data.len()
        invariant
            0 <= i <= data@.len(),
            buf@ == old(buf)@ + data@.subrange(0, i as int),
        decreases data@.len() - i,
    {
        buf.push(data[i]);
        assert(data@.subrange(0, i + 1) =~= data@.subrange(0, i as int).push(data@[i as int]));
        i = i + 1;
    }
    assert(data@.subrange(0, data@.len() as int) =~= data@);
}

/// Appends a length-delimited field; nothing is written for empty data.
pub fn encode_length_delimited(buf: &mut Vec<u8>, field: u32, data: &[u8])
    ensures
        final(buf)@ == old(buf)@ + ld_field_bytes(field as nat, data@),
{
    if data.len() == 0 {
        assert(old(buf)@ + Seq::<u8>::empty() =~= old(buf)@);
        return;
    }
    write_length_delimited(buf, field, data);
}

fn write_length_delimited(buf: &mut Vec<u8>, field: u32, data: &[u8])
    ensures
        final(buf)@ == old(buf)@ + string_field_bytes(field as nat, data@),
{
    let tag = ((field << 3) | 2) as u8;
    assert(((field << 3) | 2) as u8 == ((field * 8 + 2u8) % 256) as u8) by (bit_vector);
    assert(tag == tag_byte(field as nat, 2));
    buf.push(tag);
    encode_varint(buf, data.len() as u64);
    append_bytes(buf, data);
    assert(final(buf)@ =~= old(buf)@ + string_field_bytes(field as nat, data@));
}

/// Appends a string field, written even when the string is empty (pprof
/// requires the string table to start with "").
pub fn encode_string_field(buf: &mut Vec<u8>, field: u32, s: &str)
    ensures
        final(buf)@ == old(buf)@ + string_field_bytes(field as nat, encode_utf8(s@)),
{
    write_length_delimited(buf, field, s.as_bytes());
}

/// Appends `values` as one packed repeated field; nothing for no values.
pub fn encode_packed_u64(buf: &mut Vec<u8>, field: u32, values: &[u64])
    ensures
        final(buf)@ == old(buf)@ + ld_field_bytes(field as nat, varints_bytes(values@)),
{
    if values.len() == 0 {
        assert(varints_bytes(values@).len() == 0);
        assert(old(buf)@ + Seq::<u8>::empty() =~= old(buf)@);
        return;
    }
    let mut inner: Vec<u8> = Vec::new();
    let mut i: usize = 0;
    while i < values.len()
        invariant
            0 <= i <= values@.len(),
            inner@ == varints_bytes(values@.subrange(0, i as int)),
        decreases values@.len() - i,
    {
        encode_varint(&mut inner, values[i]);
        assert(values@.subrange(0, i + 1).drop_last() =~= values@.subrange(0, i as int));
        i = i + 1;
    }
    assert(values@.subrange(0, values@.len() as int) =~= values@);
    encode_length_delimited(buf, field, inner.as_slice());
}

/// Appends signed `values` as one packed repeated field of their
/// two's-complement bit patterns; nothing for no values.
pub fn encode_packed_i64(buf: &mut Vec<u8>, field: u32, values: &[i64])
    ensures
        final(buf)@ == old(buf)@ + ld_field_bytes(field as nat, varints_bytes(as_unsigned(values@))),
{
    if values.len() == 0 {
        assert(as_unsigned(values@).len() == 0);
        assert(varints_bytes(as_unsigned(values@)).len() == 0);
        assert(old(buf)@ + Seq::<u8>::empty() =~= old(buf)@);
        return;
    }
    let mut inner: Vec<u8> = Vec::new();
    let mut i: usize = 0;
    while i < values.len()
        invariant
            0 <= i <= values@.len(),
            inner@ == varints_bytes(as_unsigned(values@.subrange(0, i as int))),
        decreases values@.len() - i,
    {
        encode_varint(&mut inner, values[i] as u64);
        assert(as_unsigned(values@.subrange(0, i + 1)).drop_last() =~= as_unsigned(
            values@.subrange(0, i as int),
        ));
        i = i + 1;
    }
    assert(values@.subrange(0, values@.len() as int) =~= values@);
    encode_length_delimited(buf, field, inner.as_slice());
}


/// Why a protobuf message could not be decoded.
#[derive(Debug, Clone, Copy, PartialEq, Eq)]
pub enum DecodeError {
    /// The input ended inside a varint.
    TruncatedVarint,
    /// A varint does not fit in 64 bits.
    VarintOverflow,
    /// A field tag names field number 0.
    FieldNumberZero,
    /// A field tag uses a wire type other than 0, 1, 2 or 5.
    UnsupportedWireType(u64),
    /// A length prefix does not fit in `usize`.
    FieldLengthTooLarge,
    /// The end of a field lies past `usize::MAX`.
    FieldLengthOverflow,
    /// The input ended inside a field's payload.
    TruncatedField,
    /// A string table entry is not valid UTF-8.
    InvalidUtf8,
    /// The string table does not start with the empty string.
    InvalidStringTable,
}

/// `128` to the power `k`.
pub open spec fn pow128(k: nat) -> nat
    decreases k,
{
    if k == 0 {
        1
    } else {
        128 * pow128((k - 1) as nat)
    }
}

/// Scans a varint whose first byte is `s[0]`, `k` bytes already having been
/// consumed; yields the number of bytes that remain to be consumed.
/// A varint has at most ten bytes and its tenth byte may only be 0 or 1.
pub open spec fn varint_scan(s: Seq<u8>, k: nat) -> Result<nat, DecodeError>
    decreases 10 - k,
{
    if k >= 10 {
        Err(DecodeError::VarintOverflow)
    } else if s.len() == 0 {
        Err(DecodeError::TruncatedVarint)
    } else if k == 9 && s[0] > 1 {
        Err(DecodeError::VarintOverflow)
    } else if s[0] < 128 {
        Ok(1)
    } else {
        match varint_scan(s.drop_first(), k + 1) {
            Ok(n) => Ok(n + 1),
            Err(e) => Err(e),
        }
    }
}

/// The number held in the first `n` bytes of `s`, seven bits per byte.
pub open spec fn varint_value(s: Seq<u8>, n: nat) -> nat
    decreases n,
{
    if n == 0 || s.len() == 0 {
        0
    } else {
        (s[0] % 128) as nat + 128 * varint_value(s.drop_first(), (n - 1) as nat)
    }
}

/// Decodes the varint at the start of `s`: its value and its length in bytes.
pub open spec fn parse_varint(s: Seq<u8>) -> Result<(u64, nat), DecodeError> {
    match varint_scan(s, 0) {
        Ok(n) => Ok((varint_value(s, n) as u64, n)),
        Err(e) => Err(e),
    }
}

pub open spec fn shift_scan(r: Result<nat, DecodeError>, k: nat) -> Result<nat, DecodeError> {
    match r {
        Ok(n) => Ok(n + k),
        Err(e) => Err(e),
    }
}

/// A varint found from byte `k` on spans at least one byte of `s` and ends
/// within the ten bytes a varint may take.
pub proof fn lemma_varint_scan_len(s: Seq<u8>, k: nat)
    ensures
        varint_scan(s, k) matches Ok(n) ==> 1 <= n <= s.len() && n + k <= 10,
    decreases 10 - k,
{
    if k < 10 && s.len() > 0 && !(k == 9 && s[0] > 1) && s[0] >= 128 {
        lemma_varint_scan_len(s.drop_first(), k + 1);
    }
}

proof fn lemma_pow128_values()
    ensures
        pow128(8) == 0x100000000000000,
        pow128(9) == 0x8000000000000000,
{
    reveal_with_fuel(pow128, 10);
}

proof fn lemma_pow128_grows(k: nat)
    ensures
        k <= 8 ==> pow128(k) <= 0x100000000000000,
        k <= 9 ==> pow128(k) <= 0x8000000000000000,
        pow128(k) >= 1,
    decreases k,
{
    lemma_pow128_values();
    if k > 0 {
        lemma_pow128_grows((k - 1) as nat);
    }
    if k == 9 {
    } else if k <= 8 && k > 0 {
        lemma_pow128_grows((k - 1) as nat);
        assert(pow128(k) <= 128 * pow128((k - 1) as nat));
        if k == 8 {
        } else {
            lemma_pow128_monotone(k, 8);
        }
    }
}

proof fn lemma_pow128_monotone(a: nat, b: nat)
    requires
        a <= b,
    ensures
        pow128(a) <= pow128(b),
    decreases b - a,
{
    if a < b {
        lemma_pow128_monotone(a, (b - 1) as nat);
        lemma_pow128_positive((b - 1) as nat);
    }
}

proof fn lemma_pow128_positive(k: nat)
    ensures
        pow128(k) >= 1,
    decreases k,
{
    if k > 0 {
        lemma_pow128_positive((k - 1) as nat);
    }
}

/// Reads the varint at `*offset` and advances `*offset` past it; on an error
/// `*offset` is left unchanged.
pub fn read_varint(data: &[u8], offset: &mut usize) -> (r: Result<u64, DecodeError>)
    requires
        *old(offset) <= data@.len(),
    ensures
        *final(offset) <= data@.len(),
        match parse_varint(data@.skip(*old(offset) as int)) {
            Ok((v, n)) => r == Ok::<u64, DecodeError>(v) && *final(offset) == *old(offset) + n,
            Err(e) => r == Err::<u64, DecodeError>(e) && *final(offset) == *old(offset),
        },
{
    let start = *offset;
    let ghost s0 = data@.skip(start as int);
    proof {
        lemma_varint_scan_len(s0, 0);
    }
    let mut pos = start;
    let mut acc: u64 = 0;
    let mut mult: u64 = 1;
    let mut k: usize = 0;
    assert(data@.skip(pos as int) =~= s0);
    loop
        invariant
            start <= pos <= data@.len(),
            s0 == data@.skip(start as int),
            k < 10,
            pos == start + k,
            mult as nat == pow128(k as nat),
            acc < mult,
            *offset == start,
            start == *old(offset),
            varint_scan(s0, 0) matches Ok(n) ==> start + n <= data@.len(),
            varint_scan(s0, 0) == shift_scan(varint_scan(data@.skip(pos as int), k as nat), k as nat),
            varint_scan(data@.skip(pos as int), k as nat) matches Ok(n) ==> varint_value(s0, (n + k) as nat)
                == acc + mult * varint_value(data@.skip(pos as int), n),
        decreases 10 - k,
    {
        let ghost sk = data@.skip(pos as int);
        proof {
            lemma_pow128_grows(k as nat);
        }
        if pos >= data.len() {
            assert(sk.len() == 0);
            assert(varint_scan(sk, k as nat) == Err::<nat, DecodeError>(DecodeError::TruncatedVarint));
            assert(varint_scan(s0, 0) == Err::<nat, DecodeError>(DecodeError::TruncatedVarint));
            assert(parse_varint(s0) == Err::<(u64, nat), DecodeError>(DecodeError::TruncatedVarint));
            return Err(DecodeError::TruncatedVarint);
        }
        let byte = data[pos];
        assert(sk[0] == byte);
        if k == 9 && byte > 1 {
            assert(varint_scan(sk, k as nat) == Err::<nat, DecodeError>(DecodeError::VarintOverflow));
            assert(varint_scan(s0, 0) == Err::<nat, DecodeError>(DecodeError::VarintOverflow));
            assert(parse_varint(s0) == Err::<(u64, nat), DecodeError>(DecodeError::VarintOverflow));
            return Err(DecodeError::VarintOverflow);
        }
        if byte < 128 {
            assert(varint_scan(sk, k as nat) == Ok::<nat, DecodeError>(1));
            assert(varint_value(sk, 1) == byte as nat) by {
                reveal_with_fuel(varint_value, 2);
            }
            assert(mult * byte <= mult * 127 || k == 9) by (nonlinear_arith)
                requires byte < 128;
            assert(k == 9 ==> mult * byte <= mult) by (nonlinear_arith)
                requires k == 9 ==> byte <= 1;
            assert(mult * 127 + mult == mult * 128) by (nonlinear_arith);
            *offset = pos + 1;
            return Ok(acc + mult * (byte as u64));
        }
        // byte >= 128 and k < 9 here.
        let low = (byte & 0x7f) as u64;
        assert(byte & 0x7f == byte % 128) by (bit_vector);
        assert(mult * low <= mult * 127) by (nonlinear_arith)
            requires low <= 127;
        assert(mult * 127 + mult == mult * 128) by (nonlinear_arith);
        let ghost next = data@.skip(pos + 1);
        assert(sk.drop_first() =~= next);
        let ghost old_acc = acc;
        acc = acc + mult * low;
        proof {
            if let Ok(m) = varint_scan(next, (k + 1) as nat) {
                assert(varint_scan(sk, k as nat) == Ok::<nat, DecodeError>(m + 1));
                assert(varint_value(sk, m + 1) == low + 128 * varint_value(next, m));
                assert(mult * (low + 128 * varint_value(next, m)) == mult * low + (mult * 128)
                    * varint_value(next, m)) by (nonlinear_arith);
            }
        }
        mult = mult * 128;
        pos = pos + 1;
        k = k + 1;
    }
}


proof fn lemma_varint_roundtrip_from(v: nat, k: nat, rest: Seq<u8>)
    requires
        k <= 9,
        v < 2 * pow128((9 - k) as nat),
    ensures
        varint_scan(varint_bytes(v) + rest, k) == Ok::<nat, DecodeError>(varint_bytes(v).len()),
        varint_value(varint_bytes(v) + rest, varint_bytes(v).len()) == v,
    decreases v,
{
    let s = varint_bytes(v) + rest;
    if v < 128 {
        assert(s[0] == v as u8);
        assert(s.drop_first() == rest);
        reveal_with_fuel(varint_value, 2);
        if k == 9 {
            assert(pow128(0) == 1);
        }
    } else {
        let b = (v % 128 + 128) as u8;
        assert(s[0] == b);
        assert(s.drop_first() =~= varint_bytes(v / 128) + rest);
        if k == 9 {
            assert(pow128(0) == 1);
            assert(false);
        }
        let j = (9 - k - 1) as nat;
        assert(pow128((9 - k) as nat) == 128 * pow128(j));
        assert(v / 128 < 2 * pow128(j)) by (nonlinear_arith)
            requires v < 2 * (128 * pow128(j));
        lemma_varint_roundtrip_from(v / 128, k + 1, rest);
        let n = varint_bytes(v / 128).len();
        assert(varint_bytes(v).len() == n + 1);
        assert(varint_value(s, n + 1) == (s[0] % 128) as nat + 128 * varint_value(s.drop_first(), n));
        assert(v == v % 128 + 128 * (v / 128)) by (nonlinear_arith);
    }
}

/// Decoding the encoding of a value, followed by anything, gives back the
/// value and the length of its encoding.
pub proof fn lemma_varint_roundtrip(v: u64, rest: Seq<u8>)
    ensures
        parse_varint(varint_bytes(v as nat) + rest) == Ok::<(u64, nat), DecodeError>(
            (v, varint_bytes(v as nat).len()),
        ),
{
    lemma_pow128_values();
    lemma_varint_roundtrip_from(v as nat, 0, rest);
}


/// A decoded field payload.
pub enum WireValue {
    Varint(u64),
    Bytes(Seq<u8>),
    Fixed32,
    Fixed64,
}

/// A decoded field: its number and payload.
pub struct WireField {
    pub number: u64,
    pub value: WireValue,
}

/// The end of a payload of `len` bytes starting at `p`, if it lies in `data`.
pub open spec fn take_end(data: Seq<u8>, p: nat, len: nat) -> Result<nat, DecodeError> {
    if p + len > usize::MAX {
        Err(DecodeError::FieldLengthOverflow)
    } else if p + len > data.len() {
        Err(DecodeError::TruncatedField)
    } else {
        Ok(p + len)
    }
}

/// Decodes the field whose tag starts at `off`: the field and the offset
/// just past it.
pub open spec fn parse_field_at(data: Seq<u8>, off: nat) -> Result<(WireField, nat), DecodeError> {
    match parse_varint(data.skip(off as int)) {
        Err(e) => Err(e),
        Ok((tag, n)) => {
            let p = off + n;
            let number = tag / 8;
            let wire = tag % 8;
            if number == 0 {
                Err(DecodeError::FieldNumberZero)
            } else if wire == 0 {
                match parse_varint(data.skip(p as int)) {
                    Ok((v, m)) => Ok((WireField { number, value: WireValue::Varint(v) }, p + m)),
                    Err(e) => Err(e),
                }
            } else if wire == 1 {
                match take_end(data, p, 8) {
                    Ok(end) => Ok((WireField { number, value: WireValue::Fixed64 }, end)),
                    Err(e) => Err(e),
                }
            } else if wire == 2 {
                match parse_varint(data.skip(p as int)) {
                    Err(e) => Err(e),
                    Ok((len, m)) => if len > usize::MAX {
                        Err(DecodeError::FieldLengthTooLarge)
                    } else {
                        match take_end(data, p + m, len as nat) {
                            Ok(end) => Ok(
                                (
                                    WireField {
                                        number,
                                        value: WireValue::Bytes(data.subrange((p + m) as int, end as int)),
                                    },
                                    end,
                                ),
                            ),
                            Err(e) => Err(e),
                        }
                    },
                }
            } else if wire == 5 {
                match take_end(data, p, 4) {
                    Ok(end) => Ok((WireField { number, value: WireValue::Fixed32 }, end)),
                    Err(e) => Err(e),
                }
            } else {
                Err(DecodeError::UnsupportedWireType(wire))
            }
        },
    }
}

/// A field borrowed from the message being decoded.
pub struct Field<'a> {
    pub number: u64,
    pub value: FieldValue<'a>,
}

/// A field payload borrowed from the message being decoded.
pub enum FieldValue<'a> {
    Varint(u64),
    Bytes(&'a [u8]),
    Fixed32,
    Fixed64,
}

impl<'a> Field<'a> {
    pub open spec fn view(&self) -> WireField {
        WireField {
            number: self.number,
            value: match self.value {
                FieldValue::Varint(v) => WireValue::Varint(v),
                FieldValue::Bytes(b) => WireValue::Bytes(b@),
                FieldValue::Fixed32 => WireValue::Fixed32,
                FieldValue::Fixed64 => WireValue::Fixed64,
            },
        }
    }
}

/// A cursor over the fields of one protobuf message.
pub struct Fields<'a> {
    pub data: &'a [u8],
    pub offset: usize,
}

impl<'a> Fields<'a> {
    pub open spec fn wf(&self) -> bool {
        self.offset <= self.data@.len()
    }

    /// A cursor at the start of `data`.
    pub fn new(data: &'a [u8]) -> (r: Self)
        ensures
            r.data == data,
            r.offset == 0,
            r.wf(),
    {
        Fields { data, offset: 0 }
    }

    /// Takes the next `length` bytes of the message as one payload.
    pub fn take(&mut self, length: usize) -> (r: Result<&'a [u8], DecodeError>)
        requires
            old(self).wf(),
        ensures
            final(self).wf(),
            final(self).data == old(self).data,
            match take_end(old(self).data@, old(self).offset as nat, length as nat) {
                Ok(end) => r matches Ok(b) && b@ == old(self).data@.subrange(
                    old(self).offset as int,
                    end as int,
                ) && final(self).offset == end,
                Err(e) => r == Err::<&'a [u8], DecodeError>(e) && final(self).offset == old(self).offset,
            },
    {
        let end = match self.offset.checked_add(length) {
            Some(end) => end,
            None => return Err(DecodeError::FieldLengthOverflow),
        };
        if end > self.data.len() {
            return Err(DecodeError::TruncatedField);
        }
        let value = &self.data[self.offset..end];
        self.offset = end;
        Ok(value)
    }

    /// Decodes the next field, or yields `None` at the end of the message.
    pub fn next(&mut self) -> (r: Result<Option<Field<'a>>, DecodeError>)
        requires
            old(self).wf(),
        ensures
            final(self).wf(),
            final(self).data == old(self).data,
            r matches Ok(Some(_)) ==> old(self).offset < final(self).offset,
            old(self).offset == old(self).data@.len() ==> (r matches Ok(None) && final(self).offset
                == old(self).offset),
            old(self).offset < old(self).data@.len() ==> match parse_field_at(
                old(self).data@,
                old(self).offset as nat,
            ) {
                Ok((f, end)) => (r matches Ok(Some(fld)) && fld.view() == f && final(self).offset
                    == end),
                Err(e) => r == Err::<Option<Field<'a>>, DecodeError>(e),
            },
    {
        if self.offset == self.data.len() {
            return Ok(None);
        }
        let ghost off0 = self.offset as nat;
        proof {
            lemma_varint_scan_len(self.data@.skip(off0 as int), 0);
        }
        let tag = match read_varint(self.data, &mut self.offset) {
            Ok(tag) => tag,
            Err(e) => return Err(e),
        };
        let number = tag >> 3;
        assert(tag >> 3 == tag / 8) by (bit_vector);
        if number == 0 {
            return Err(DecodeError::FieldNumberZero);
        }
        let wire = tag & 0x07;
        assert(tag & 0x07 == tag % 8) by (bit_vector);
        let ghost p = self.offset as nat;
        if wire == 0 {
            let v = match read_varint(self.data, &mut self.offset) {
                Ok(v) => v,
                Err(e) => return Err(e),
            };
            Ok(Some(Field { number, value: FieldValue::Varint(v) }))
        } else if wire == 1 {
            match self.take(8) {
                Ok(_) => Ok(Some(Field { number, value: FieldValue::Fixed64 })),
                Err(e) => Err(e),
            }
        } else if wire == 2 {
            let length = match read_varint(self.data, &mut self.offset) {
                Ok(v) => v,
                Err(e) => return Err(e),
            };
            if length > usize::MAX as u64 {
                return Err(DecodeError::FieldLengthTooLarge);
            }
            match self.take(length as usize) {
                Ok(bytes) => Ok(Some(Field { number, value: FieldValue::Bytes(bytes) })),
                Err(e) => Err(e),
            }
        } else if wire == 5 {
            match self.take(4) {
                Ok(_) => Ok(Some(Field { number, value: FieldValue::Fixed32 })),
                Err(e) => Err(e),
            }
        } else {
            Err(DecodeError::UnsupportedWireType(wire))
        }
    }
}

/// Decodes every field of `data` from `off` on, folding each into `acc`
/// with `apply`.
#[verifier::opaque]
pub open spec fn decode_fields<M>(
    data: Seq<u8>,
    off: nat,
    acc: M,
    apply: spec_fn(M, WireField) -> Result<M, DecodeError>,
) -> Result<M, DecodeError>
    decreases data.len() - off,
{
    if off >= data.len() {
        Ok(acc)
    } else {
        match parse_field_at(data, off) {
            Err(e) => Err(e),
            Ok((f, end)) => if off < end <= data.len() {
                match apply(acc, f) {
                    Ok(next) => decode_fields(data, end, next, apply),
                    Err(e) => Err(e),
                }
            } else {
                Err(DecodeError::TruncatedField)
            },
        }
    }
}

/// Decodes a packed run of varints covering all of `s`.
pub open spec fn packed_parse(s: Seq<u8>) -> Result<Seq<u64>, DecodeError>
    decreases s.len(),
{
    if s.len() == 0 {
        Ok(Seq::empty())
    } else {
        match parse_varint(s) {
            Err(e) => Err(e),
            Ok((v, n)) => if 1 <= n <= s.len() {
                match packed_parse(s.skip(n as int)) {
                    Ok(vs) => Ok(seq![v] + vs),
                    Err(e) => Err(e),
                }
            } else {
                Err(DecodeError::TruncatedVarint)
            },
        }
    }
}

pub open spec fn prepend_values(
    prefix: Seq<u64>,
    r: Result<Seq<u64>, DecodeError>,
) -> Result<Seq<u64>, DecodeError> {
    match r {
        Ok(vs) => Ok(prefix + vs),
        Err(e) => Err(e),
    }
}

/// Decodes a packed repeated field of varints.
pub fn decode_packed(data: &[u8]) -> (r: Result<Vec<u64>, DecodeError>)
    ensures
        match packed_parse(data@) {
            Ok(vs) => r matches Ok(out) && out@ == vs,
            Err(e) => r == Err::<Vec<u64>, DecodeError>(e),
        },
{
    let mut out: Vec<u64> = Vec::new();
    let mut offset: usize = 0;
    assert(data@.skip(0) =~= data@);
    assert(Seq::<u64>::empty() + packed_parse(data@).unwrap() =~= packed_parse(data@).unwrap());
    while offset < data.len()
        invariant
            offset <= data@.len(),
            packed_parse(data@) == prepend_values(out@, packed_parse(data@.skip(offset as int))),
        decreases data@.len() - offset,
    {
        let ghost rest = data@.skip(offset as int);
        let ghost before = offset;
        proof {
            lemma_varint_scan_len(rest, 0);
        }
        let v = match read_varint(data, &mut offset) {
            Ok(v) => v,
            Err(e) => return Err(e),
        };
        proof {
            let n = (offset - before) as nat;
            assert(rest.skip(n as int) =~= data@.skip(offset as int));
            assert(packed_parse(rest) == prepend_values(seq![v], packed_parse(data@.skip(offset as int))));
            if let Ok(vs) = packed_parse(data@.skip(offset as int)) {
                assert(out@.push(v) + vs =~= out@ + (seq![v] + vs));
            }
        }
        out.push(v);
    }
    assert(data@.skip(offset as int).len() == 0);
    assert(out@ + Seq::<u64>::empty() =~= out@);
    Ok(out)
}

} // verus!
