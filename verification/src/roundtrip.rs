//! Decoding what the pprof encoder wrote gives back the same profile.

use vstd::prelude::*;
use vstd::utf8::{decode_utf8, encode_utf8, valid_utf8};

use crate::pprof::{
    decode_profile, empty_profile, encode_profile, function_is_blank, function_payloads,
    is_canonical, location_payloads, mapping_is_blank, mapping_payloads, profile_step,
    sample_payloads, string_payloads, value_type_is_blank, value_type_payloads, ProfileModel,
    apply_label, apply_line, apply_location, apply_mapping, apply_sample, apply_value_type,
    as_signed, bool_u64, decode_function, decode_label, decode_line, decode_location,
    decode_mapping, decode_sample, decode_value_type, empty_location, empty_mapping, empty_sample,
    encode_function, encode_label, encode_line, encode_location, encode_mapping, encode_sample,
    encode_value_type, function_step, label_payloads, label_step, line_payloads, line_step,
    location_step, mapping_step, sample_step, value_type_step, Function, Label, Line,
    line_is_blank, label_is_blank, location_is_blank, sample_is_blank,
    LocationModel, Mapping, SampleModel, ValueType,
};
use crate::wire::{
    as_unsigned, decode_fields, ld_field_bytes, ld_fields_bytes, lemma_varint_roundtrip,
    packed_parse, parse_field_at, parse_varint, string_field_bytes, string_fields_bytes, tag_byte,
    varint_bytes, varint_entry_bytes, varint_field_bytes, varint_fields_bytes, varints_bytes, DecodeError, WireField,
    WireValue,
};

verus! {

/// `s` occurs in `data` at offset `off`.
#[verifier::opaque]
pub open spec fn at(data: Seq<u8>, off: nat, s: Seq<u8>) -> bool {
    off + s.len() <= data.len() && data.subrange(off as int, (off + s.len()) as int) == s
}

// ---------------------------------------------------------------------------
// Single fields
// ---------------------------------------------------------------------------

proof fn lemma_tag_roundtrip(field: nat, wire: u8, rest: Seq<u8>)
    requires
        1 <= field < 16,
        wire < 8,
    ensures
        parse_varint(seq![tag_byte(field, wire)] + rest) == Ok::<(u64, nat), DecodeError>(
            ((field * 8 + wire) as u64, 1),
        ),
        ((field * 8 + wire) as u64) / 8 == field,
        ((field * 8 + wire) as u64) % 8 == wire,
{
    let t = (field * 8 + wire) as u64;
    assert(tag_byte(field, wire) == t as u8);
    assert(varint_bytes(t as nat) == seq![t as u8]);
    lemma_varint_roundtrip(t, rest);
}

proof fn lemma_parse_varint_field(data: Seq<u8>, off: nat, field: nat, v: u64)
    requires
        1 <= field < 16,
        v != 0,
        at(data, off, varint_field_bytes(field, v)),
    ensures
        parse_field_at(data, off) == Ok::<(WireField, nat), DecodeError>(
            (
                WireField { number: field as u64, value: WireValue::Varint(v) },
                off + varint_field_bytes(field, v).len(),
            ),
        ),
{
    lemma_parse_varint_entry(data, off, field, v);
}

proof fn lemma_parse_varint_entry(data: Seq<u8>, off: nat, field: nat, v: u64)
    requires
        1 <= field < 16,
        at(data, off, varint_entry_bytes(field, v)),
    ensures
        parse_field_at(data, off) == Ok::<(WireField, nat), DecodeError>(
            (
                WireField { number: field as u64, value: WireValue::Varint(v) },
                off + varint_entry_bytes(field, v).len(),
            ),
        ),
{
    reveal(at);
    let s = varint_entry_bytes(field, v);
    let rest = data.skip((off + s.len()) as int);
    assert(data.skip(off as int) =~= seq![tag_byte(field, 0)] + (varint_bytes(v as nat) + rest));
    lemma_tag_roundtrip(field, 0, varint_bytes(v as nat) + rest);
    assert(data.skip((off + 1) as int) =~= data.skip(off as int).drop_first());
    assert((seq![tag_byte(field, 0)] + (varint_bytes(v as nat) + rest)).drop_first() =~= varint_bytes(v as nat) + rest);
    lemma_varint_roundtrip(v, rest);
}

proof fn lemma_parse_bytes_field(data: Seq<u8>, off: nat, field: nat, p: Seq<u8>)
    requires
        1 <= field < 16,
        data.len() <= usize::MAX,
        at(data, off, string_field_bytes(field, p)),
    ensures
        parse_field_at(data, off) == Ok::<(WireField, nat), DecodeError>(
            (
                WireField { number: field as u64, value: WireValue::Bytes(p) },
                off + string_field_bytes(field, p).len(),
            ),
        ),
{
    reveal(at);
    let s = string_field_bytes(field, p);
    let rest = data.skip((off + s.len()) as int);
    let lb = varint_bytes(p.len());
    assert(data.skip(off as int) =~= seq![tag_byte(field, 2)] + (lb + (p + rest)));
    lemma_tag_roundtrip(field, 2, lb + (p + rest));
    assert(data.skip((off + 1) as int) =~= data.skip(off as int).drop_first());
    assert((seq![tag_byte(field, 2)] + (lb + (p + rest))).drop_first() =~= lb + (p + rest));
    assert(p.len() <= usize::MAX);
    lemma_varint_roundtrip(p.len() as u64, p + rest);
    assert(s == seq![tag_byte(field, 2)] + lb + p);
    assert forall|i: int| 0 <= i < p.len() implies data[off + 1 + lb.len() + i] == p[i] by {
        assert(data.subrange(off as int, (off + s.len()) as int)[1 + lb.len() + i] == s[1 + lb.len() + i]);
    }
    assert(data.subrange((off + 1 + lb.len()) as int, (off + s.len()) as int) =~= p);
}

/// Decoding steps over one varint field.
proof fn lemma_varint_seg<M>(
    data: Seq<u8>,
    off: nat,
    field: nat,
    v: u64,
    acc: M,
    acc2: M,
    apply: spec_fn(M, WireField) -> Result<M, DecodeError>,
)
    requires
        1 <= field < 16,
        at(data, off, varint_field_bytes(field, v)),
        v != 0 ==> apply(acc, WireField { number: field as u64, value: WireValue::Varint(v) }) == Ok::<
            M,
            DecodeError,
        >(acc2),
        v == 0 ==> acc2 == acc,
    ensures
        decode_fields(data, off, acc, apply) == decode_fields(
            data,
            off + varint_field_bytes(field, v).len(),
            acc2,
            apply,
        ),
{
    reveal(decode_fields);
    reveal(at);
    if v != 0 {
        lemma_parse_varint_field(data, off, field, v);
    }
}

/// Decoding steps over one varint field that is always written.
proof fn lemma_varint_entry_seg<M>(
    data: Seq<u8>,
    off: nat,
    field: nat,
    v: u64,
    acc: M,
    acc2: M,
    apply: spec_fn(M, WireField) -> Result<M, DecodeError>,
)
    requires
        1 <= field < 16,
        at(data, off, varint_entry_bytes(field, v)),
        apply(acc, WireField { number: field as u64, value: WireValue::Varint(v) }) == Ok::<
            M,
            DecodeError,
        >(acc2),
    ensures
        decode_fields(data, off, acc, apply) == decode_fields(
            data,
            off + varint_entry_bytes(field, v).len(),
            acc2,
            apply,
        ),
{
    reveal(decode_fields);
    reveal(at);
    lemma_parse_varint_entry(data, off, field, v);
}

/// Decoding steps over one length-delimited field that is always written.
proof fn lemma_string_seg<M>(
    data: Seq<u8>,
    off: nat,
    field: nat,
    p: Seq<u8>,
    acc: M,
    acc2: M,
    apply: spec_fn(M, WireField) -> Result<M, DecodeError>,
)
    requires
        1 <= field < 16,
        data.len() <= usize::MAX,
        at(data, off, string_field_bytes(field, p)),
        apply(acc, WireField { number: field as u64, value: WireValue::Bytes(p) }) == Ok::<M, DecodeError>(acc2),
    ensures
        decode_fields(data, off, acc, apply) == decode_fields(
            data,
            off + string_field_bytes(field, p).len(),
            acc2,
            apply,
        ),
{
    reveal(decode_fields);
    reveal(at);
    lemma_parse_bytes_field(data, off, field, p);
}

/// Decoding steps over one length-delimited field omitted when empty.
proof fn lemma_ld_seg<M>(
    data: Seq<u8>,
    off: nat,
    field: nat,
    p: Seq<u8>,
    acc: M,
    acc2: M,
    apply: spec_fn(M, WireField) -> Result<M, DecodeError>,
)
    requires
        1 <= field < 16,
        data.len() <= usize::MAX,
        at(data, off, ld_field_bytes(field, p)),
        p.len() > 0 ==> apply(acc, WireField { number: field as u64, value: WireValue::Bytes(p) })
            == Ok::<M, DecodeError>(acc2),
        p.len() == 0 ==> acc2 == acc,
    ensures
        decode_fields(data, off, acc, apply) == decode_fields(
            data,
            off + ld_field_bytes(field, p).len(),
            acc2,
            apply,
        ),
{
    reveal(decode_fields);
    reveal(at);
    if p.len() > 0 {
        lemma_parse_bytes_field(data, off, field, p);
    }
}

// ---------------------------------------------------------------------------
// Repeated fields
// ---------------------------------------------------------------------------

proof fn lemma_ld_fields<M>(
    data: Seq<u8>,
    off: nat,
    field: nat,
    ps: Seq<Seq<u8>>,
    apply: spec_fn(M, WireField) -> Result<M, DecodeError>,
    target: spec_fn(int) -> M,
)
    requires
        1 <= field < 16,
        data.len() <= usize::MAX,
        at(data, off, ld_fields_bytes(field, ps)),
        forall|i: int|
            0 <= i < ps.len() ==> (#[trigger] ps[i]).len() > 0 && apply(
                target(i),
                WireField { number: field as u64, value: WireValue::Bytes(ps[i]) },
            ) == Ok::<M, DecodeError>(target(i + 1)),
    ensures
        decode_fields(data, off, target(0), apply) == decode_fields(
            data,
            off + ld_fields_bytes(field, ps).len(),
            target(ps.len() as int),
            apply,
        ),
    decreases ps.len(),
{
    reveal(at);
    if ps.len() > 0 {
        let init = ps.drop_last();
        let l0 = ld_fields_bytes(field, init);
        let l1 = ld_field_bytes(field, ps.last());
        assert(ld_fields_bytes(field, ps) == l0 + l1);
        assert(data.subrange(off as int, (off + l0.len()) as int) =~= l0) by {
            assert(data.subrange(off as int, (off + l0.len()) as int) =~= data.subrange(off as int, (off + ld_fields_bytes(field, ps).len()) as int).subrange(0, l0.len() as int));
        }
        assert forall|i: int| 0 <= i < init.len() implies (#[trigger] init[i]).len() > 0 && apply(
            target(i),
            WireField { number: field as u64, value: WireValue::Bytes(init[i]) },
        ) == Ok::<M, DecodeError>(target(i + 1)) by {
            assert(init[i] == ps[i]);
        }
        lemma_ld_fields(data, off, field, init, apply, target);
        let n = (ps.len() - 1) as int;
        assert(ps[n] == ps.last());
        assert(data.subrange((off + l0.len()) as int, (off + l0.len() + l1.len()) as int) =~= l1) by {
            assert(data.subrange((off + l0.len()) as int, (off + l0.len() + l1.len()) as int) =~= data.subrange(off as int, (off + ld_fields_bytes(field, ps).len()) as int).subrange(l0.len() as int, (l0.len() + l1.len()) as int));
        }
        lemma_ld_seg(data, off + l0.len(), field, ps.last(), target(n), target(n + 1), apply);
    }
}

proof fn lemma_string_fields<M>(
    data: Seq<u8>,
    off: nat,
    field: nat,
    ps: Seq<Seq<u8>>,
    apply: spec_fn(M, WireField) -> Result<M, DecodeError>,
    target: spec_fn(int) -> M,
)
    requires
        1 <= field < 16,
        data.len() <= usize::MAX,
        at(data, off, string_fields_bytes(field, ps)),
        forall|i: int|
            0 <= i < ps.len() ==> apply(
                target(i),
                WireField { number: field as u64, value: WireValue::Bytes(#[trigger] ps[i]) },
            ) == Ok::<M, DecodeError>(target(i + 1)),
    ensures
        decode_fields(data, off, target(0), apply) == decode_fields(
            data,
            off + string_fields_bytes(field, ps).len(),
            target(ps.len() as int),
            apply,
        ),
    decreases ps.len(),
{
    reveal(at);
    if ps.len() > 0 {
        let init = ps.drop_last();
        let l0 = string_fields_bytes(field, init);
        let l1 = string_field_bytes(field, ps.last());
        assert(string_fields_bytes(field, ps) == l0 + l1);
        assert(data.subrange(off as int, (off + l0.len()) as int) =~= l0) by {
            assert(data.subrange(off as int, (off + l0.len()) as int) =~= data.subrange(off as int, (off + string_fields_bytes(field, ps).len()) as int).subrange(0, l0.len() as int));
        }
        assert forall|i: int| 0 <= i < init.len() implies apply(
            target(i),
            WireField { number: field as u64, value: WireValue::Bytes(#[trigger] init[i]) },
        ) == Ok::<M, DecodeError>(target(i + 1)) by {
            assert(init[i] == ps[i]);
        }
        lemma_string_fields(data, off, field, init, apply, target);
        let n = (ps.len() - 1) as int;
        assert(ps[n] == ps.last());
        assert(data.subrange((off + l0.len()) as int, (off + l0.len() + l1.len()) as int) =~= l1) by {
            assert(data.subrange((off + l0.len()) as int, (off + l0.len() + l1.len()) as int) =~= data.subrange(off as int, (off + string_fields_bytes(field, ps).len()) as int).subrange(l0.len() as int, (l0.len() + l1.len()) as int));
        }
        lemma_string_seg(data, off + l0.len(), field, ps.last(), target(n), target(n + 1), apply);
    }
}

proof fn lemma_varint_fields<M>(
    data: Seq<u8>,
    off: nat,
    field: nat,
    vs: Seq<u64>,
    apply: spec_fn(M, WireField) -> Result<M, DecodeError>,
    target: spec_fn(int) -> M,
)
    requires
        1 <= field < 16,
        at(data, off, varint_fields_bytes(field, vs)),
        forall|i: int|
            0 <= i < vs.len() ==> apply(
                target(i),
                WireField { number: field as u64, value: WireValue::Varint(#[trigger] vs[i]) },
            ) == Ok::<M, DecodeError>(target(i + 1)),
    ensures
        decode_fields(data, off, target(0), apply) == decode_fields(
            data,
            off + varint_fields_bytes(field, vs).len(),
            target(vs.len() as int),
            apply,
        ),
    decreases vs.len(),
{
    reveal(at);
    if vs.len() > 0 {
        let init = vs.drop_last();
        let l0 = varint_fields_bytes(field, init);
        let l1 = varint_entry_bytes(field, vs.last());
        assert(varint_fields_bytes(field, vs) == l0 + l1);
        assert(data.subrange(off as int, (off + l0.len()) as int) =~= l0) by {
            assert(data.subrange(off as int, (off + l0.len()) as int) =~= data.subrange(off as int, (off + varint_fields_bytes(field, vs).len()) as int).subrange(0, l0.len() as int));
        }
        assert forall|i: int| 0 <= i < init.len() implies apply(
            target(i),
            WireField { number: field as u64, value: WireValue::Varint(#[trigger] init[i]) },
        ) == Ok::<M, DecodeError>(target(i + 1)) by {
            assert(init[i] == vs[i]);
        }
        lemma_varint_fields(data, off, field, init, apply, target);
        let n = (vs.len() - 1) as int;
        assert(vs[n] == vs.last());
        assert(data.subrange((off + l0.len()) as int, (off + l0.len() + l1.len()) as int) =~= l1) by {
            assert(data.subrange((off + l0.len()) as int, (off + l0.len() + l1.len()) as int) =~= data.subrange(off as int, (off + varint_fields_bytes(field, vs).len()) as int).subrange(l0.len() as int, (l0.len() + l1.len()) as int));
        }
        assert(apply(target(n), WireField { number: field as u64, value: WireValue::Varint(vs[n]) })
            == Ok::<M, DecodeError>(target(n + 1)));
        lemma_varint_entry_seg(data, off + l0.len(), field, vs.last(), target(n), target(n + 1), apply);
    }
}


// ---------------------------------------------------------------------------
// Helpers
// ---------------------------------------------------------------------------

proof fn lemma_at_whole(d: Seq<u8>)
    ensures
        at(d, 0, d),
{
    reveal(at);
    assert(d.subrange(0, d.len() as int) =~= d);
}

proof fn lemma_at_split(data: Seq<u8>, off: nat, a: Seq<u8>, b: Seq<u8>)
    requires
        at(data, off, a + b),
    ensures
        at(data, off, a),
        at(data, off + a.len(), b),
{
    reveal(at);
    assert((a + b).subrange(0, a.len() as int) =~= a);
    assert((a + b).subrange(a.len() as int, (a + b).len() as int) =~= b);
    assert(data.subrange(off as int, (off + a.len()) as int) =~= data.subrange(
        off as int,
        (off + (a + b).len()) as int,
    ).subrange(0, a.len() as int));
    assert(data.subrange((off + a.len()) as int, (off + a.len() + b.len()) as int) =~= data.subrange(
        off as int,
        (off + (a + b).len()) as int,
    ).subrange(a.len() as int, (a.len() + b.len()) as int));
}

proof fn lemma_decode_done<M>(d: Seq<u8>, off: nat, acc: M, apply: spec_fn(M, WireField) -> Result<M, DecodeError>)
    requires
        off >= d.len(),
    ensures
        decode_fields(d, off, acc, apply) == Ok::<M, DecodeError>(acc),
{
    reveal(decode_fields);
}

proof fn lemma_i64_roundtrip(x: i64)
    ensures
        (x as u64) as i64 == x,
        (x as u64 == 0) == (x == 0),
{
    assert((x as u64) as i64 == x) by (bit_vector);
    assert((x as u64 == 0) == (x == 0)) by (bit_vector);
}

// ---------------------------------------------------------------------------
// Messages of scalars
// ---------------------------------------------------------------------------

/// A `ValueType` is read back from its encoding.
pub proof fn lemma_value_type_roundtrip(v: ValueType)
    ensures
        decode_value_type(encode_value_type(v)) == Ok::<ValueType, DecodeError>(v),
{
    let d = encode_value_type(v);
    let s1 = varint_field_bytes(1, v.type_);
    let s2 = varint_field_bytes(2, v.unit);
    let a0 = ValueType { type_: 0, unit: 0 };
    let a1 = ValueType { type_: v.type_, unit: 0 };
    lemma_at_whole(d);
    lemma_at_split(d, 0, s1, s2);
    lemma_varint_seg(d, 0, 1, v.type_, a0, a1, value_type_step());
    lemma_varint_seg(d, s1.len(), 2, v.unit, a1, v, value_type_step());
    lemma_decode_done(d, d.len(), v, value_type_step());
}

/// A `Line` is read back from its encoding.
pub proof fn lemma_line_roundtrip(l: Line)
    ensures
        decode_line(encode_line(l)) == Ok::<Line, DecodeError>(l),
{
    lemma_i64_roundtrip(l.line);
    lemma_i64_roundtrip(l.column);
    let d = encode_line(l);
    let s1 = varint_field_bytes(1, l.function_id);
    let s2 = varint_field_bytes(2, l.line as u64);
    let s3 = varint_field_bytes(3, l.column as u64);
    let a0 = Line { function_id: 0, line: 0, column: 0 };
    let a1 = Line { function_id: l.function_id, ..a0 };
    let a2 = Line { line: l.line, ..a1 };
    lemma_at_whole(d);
    lemma_at_split(d, 0, s1 + s2, s3);
    lemma_at_split(d, 0, s1, s2);
    lemma_varint_seg(d, 0, 1, l.function_id, a0, a1, line_step());
    lemma_varint_seg(d, s1.len(), 2, l.line as u64, a1, a2, line_step());
    lemma_varint_seg(d, s1.len() + s2.len(), 3, l.column as u64, a2, l, line_step());
    lemma_decode_done(d, d.len(), l, line_step());
}

/// A `Label` is read back from its encoding.
pub proof fn lemma_label_roundtrip(l: Label)
    ensures
        decode_label(encode_label(l)) == Ok::<Label, DecodeError>(l),
{
    lemma_i64_roundtrip(l.num);
    let d = encode_label(l);
    let s1 = varint_field_bytes(1, l.key);
    let s2 = varint_field_bytes(2, l.str_index);
    let s3 = varint_field_bytes(3, l.num as u64);
    let s4 = varint_field_bytes(4, l.num_unit);
    let a0 = Label { key: 0, str_index: 0, num: 0, num_unit: 0 };
    let a1 = Label { key: l.key, ..a0 };
    let a2 = Label { str_index: l.str_index, ..a1 };
    let a3 = Label { num: l.num, ..a2 };
    lemma_at_whole(d);
    lemma_at_split(d, 0, s1 + s2 + s3, s4);
    lemma_at_split(d, 0, s1 + s2, s3);
    lemma_at_split(d, 0, s1, s2);
    lemma_varint_seg(d, 0, 1, l.key, a0, a1, label_step());
    lemma_varint_seg(d, s1.len(), 2, l.str_index, a1, a2, label_step());
    lemma_varint_seg(d, s1.len() + s2.len(), 3, l.num as u64, a2, a3, label_step());
    lemma_varint_seg(d, s1.len() + s2.len() + s3.len(), 4, l.num_unit, a3, l, label_step());
    lemma_decode_done(d, d.len(), l, label_step());
}

/// A `Function` is read back from its encoding.
#[verifier::rlimit(80)]
pub proof fn lemma_function_roundtrip(f: Function)
    ensures
        decode_function(encode_function(f)) == Ok::<Function, DecodeError>(f),
{
    lemma_i64_roundtrip(f.start_line);
    let d = encode_function(f);
    let s1 = varint_field_bytes(1, f.id);
    let s2 = varint_field_bytes(2, f.name);
    let s3 = varint_field_bytes(3, f.system_name);
    let s4 = varint_field_bytes(4, f.filename);
    let s5 = varint_field_bytes(5, f.start_line as u64);
    let a0 = Function { id: 0, name: 0, system_name: 0, filename: 0, start_line: 0 };
    let a1 = Function { id: f.id, ..a0 };
    let a2 = Function { name: f.name, ..a1 };
    let a3 = Function { system_name: f.system_name, ..a2 };
    let a4 = Function { filename: f.filename, ..a3 };
    lemma_at_whole(d);
    lemma_at_split(d, 0, s1 + s2 + s3 + s4, s5);
    lemma_at_split(d, 0, s1 + s2 + s3, s4);
    lemma_at_split(d, 0, s1 + s2, s3);
    lemma_at_split(d, 0, s1, s2);
    let o2 = s1.len();
    let o3 = o2 + s2.len();
    let o4 = o3 + s3.len();
    let o5 = o4 + s4.len();
    lemma_varint_seg(d, 0, 1, f.id, a0, a1, function_step());
    lemma_varint_seg(d, o2, 2, f.name, a1, a2, function_step());
    lemma_varint_seg(d, o3, 3, f.system_name, a2, a3, function_step());
    lemma_varint_seg(d, o4, 4, f.filename, a3, a4, function_step());
    lemma_varint_seg(d, o5, 5, f.start_line as u64, a4, f, function_step());
    lemma_decode_done(d, d.len(), f, function_step());
}

/// A `Mapping` is read back from its encoding.
#[verifier::rlimit(100)]
pub proof fn lemma_mapping_roundtrip(m: Mapping)
    ensures
        decode_mapping(encode_mapping(m)) == Ok::<Mapping, DecodeError>(m),
{
    let d = encode_mapping(m);
    let s1 = varint_field_bytes(1, m.id);
    let s2 = varint_field_bytes(2, m.memory_start);
    let s3 = varint_field_bytes(3, m.memory_limit);
    let s4 = varint_field_bytes(4, m.file_offset);
    let s5 = varint_field_bytes(5, m.filename);
    let s6 = varint_field_bytes(6, m.build_id);
    let s7 = varint_field_bytes(7, bool_u64(m.has_functions));
    let s8 = varint_field_bytes(8, bool_u64(m.has_filenames));
    let s9 = varint_field_bytes(9, bool_u64(m.has_line_numbers));
    let s10 = varint_field_bytes(10, bool_u64(m.has_inline_frames));
    let a0 = empty_mapping();
    let a1 = Mapping { id: m.id, ..a0 };
    let a2 = Mapping { memory_start: m.memory_start, ..a1 };
    let a3 = Mapping { memory_limit: m.memory_limit, ..a2 };
    let a4 = Mapping { file_offset: m.file_offset, ..a3 };
    let a5 = Mapping { filename: m.filename, ..a4 };
    let a6 = Mapping { build_id: m.build_id, ..a5 };
    let a7 = Mapping { has_functions: m.has_functions, ..a6 };
    let a8 = Mapping { has_filenames: m.has_filenames, ..a7 };
    let a9 = Mapping { has_line_numbers: m.has_line_numbers, ..a8 };
    lemma_at_whole(d);
    lemma_at_split(d, 0, s1 + s2 + s3 + s4 + s5 + s6 + s7 + s8 + s9, s10);
    lemma_at_split(d, 0, s1 + s2 + s3 + s4 + s5 + s6 + s7 + s8, s9);
    lemma_at_split(d, 0, s1 + s2 + s3 + s4 + s5 + s6 + s7, s8);
    lemma_at_split(d, 0, s1 + s2 + s3 + s4 + s5 + s6, s7);
    lemma_at_split(d, 0, s1 + s2 + s3 + s4 + s5, s6);
    lemma_at_split(d, 0, s1 + s2 + s3 + s4, s5);
    lemma_at_split(d, 0, s1 + s2 + s3, s4);
    lemma_at_split(d, 0, s1 + s2, s3);
    lemma_at_split(d, 0, s1, s2);
    let o2 = s1.len();
    let o3 = o2 + s2.len();
    let o4 = o3 + s3.len();
    let o5 = o4 + s4.len();
    let o6 = o5 + s5.len();
    let o7 = o6 + s6.len();
    let o8 = o7 + s7.len();
    let o9 = o8 + s8.len();
    let o10 = o9 + s9.len();
    let st = mapping_step();
    assert(decode_fields(d, 0, a0, st) == decode_fields(d, o2, a1, st)) by {
        lemma_varint_seg(d, 0, 1, m.id, a0, a1, st);
    }
    assert(decode_fields(d, o2, a1, st) == decode_fields(d, o3, a2, st)) by {
        lemma_varint_seg(d, o2, 2, m.memory_start, a1, a2, st);
    }
    assert(decode_fields(d, o3, a2, st) == decode_fields(d, o4, a3, st)) by {
        lemma_varint_seg(d, o3, 3, m.memory_limit, a2, a3, st);
    }
    assert(decode_fields(d, o4, a3, st) == decode_fields(d, o5, a4, st)) by {
        lemma_varint_seg(d, o4, 4, m.file_offset, a3, a4, st);
    }
    assert(decode_fields(d, o5, a4, st) == decode_fields(d, o6, a5, st)) by {
        lemma_varint_seg(d, o5, 5, m.filename, a4, a5, st);
    }
    assert(decode_fields(d, o6, a5, st) == decode_fields(d, o7, a6, st)) by {
        lemma_varint_seg(d, o6, 6, m.build_id, a5, a6, st);
    }
    assert(decode_fields(d, o7, a6, st) == decode_fields(d, o8, a7, st)) by {
        lemma_varint_seg(d, o7, 7, bool_u64(m.has_functions), a6, a7, st);
    }
    assert(decode_fields(d, o8, a7, st) == decode_fields(d, o9, a8, st)) by {
        lemma_varint_seg(d, o8, 8, bool_u64(m.has_filenames), a7, a8, st);
    }
    assert(decode_fields(d, o9, a8, st) == decode_fields(d, o10, a9, st)) by {
        lemma_varint_seg(d, o9, 9, bool_u64(m.has_line_numbers), a8, a9, st);
    }
    assert(decode_fields(d, o10, a9, st) == decode_fields(d, d.len(), m, st)) by {
        lemma_varint_seg(d, o10, 10, bool_u64(m.has_inline_frames), a9, m, st);
    }
    lemma_decode_done(d, d.len(), m, st);
}


// ---------------------------------------------------------------------------
// Lengths
// ---------------------------------------------------------------------------

proof fn lemma_at_len(data: Seq<u8>, off: nat, s: Seq<u8>)
    requires
        at(data, off, s),
    ensures
        off + s.len() <= data.len(),
{
    reveal(at);
}

proof fn lemma_varint_bytes_nonempty(v: nat)
    ensures
        varint_bytes(v).len() >= 1,
{
}

proof fn lemma_varints_bytes_len(vs: Seq<u64>)
    ensures
        varints_bytes(vs).len() >= vs.len(),
    decreases vs.len(),
{
    if vs.len() > 0 {
        lemma_varints_bytes_len(vs.drop_last());
        lemma_varint_bytes_nonempty(vs.last() as nat);
    }
}

proof fn lemma_ld_fields_payload_len(field: nat, ps: Seq<Seq<u8>>, i: int)
    requires
        0 <= i < ps.len(),
    ensures
        ps[i].len() <= ld_fields_bytes(field, ps).len(),
    decreases ps.len(),
{
    if i < ps.len() - 1 {
        assert(ps.drop_last()[i] == ps[i]);
        lemma_ld_fields_payload_len(field, ps.drop_last(), i);
    }
}

proof fn lemma_packed_roundtrip(vs: Seq<u64>, rest: Seq<u8>)
    ensures
        packed_parse(varints_bytes(vs) + rest) == match packed_parse(rest) {
            Ok(r) => Ok::<Seq<u64>, DecodeError>(vs + r),
            Err(e) => Err::<Seq<u64>, DecodeError>(e),
        },
    decreases vs.len(),
{
    if vs.len() == 0 {
        assert(varints_bytes(vs) + rest =~= rest);
        if let Ok(r) = packed_parse(rest) {
            assert(vs + r =~= r);
        }
    } else {
        let init = vs.drop_last();
        let last = vs.last();
        let tail = varint_bytes(last as nat) + rest;
        assert(varints_bytes(vs) + rest =~= varints_bytes(init) + tail);
        lemma_packed_roundtrip(init, tail);
        lemma_varint_roundtrip(last, rest);
        let n = varint_bytes(last as nat).len();
        assert(tail.skip(n as int) =~= rest);
        assert(tail.len() > 0);
        if let Ok(r) = packed_parse(rest) {
            assert(init + (seq![last] + r) =~= vs + r);
        }
    }
}

proof fn lemma_signed_roundtrip(vs: Seq<i64>)
    ensures
        as_signed(as_unsigned(vs)) == vs,
{
    assert forall|i: int| 0 <= i < vs.len() implies as_signed(as_unsigned(vs))[i] == vs[i] by {
        lemma_i64_roundtrip(vs[i]);
    }
    assert(as_signed(as_unsigned(vs)) =~= vs);
}

// ---------------------------------------------------------------------------
// Messages with repeated parts
// ---------------------------------------------------------------------------

/// A non-blank `Line` has a non-empty encoding.
proof fn lemma_line_nonempty(l: Line)
    ensures
        !line_is_blank(l) ==> encode_line(l).len() > 0,
{
    lemma_i64_roundtrip(l.line);
    lemma_i64_roundtrip(l.column);
}

/// A non-blank `Label` has a non-empty encoding.
proof fn lemma_label_nonempty(l: Label)
    ensures
        !label_is_blank(l) ==> encode_label(l).len() > 0,
{
    lemma_i64_roundtrip(l.num);
}

/// A `Location` whose lines are all non-blank is read back from its encoding.
pub proof fn lemma_location_roundtrip(m: LocationModel)
    requires
        encode_location(m).len() <= usize::MAX,
        forall|j: int| 0 <= j < m.lines.len() ==> !line_is_blank(#[trigger] m.lines[j]),
    ensures
        decode_location(encode_location(m)) == Ok::<LocationModel, DecodeError>(m),
{
    let d = encode_location(m);
    let ps = line_payloads(m.lines);
    let s1 = varint_field_bytes(1, m.id);
    let s2 = varint_field_bytes(2, m.mapping_id);
    let s3 = varint_field_bytes(3, m.address);
    let s4 = ld_fields_bytes(4, ps);
    let s5 = varint_field_bytes(5, bool_u64(m.is_folded));
    let a0 = empty_location();
    let a1 = LocationModel { id: m.id, ..a0 };
    let a2 = LocationModel { mapping_id: m.mapping_id, ..a1 };
    let a3 = LocationModel { address: m.address, ..a2 };
    let a4 = LocationModel { lines: m.lines, ..a3 };
    let st = location_step();
    lemma_at_whole(d);
    lemma_at_split(d, 0, s1 + s2 + s3 + s4, s5);
    lemma_at_split(d, 0, s1 + s2 + s3, s4);
    lemma_at_split(d, 0, s1 + s2, s3);
    lemma_at_split(d, 0, s1, s2);
    let o2 = s1.len();
    let o3 = o2 + s2.len();
    let o4 = o3 + s3.len();
    let o5 = o4 + s4.len();
    lemma_varint_seg(d, 0, 1, m.id, a0, a1, st);
    lemma_varint_seg(d, o2, 2, m.mapping_id, a1, a2, st);
    lemma_varint_seg(d, o3, 3, m.address, a2, a3, st);
    let target = |i: int| LocationModel { lines: m.lines.subrange(0, i), ..a3 };
    assert forall|i: int| 0 <= i < ps.len() implies (#[trigger] ps[i]).len() > 0 && st(
        target(i),
        WireField { number: 4, value: WireValue::Bytes(ps[i]) },
    ) == Ok::<LocationModel, DecodeError>(target(i + 1)) by {
        let l = m.lines[i];
        assert(ps[i] == encode_line(l));
        lemma_line_nonempty(l);
        lemma_line_roundtrip(l);
        assert(m.lines.subrange(0, i).push(l) =~= m.lines.subrange(0, i + 1));
    }
    assert(m.lines.subrange(0, 0) =~= Seq::<Line>::empty());
    assert(target(0) == a3);
    lemma_ld_fields(d, o4, 4, ps, st, target);
    assert(m.lines.subrange(0, ps.len() as int) =~= m.lines);
    assert(target(ps.len() as int) == a4);
    lemma_varint_seg(d, o5, 5, bool_u64(m.is_folded), a4, m, st);
    lemma_decode_done(d, d.len(), m, st);
}

/// A `Sample` whose labels are all non-blank is read back from its encoding.
pub proof fn lemma_sample_roundtrip(m: SampleModel)
    requires
        encode_sample(m).len() <= usize::MAX,
        forall|j: int| 0 <= j < m.labels.len() ==> !label_is_blank(#[trigger] m.labels[j]),
    ensures
        decode_sample(encode_sample(m)) == Ok::<SampleModel, DecodeError>(m),
{
    let d = encode_sample(m);
    let p1 = varints_bytes(m.location_ids);
    let p2 = varints_bytes(as_unsigned(m.values));
    let ps = label_payloads(m.labels);
    let s1 = ld_field_bytes(1, p1);
    let s2 = ld_field_bytes(2, p2);
    let s3 = ld_fields_bytes(3, ps);
    let a0 = empty_sample();
    let a1 = SampleModel { location_ids: m.location_ids, ..a0 };
    let a2 = SampleModel { values: m.values, ..a1 };
    let st = sample_step();
    lemma_at_whole(d);
    lemma_at_split(d, 0, s1 + s2, s3);
    lemma_at_split(d, 0, s1, s2);
    let o2 = s1.len();
    let o3 = o2 + s2.len();
    lemma_varints_bytes_len(m.location_ids);
    lemma_varints_bytes_len(as_unsigned(m.values));
    assert(p1 + Seq::<u8>::empty() =~= p1);
    assert(p2 + Seq::<u8>::empty() =~= p2);
    lemma_packed_roundtrip(m.location_ids, Seq::empty());
    lemma_packed_roundtrip(as_unsigned(m.values), Seq::empty());
    lemma_signed_roundtrip(m.values);
    assert(Seq::<u64>::empty() + m.location_ids =~= m.location_ids);
    assert(m.location_ids + Seq::<u64>::empty() =~= m.location_ids);
    assert(as_unsigned(m.values) + Seq::<u64>::empty() =~= as_unsigned(m.values));
    assert(Seq::<i64>::empty() + m.values =~= m.values);
    if p1.len() == 0 {
        assert(m.location_ids =~= Seq::<u64>::empty());
    }
    if p2.len() == 0 {
        assert(m.values =~= Seq::<i64>::empty());
    }
    lemma_ld_seg(d, 0, 1, p1, a0, a1, st);
    lemma_ld_seg(d, o2, 2, p2, a1, a2, st);
    let target = |i: int| SampleModel { labels: m.labels.subrange(0, i), ..a2 };
    assert forall|i: int| 0 <= i < ps.len() implies (#[trigger] ps[i]).len() > 0 && st(
        target(i),
        WireField { number: 3, value: WireValue::Bytes(ps[i]) },
    ) == Ok::<SampleModel, DecodeError>(target(i + 1)) by {
        let l = m.labels[i];
        assert(ps[i] == encode_label(l));
        lemma_label_nonempty(l);
        lemma_label_roundtrip(l);
        assert(m.labels.subrange(0, i).push(l) =~= m.labels.subrange(0, i + 1));
    }
    assert(m.labels.subrange(0, 0) =~= Seq::<Label>::empty());
    assert(target(0) == a2);
    lemma_ld_fields(d, o3, 3, ps, st, target);
    assert(m.labels.subrange(0, ps.len() as int) =~= m.labels);
    assert(target(ps.len() as int) == m);
    lemma_decode_done(d, d.len(), m, st);
}

/// A sample whose location ids and values are written unpacked, one varint
/// field per entry (field 1 for each id, then field 2 for each value), reads
/// back with those ids and values in order; the packed encoding of the same
/// sample reads back to the same thing.
pub proof fn lemma_sample_unpacked_fields(ids: Seq<u64>, vals: Seq<u64>)
    requires
        ld_field_bytes(1, varints_bytes(ids)).len() + ld_field_bytes(2, varints_bytes(vals)).len()
            <= usize::MAX,
    ensures
        decode_sample(varint_fields_bytes(1, ids) + varint_fields_bytes(2, vals)) == Ok::<
            SampleModel,
            DecodeError,
        >(SampleModel { location_ids: ids, values: as_signed(vals), labels: Seq::empty() }),
        decode_sample(
            ld_field_bytes(1, varints_bytes(ids)) + ld_field_bytes(2, varints_bytes(vals)),
        ) == decode_sample(varint_fields_bytes(1, ids) + varint_fields_bytes(2, vals)),
{
    let u1 = varint_fields_bytes(1, ids);
    let u2 = varint_fields_bytes(2, vals);
    let d = u1 + u2;
    let st = sample_step();
    let a0 = empty_sample();
    let t1 = |i: int| SampleModel { location_ids: ids.subrange(0, i), ..a0 };
    let a1 = SampleModel { location_ids: ids, ..a0 };
    let t2 = |i: int| SampleModel { values: as_signed(vals.subrange(0, i)), ..a1 };
    lemma_at_whole(d);
    lemma_at_split(d, 0, u1, u2);
    assert forall|i: int| 0 <= i < ids.len() implies st(
        t1(i),
        WireField { number: 1, value: WireValue::Varint(#[trigger] ids[i]) },
    ) == Ok::<SampleModel, DecodeError>(t1(i + 1)) by {
        assert(ids.subrange(0, i).push(ids[i]) =~= ids.subrange(0, i + 1));
    }
    assert(ids.subrange(0, 0) =~= Seq::<u64>::empty());
    assert(t1(0) == a0);
    lemma_varint_fields(d, 0, 1, ids, st, t1);
    assert(ids.subrange(0, ids.len() as int) =~= ids);
    assert(t1(ids.len() as int) == a1);
    assert forall|i: int| 0 <= i < vals.len() implies st(
        t2(i),
        WireField { number: 2, value: WireValue::Varint(#[trigger] vals[i]) },
    ) == Ok::<SampleModel, DecodeError>(t2(i + 1)) by {
        assert(as_signed(vals.subrange(0, i)).push(vals[i] as i64) =~= as_signed(
            vals.subrange(0, i + 1),
        ));
    }
    assert(as_signed(vals.subrange(0, 0)) =~= Seq::<i64>::empty());
    assert(t2(0) == a1);
    lemma_varint_fields(d, u1.len(), 2, vals, st, t2);
    assert(vals.subrange(0, vals.len() as int) =~= vals);
    let m = SampleModel { location_ids: ids, values: as_signed(vals), labels: Seq::empty() };
    assert(t2(vals.len() as int) == m);
    lemma_decode_done(d, d.len(), m, st);
    // The packed form is what the encoder writes for the same sample.
    let p = encode_sample(m);
    assert forall|i: int| 0 <= i < vals.len() implies as_unsigned(m.values)[i] == vals[i] by {
        let x = vals[i];
        assert((x as i64) as u64 == x) by (bit_vector);
    }
    assert(as_unsigned(m.values) =~= vals);
    assert(label_payloads(m.labels) =~= Seq::<Seq<u8>>::empty());
    assert(ld_fields_bytes(3, label_payloads(m.labels)) =~= Seq::<u8>::empty());
    assert(p =~= ld_field_bytes(1, varints_bytes(ids)) + ld_field_bytes(2, varints_bytes(vals)));
    lemma_sample_roundtrip(m);
}


// ---------------------------------------------------------------------------
// The profile
// ---------------------------------------------------------------------------

proof fn lemma_value_type_nonempty(v: ValueType)
    ensures
        !value_type_is_blank(v) ==> encode_value_type(v).len() > 0,
{
}

proof fn lemma_function_nonempty(f: Function)
    ensures
        !function_is_blank(f) ==> encode_function(f).len() > 0,
{
    lemma_i64_roundtrip(f.start_line);
}

proof fn lemma_mapping_nonempty(m: Mapping)
    ensures
        !mapping_is_blank(m) ==> encode_mapping(m).len() > 0,
{
}

proof fn lemma_location_nonempty(m: LocationModel)
    requires
        forall|j: int| 0 <= j < m.lines.len() ==> !line_is_blank(#[trigger] m.lines[j]),
    ensures
        !location_is_blank(m) ==> encode_location(m).len() > 0,
{
    if m.lines.len() > 0 {
        let ps = line_payloads(m.lines);
        let last = m.lines[m.lines.len() - 1];
        assert(ps.last() == encode_line(last));
        lemma_line_nonempty(last);
        lemma_ld_fields_nonempty(4, ps);
    }
}

proof fn lemma_ld_fields_nonempty(field: nat, ps: Seq<Seq<u8>>)
    requires
        ps.len() > 0,
        ps.last().len() > 0,
    ensures
        ld_fields_bytes(field, ps).len() > 0,
{
}

proof fn lemma_sample_nonempty(m: SampleModel)
    requires
        forall|j: int| 0 <= j < m.labels.len() ==> !label_is_blank(#[trigger] m.labels[j]),
    ensures
        !sample_is_blank(m) ==> encode_sample(m).len() > 0,
{
    lemma_varints_bytes_len(m.location_ids);
    lemma_varints_bytes_len(as_unsigned(m.values));
    if m.labels.len() > 0 {
        let ps = label_payloads(m.labels);
        let last = m.labels[m.labels.len() - 1];
        assert(ps.last() == encode_label(last));
        lemma_label_nonempty(last);
        lemma_ld_fields_nonempty(3, ps);
    }
}

proof fn lemma_profile_value_types(d: Seq<u8>, off: nat, acc: ProfileModel, xs: Seq<ValueType>)
    requires
        d.len() <= usize::MAX,
        at(d, off, ld_fields_bytes(1, value_type_payloads(xs))),
        acc.value_types.len() == 0,
        forall|i: int| 0 <= i < xs.len() ==> !value_type_is_blank(#[trigger] xs[i]),
    ensures
        decode_fields(d, off, acc, profile_step()) == decode_fields(
            d,
            off + ld_fields_bytes(1, value_type_payloads(xs)).len(),
            ProfileModel { value_types: xs, ..acc },
            profile_step(),
        ),
{
    let ps = value_type_payloads(xs);
    let st = profile_step();
    let target = |i: int| ProfileModel { value_types: xs.subrange(0, i), ..acc };
    assert forall|i: int| 0 <= i < ps.len() implies (#[trigger] ps[i]).len() > 0 && st(
        target(i),
        WireField { number: 1, value: WireValue::Bytes(ps[i]) },
    ) == Ok::<ProfileModel, DecodeError>(target(i + 1)) by {
        lemma_value_type_nonempty(xs[i]);
        lemma_value_type_roundtrip(xs[i]);
        assert(xs.subrange(0, i).push(xs[i]) =~= xs.subrange(0, i + 1));
    }
    assert(target(0) =~= acc);
    lemma_ld_fields(d, off, 1, ps, st, target);
    assert(target(ps.len() as int) =~= ProfileModel { value_types: xs, ..acc });
}

proof fn lemma_profile_samples(d: Seq<u8>, off: nat, acc: ProfileModel, xs: Seq<SampleModel>)
    requires
        d.len() <= usize::MAX,
        at(d, off, ld_fields_bytes(2, sample_payloads(xs))),
        acc.samples.len() == 0,
        forall|i: int| 0 <= i < xs.len() ==> !sample_is_blank(#[trigger] xs[i]),
        forall|i: int, j: int|
            0 <= i < xs.len() && 0 <= j < xs[i].labels.len() ==> !label_is_blank(#[trigger] xs[i].labels[j]),
    ensures
        decode_fields(d, off, acc, profile_step()) == decode_fields(
            d,
            off + ld_fields_bytes(2, sample_payloads(xs)).len(),
            ProfileModel { samples: xs, ..acc },
            profile_step(),
        ),
{
    let ps = sample_payloads(xs);
    let st = profile_step();
    lemma_at_len(d, off, ld_fields_bytes(2, ps));
    let target = |i: int| ProfileModel { samples: xs.subrange(0, i), ..acc };
    assert forall|i: int| 0 <= i < ps.len() implies (#[trigger] ps[i]).len() > 0 && st(
        target(i),
        WireField { number: 2, value: WireValue::Bytes(ps[i]) },
    ) == Ok::<ProfileModel, DecodeError>(target(i + 1)) by {
        lemma_ld_fields_payload_len(2, ps, i);
        assert forall|j: int| 0 <= j < xs[i].labels.len() implies !label_is_blank(#[trigger] xs[i].labels[j]) by {
        }
        lemma_sample_nonempty(xs[i]);
        lemma_sample_roundtrip(xs[i]);
        assert(xs.subrange(0, i).push(xs[i]) =~= xs.subrange(0, i + 1));
    }
    assert(target(0) =~= acc);
    lemma_ld_fields(d, off, 2, ps, st, target);
    assert(target(ps.len() as int) =~= ProfileModel { samples: xs, ..acc });
}

proof fn lemma_profile_mappings(d: Seq<u8>, off: nat, acc: ProfileModel, xs: Seq<Mapping>)
    requires
        d.len() <= usize::MAX,
        at(d, off, ld_fields_bytes(3, mapping_payloads(xs))),
        acc.mappings.len() == 0,
        forall|i: int| 0 <= i < xs.len() ==> !mapping_is_blank(#[trigger] xs[i]),
    ensures
        decode_fields(d, off, acc, profile_step()) == decode_fields(
            d,
            off + ld_fields_bytes(3, mapping_payloads(xs)).len(),
            ProfileModel { mappings: xs, ..acc },
            profile_step(),
        ),
{
    let ps = mapping_payloads(xs);
    let st = profile_step();
    let target = |i: int| ProfileModel { mappings: xs.subrange(0, i), ..acc };
    assert forall|i: int| 0 <= i < ps.len() implies (#[trigger] ps[i]).len() > 0 && st(
        target(i),
        WireField { number: 3, value: WireValue::Bytes(ps[i]) },
    ) == Ok::<ProfileModel, DecodeError>(target(i + 1)) by {
        lemma_mapping_nonempty(xs[i]);
        lemma_mapping_roundtrip(xs[i]);
        assert(xs.subrange(0, i).push(xs[i]) =~= xs.subrange(0, i + 1));
    }
    assert(target(0) =~= acc);
    lemma_ld_fields(d, off, 3, ps, st, target);
    assert(target(ps.len() as int) =~= ProfileModel { mappings: xs, ..acc });
}

proof fn lemma_profile_locations(d: Seq<u8>, off: nat, acc: ProfileModel, xs: Seq<LocationModel>)
    requires
        d.len() <= usize::MAX,
        at(d, off, ld_fields_bytes(4, location_payloads(xs))),
        acc.locations.len() == 0,
        forall|i: int| 0 <= i < xs.len() ==> !location_is_blank(#[trigger] xs[i]),
        forall|i: int, j: int|
            0 <= i < xs.len() && 0 <= j < xs[i].lines.len() ==> !line_is_blank(#[trigger] xs[i].lines[j]),
    ensures
        decode_fields(d, off, acc, profile_step()) == decode_fields(
            d,
            off + ld_fields_bytes(4, location_payloads(xs)).len(),
            ProfileModel { locations: xs, ..acc },
            profile_step(),
        ),
{
    let ps = location_payloads(xs);
    let st = profile_step();
    lemma_at_len(d, off, ld_fields_bytes(4, ps));
    let target = |i: int| ProfileModel { locations: xs.subrange(0, i), ..acc };
    assert forall|i: int| 0 <= i < ps.len() implies (#[trigger] ps[i]).len() > 0 && st(
        target(i),
        WireField { number: 4, value: WireValue::Bytes(ps[i]) },
    ) == Ok::<ProfileModel, DecodeError>(target(i + 1)) by {
        lemma_ld_fields_payload_len(4, ps, i);
        assert forall|j: int| 0 <= j < xs[i].lines.len() implies !line_is_blank(#[trigger] xs[i].lines[j]) by {
        }
        lemma_location_nonempty(xs[i]);
        lemma_location_roundtrip(xs[i]);
        assert(xs.subrange(0, i).push(xs[i]) =~= xs.subrange(0, i + 1));
    }
    assert(target(0) =~= acc);
    lemma_ld_fields(d, off, 4, ps, st, target);
    assert(target(ps.len() as int) =~= ProfileModel { locations: xs, ..acc });
}

proof fn lemma_profile_functions(d: Seq<u8>, off: nat, acc: ProfileModel, xs: Seq<Function>)
    requires
        d.len() <= usize::MAX,
        at(d, off, ld_fields_bytes(5, function_payloads(xs))),
        acc.functions.len() == 0,
        forall|i: int| 0 <= i < xs.len() ==> !function_is_blank(#[trigger] xs[i]),
    ensures
        decode_fields(d, off, acc, profile_step()) == decode_fields(
            d,
            off + ld_fields_bytes(5, function_payloads(xs)).len(),
            ProfileModel { functions: xs, ..acc },
            profile_step(),
        ),
{
    let ps = function_payloads(xs);
    let st = profile_step();
    let target = |i: int| ProfileModel { functions: xs.subrange(0, i), ..acc };
    assert forall|i: int| 0 <= i < ps.len() implies (#[trigger] ps[i]).len() > 0 && st(
        target(i),
        WireField { number: 5, value: WireValue::Bytes(ps[i]) },
    ) == Ok::<ProfileModel, DecodeError>(target(i + 1)) by {
        lemma_function_nonempty(xs[i]);
        lemma_function_roundtrip(xs[i]);
        assert(xs.subrange(0, i).push(xs[i]) =~= xs.subrange(0, i + 1));
    }
    assert(target(0) =~= acc);
    lemma_ld_fields(d, off, 5, ps, st, target);
    assert(target(ps.len() as int) =~= ProfileModel { functions: xs, ..acc });
}

proof fn lemma_profile_strings(d: Seq<u8>, off: nat, acc: ProfileModel, xs: Seq<Seq<char>>)
    requires
        d.len() <= usize::MAX,
        at(d, off, string_fields_bytes(6, string_payloads(xs))),
        acc.strings.len() == 0,
    ensures
        decode_fields(d, off, acc, profile_step()) == decode_fields(
            d,
            off + string_fields_bytes(6, string_payloads(xs)).len(),
            ProfileModel { strings: xs, ..acc },
            profile_step(),
        ),
{
    let ps = string_payloads(xs);
    let st = profile_step();
    let target = |i: int| ProfileModel { strings: xs.subrange(0, i), ..acc };
    assert forall|i: int| 0 <= i < ps.len() implies st(
        target(i),
        WireField { number: 6, value: WireValue::Bytes(#[trigger] ps[i]) },
    ) == Ok::<ProfileModel, DecodeError>(target(i + 1)) by {
        vstd::utf8::encode_utf8_valid_utf8(xs[i]);
        vstd::utf8::encode_utf8_decode_utf8(xs[i]);
        assert(xs.subrange(0, i).push(xs[i]) =~= xs.subrange(0, i + 1));
    }
    assert(target(0) =~= acc);
    lemma_string_fields(d, off, 6, ps, st, target);
    assert(target(ps.len() as int) =~= ProfileModel { strings: xs, ..acc });
}

proof fn lemma_profile_comments(d: Seq<u8>, off: nat, acc: ProfileModel, xs: Seq<u64>)
    requires
        at(d, off, varint_fields_bytes(13, xs)),
        acc.comments.len() == 0,
    ensures
        decode_fields(d, off, acc, profile_step()) == decode_fields(
            d,
            off + varint_fields_bytes(13, xs).len(),
            ProfileModel { comments: xs, ..acc },
            profile_step(),
        ),
{
    let st = profile_step();
    let target = |i: int| ProfileModel { comments: xs.subrange(0, i), ..acc };
    assert forall|i: int| 0 <= i < xs.len() implies st(
        target(i),
        WireField { number: 13, value: WireValue::Varint(#[trigger] xs[i]) },
    ) == Ok::<ProfileModel, DecodeError>(target(i + 1)) by {
        assert(xs.subrange(0, i).push(xs[i]) =~= xs.subrange(0, i + 1));
    }
    assert(target(0) =~= acc);
    lemma_varint_fields(d, off, 13, xs, st, target);
    assert(target(xs.len() as int) =~= ProfileModel { comments: xs, ..acc });
}

#[verifier::rlimit(100)]
/// What `encode` writes, `decode` reads back unchanged, for every canonical
/// profile whose encoding fits in memory.
pub proof fn lemma_profile_roundtrip(m: ProfileModel)
    requires
        is_canonical(m),
        encode_profile(m).len() <= usize::MAX,
    ensures
        decode_profile(encode_profile(m)) == Ok::<ProfileModel, DecodeError>(m),
{
    let d = encode_profile(m);
    let s1 = ld_fields_bytes(1, value_type_payloads(m.value_types));
    let s2 = ld_fields_bytes(2, sample_payloads(m.samples));
    let s3 = ld_fields_bytes(3, mapping_payloads(m.mappings));
    let s4 = ld_fields_bytes(4, location_payloads(m.locations));
    let s5 = ld_fields_bytes(5, function_payloads(m.functions));
    let s6 = string_fields_bytes(6, string_payloads(m.strings));
    let s7 = varint_field_bytes(7, m.drop_frames);
    let s8 = varint_field_bytes(8, m.keep_frames);
    let s9 = varint_field_bytes(9, m.time_nanos as u64);
    let s10 = varint_field_bytes(10, m.duration_nanos as u64);
    let s11 = ld_field_bytes(11, encode_value_type(m.period_type));
    let s12 = varint_field_bytes(12, m.period as u64);
    let s13 = varint_fields_bytes(13, m.comments);
    let s14 = varint_field_bytes(14, m.default_sample_type);
    lemma_at_whole(d);
    lemma_at_split(d, 0, s1 + s2 + s3 + s4 + s5 + s6 + s7 + s8 + s9 + s10 + s11 + s12 + s13, s14);
    lemma_at_split(d, 0, s1 + s2 + s3 + s4 + s5 + s6 + s7 + s8 + s9 + s10 + s11 + s12, s13);
    lemma_at_split(d, 0, s1 + s2 + s3 + s4 + s5 + s6 + s7 + s8 + s9 + s10 + s11, s12);
    lemma_at_split(d, 0, s1 + s2 + s3 + s4 + s5 + s6 + s7 + s8 + s9 + s10, s11);
    lemma_at_split(d, 0, s1 + s2 + s3 + s4 + s5 + s6 + s7 + s8 + s9, s10);
    lemma_at_split(d, 0, s1 + s2 + s3 + s4 + s5 + s6 + s7 + s8, s9);
    lemma_at_split(d, 0, s1 + s2 + s3 + s4 + s5 + s6 + s7, s8);
    lemma_at_split(d, 0, s1 + s2 + s3 + s4 + s5 + s6, s7);
    lemma_at_split(d, 0, s1 + s2 + s3 + s4 + s5, s6);
    lemma_at_split(d, 0, s1 + s2 + s3 + s4, s5);
    lemma_at_split(d, 0, s1 + s2 + s3, s4);
    lemma_at_split(d, 0, s1 + s2, s3);
    lemma_at_split(d, 0, s1, s2);
    let o2 = s1.len();
    let o3 = o2 + s2.len();
    let o4 = o3 + s3.len();
    let o5 = o4 + s4.len();
    let o6 = o5 + s5.len();
    let o7 = o6 + s6.len();
    let o8 = o7 + s7.len();
    let o9 = o8 + s8.len();
    let o10 = o9 + s9.len();
    let o11 = o10 + s10.len();
    let o12 = o11 + s11.len();
    let o13 = o12 + s12.len();
    let o14 = o13 + s13.len();
    let st = profile_step();
    let b0 = empty_profile(Seq::empty());
    let b1 = ProfileModel { value_types: m.value_types, ..b0 };
    let b2 = ProfileModel { samples: m.samples, ..b1 };
    let b3 = ProfileModel { mappings: m.mappings, ..b2 };
    let b4 = ProfileModel { locations: m.locations, ..b3 };
    let b5 = ProfileModel { functions: m.functions, ..b4 };
    let b6 = ProfileModel { strings: m.strings, ..b5 };
    let b7 = ProfileModel { drop_frames: m.drop_frames, ..b6 };
    let b8 = ProfileModel { keep_frames: m.keep_frames, ..b7 };
    let b9 = ProfileModel { time_nanos: m.time_nanos, ..b8 };
    let b10 = ProfileModel { duration_nanos: m.duration_nanos, ..b9 };
    let b11 = ProfileModel { period_type: m.period_type, ..b10 };
    let b12 = ProfileModel { period: m.period, ..b11 };
    let b13 = ProfileModel { comments: m.comments, ..b12 };
    assert(decode_fields(d, 0, b0, st) == decode_fields(d, o2, b1, st)) by {
        lemma_profile_value_types(d, 0, b0, m.value_types);
    }
    assert(decode_fields(d, o2, b1, st) == decode_fields(d, o3, b2, st)) by {
        lemma_profile_samples(d, o2, b1, m.samples);
    }
    assert(decode_fields(d, o3, b2, st) == decode_fields(d, o4, b3, st)) by {
        lemma_profile_mappings(d, o3, b2, m.mappings);
    }
    assert(decode_fields(d, o4, b3, st) == decode_fields(d, o5, b4, st)) by {
        lemma_profile_locations(d, o4, b3, m.locations);
    }
    assert(decode_fields(d, o5, b4, st) == decode_fields(d, o6, b5, st)) by {
        lemma_profile_functions(d, o5, b4, m.functions);
    }
    assert(decode_fields(d, o6, b5, st) == decode_fields(d, o7, b6, st)) by {
        lemma_profile_strings(d, o6, b5, m.strings);
    }
    assert(decode_fields(d, o7, b6, st) == decode_fields(d, o8, b7, st)) by {
        lemma_varint_seg(d, o7, 7, m.drop_frames, b6, b7, st);
    }
    assert(decode_fields(d, o8, b7, st) == decode_fields(d, o9, b8, st)) by {
        lemma_varint_seg(d, o8, 8, m.keep_frames, b7, b8, st);
    }
    assert(decode_fields(d, o9, b8, st) == decode_fields(d, o10, b9, st)) by {
        lemma_i64_roundtrip(m.time_nanos);
        lemma_varint_seg(d, o9, 9, m.time_nanos as u64, b8, b9, st);
    }
    assert(decode_fields(d, o10, b9, st) == decode_fields(d, o11, b10, st)) by {
        lemma_i64_roundtrip(m.duration_nanos);
        lemma_varint_seg(d, o10, 10, m.duration_nanos as u64, b9, b10, st);
    }
    assert(decode_fields(d, o11, b10, st) == decode_fields(d, o12, b11, st)) by {
        lemma_value_type_roundtrip(m.period_type);
        lemma_ld_seg(d, o11, 11, encode_value_type(m.period_type), b10, b11, st);
    }
    assert(decode_fields(d, o12, b11, st) == decode_fields(d, o13, b12, st)) by {
        lemma_i64_roundtrip(m.period);
        lemma_varint_seg(d, o12, 12, m.period as u64, b11, b12, st);
    }
    assert(decode_fields(d, o13, b12, st) == decode_fields(d, o14, b13, st)) by {
        lemma_profile_comments(d, o13, b12, m.comments);
    }
    assert(decode_fields(d, o14, b13, st) == decode_fields(d, d.len(), m, st)) by {
        lemma_varint_seg(d, o14, 14, m.default_sample_type, b13, m, st);
    }
    lemma_decode_done(d, d.len(), m, st);
}

} // verus!
