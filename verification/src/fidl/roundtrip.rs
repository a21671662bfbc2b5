use vstd::prelude::*;
use super::bytes::{
    le_bytes, le_value, lemma_le_bytes_len, lemma_le_bytes_zero, lemma_le_value_of_bytes,
    lemma_pow256_values, pow256, zeros,
};
use super::decode::{
    advance, dec_array, dec_boxed, dec_elements, dec_envelope_header, dec_fields,
    dec_member_envelope, dec_members, dec_nullable, dec_prim, dec_result, dec_string,
    dec_struct, dec_table, dec_union, dec_union_header, dec_unit_block, dec_unknown_field,
    dec_value, dec_vector, dec_vector_header, enter_block, leave_block, read_num,
    skip_padding, skip_remaining_fields, skip_unknown_fields, DecodeState,
};
use super::encode::{
    all_fit, envelope_fits, envelopes_fit, lemma_find_member_distinct, lemma_nest_fields_ge,
    lemma_nest_seq_ge, lemma_nest_table_ge, nest, nest_fields, nest_seq, nest_table,
};
use super::decode::decode_message;
use super::encoder::message;
use super::header::{
    first_nonzero, lemma_persistent_header_roundtrip, lemma_transaction_header_roundtrip,
    persistent_header_bytes, persistent_header_decoding, transaction_header_bytes,
    transaction_header_of_bytes, PersistentHeaderView, TransactionHeaderView, HEADER_SIZE,
};
use super::wire::{ALLOC_PRESENT_U64, MAX_RECURSION};
use super::encode::{
    absent8, absent_envelope, envelope, envelope_header, find_member, pad8, present8, prim_bytes,
    table_prefix_len, unit_envelope, wire, wire_fields, wire_seq, wire_table,
};
use super::layout::{
    table_ordinals, all_have_type, field_end, field_start_of_gap, has_type, inline_size, is_unit,
    lemma_inline_size_bounds, prim_matches, spec_round_up, wf_type,
};
use super::wire::{Error, FidlType, Member, SpecValue, StructField};

verus! {

/// The inline bytes of a value take exactly the inline size of its type.
pub proof fn lemma_wire_inline_len(t: FidlType, v: SpecValue)
    requires
        wf_type(t),
        has_type(t, v),
    ensures
        wire(t, v).0.len() == inline_size(t),
    decreases v, 0nat,
{
    lemma_le_bytes_len(0, 8);
    lemma_le_bytes_len(0, 4);
    lemma_le_bytes_len(0xffff_ffff_ffff_ffff, 8);
    match t {
        FidlType::Bits(p, _) | FidlType::Enum(p, _) => {
            lemma_prim_bytes_len(*p, v);
            assert(wire(t, v).0.len() == inline_size(t));
        },
        FidlType::Array(e, n) => match v {
            SpecValue::Array(xs) => {
                lemma_wire_seq_inline_len(*e, xs, xs.len());
                assert(xs.len() * inline_size(*e) == inline_size(*e) * n) by (nonlinear_arith)
                    requires
                        xs.len() == n,
                ;
            },
            _ => {},
        },
        FidlType::Vector(..) => match v {
            SpecValue::Vector(Some(xs)) => lemma_le_bytes_len(xs.len(), 8),
            _ => {},
        },
        FidlType::String(..) => match v {
            SpecValue::Str(Some(b)) => lemma_le_bytes_len(b.len(), 8),
            _ => {},
        },
        FidlType::Struct(fields, size, _) => match v {
            SpecValue::Struct(xs) => {
                lemma_wire_fields_inline_len(fields@, xs, xs.len());
            },
            _ => {},
        },
        FidlType::Nullable(x) => match v {
            SpecValue::Boxed(Some(y)) => {
                if *x is XUnion {
                    lemma_wire_inline_len(*x, *y);
                }
            },
            _ => {},
        },
        FidlType::Table(members) => match v {
            SpecValue::Table(xs) => {
                let n = table_prefix_len(xs, xs.len());
                let max_ordinal = if n == 0 { 0 } else { members@[n - 1].ordinal as nat };
                lemma_le_bytes_len(max_ordinal, 8);
            },
            _ => {},
        },
        FidlType::XUnion(members, _) => match v {
            SpecValue::Union(o, y) => {
                lemma_le_bytes_len(o as nat, 8);
                let k = choose|i: int|
                    0 <= i < members@.len() && #[trigger] members@[i].ordinal == o && has_type(
                        members@[i].ty,
                        *y,
                    );
                super::encode::lemma_find_member_distinct(members@, o, k);
                lemma_envelope_header_len(envelope(members@[k].ty, *y).1.len());
            },
            SpecValue::UnknownUnion(o, b) => {
                lemma_le_bytes_len(o as nat, 8);
                lemma_envelope_header_len(b.len());
            },
            _ => {},
        },
        FidlType::Result(ok, err) => match v {
            SpecValue::ResultOk(y) => {
                lemma_le_bytes_len(1, 8);
                lemma_envelope_header_len(8);
                lemma_envelope_header_len(envelope(*ok, *y).1.len());
            },
            SpecValue::ResultErr(y) => {
                lemma_le_bytes_len(2, 8);
                lemma_envelope_header_len(envelope(*err, *y).1.len());
            },
            _ => {},
        },
        FidlType::EmptyStruct => {},
        _ => {
            lemma_prim_bytes_len(t, v);
        },
    }
}

/// The wire bytes of a boolean or integer take the size of its type.
pub proof fn lemma_prim_bytes_len(t: FidlType, v: SpecValue)
    requires
        prim_matches(t, v),
    ensures
        prim_bytes(v).len() == inline_size(t),
{
    match v {
        SpecValue::U8(x) => lemma_le_bytes_len(x as nat, 1),
        SpecValue::I8(x) => lemma_le_bytes_len((x as u8) as nat, 1),
        SpecValue::U16(x) => lemma_le_bytes_len(x as nat, 2),
        SpecValue::I16(x) => lemma_le_bytes_len((x as u16) as nat, 2),
        SpecValue::U32(x) => lemma_le_bytes_len(x as nat, 4),
        SpecValue::I32(x) => lemma_le_bytes_len((x as u32) as nat, 4),
        SpecValue::U64(x) => lemma_le_bytes_len(x as nat, 8),
        SpecValue::I64(x) => lemma_le_bytes_len((x as u64) as nat, 8),
        _ => {},
    }
}

/// An envelope header takes sixteen bytes.
pub proof fn lemma_envelope_header_len(n: nat)
    ensures
        envelope_header(n).len() == 16,
        absent_envelope().len() == 16,
{
    lemma_le_bytes_len(n % 0x1_0000_0000, 4);
    lemma_le_bytes_len(0, 4);
    lemma_le_bytes_len(0, 8);
    lemma_le_bytes_len(0xffff_ffff_ffff_ffff, 8);
}

/// The inline bytes of `k` values of type `t` take `k` times its inline size.
pub proof fn lemma_wire_seq_inline_len(t: FidlType, xs: Seq<SpecValue>, k: nat)
    requires
        wf_type(t),
        k <= xs.len(),
        forall|i: int| 0 <= i < xs.len() ==> has_type(t, #[trigger] xs[i]),
    ensures
        wire_seq(t, xs, k).0.len() == k * inline_size(t),
    decreases xs, k,
{
    if k > 0 {
        lemma_wire_seq_inline_len(t, xs, (k - 1) as nat);
        lemma_wire_inline_len(t, xs[k - 1]);
        assert(k * inline_size(t) == (k - 1) * inline_size(t) + inline_size(t)) by (nonlinear_arith);
    }
}

/// The inline bytes of the first `k` fields of a struct end where field `k - 1` ends.
pub proof fn lemma_wire_fields_inline_len(fields: Seq<StructField>, xs: Seq<SpecValue>, k: nat)
    requires
        k <= xs.len() == fields.len(),
        forall|i: int| 0 <= i < fields.len() ==> wf_type(#[trigger] fields[i].ty),
        forall|i: int| 0 <= i < fields.len() ==> field_start_of_gap(fields, i) <= #[trigger] fields[i].offset,
        forall|i: int| 0 <= i < xs.len() ==> has_type(fields[i].ty, #[trigger] xs[i]),
    ensures
        wire_fields(fields, xs, k).0.len() == if k == 0 { 0 } else { field_end(fields, k - 1) },
    decreases xs, k,
{
    if k > 0 {
        lemma_wire_fields_inline_len(fields, xs, (k - 1) as nat);
        lemma_wire_inline_len(fields[k - 1].ty, xs[k - 1]);
        assert(field_start_of_gap(fields, k - 1) <= fields[k - 1].offset);
    }
}

/// Whether the bytes of `x` stand in `b` from offset `off` on.
pub open spec fn placed(b: Seq<u8>, off: int, x: Seq<u8>) -> bool {
    &&& 0 <= off
    &&& off + x.len() <= b.len()
    &&& b.subrange(off, off + x.len()) == x
}

/// Bytes that stand in `b` stand there part by part.
pub proof fn lemma_placed_split(b: Seq<u8>, off: int, x: Seq<u8>, y: Seq<u8>)
    requires
        placed(b, off, x + y),
    ensures
        placed(b, off, x),
        placed(b, off + x.len(), y),
{
    assert(b.subrange(off, off + x.len()) =~= (x + y).subrange(0, x.len() as int));
    assert((x + y).subrange(0, x.len() as int) =~= x);
    assert(b.subrange(off + x.len(), off + x.len() + y.len()) =~= (x + y).subrange(
        x.len() as int,
        (x + y).len() as int,
    ));
    assert((x + y).subrange(x.len() as int, (x + y).len() as int) =~= y);
}

/// Where the bytes of `x` stand in `b`, byte `i` of `x` is byte `off + i` of `b`.
pub proof fn lemma_placed_index(b: Seq<u8>, off: int, x: Seq<u8>, i: int)
    requires
        placed(b, off, x),
        0 <= i < x.len(),
    ensures
        b[off + i] == x[i],
{
    assert(b.subrange(off, off + x.len())[i] == b[off + i]);
}

/// No byte of a run of zero bytes is non-zero.
pub proof fn lemma_first_nonzero_zeros(b: Seq<u8>, from: int, to: int)
    requires
        forall|i: int| from <= i < to ==> b[i] == 0,
    ensures
        first_nonzero(b, from, to) is None,
    decreases to - from,
{
    if from < to {
        lemma_first_nonzero_zeros(b, from + 1, to);
    }
}

/// A non-zero byte in a range is found.
pub proof fn lemma_first_nonzero_some(b: Seq<u8>, from: int, to: int, i: int)
    requires
        from <= i < to,
        b[i] != 0,
    ensures
        first_nonzero(b, from, to) is Some,
    decreases to - from,
{
    if b[from] == 0 {
        lemma_first_nonzero_some(b, from + 1, to, i);
    }
}

/// Zero bytes placed in `b` hold no non-zero byte.
pub proof fn lemma_placed_zeros(b: Seq<u8>, off: int, n: nat)
    requires
        placed(b, off, zeros(n)),
    ensures
        first_nonzero(b, off, off + n) is None,
{
    assert forall|i: int| off <= i < off + n implies b[i] == 0 by {
        lemma_placed_index(b, off, zeros(n), i - off);
    }
    lemma_first_nonzero_zeros(b, off, off + n);
}

/// Reading the little-endian bytes of a number gives the number.
pub proof fn lemma_read_placed(b: Seq<u8>, s: DecodeState, x: nat, n: nat)
    requires
        placed(b, s.offset as int, le_bytes(x, n)),
        x < pow256(n),
    ensures
        read_num(b, s, n) == Ok::<(nat, DecodeState), Error>((x, advance(s, n))),
{
    lemma_le_bytes_len(x, n);
    lemma_le_value_of_bytes(x, n);
}

/// Skipping zero bytes placed at the offset succeeds.
pub proof fn lemma_skip_placed_zeros(b: Seq<u8>, s: DecodeState, n: nat)
    requires
        placed(b, s.offset as int, zeros(n)),
    ensures
        skip_padding(b, s, n) == Ok::<DecodeState, Error>(advance(s, n)),
{
    if n > 0 {
        lemma_placed_zeros(b, s.offset as int, n);
    }
}

/// Entering a block that fits in the buffer, below the depth limit, succeeds.
pub proof fn lemma_enter_fits(b: Seq<u8>, s: DecodeState, len: nat)
    requires
        s.next_out_of_line + spec_round_up(len as int, 8) <= b.len(),
        b.len() <= usize::MAX,
        s.depth + 1 <= MAX_RECURSION,
    ensures
        enter_block(b, s, len) == Ok::<DecodeState, Error>(
            DecodeState {
                offset: s.next_out_of_line,
                end_block: (s.next_out_of_line + spec_round_up(len as int, 8)) as usize,
                next_out_of_line: (s.next_out_of_line + spec_round_up(len as int, 8)) as usize,
                depth: (s.depth + 1) as usize,
                handles_left: s.handles_left,
            },
        ),
{
}

/// Leaving a block whose remaining bytes are zero succeeds.
pub proof fn lemma_leave_zeros(b: Seq<u8>, outer: DecodeState, inner: DecodeState, block_end: usize)
    requires
        placed(b, inner.offset as int, zeros((block_end - inner.offset) as nat)),
        inner.offset <= block_end,
    ensures
        leave_block(b, outer, inner, block_end) == Ok::<DecodeState, Error>(
            DecodeState {
                offset: outer.offset,
                end_block: outer.end_block,
                next_out_of_line: inner.next_out_of_line,
                depth: outer.depth,
                handles_left: inner.handles_left,
            },
        ),
{
    lemma_placed_zeros(b, inner.offset as int, (block_end - inner.offset) as nat);
}

/// The padded bytes of `s` are `s` followed by zeros up to a multiple of eight.
pub proof fn lemma_pad8(s: Seq<u8>)
    ensures
        pad8(s).len() == spec_round_up(s.len() as int, 8),
        pad8(s) == s + zeros((spec_round_up(s.len() as int, 8) - s.len()) as nat),
        spec_round_up(s.len() as int, 8) >= s.len(),
        spec_round_up(s.len() as int, 8) % 8 == 0,
{
}

/// Decoding the wire bytes of a boolean or integer gives it back.
pub proof fn lemma_dec_prim_wire(t: FidlType, v: SpecValue, b: Seq<u8>, s: DecodeState)
    requires
        prim_matches(t, v),
        placed(b, s.offset as int, prim_bytes(v)),
    ensures
        dec_prim(t, b, s) == Ok::<(SpecValue, DecodeState), Error>(
            (v, advance(s, inline_size(t) as nat)),
        ),
{
    lemma_pow256_values();
    match v {
        SpecValue::Bool(x) => {
            let c: u8 = if x { 1 } else { 0 };
            assert(b.subrange(s.offset as int, s.offset + 1) =~= seq![c]);
            assert(seq![c].drop_first() =~= Seq::<u8>::empty());
            assert(le_value(seq![c]) == c as nat) by {
                reveal_with_fuel(le_value, 2);
            }
        },
        SpecValue::U8(x) => lemma_read_placed(b, s, x as nat, 1),
        SpecValue::I8(x) => {
            lemma_read_placed(b, s, (x as u8) as nat, 1);
            assert(((x as u8) as i8) == x) by (bit_vector);
        },
        SpecValue::U16(x) => lemma_read_placed(b, s, x as nat, 2),
        SpecValue::I16(x) => {
            lemma_read_placed(b, s, (x as u16) as nat, 2);
            assert(((x as u16) as i16) == x) by (bit_vector);
        },
        SpecValue::U32(x) => lemma_read_placed(b, s, x as nat, 4),
        SpecValue::I32(x) => {
            lemma_read_placed(b, s, (x as u32) as nat, 4);
            assert(((x as u32) as i32) == x) by (bit_vector);
        },
        SpecValue::U64(x) => lemma_read_placed(b, s, x as nat, 8),
        SpecValue::I64(x) => {
            lemma_read_placed(b, s, (x as u64) as nat, 8);
            assert(((x as u64) as i64) == x) by (bit_vector);
        },
        _ => {},
    }
}

/// The state of a decoder that has gone over the inline bytes and the
/// out-of-line blocks `w`.
pub open spec fn after(s: DecodeState, w: (Seq<u8>, Seq<u8>)) -> DecodeState {
    DecodeState {
        offset: (s.offset + w.0.len()) as usize,
        end_block: s.end_block,
        next_out_of_line: (s.next_out_of_line + w.1.len()) as usize,
        depth: s.depth,
        handles_left: s.handles_left,
    }
}

/// Whether the wire form of value `v` of type `t` stands in `b` where the
/// decoder in state `s` will look for it, within the limits the decoder checks.
pub open spec fn ready(t: FidlType, v: SpecValue, b: Seq<u8>, s: DecodeState) -> bool {
    &&& wf_type(t)
    &&& has_type(t, v)
    &&& envelopes_fit(t, v)
    &&& placed(b, s.offset as int, wire(t, v).0)
    &&& placed(b, s.next_out_of_line as int, wire(t, v).1)
    &&& s.depth + nest(t, v, true) <= MAX_RECURSION
    &&& b.len() <= usize::MAX
}

/// Decoding the wire form of a value gives the value back, and leaves the
/// decoder just past its inline bytes and its out-of-line blocks.
pub proof fn lemma_dec_value_wire(t: FidlType, v: SpecValue, b: Seq<u8>, s: DecodeState)
    requires
        ready(t, v, b, s),
    ensures
        dec_value(t, b, s) == Ok::<(SpecValue, DecodeState), Error>((v, after(s, wire(t, v)))),
    decreases v, 2nat,
{
    lemma_wire_inline_len(t, v);
    match t {
        FidlType::Bits(p, _) => {
            lemma_dec_prim_wire(*p, v, b, s);
            assert(inline_size(t) == inline_size(*p));
        },
        FidlType::Enum(p, _) => {
            lemma_dec_prim_wire(*p, v, b, s);
            assert(inline_size(t) == inline_size(*p));
        },
        FidlType::Array(..) => lemma_dec_array_wire(t, v, b, s),
        FidlType::EmptyStruct => {
            lemma_le_bytes_zero(1);
            assert(seq![0u8] =~= zeros(1));
            lemma_pow256_values();
            lemma_read_placed(b, s, 0, 1);
        },
        FidlType::Vector(..) => lemma_dec_vector_wire(t, v, b, s),
        FidlType::String(..) => lemma_dec_string_wire(t, v, b, s),
        FidlType::Struct(..) => lemma_dec_struct_wire(t, v, b, s),
        FidlType::Nullable(..) => lemma_dec_nullable_wire(t, v, b, s),
        FidlType::XUnion(..) => lemma_dec_union_wire(t, v, b, s),
        FidlType::Result(..) => lemma_dec_result_wire(t, v, b, s),
        FidlType::Table(..) => lemma_dec_table_wire(t, v, b, s),
        _ => {
            lemma_dec_prim_wire(t, v, b, s);
        },
    }
}

/// Decoding the wire forms of the first `k` values of `xs` gives them back.
pub proof fn lemma_dec_elements_wire(t: FidlType, xs: Seq<SpecValue>, b: Seq<u8>, s: DecodeState, k: nat)
    requires
        wf_type(t),
        k <= xs.len(),
        all_have_type(t, xs),
        all_fit(t, xs),
        placed(b, s.offset as int, wire_seq(t, xs, k).0),
        placed(b, s.next_out_of_line as int, wire_seq(t, xs, k).1),
        s.depth + nest_seq(t, xs, k, true) <= MAX_RECURSION,
        b.len() <= usize::MAX,
    ensures
        dec_elements(t, b, s, k) == Ok::<(Seq<SpecValue>, DecodeState), Error>(
            (xs.subrange(0, k as int), after(s, wire_seq(t, xs, k))),
        ),
    decreases xs, k,
{
    if k == 0 {
        assert(xs.subrange(0, 0) =~= Seq::<SpecValue>::empty());
        assert(after(s, wire_seq(t, xs, 0)) == s);
    } else {
        let k1 = (k - 1) as nat;
        let w1 = wire_seq(t, xs, k1);
        let w = wire(t, xs[k1 as int]);
        lemma_placed_split(b, s.offset as int, w1.0, w.0);
        lemma_placed_split(b, s.next_out_of_line as int, w1.1, w.1);
        lemma_dec_elements_wire(t, xs, b, s, k1);
        let s1 = after(s, w1);
        assert(has_type(t, xs[k1 as int]));
        assert(envelopes_fit(t, xs[k1 as int]));
        lemma_nest_seq_ge(t, xs, k, k1 as int, true);
        lemma_dec_value_wire(t, xs[k1 as int], b, s1);
        assert(xs.subrange(0, k1 as int).push(xs[k1 as int]) =~= xs.subrange(0, k as int));
    }
}

/// Decoding the wire form of an array value gives it back.
pub proof fn lemma_dec_array_wire(t: FidlType, v: SpecValue, b: Seq<u8>, s: DecodeState)
    requires
        ready(t, v, b, s),
        t is Array,
    ensures
        dec_value(t, b, s) == Ok::<(SpecValue, DecodeState), Error>((v, after(s, wire(t, v)))),
    decreases v, 1nat,
{
    match t {
        FidlType::Array(e, n) => match v {
            SpecValue::Array(xs) => {
                assert(all_have_type(*e, xs));
                lemma_dec_elements_wire(*e, xs, b, s, xs.len());
                assert(xs.subrange(0, xs.len() as int) =~= xs);
            },
            _ => {},
        },
        _ => {},
    }
}

/// Decoding the wire form of a vector value gives it back.
pub proof fn lemma_dec_vector_wire(t: FidlType, v: SpecValue, b: Seq<u8>, s: DecodeState)
    requires
        ready(t, v, b, s),
        t is Vector,
    ensures
        dec_value(t, b, s) == Ok::<(SpecValue, DecodeState), Error>((v, after(s, wire(t, v)))),
    decreases v, 1nat,
{
    lemma_pow256_values();
    lemma_le_bytes_len(0, 8);
    lemma_le_bytes_len(0xffff_ffff_ffff_ffff, 8);
    match t {
        FidlType::Vector(e, nullable) => match v {
            SpecValue::Vector(None) => {
                lemma_placed_split(b, s.offset as int, absent8(), absent8());
                lemma_read_placed(b, s, 0, 8);
                lemma_read_placed(b, advance(s, 8), 0, 8);
                assert(wire(t, v).1 =~= Seq::<u8>::empty());
            },
            SpecValue::Vector(Some(xs)) => {
                let (i, o) = wire_seq(*e, xs, xs.len());
                assert(all_have_type(*e, xs));
                lemma_le_bytes_len(xs.len(), 8);
                lemma_wire_seq_inline_len(*e, xs, xs.len());
                lemma_inline_size_bounds(*e);
                lemma_pad8(i);
                assert(xs.len() <= xs.len() * inline_size(*e)) by (nonlinear_arith)
                    requires
                        inline_size(*e) >= 1,
                ;
                lemma_placed_split(b, s.offset as int, le_bytes(xs.len(), 8), present8());
                lemma_read_placed(b, s, xs.len(), 8);
                lemma_read_placed(b, advance(s, 8), 0xffff_ffff_ffff_ffff, 8);
                let s2 = advance(advance(s, 8), 8);
                assert(dec_vector_header(b, s) == Ok::<(Option<nat>, DecodeState), Error>(
                    (Some(xs.len()), s2),
                ));
                lemma_placed_split(b, s.next_out_of_line as int, pad8(i), o);
                lemma_placed_split(b, s.next_out_of_line as int, i, zeros((spec_round_up(i.len() as int, 8) - i.len()) as nat));
                lemma_enter_fits(b, s2, (xs.len() * inline_size(*e)) as nat);
                let inner = DecodeState {
                    offset: s2.next_out_of_line,
                    end_block: (s2.next_out_of_line + pad8(i).len()) as usize,
                    next_out_of_line: (s2.next_out_of_line + pad8(i).len()) as usize,
                    depth: (s2.depth + 1) as usize,
                    handles_left: s2.handles_left,
                };
                assert(enter_block(b, s2, (xs.len() * inline_size(*e)) as nat) == Ok::<DecodeState, Error>(inner));
                if xs.len() > 0 {
                    assert(nest(t, v, true) == 1 + nest_seq(*e, xs, xs.len(), true));
                }
                assert(all_have_type(*e, xs));
                lemma_dec_elements_wire(*e, xs, b, inner, xs.len());
                assert(xs.subrange(0, xs.len() as int) =~= xs);
                let inner2 = after(inner, (i, o));
                lemma_leave_zeros(b, s2, inner2, inner.end_block);
                assert(wire(t, v).1 =~= pad8(i) + o);
            },
            _ => {},
        },
        _ => {},
    }
}

/// Decoding the wire form of a string value gives it back.
pub proof fn lemma_dec_string_wire(t: FidlType, v: SpecValue, b: Seq<u8>, s: DecodeState)
    requires
        ready(t, v, b, s),
        t is String,
    ensures
        dec_value(t, b, s) == Ok::<(SpecValue, DecodeState), Error>((v, after(s, wire(t, v)))),
{
    lemma_pow256_values();
    lemma_le_bytes_len(0, 8);
    lemma_le_bytes_len(0xffff_ffff_ffff_ffff, 8);
    match v {
        SpecValue::Str(None) => {
            lemma_placed_split(b, s.offset as int, absent8(), absent8());
            lemma_read_placed(b, s, 0, 8);
            lemma_read_placed(b, advance(s, 8), 0, 8);
            assert(wire(t, v).1 =~= Seq::<u8>::empty());
        },
        SpecValue::Str(Some(bytes)) => {
            lemma_le_bytes_len(bytes.len(), 8);
            lemma_pad8(bytes);
            lemma_placed_split(b, s.offset as int, le_bytes(bytes.len(), 8), present8());
            lemma_read_placed(b, s, bytes.len(), 8);
            lemma_read_placed(b, advance(s, 8), 0xffff_ffff_ffff_ffff, 8);
            let s2 = advance(advance(s, 8), 8);
            assert(dec_vector_header(b, s) == Ok::<(Option<nat>, DecodeState), Error>(
                (Some(bytes.len()), s2),
            ));
            let padding = zeros((spec_round_up(bytes.len() as int, 8) - bytes.len()) as nat);
            lemma_placed_split(b, s.next_out_of_line as int, bytes, padding);
            lemma_enter_fits(b, s2, bytes.len());
            let inner = DecodeState {
                offset: s2.next_out_of_line,
                end_block: (s2.next_out_of_line + pad8(bytes).len()) as usize,
                next_out_of_line: (s2.next_out_of_line + pad8(bytes).len()) as usize,
                depth: (s2.depth + 1) as usize,
                handles_left: s2.handles_left,
            };
            assert(b.subrange(inner.offset as int, inner.offset + bytes.len()) == bytes);
            lemma_leave_zeros(b, s2, advance(inner, bytes.len()), inner.end_block);
        },
        _ => {},
    }
}

/// Decoding the wire forms of the first `k` fields of a struct value gives them back.
pub proof fn lemma_dec_fields_wire(
    fields: Seq<StructField>,
    xs: Seq<SpecValue>,
    b: Seq<u8>,
    s: DecodeState,
    k: nat,
)
    requires
        k <= xs.len() == fields.len(),
        forall|i: int| 0 <= i < fields.len() ==> wf_type(#[trigger] fields[i].ty),
        forall|i: int| 0 <= i < fields.len() ==> field_start_of_gap(fields, i) <= #[trigger] fields[i].offset,
        forall|i: int| 0 <= i < xs.len() ==> has_type(fields[i].ty, #[trigger] xs[i]),
        forall|i: int|
            0 <= i < xs.len() && i < fields.len() ==> envelopes_fit(fields[i].ty, #[trigger] xs[i]),
        placed(b, s.offset as int, wire_fields(fields, xs, k).0),
        placed(b, s.next_out_of_line as int, wire_fields(fields, xs, k).1),
        s.depth + nest_fields(fields, xs, k, true) <= MAX_RECURSION,
        b.len() <= usize::MAX,
    ensures
        dec_fields(fields, b, s, k) == Ok::<(Seq<SpecValue>, DecodeState), Error>(
            (xs.subrange(0, k as int), after(s, wire_fields(fields, xs, k))),
        ),
    decreases xs, k,
{
    if k == 0 {
        assert(xs.subrange(0, 0) =~= Seq::<SpecValue>::empty());
        assert(after(s, wire_fields(fields, xs, 0)) == s);
    } else {
        let k1 = (k - 1) as nat;
        let w1 = wire_fields(fields, xs, k1);
        let gap = (fields[k1 as int].offset - field_start_of_gap(fields, k1 as int)) as nat;
        let w = wire(fields[k1 as int].ty, xs[k1 as int]);
        lemma_placed_split(b, s.offset as int, w1.0 + zeros(gap), w.0);
        lemma_placed_split(b, s.offset as int, w1.0, zeros(gap));
        lemma_placed_split(b, s.next_out_of_line as int, w1.1, w.1);
        lemma_dec_fields_wire(fields, xs, b, s, k1);
        let s1 = after(s, w1);
        lemma_skip_placed_zeros(b, s1, gap);
        let s2 = advance(s1, gap);
        assert(has_type(fields[k1 as int].ty, xs[k1 as int]));
        assert(envelopes_fit(fields[k1 as int].ty, xs[k1 as int]));
        lemma_nest_fields_ge(fields, xs, k, k1 as int, true);
        lemma_dec_value_wire(fields[k1 as int].ty, xs[k1 as int], b, s2);
        assert(xs.subrange(0, k1 as int).push(xs[k1 as int]) =~= xs.subrange(0, k as int));
    }
}

/// Decoding the wire form of a struct value gives it back.
pub proof fn lemma_dec_struct_wire(t: FidlType, v: SpecValue, b: Seq<u8>, s: DecodeState)
    requires
        ready(t, v, b, s),
        t is Struct,
    ensures
        dec_value(t, b, s) == Ok::<(SpecValue, DecodeState), Error>((v, after(s, wire(t, v)))),
    decreases v, 1nat,
{
    match t {
        FidlType::Struct(fields, size, _) => match v {
            SpecValue::Struct(xs) => {
                let w = wire_fields(fields@, xs, xs.len());
                let end = if xs.len() == 0 { 0 } else { field_end(fields@, xs.len() - 1) };
                lemma_wire_fields_inline_len(fields@, xs, xs.len());
                lemma_placed_split(b, s.offset as int, w.0, zeros((size - end) as nat));
                lemma_dec_fields_wire(fields@, xs, b, s, xs.len());
                assert(xs.subrange(0, xs.len() as int) =~= xs);
                lemma_skip_placed_zeros(b, after(s, w), (size - end) as nat);
            },
            _ => {},
        },
        _ => {},
    }
}

/// Decoding a value placed in a new out-of-line block gives it back, and
/// leaves the decoder where it was, past the block.
pub proof fn lemma_dec_boxed_wire(t: FidlType, y: SpecValue, b: Seq<u8>, s: DecodeState)
    requires
        wf_type(t),
        has_type(t, y),
        envelopes_fit(t, y),
        placed(b, s.next_out_of_line as int, pad8(wire(t, y).0) + wire(t, y).1),
        s.depth + 1 + nest(t, y, true) <= MAX_RECURSION,
        b.len() <= usize::MAX,
    ensures
        dec_boxed(t, b, s, inline_size(t) as nat) == Ok::<(SpecValue, DecodeState), Error>(
            (
                y,
                DecodeState {
                    offset: s.offset,
                    end_block: s.end_block,
                    next_out_of_line: (s.next_out_of_line + (pad8(wire(t, y).0) + wire(t, y).1).len()) as usize,
                    depth: s.depth,
                    handles_left: s.handles_left,
                },
            ),
        ),
    decreases y, 3nat,
{
    let (i, o) = wire(t, y);
    lemma_wire_inline_len(t, y);
    lemma_inline_size_bounds(t);
    lemma_pad8(i);
    lemma_placed_split(b, s.next_out_of_line as int, pad8(i), o);
    lemma_placed_split(b, s.next_out_of_line as int, i, zeros((spec_round_up(i.len() as int, 8) - i.len()) as nat));
    lemma_enter_fits(b, s, inline_size(t) as nat);
    let inner = DecodeState {
        offset: s.next_out_of_line,
        end_block: (s.next_out_of_line + pad8(i).len()) as usize,
        next_out_of_line: (s.next_out_of_line + pad8(i).len()) as usize,
        depth: (s.depth + 1) as usize,
        handles_left: s.handles_left,
    };
    lemma_dec_value_wire(t, y, b, inner);
    lemma_leave_zeros(b, s, after(inner, (i, o)), inner.end_block);
}

/// The inline bytes of a union value start with its ordinal and an envelope
/// header that says present.
pub proof fn lemma_union_inline_present(t: FidlType, v: SpecValue)
    requires
        wf_type(t),
        has_type(t, v),
        t is XUnion,
    ensures
        wire(t, v).0.len() == 24,
        wire(t, v).0[16] != 0,
{
    lemma_wire_inline_len(t, v);
    lemma_le_bytes_len(0xffff_ffff_ffff_ffff, 8);
    match t {
        FidlType::XUnion(members, _) => match v {
            SpecValue::Union(o, y) => {
                let k = choose|i: int|
                    0 <= i < members@.len() && #[trigger] members@[i].ordinal == o && has_type(
                        members@[i].ty,
                        *y,
                    );
                lemma_find_member_distinct(members@, o, k);
                let n = envelope(members@[k].ty, *y).1.len();
                lemma_le_bytes_len(o as nat, 8);
                lemma_le_bytes_len(n % 0x1_0000_0000, 4);
                lemma_le_bytes_len(0, 4);
                assert(wire(t, v).0 == le_bytes(o as nat, 8) + envelope_header(n));
                assert(wire(t, v).0[16] == present8()[0]);
            },
            SpecValue::UnknownUnion(o, bytes) => {
                lemma_le_bytes_len(o as nat, 8);
                lemma_le_bytes_len(bytes.len() % 0x1_0000_0000, 4);
                lemma_le_bytes_len(0, 4);
                assert(wire(t, v).0[16] == present8()[0]);
            },
            _ => {},
        },
        _ => {},
    }
}

/// Decoding the wire form of an optional boxed value gives it back.
pub proof fn lemma_dec_nullable_wire(t: FidlType, v: SpecValue, b: Seq<u8>, s: DecodeState)
    requires
        ready(t, v, b, s),
        t is Nullable,
    ensures
        dec_value(t, b, s) == Ok::<(SpecValue, DecodeState), Error>((v, after(s, wire(t, v)))),
    decreases v, 1nat,
{
    lemma_pow256_values();
    lemma_le_bytes_len(0, 8);
    lemma_le_bytes_len(0xffff_ffff_ffff_ffff, 8);
    match t {
        FidlType::Nullable(x) => {
            if *x is XUnion {
                match v {
                    SpecValue::Boxed(None) => {
                        lemma_placed_zeros(b, s.offset as int, 24);
                        assert(wire(t, v).1 =~= Seq::<u8>::empty());
                    },
                    SpecValue::Boxed(Some(y)) => {
                        lemma_union_inline_present(*x, *y);
                        lemma_placed_index(b, s.offset as int, wire(*x, *y).0, 16);
                        lemma_first_nonzero_some(b, s.offset as int, s.offset + 24, s.offset + 16);
                        lemma_dec_value_wire(*x, *y, b, s);
                    },
                    _ => {},
                }
            } else {
                match v {
                    SpecValue::Boxed(None) => {
                        lemma_read_placed(b, s, 0, 8);
                        assert(wire(t, v).1 =~= Seq::<u8>::empty());
                    },
                    SpecValue::Boxed(Some(y)) => {
                        lemma_read_placed(b, s, 0xffff_ffff_ffff_ffff, 8);
                        lemma_dec_boxed_wire(*x, *y, b, advance(s, 8));
                    },
                    _ => {},
                }
            }
        },
        _ => {},
    }
}

/// Reading a present envelope header gives its payload size, no handles and
/// the presence marker.
pub proof fn lemma_read_envelope_header(b: Seq<u8>, s: DecodeState, n: nat)
    requires
        placed(b, s.offset as int, envelope_header(n)),
        n < 0x1_0000_0000,
        b.len() <= usize::MAX,
    ensures
        dec_envelope_header(b, s) == Ok::<(nat, nat, nat, DecodeState), Error>(
            (n, 0, ALLOC_PRESENT_U64 as nat, advance(s, 16)),
        ),
{
    lemma_pow256_values();
    lemma_le_bytes_len(n, 4);
    lemma_le_bytes_len(0, 4);
    lemma_le_bytes_len(0xffff_ffff_ffff_ffff, 8);
    assert(n % 0x1_0000_0000 == n);
    lemma_placed_split(b, s.offset as int, le_bytes(n, 4) + le_bytes(0, 4), present8());
    lemma_placed_split(b, s.offset as int, le_bytes(n, 4), le_bytes(0, 4));
    lemma_read_placed(b, s, n, 4);
    lemma_read_placed(b, advance(s, 4), 0, 4);
    lemma_read_placed(b, advance(advance(s, 4), 4), 0xffff_ffff_ffff_ffff, 8);
}

/// Reading an absent envelope header gives zeros.
pub proof fn lemma_read_absent_envelope(b: Seq<u8>, s: DecodeState)
    requires
        placed(b, s.offset as int, absent_envelope()),
        b.len() <= usize::MAX,
    ensures
        dec_envelope_header(b, s) == Ok::<(nat, nat, nat, DecodeState), Error>(
            (0, 0, 0, advance(s, 16)),
        ),
{
    lemma_pow256_values();
    lemma_le_bytes_len(0, 4);
    lemma_le_bytes_len(0, 8);
    lemma_placed_split(b, s.offset as int, le_bytes(0, 4) + le_bytes(0, 4), absent8());
    lemma_placed_split(b, s.offset as int, le_bytes(0, 4), le_bytes(0, 4));
    lemma_read_placed(b, s, 0, 4);
    lemma_read_placed(b, advance(s, 4), 0, 4);
    lemma_read_placed(b, advance(advance(s, 4), 4), 0, 8);
}

/// No member carries an ordinal that none of them has.
pub proof fn lemma_find_member_none(members: Seq<Member>, o: u64, j: int)
    requires
        forall|i: int| 0 <= i < members.len() ==> #[trigger] members[i].ordinal != o,
    ensures
        find_member(members, o, j) is None,
    decreases members.len() - j,
{
    if 0 <= j < members.len() {
        lemma_find_member_none(members, o, j + 1);
    }
}

/// Decoding the inline part of a union or result holding an envelope of
/// `n` bytes gives its ordinal and the envelope's size.
pub proof fn lemma_read_union_header(b: Seq<u8>, s: DecodeState, o: u64, n: nat)
    requires
        placed(b, s.offset as int, le_bytes(o as nat, 8) + envelope_header(n)),
        n < 0x1_0000_0000,
        b.len() <= usize::MAX,
    ensures
        dec_union_header(b, s) == Ok::<(nat, nat, nat, DecodeState), Error>(
            (o as nat, n, 0, advance(advance(s, 8), 16)),
        ),
{
    lemma_pow256_values();
    lemma_le_bytes_len(o as nat, 8);
    lemma_placed_split(b, s.offset as int, le_bytes(o as nat, 8), envelope_header(n));
    lemma_read_placed(b, s, o as nat, 8);
    lemma_read_envelope_header(b, advance(s, 8), n);
}

/// Decoding the wire form of a known union member gives it back.
pub proof fn lemma_dec_known_union_wire(t: FidlType, v: SpecValue, b: Seq<u8>, s: DecodeState)
    requires
        ready(t, v, b, s),
        t is XUnion,
        v is Union,
    ensures
        dec_value(t, b, s) == Ok::<(SpecValue, DecodeState), Error>((v, after(s, wire(t, v)))),
    decreases v, 0nat,
{
    match t {
        FidlType::XUnion(members, flexible) => match v {
            SpecValue::Union(o, y) => {
                let k = choose|i: int|
                    0 <= i < members@.len() && #[trigger] members@[i].ordinal == o && has_type(
                        members@[i].ty,
                        *y,
                    );
                lemma_find_member_distinct(members@, o, k);
                let ty = members@[k].ty;
                let body = envelope(ty, *y).1;
                assert(envelope_fits(ty, *y));
                assert(envelopes_fit(ty, *y));
                lemma_read_union_header(b, s, o, body.len());
                let s1 = advance(advance(s, 8), 16);
                lemma_dec_boxed_wire(ty, *y, b, s1);
                lemma_envelope_header_len(body.len());
                lemma_le_bytes_len(o as nat, 8);
            },
            _ => {},
        },
        _ => {},
    }
}

/// Decoding the wire form of an unknown member of a flexible union gives it back.
pub proof fn lemma_dec_unknown_union_wire(t: FidlType, v: SpecValue, b: Seq<u8>, s: DecodeState)
    requires
        ready(t, v, b, s),
        t is XUnion,
        v is UnknownUnion,
    ensures
        dec_value(t, b, s) == Ok::<(SpecValue, DecodeState), Error>((v, after(s, wire(t, v)))),
{
    match t {
        FidlType::XUnion(members, flexible) => match v {
            SpecValue::UnknownUnion(o, bytes) => {
                lemma_read_union_header(b, s, o, bytes.len());
                let s1 = advance(advance(s, 8), 16);
                lemma_find_member_none(members@, o, 0);
                lemma_pad8(bytes);
                let padding = zeros((spec_round_up(bytes.len() as int, 8) - bytes.len()) as nat);
                lemma_placed_split(b, s.next_out_of_line as int, bytes, padding);
                lemma_enter_fits(b, s1, bytes.len());
                let inner = DecodeState {
                    offset: s1.next_out_of_line,
                    end_block: (s1.next_out_of_line + pad8(bytes).len()) as usize,
                    next_out_of_line: (s1.next_out_of_line + pad8(bytes).len()) as usize,
                    depth: (s1.depth + 1) as usize,
                    handles_left: s1.handles_left,
                };
                lemma_leave_zeros(b, s1, advance(inner, bytes.len()), inner.end_block);
                lemma_envelope_header_len(bytes.len());
                lemma_le_bytes_len(o as nat, 8);
            },
            _ => {},
        },
        _ => {},
    }
}

/// Decoding the wire form of a union value gives it back.
pub proof fn lemma_dec_union_wire(t: FidlType, v: SpecValue, b: Seq<u8>, s: DecodeState)
    requires
        ready(t, v, b, s),
        t is XUnion,
    ensures
        dec_value(t, b, s) == Ok::<(SpecValue, DecodeState), Error>((v, after(s, wire(t, v)))),
    decreases v, 1nat,
{
    if v is Union {
        lemma_dec_known_union_wire(t, v, b, s);
    } else {
        lemma_dec_unknown_union_wire(t, v, b, s);
    }
}

/// Decoding the wire form of a unit success value gives it back.
pub proof fn lemma_dec_unit_result_wire(t: FidlType, v: SpecValue, b: Seq<u8>, s: DecodeState)
    requires
        ready(t, v, b, s),
        t matches FidlType::Result(ok, _) && inline_size(*ok) == 0,
        v is ResultOk,
    ensures
        dec_value(t, b, s) == Ok::<(SpecValue, DecodeState), Error>((v, after(s, wire(t, v)))),
{
    match t {
        FidlType::Result(ok, err) => match v {
            SpecValue::ResultOk(y) => {
                lemma_read_union_header(b, s, 1, 8);
                let s1 = advance(advance(s, 8), 16);
                lemma_enter_fits(b, s1, 1);
                let inner = DecodeState {
                    offset: s1.next_out_of_line,
                    end_block: (s1.next_out_of_line + 8) as usize,
                    next_out_of_line: (s1.next_out_of_line + 8) as usize,
                    depth: (s1.depth + 1) as usize,
                    handles_left: s1.handles_left,
                };
                assert(zeros(1) + zeros(7) =~= zeros(8));
                lemma_placed_split(b, s.next_out_of_line as int, zeros(1), zeros(7));
                lemma_skip_placed_zeros(b, inner, 1);
                lemma_leave_zeros(b, s1, advance(inner, 1), inner.end_block);
                assert(is_unit(*ok));
                assert(has_type(*ok, *y));
                match *ok {
                    FidlType::Struct(fields, _, _) => {
                        assert(fields@.len() == 0);
                        match *y {
                            SpecValue::Struct(xs) => {
                                assert(xs.len() == 0);
                                assert(xs =~= Seq::<SpecValue>::empty());
                            },
                            _ => {},
                        }
                    },
                    _ => {},
                }
                lemma_envelope_header_len(8);
                lemma_le_bytes_len(1, 8);
            },
            _ => {},
        },
        _ => {},
    }
}

/// Decoding the wire form of a success or error value held in an envelope gives it back.
#[verifier::rlimit(50)]
pub proof fn lemma_dec_enveloped_result_wire(t: FidlType, v: SpecValue, b: Seq<u8>, s: DecodeState)
    requires
        ready(t, v, b, s),
        t matches FidlType::Result(ok, _) && (v is ResultErr || inline_size(*ok) != 0),
    ensures
        dec_value(t, b, s) == Ok::<(SpecValue, DecodeState), Error>((v, after(s, wire(t, v)))),
    decreases v, 0nat,
{
    match t {
        FidlType::Result(ok, err) => match v {
            SpecValue::ResultOk(y) => {
                let body = envelope(*ok, *y).1;
                assert(envelope_fits(*ok, *y));
                assert(envelopes_fit(*ok, *y));
                lemma_read_union_header(b, s, 1, body.len());
                let s1 = advance(advance(s, 8), 16);
                lemma_dec_boxed_wire(*ok, *y, b, s1);
                lemma_envelope_header_len(body.len());
                lemma_le_bytes_len(1, 8);
            },
            SpecValue::ResultErr(y) => {
                let body = envelope(*err, *y).1;
                assert(envelope_fits(*err, *y));
                assert(envelopes_fit(*err, *y));
                lemma_read_union_header(b, s, 2, body.len());
                let s1 = advance(advance(s, 8), 16);
                lemma_dec_boxed_wire(*err, *y, b, s1);
                lemma_envelope_header_len(body.len());
                lemma_le_bytes_len(2, 8);
            },
            _ => {},
        },
        _ => {},
    }
}

/// Decoding the wire form of a result value gives it back.
pub proof fn lemma_dec_result_wire(t: FidlType, v: SpecValue, b: Seq<u8>, s: DecodeState)
    requires
        ready(t, v, b, s),
        t is Result,
    ensures
        dec_value(t, b, s) == Ok::<(SpecValue, DecodeState), Error>((v, after(s, wire(t, v)))),
    decreases v, 1nat,
{
    match t {
        FidlType::Result(ok, _) => {
            if v is ResultOk && inline_size(*ok) == 0 {
                lemma_dec_unit_result_wire(t, v, b, s);
            } else {
                lemma_dec_enveloped_result_wire(t, v, b, s);
            }
        },
        _ => {},
    }
}

/// The entries of a table value past its last present one are absent.
pub proof fn lemma_table_prefix(xs: Seq<Option<SpecValue>>, k: nat)
    requires
        k <= xs.len(),
    ensures
        table_prefix_len(xs, k) <= k,
        forall|i: int| table_prefix_len(xs, k) <= i < k ==> #[trigger] xs[i] is None,
    decreases k,
{
    if k > 0 {
        lemma_table_prefix(xs, (k - 1) as nat);
    }
}

/// The envelopes of the first `k` members of a table value run up to the
/// ordinal of member `k - 1`.
pub proof fn lemma_wire_table_inline_len(members: Seq<Member>, xs: Seq<Option<SpecValue>>, k: nat)
    requires
        k <= xs.len(),
        xs.len() <= members.len(),
        table_ordinals(members),
    ensures
        wire_table(members, xs, k).0.len() == if k == 0 { 0 } else { members[k - 1].ordinal * 16 },
    decreases k,
{
    if k > 0 {
        lemma_wire_table_inline_len(members, xs, (k - 1) as nat);
        lemma_envelope_header_len(0);
        match xs[k - 1] {
            None => {},
            Some(y) => lemma_envelope_header_len(envelope(members[k - 1].ty, y).1.len()),
        }
        assert(1 <= members[k - 1].ordinal);
        if k > 1 {
            assert(members[k - 2].ordinal < members[k - 1].ordinal);
        }
    }
}

/// Skipping the zeroed envelopes of ordinals from `next` up to `ordinal` succeeds.
pub proof fn lemma_skip_zero_fields(b: Seq<u8>, s: DecodeState, next: nat, ordinal: nat)
    requires
        next <= ordinal,
        placed(b, s.offset as int, zeros(((ordinal - next) * 16) as nat)),
        b.len() <= usize::MAX,
    ensures
        skip_unknown_fields(b, s, next, ordinal) == Ok::<DecodeState, Error>(
            advance(s, ((ordinal - next) * 16) as nat),
        ),
    decreases ordinal - next,
{
    if next < ordinal {
        let rest = ((ordinal - next - 1) * 16) as nat;
        assert(zeros(16) + zeros(rest) =~= zeros(((ordinal - next) * 16) as nat));
        lemma_placed_split(b, s.offset as int, zeros(16), zeros(rest));
        lemma_le_bytes_zero(4);
        lemma_le_bytes_zero(8);
        assert(absent_envelope() =~= zeros(16));
        lemma_read_absent_envelope(b, s);
        assert(dec_unknown_field(b, s) == Ok::<DecodeState, Error>(advance(s, 16)));
        lemma_skip_zero_fields(b, advance(s, 16), next + 1, ordinal);
    } else {
        assert(advance(s, 0) == s);
    }
}

/// Decoding the envelope of a table entry gives the entry back.
pub proof fn lemma_dec_member_envelope_wire(t: FidlType, entry: Option<SpecValue>, b: Seq<u8>, s: DecodeState)
    requires
        wf_type(t),
        match entry {
            None => placed(b, s.offset as int, absent_envelope()),
            Some(y) => {
                &&& has_type(t, y)
                &&& envelope_fits(t, y)
                &&& placed(b, s.offset as int, envelope(t, y).0)
                &&& placed(b, s.next_out_of_line as int, envelope(t, y).1)
                &&& s.depth + 1 + nest(t, y, true) <= MAX_RECURSION
            },
        },
        b.len() <= usize::MAX,
    ensures
        dec_member_envelope(t, b, s) == Ok::<(Option<SpecValue>, DecodeState), Error>(
            (
                entry,
                DecodeState {
                    offset: (s.offset + 16) as usize,
                    end_block: s.end_block,
                    next_out_of_line: (s.next_out_of_line + match entry {
                        None => 0,
                        Some(y) => envelope(t, y).1.len(),
                    }) as usize,
                    depth: s.depth,
                    handles_left: s.handles_left,
                },
            ),
        ),
    decreases entry, 0nat,
{
    match entry {
        None => {
            lemma_read_absent_envelope(b, s);
        },
        Some(y) => {
            let body = envelope(t, y).1;
            assert(envelopes_fit(t, y));
            lemma_read_envelope_header(b, s, body.len());
            lemma_dec_boxed_wire(t, y, b, advance(s, 16));
        },
    }
}

/// Bytes standing in `b` include each of their prefixes.
pub proof fn lemma_placed_prefix(b: Seq<u8>, off: int, x: Seq<u8>, p: Seq<u8>)
    requires
        placed(b, off, x),
        p.len() <= x.len(),
        x.subrange(0, p.len() as int) == p,
    ensures
        placed(b, off, p),
{
    assert(b.subrange(off, off + p.len()) =~= x.subrange(0, p.len() as int));
}

/// The envelopes of the first `k` members of a table value start those of the first `n`.
pub proof fn lemma_wire_table_prefix(members: Seq<Member>, xs: Seq<Option<SpecValue>>, k: nat, n: nat)
    requires
        k <= n <= xs.len(),
    ensures
        wire_table(members, xs, k).0.len() <= wire_table(members, xs, n).0.len(),
        wire_table(members, xs, n).0.subrange(0, wire_table(members, xs, k).0.len() as int)
            == wire_table(members, xs, k).0,
        wire_table(members, xs, k).1.len() <= wire_table(members, xs, n).1.len(),
        wire_table(members, xs, n).1.subrange(0, wire_table(members, xs, k).1.len() as int)
            == wire_table(members, xs, k).1,
    decreases n,
{
    if k < n {
        lemma_wire_table_prefix(members, xs, k, (n - 1) as nat);
        let (a, bb) = wire_table(members, xs, (n - 1) as nat);
        let (c, d) = wire_table(members, xs, n);
        let (ka, kb) = wire_table(members, xs, k);
        assert(c.subrange(0, a.len() as int) =~= a);
        assert(d.subrange(0, bb.len() as int) =~= bb);
        assert(c.subrange(0, ka.len() as int) =~= a.subrange(0, ka.len() as int));
        assert(d.subrange(0, kb.len() as int) =~= bb.subrange(0, kb.len() as int));
    } else {
        assert(wire_table(members, xs, n).0.subrange(0, wire_table(members, xs, n).0.len() as int)
            =~= wire_table(members, xs, n).0);
        assert(wire_table(members, xs, n).1.subrange(0, wire_table(members, xs, n).1.len() as int)
            =~= wire_table(members, xs, n).1);
    }
}

/// The next ordinal to read once the first `k` members of a table have been
/// decoded, when the envelopes run up to member `n - 1`.
pub open spec fn members_next(members: Seq<Member>, n: nat, k: nat) -> nat {
    if k <= n {
        if k == 0 { 0 } else { members[k - 1].ordinal as nat }
    } else {
        (if n == 0 { 0 } else { members[n - 1].ordinal as nat }) + (k - n) as nat
    }
}

/// Decoding the envelopes of the first `k` members of a table value gives
/// its first `k` entries back.
#[verifier::rlimit(100)]
#[verifier::spinoff_prover]
pub proof fn lemma_dec_members_wire(
    members: Seq<Member>,
    xs: Seq<Option<SpecValue>>,
    b: Seq<u8>,
    s0: DecodeState,
    n: nat,
    k: nat,
)
    requires
        table_ordinals(members),
        forall|i: int| 0 <= i < members.len() ==> wf_type(#[trigger] members[i].ty),
        xs.len() == members.len(),
        k <= xs.len(),
        n == table_prefix_len(xs, xs.len()),
        forall|i: int|
            0 <= i < xs.len() ==> match #[trigger] xs[i] {
                None => true,
                Some(y) => has_type(members[i].ty, y) && envelope_fits(members[i].ty, y),
            },
        placed(b, s0.offset as int, wire_table(members, xs, n).0),
        placed(b, s0.next_out_of_line as int, wire_table(members, xs, n).1),
        s0.end_block == s0.offset + wire_table(members, xs, n).0.len(),
        s0.depth + nest_table(members, xs, n, true) <= MAX_RECURSION,
        b.len() <= usize::MAX,
    ensures
        dec_members(members, b, s0, k) == Ok::<(Seq<Option<SpecValue>>, DecodeState, nat), Error>(
            (
                xs.subrange(0, k as int),
                after(s0, wire_table(members, xs, if k <= n { k } else { n })),
                members_next(members, n, k),
            ),
        ),
    decreases xs, k,
{
    lemma_table_prefix(xs, xs.len());
    if k == 0 {
        assert(xs.subrange(0, 0) =~= Seq::<Option<SpecValue>>::empty());
        assert(after(s0, wire_table(members, xs, 0)) == s0);
    } else {
        let k1 = (k - 1) as nat;
        lemma_dec_members_wire(members, xs, b, s0, n, k1);
        lemma_wire_table_inline_len(members, xs, n);
        assert(xs.subrange(0, k1 as int).push(xs[k1 as int]) =~= xs.subrange(0, k as int));
        if k1 < n {
            let st1 = after(s0, wire_table(members, xs, k1));
            let nx1 = members_next(members, n, k1);
            lemma_wire_table_inline_len(members, xs, k1);
            lemma_wire_table_inline_len(members, xs, k);
            assert(1 <= members[k1 as int].ordinal);
            assert(1 <= members[n - 1].ordinal);
            if k1 > 0 {
                assert(members[k1 - 1].ordinal < members[k1 as int].ordinal);
                if k1 < n - 1 {
                    assert(members[k1 - 1].ordinal < members[n - 1].ordinal);
                }
            }
            assert(st1.offset < s0.end_block);
            lemma_wire_table_prefix(members, xs, k, n);
            lemma_placed_prefix(b, s0.offset as int, wire_table(members, xs, n).0, wire_table(members, xs, k).0);
            lemma_placed_prefix(b, s0.next_out_of_line as int, wire_table(members, xs, n).1, wire_table(members, xs, k).1);
            let (a, bb) = wire_table(members, xs, k1);
            let gap_start = if k == 1 { 0 } else { members[k - 2].ordinal * 16 };
            let gap = ((members[k - 1].ordinal - 1) * 16 - gap_start) as nat;
            let e = match xs[k1 as int] {
                None => (absent_envelope(), Seq::<u8>::empty()),
                Some(y) => envelope(members[k1 as int].ty, y),
            };
            assert(wire_table(members, xs, k).0 == a + zeros(gap) + e.0);
            lemma_placed_split(b, s0.offset as int, a + zeros(gap), e.0);
            lemma_placed_split(b, s0.offset as int, a, zeros(gap));
            lemma_placed_split(b, s0.next_out_of_line as int, bb, e.1);
            assert(gap == (members[k1 as int].ordinal - (nx1 + 1)) * 16);
            lemma_skip_zero_fields(b, st1, nx1 + 1, members[k1 as int].ordinal as nat);
            let st2 = advance(st1, gap);
            match xs[k1 as int] {
                None => {},
                Some(y) => {
                    lemma_nest_table_ge(members, xs, n, k1 as int, true);
                },
            }
            lemma_dec_member_envelope_wire(members[k1 as int].ty, xs[k1 as int], b, st2);
            lemma_envelope_header_len(0);
            match xs[k1 as int] {
                None => {
                    assert(e.1 =~= Seq::<u8>::empty());
                },
                Some(y) => {
                    lemma_envelope_header_len(envelope(members[k1 as int].ty, y).1.len());
                },
            }
        } else {
            assert(xs[k1 as int] is None);
        }
    }
}

/// Decoding the wire form of a table value gives it back.
pub proof fn lemma_dec_table_wire(t: FidlType, v: SpecValue, b: Seq<u8>, s: DecodeState)
    requires
        ready(t, v, b, s),
        t is Table,
    ensures
        dec_value(t, b, s) == Ok::<(SpecValue, DecodeState), Error>((v, after(s, wire(t, v)))),
    decreases v, 1nat,
{
    lemma_pow256_values();
    lemma_le_bytes_len(0xffff_ffff_ffff_ffff, 8);
    match t {
        FidlType::Table(members) => match v {
            SpecValue::Table(xs) => {
                let n = table_prefix_len(xs, xs.len());
                lemma_table_prefix(xs, xs.len());
                let max_ordinal = if n == 0 { 0 } else { members@[n - 1].ordinal as nat };
                let (i, o) = wire_table(members@, xs, n);
                lemma_le_bytes_len(max_ordinal, 8);
                if n > 0 {
                    assert(members@[n - 1].ordinal <= super::wire::MAX_TABLE_ORDINAL);
                }
                lemma_placed_split(b, s.offset as int, le_bytes(max_ordinal, 8), present8());
                lemma_read_placed(b, s, max_ordinal, 8);
                lemma_read_placed(b, advance(s, 8), 0xffff_ffff_ffff_ffff, 8);
                let s2 = advance(advance(s, 8), 8);
                lemma_wire_table_inline_len(members@, xs, n);
                lemma_pad8(i);
                assert(pad8(i) =~= i);
                assert forall|j: int| 0 <= j < xs.len() implies match #[trigger] xs[j] {
                    None => true,
                    Some(y) => has_type(members@[j].ty, y) && envelope_fits(members@[j].ty, y),
                } by {
                    match xs[j] {
                        None => {},
                        Some(y) => {
                            assert(has_type(members@[j].ty, y));
                        },
                    }
                }
                lemma_placed_split(b, s.next_out_of_line as int, i, o);
                lemma_enter_fits(b, s2, max_ordinal * 16);
                let inner = DecodeState {
                    offset: s2.next_out_of_line,
                    end_block: (s2.next_out_of_line + i.len()) as usize,
                    next_out_of_line: (s2.next_out_of_line + i.len()) as usize,
                    depth: (s2.depth + 1) as usize,
                    handles_left: s2.handles_left,
                };
                lemma_dec_members_wire(members@, xs, b, inner, n, xs.len());
                assert(xs.subrange(0, xs.len() as int) =~= xs);
                let inner2 = after(inner, (i, o));
                assert(skip_remaining_fields(b, inner2) == Ok::<DecodeState, Error>(inner2));
                lemma_first_nonzero_zeros(b, inner2.offset as int, inner.end_block as int);
            },
            _ => {},
        },
        _ => {},
    }
}

/// Decoding a message that holds a value gives the value back.
///
/// This holds of every well-typed value of a well-formed type whose message
/// fits in memory, whose envelopes each hold fewer than 2^32 bytes (the most
/// an envelope header can tell), and whose out-of-line blocks, counting
/// those of empty vectors, nest no deeper than the decoder allows.
pub proof fn lemma_decode_encode(t: FidlType, v: SpecValue)
    requires
        wf_type(t),
        has_type(t, v),
        envelopes_fit(t, v),
        nest(t, v, true) <= MAX_RECURSION,
        message(t, v).len() <= usize::MAX,
    ensures
        decode_message(t, message(t, v), 0) == Ok::<SpecValue, Error>(v),
{
    let b = message(t, v);
    let (i, o) = wire(t, v);
    lemma_wire_inline_len(t, v);
    lemma_inline_size_bounds(t);
    lemma_pad8(i);
    let next = spec_round_up(inline_size(t), 8);
    let start = DecodeState {
        offset: 0,
        end_block: next as usize,
        next_out_of_line: next as usize,
        depth: 0,
        handles_left: 0,
    };
    let pad = zeros((spec_round_up(i.len() as int, 8) - i.len()) as nat);
    assert(b.subrange(0, b.len() as int) =~= b);
    lemma_placed_split(b, 0, pad8(i), o);
    lemma_placed_split(b, 0, i, pad);
    lemma_dec_value_wire(t, v, b, start);
    lemma_placed_zeros(b, i.len() as int, pad.len());
}

/// Decoding a transaction message that holds a header and a value gives both
/// back: the header from its first bytes, the value from the rest.
pub proof fn lemma_transaction_message_roundtrip(h: TransactionHeaderView, t: FidlType, v: SpecValue)
    requires
        h.flags.len() == 3,
        wf_type(t),
        has_type(t, v),
        envelopes_fit(t, v),
        nest(t, v, true) <= MAX_RECURSION,
        message(t, v).len() <= usize::MAX,
    ensures
        ({
            let bytes = transaction_header_bytes(h) + message(t, v);
            &&& bytes.len() >= HEADER_SIZE
            &&& transaction_header_of_bytes(bytes) == h
            &&& decode_message(t, bytes.subrange(HEADER_SIZE as int, bytes.len() as int), 0) == Ok::<
                SpecValue,
                Error,
            >(v)
        }),
{
    lemma_transaction_header_roundtrip(h, message(t, v));
    lemma_le_bytes_len(h.tx_id as nat, 4);
    lemma_le_bytes_len(h.ordinal as nat, 8);
    lemma_decode_encode(t, v);
}

/// Decoding a value stored in persistent form, after its header, gives it back.
pub proof fn lemma_persistent_roundtrip(h: PersistentHeaderView, t: FidlType, v: SpecValue)
    requires
        h.flags.len() == 3,
        wf_type(t),
        has_type(t, v),
        envelopes_fit(t, v),
        nest(t, v, true) <= MAX_RECURSION,
        message(t, v).len() <= usize::MAX,
    ensures
        ({
            let bytes = persistent_header_bytes(h) + message(t, v);
            &&& bytes.len() >= HEADER_SIZE
            &&& persistent_header_decoding(bytes.subrange(0, HEADER_SIZE as int)) == Ok::<
                (Seq<u8>, u8),
                Error,
            >((h.flags, h.magic_number))
            &&& decode_message(t, bytes.subrange(HEADER_SIZE as int, bytes.len() as int), 0) == Ok::<
                SpecValue,
                Error,
            >(v)
        }),
{
    let bytes = persistent_header_bytes(h) + message(t, v);
    lemma_persistent_header_roundtrip(h);
    assert(bytes.subrange(0, HEADER_SIZE as int) =~= persistent_header_bytes(h));
    assert(bytes.subrange(HEADER_SIZE as int, bytes.len() as int) =~= message(t, v));
    lemma_decode_encode(t, v);
}

} // verus!
