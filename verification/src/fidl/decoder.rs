use vstd::prelude::*;
use super::bytes::{le_value, lemma_le_value_bound, lemma_pow256_values, pow256, read_le};
use super::decode::{
    advance, dec_array, dec_boxed, dec_unit_block, dec_elements, dec_envelope_header, dec_fields, dec_member_envelope,
    dec_members, dec_nullable, dec_prim, dec_result, dec_string, dec_struct, dec_table,
    dec_union, dec_union_header, dec_unknown_field, dec_value, dec_vector, dec_vector_header,
    enter_block, leave_block, lemma_dec_elements_err, lemma_dec_fields_err,
    lemma_dec_members_err, prim_of, read_num, skip_padding, skip_remaining_fields,
    skip_unknown_fields, DecodeState,
};
use super::encode::find_member;
use super::encoder::views;
use super::header::first_nonzero;
use super::layout::{
    field_end, field_start_of_gap, inline_size, is_int_prim, is_unsigned_prim, spec_round_up,
    table_ordinals, wf_type,
};
use super::wire::{
    lemma_view_opt_seq, lemma_view_opt_seq_push, lemma_view_seq, lemma_view_seq_push,
    view_opt_seq, view_seq, view_value, Error, FidlType, Member, SpecValue, StructField, Value,
    ALLOC_ABSENT_U64, ALLOC_PRESENT_U64, MAX_RECURSION,
};
use vstd::utf8::valid_utf8;

verus! {

/// Whether the positions of `s` lie inside a buffer of `len` bytes and its
/// depth is within the limit.
pub open spec fn state_ok(len: nat, s: DecodeState) -> bool {
    &&& len <= usize::MAX
    &&& s.offset <= len
    &&& s.end_block <= len
    &&& s.next_out_of_line <= len
    &&& s.depth <= MAX_RECURSION
}

/// Calls `std::str::from_utf8` and tells whether it accepted `b`. Its result
/// is claimed to be whether `b` is well-formed UTF-8, as vstd defines it.
#[verifier::external_body]
fn is_utf8(b: &[u8]) -> (r: bool)
    ensures
        r == valid_utf8(b@),
{
    std::str::from_utf8(b).is_ok()
}

/// Reads the number whose `n` little-endian bytes are at the offset.
pub fn read_num_at(buf: &[u8], s: DecodeState, n: usize) -> (r: Result<(u64, DecodeState), Error>)
    requires
        n <= 8,
        state_ok(buf@.len(), s),
    ensures
        match r {
            Ok((x, s2)) => read_num(buf@, s, n as nat) == Ok::<(nat, DecodeState), Error>((x as nat, s2))
                && state_ok(buf@.len(), s2),
            Err(e) => read_num(buf@, s, n as nat) == Err::<(nat, DecodeState), Error>(e),
        },
{
    if n > buf.len() - s.offset {
        return Err(Error::OutOfRange);
    }
    let x = read_le(buf, s.offset, n);
    let s2 = DecodeState {
        offset: s.offset + n,
        end_block: s.end_block,
        next_out_of_line: s.next_out_of_line,
        depth: s.depth,
        handles_left: s.handles_left,
    };
    Ok((x, s2))
}

/// Finds the first non-zero byte of `b` in `[from, to)`.
pub fn find_nonzero_in(b: &[u8], from: usize, to: usize) -> (r: Option<usize>)
    requires
        to <= b@.len(),
    ensures
        match r {
            None => first_nonzero(b@, from as int, to as int) is None,
            Some(i) => first_nonzero(b@, from as int, to as int) == Some(i as int),
        },
    decreases to - from,
{
    if from >= to {
        None
    } else if b[from] != 0 {
        Some(from)
    } else {
        find_nonzero_in(b, from + 1, to)
    }
}

/// Skips `n` bytes of padding at the offset, which must be zero.
pub fn skip_padding_at(buf: &[u8], s: DecodeState, n: usize) -> (r: Result<DecodeState, Error>)
    requires
        state_ok(buf@.len(), s),
    ensures
        match r {
            Ok(s2) => skip_padding(buf@, s, n as nat) == Ok::<DecodeState, Error>(s2) && state_ok(
                buf@.len(),
                s2,
            ),
            Err(e) => skip_padding(buf@, s, n as nat) == Err::<DecodeState, Error>(e),
        },
{
    if n == 0 {
        return Ok(s);
    }
    if n > buf.len() - s.offset {
        return Err(Error::OutOfRange);
    }
    match find_nonzero_in(buf, s.offset, s.offset + n) {
        Some(i) => Err(Error::NonZeroPadding { padding_start: s.offset, non_zero_pos: i }),
        None => Ok(
            DecodeState {
                offset: s.offset + n,
                end_block: s.end_block,
                next_out_of_line: s.next_out_of_line,
                depth: s.depth,
                handles_left: s.handles_left,
            },
        ),
    }
}

/// Enters the next out-of-line block, of `len` bytes rounded up to eight.
pub fn enter_block_at(buf: &[u8], s: DecodeState, len: u64) -> (r: Result<DecodeState, Error>)
    requires
        state_ok(buf@.len(), s),
    ensures
        match r {
            Ok(s2) => enter_block(buf@, s, len as nat) == Ok::<DecodeState, Error>(s2) && state_ok(
                buf@.len(),
                s2,
            ),
            Err(e) => enter_block(buf@, s, len as nat) == Err::<DecodeState, Error>(e),
        },
{
    let room = (buf.len() - s.next_out_of_line) as u64;
    if len > room {
        assert(spec_round_up(len as int, 8) >= len);
        return Err(Error::OutOfRange);
    }
    let l = len as usize;
    let padded: usize = if l % 8 == 0 {
        l
    } else {
        if 8 - l % 8 > room as usize - l {
            return Err(Error::OutOfRange);
        }
        l + (8 - l % 8)
    };
    let next = s.next_out_of_line + padded;
    if s.depth + 1 > MAX_RECURSION {
        return Err(Error::MaxRecursionDepth);
    }
    Ok(
        DecodeState {
            offset: s.next_out_of_line,
            end_block: next,
            next_out_of_line: next,
            depth: s.depth + 1,
            handles_left: s.handles_left,
        },
    )
}

/// Leaves an out-of-line block that ends at `block_end`: the bytes left in it
/// must be zero; the decoder goes back to where it stood in `outer`.
pub fn leave_block_at(buf: &[u8], outer: DecodeState, inner: DecodeState, block_end: usize) -> (r: Result<
    DecodeState,
    Error,
>)
    requires
        state_ok(buf@.len(), outer),
        state_ok(buf@.len(), inner),
        block_end <= buf@.len(),
    ensures
        match r {
            Ok(s2) => leave_block(buf@, outer, inner, block_end) == Ok::<DecodeState, Error>(s2)
                && state_ok(buf@.len(), s2),
            Err(e) => leave_block(buf@, outer, inner, block_end) == Err::<DecodeState, Error>(e),
        },
{
    match find_nonzero_in(buf, inner.offset, block_end) {
        Some(i) => Err(Error::NonZeroPadding { padding_start: inner.offset, non_zero_pos: i }),
        None => Ok(
            DecodeState {
                offset: outer.offset,
                end_block: outer.end_block,
                next_out_of_line: inner.next_out_of_line,
                depth: outer.depth,
                handles_left: inner.handles_left,
            },
        ),
    }
}

/// Copies `len` bytes of `buf` from `from`.
pub fn copy_bytes(buf: &[u8], from: usize, len: usize) -> (r: Vec<u8>)
    requires
        from + len <= buf@.len(),
    ensures
        r@ == buf@.subrange(from as int, from + len),
{
    let mut out: Vec<u8> = Vec::new();
    let mut i: usize = 0;
    let blen = buf.len();
    while i < len
        invariant
            i <= len,
            from + len <= buf@.len(),
            blen == buf@.len(),
            out@ == buf@.subrange(from as int, from + i),
        decreases len - i,
    {
        out.push(buf[from + i]);
        i = i + 1;
        assert(out@ =~= buf@.subrange(from as int, from + i));
    }
    out
}

/// The decoded value in a result, taken by its view.
pub open spec fn lift(r: Result<(Value, DecodeState), Error>) -> Result<(SpecValue, DecodeState), Error> {
    match r {
        Ok((v, s)) => Ok((v@, s)),
        Err(e) => Err(e),
    }
}

/// Decodes a boolean or integer of type `t`.
fn dec_prim_at(t: &FidlType, buf: &[u8], s: DecodeState) -> (r: Result<(Value, DecodeState), Error>)
    requires
        state_ok(buf@.len(), s),
        *t is Bool || is_int_prim(*t),
    ensures
        lift(r) == dec_prim(*t, buf@, s),
        r matches Ok((_, s2)) ==> state_ok(buf@.len(), s2),
{
    let n: usize = match t {
        FidlType::Bool | FidlType::U8 | FidlType::I8 => 1,
        FidlType::U16 | FidlType::I16 => 2,
        FidlType::U32 | FidlType::I32 => 4,
        _ => 8,
    };
    let (x, s2) = match read_num_at(buf, s, n) {
        Ok(p) => p,
        Err(e) => return Err(e),
    };
    proof {
        lemma_pow256_values();
        lemma_le_value_bound(buf@.subrange(s.offset as int, s.offset + n));
    }
    let v = match t {
        FidlType::Bool => {
            if x > 1 {
                return Err(Error::Invalid);
            }
            Value::Bool(x == 1)
        },
        FidlType::U8 => Value::U8(x as u8),
        FidlType::I8 => Value::I8((x as u8) as i8),
        FidlType::U16 => Value::U16(x as u16),
        FidlType::I16 => Value::I16((x as u16) as i16),
        FidlType::U32 => Value::U32(x as u32),
        FidlType::I32 => Value::I32((x as u32) as i32),
        FidlType::U64 => Value::U64(x),
        _ => Value::I64(x as i64),
    };
    Ok((v, s2))
}

/// Whether `x` is one of the values of an enum.
fn enum_contains(members: &Vec<i128>, x: i128) -> (r: bool)
    ensures
        r == super::layout::enum_member(members@, x as int),
{
    let mut i: usize = 0;
    while i < members.len()
        invariant
            i <= members@.len(),
            forall|j: int| 0 <= j < i ==> members@[j] as int != x as int,
        decreases members@.len() - i,
    {
        if members[i] == x {
            return true;
        }
        i = i + 1;
    }
    false
}

/// Decodes a value of type `t` at the offset, and the out-of-line blocks it owns.
pub fn dec_value_at(t: &FidlType, buf: &[u8], s: DecodeState) -> (r: Result<(Value, DecodeState), Error>)
    requires
        wf_type(*t),
        state_ok(buf@.len(), s),
    ensures
        lift(r) == dec_value(*t, buf@, s),
        r matches Ok((_, s2)) ==> state_ok(buf@.len(), s2),
    decreases t, 0nat, 2nat,
{
    match t {
        FidlType::Bits(p, mask) => {
            let (v, s2) = match dec_prim_at(p, buf, s) {
                Ok(x) => x,
                Err(e) => return Err(e),
            };
            let bits: u64 = match &v {
                Value::U8(x) => *x as u64,
                Value::U16(x) => *x as u64,
                Value::U32(x) => *x as u64,
                Value::U64(x) => *x,
                _ => 0,
            };
            assert(bits == super::layout::prim_bits(v@));
            if bits & !*mask != 0 {
                return Err(Error::Invalid);
            }
            Ok((v, s2))
        },
        FidlType::Enum(p, members) => {
            let (v, s2) = match dec_prim_at(p, buf, s) {
                Ok(x) => x,
                Err(e) => return Err(e),
            };
            let x: i128 = match &v {
                Value::U8(x) => *x as i128,
                Value::I8(x) => *x as i128,
                Value::U16(x) => *x as i128,
                Value::I16(x) => *x as i128,
                Value::U32(x) => *x as i128,
                Value::I32(x) => *x as i128,
                Value::U64(x) => *x as i128,
                Value::I64(x) => *x as i128,
                _ => 0,
            };
            assert(x as int == super::layout::prim_int(v@));
            if enum_contains(members, x) {
                Ok((v, s2))
            } else {
                Err(Error::Invalid)
            }
        },
        FidlType::Array(..) => dec_array_at(t, buf, s),
        FidlType::Vector(..) => decode_vec(t, buf, s),
        FidlType::String(..) => decode_string(t, buf, s),
        FidlType::Struct(..) => dec_struct_at(t, buf, s),
        FidlType::EmptyStruct => {
            let (x, s2) = match read_num_at(buf, s, 1) {
                Ok(p) => p,
                Err(e) => return Err(e),
            };
            if x == 0 {
                Ok((Value::EmptyStruct, s2))
            } else {
                Err(Error::Invalid)
            }
        },
        FidlType::Nullable(..) => dec_nullable_at(t, buf, s),
        FidlType::Table(..) => dec_table_at(t, buf, s),
        FidlType::XUnion(..) => dec_union_at(t, buf, s),
        FidlType::Result(..) => dec_result_at(t, buf, s),
        _ => dec_prim_at(t, buf, s),
    }
}

/// Decodes `k` values of type `t`, one after the other.
fn dec_elements_at(t: &FidlType, buf: &[u8], s: DecodeState, k: usize) -> (r: Result<
    (Vec<Value>, DecodeState),
    Error,
>)
    requires
        wf_type(*t),
        state_ok(buf@.len(), s),
    ensures
        match r {
            Ok((xs, s2)) => dec_elements(*t, buf@, s, k as nat) == Ok::<
                (Seq<SpecValue>, DecodeState),
                Error,
            >((views(xs), s2)) && state_ok(buf@.len(), s2) && xs@.len() == k,
            Err(e) => dec_elements(*t, buf@, s, k as nat) == Err::<(Seq<SpecValue>, DecodeState), Error>(e),
        },
    decreases t, 1nat, 0nat,
{
    let mut xs: Vec<Value> = Vec::new();
    let mut cur = s;
    let mut i: usize = 0;
    assert(views(xs) =~= Seq::<SpecValue>::empty());
    while i < k
        invariant
            i <= k,
            wf_type(*t),
            state_ok(buf@.len(), cur),
            xs@.len() == i,
            dec_elements(*t, buf@, s, i as nat) == Ok::<(Seq<SpecValue>, DecodeState), Error>(
                (views(xs), cur),
            ),
        decreases k - i,
    {
        match dec_value_at(t, buf, cur) {
            Ok((x, s2)) => {
                proof {
                    lemma_view_seq_push(xs@, x);
                }
                xs.push(x);
                cur = s2;
                i = i + 1;
            },
            Err(e) => {
                proof {
                    lemma_dec_elements_err(*t, buf@, s, (i + 1) as nat, k as nat);
                }
                return Err(e);
            },
        }
    }
    Ok((xs, cur))
}

/// Decodes an array value.
fn dec_array_at(t: &FidlType, buf: &[u8], s: DecodeState) -> (r: Result<(Value, DecodeState), Error>)
    requires
        wf_type(*t),
        *t is Array,
        state_ok(buf@.len(), s),
    ensures
        lift(r) == dec_array(*t, buf@, s),
        r matches Ok((_, s2)) ==> state_ok(buf@.len(), s2),
    decreases t, 0nat, 1nat,
{
    match t {
        FidlType::Array(e, n) => match dec_elements_at(e, buf, s, *n) {
            Ok((xs, s2)) => Ok((Value::Array(xs), s2)),
            Err(err) => Err(err),
        },
        _ => Err(Error::Invalid),
    }
}

/// Decodes the length and presence marker of a vector or string.
fn dec_vector_header_at(buf: &[u8], s: DecodeState) -> (r: Result<(Option<u64>, DecodeState), Error>)
    requires
        state_ok(buf@.len(), s),
    ensures
        match r {
            Ok((None, s2)) => dec_vector_header(buf@, s) == Ok::<(Option<nat>, DecodeState), Error>(
                (None, s2),
            ) && state_ok(buf@.len(), s2),
            Ok((Some(len), s2)) => dec_vector_header(buf@, s) == Ok::<
                (Option<nat>, DecodeState),
                Error,
            >((Some(len as nat), s2)) && state_ok(buf@.len(), s2),
            Err(e) => dec_vector_header(buf@, s) == Err::<(Option<nat>, DecodeState), Error>(e),
        },
{
    let (len, s1) = match read_num_at(buf, s, 8) {
        Ok(p) => p,
        Err(e) => return Err(e),
    };
    let (present, s2) = match read_num_at(buf, s1, 8) {
        Ok(p) => p,
        Err(e) => return Err(e),
    };
    if present == ALLOC_ABSENT_U64 {
        if len == 0 {
            Ok((None, s2))
        } else {
            Err(Error::UnexpectedNullRef)
        }
    } else if present == ALLOC_PRESENT_U64 {
        Ok((Some(len), s2))
    } else {
        Err(Error::Invalid)
    }
}

/// Decodes a vector value.
pub fn decode_vec(t: &FidlType, buf: &[u8], s: DecodeState) -> (r: Result<(Value, DecodeState), Error>)
    requires
        wf_type(*t),
        *t is Vector,
        state_ok(buf@.len(), s),
    ensures
        lift(r) == dec_vector(*t, buf@, s),
        r matches Ok((_, s2)) ==> state_ok(buf@.len(), s2),
    decreases t, 0nat, 1nat,
{
    match t {
        FidlType::Vector(e, nullable) => {
            let (header, s2) = match dec_vector_header_at(buf, s) {
                Ok(p) => p,
                Err(err) => return Err(err),
            };
            match header {
                None => if *nullable {
                    Ok((Value::Vector(None), s2))
                } else {
                    Err(Error::NotNullable)
                },
                Some(len) => {
                    let size = e.inline_size_of();
                    let bytes_len = match len.checked_mul(size as u64) {
                        Some(n) => n,
                        None => {
                            assert(spec_round_up((len * size) as int, 8) >= len * size);
                            return Err(Error::OutOfRange);
                        },
                    };
                    let inner = match enter_block_at(buf, s2, bytes_len) {
                        Ok(p) => p,
                        Err(err) => return Err(err),
                    };
                    assert(len <= len * size) by (nonlinear_arith)
                        requires
                            size >= 1,
                    ;
                    assert(spec_round_up((len * size) as int, 8) >= len * size);
                    let (xs, inner2) = match dec_elements_at(e, buf, inner, len as usize) {
                        Ok(p) => p,
                        Err(err) => return Err(err),
                    };
                    let s3 = match leave_block_at(buf, s2, inner2, inner.end_block) {
                        Ok(p) => p,
                        Err(err) => return Err(err),
                    };
                    Ok((Value::Vector(Some(xs)), s3))
                },
            }
        },
        _ => Err(Error::Invalid),
    }
}

/// Decodes a string value.
pub fn decode_string(t: &FidlType, buf: &[u8], s: DecodeState) -> (r: Result<(Value, DecodeState), Error>)
    requires
        *t is String,
        state_ok(buf@.len(), s),
    ensures
        lift(r) == dec_string(*t, buf@, s),
        r matches Ok((_, s2)) ==> state_ok(buf@.len(), s2),
{
    match t {
        FidlType::String(nullable) => {
            let (header, s2) = match dec_vector_header_at(buf, s) {
                Ok(p) => p,
                Err(err) => return Err(err),
            };
            match header {
                None => if *nullable {
                    Ok((Value::Str(None), s2))
                } else {
                    Err(Error::NotNullable)
                },
                Some(len) => {
                    let inner = match enter_block_at(buf, s2, len) {
                        Ok(p) => p,
                        Err(err) => return Err(err),
                    };
                    assert(spec_round_up(len as int, 8) >= len);
                    let bytes = copy_bytes(buf, inner.offset, len as usize);
                    if !is_utf8(bytes.as_slice()) {
                        return Err(Error::Utf8Error);
                    }
                    let inner2 = DecodeState {
                        offset: inner.offset + len as usize,
                        end_block: inner.end_block,
                        next_out_of_line: inner.next_out_of_line,
                        depth: inner.depth,
                        handles_left: inner.handles_left,
                    };
                    let s3 = match leave_block_at(buf, s2, inner2, inner.end_block) {
                        Ok(p) => p,
                        Err(err) => return Err(err),
                    };
                    Ok((Value::Str(Some(bytes)), s3))
                },
            }
        },
        _ => Err(Error::Invalid),
    }
}

/// Decodes the first `k` fields of a struct, skipping the padding before each.
fn dec_fields_at(fields: &Vec<StructField>, buf: &[u8], s: DecodeState) -> (r: Result<
    (Vec<Value>, DecodeState),
    Error,
>)
    requires
        forall|i: int| 0 <= i < fields@.len() ==> wf_type(#[trigger] fields@[i].ty),
        forall|i: int|
            0 <= i < fields@.len() ==> field_start_of_gap(fields@, i) <= #[trigger] fields@[i].offset,
        state_ok(buf@.len(), s),
    ensures
        match r {
            Ok((xs, s2)) => dec_fields(fields@, buf@, s, fields@.len()) == Ok::<
                (Seq<SpecValue>, DecodeState),
                Error,
            >((views(xs), s2)) && state_ok(buf@.len(), s2) && xs@.len() == fields@.len(),
            Err(e) => dec_fields(fields@, buf@, s, fields@.len()) == Err::<
                (Seq<SpecValue>, DecodeState),
                Error,
            >(e),
        },
    decreases fields, 0nat, 0nat,
{
    let mut xs: Vec<Value> = Vec::new();
    let mut cur = s;
    let mut i: usize = 0;
    assert(views(xs) =~= Seq::<SpecValue>::empty());
    while i < fields.len()
        invariant
            i <= fields@.len(),
            forall|j: int| 0 <= j < fields@.len() ==> wf_type(#[trigger] fields@[j].ty),
            forall|j: int|
                0 <= j < fields@.len() ==> field_start_of_gap(fields@, j) <= #[trigger] fields@[j].offset,
            state_ok(buf@.len(), cur),
            xs@.len() == i,
            dec_fields(fields@, buf@, s, i as nat) == Ok::<(Seq<SpecValue>, DecodeState), Error>(
                (views(xs), cur),
            ),
        decreases fields@.len() - i,
    {
        assert(field_start_of_gap(fields@, i as int) <= fields@[i as int].offset);
        let start: usize = if i == 0 {
            0
        } else {
            let sz = fields[i - 1].ty.inline_size_of();
            fields[i - 1].offset + sz
        };
        let s1 = match skip_padding_at(buf, cur, fields[i].offset - start) {
            Ok(p) => p,
            Err(e) => {
                proof {
                    lemma_dec_fields_err(fields@, buf@, s, (i + 1) as nat, fields@.len());
                }
                return Err(e);
            },
        };
        match dec_value_at(&fields[i].ty, buf, s1) {
            Ok((x, s2)) => {
                proof {
                    lemma_view_seq_push(xs@, x);
                }
                xs.push(x);
                cur = s2;
                i = i + 1;
            },
            Err(e) => {
                proof {
                    lemma_dec_fields_err(fields@, buf@, s, (i + 1) as nat, fields@.len());
                }
                return Err(e);
            },
        }
    }
    Ok((xs, cur))
}

/// Decodes a struct value: its fields, then the padding up to its size.
fn dec_struct_at(t: &FidlType, buf: &[u8], s: DecodeState) -> (r: Result<(Value, DecodeState), Error>)
    requires
        wf_type(*t),
        *t is Struct,
        state_ok(buf@.len(), s),
    ensures
        lift(r) == dec_struct(*t, buf@, s),
        r matches Ok((_, s2)) ==> state_ok(buf@.len(), s2),
    decreases t, 0nat, 1nat,
{
    match t {
        FidlType::Struct(fields, size, _) => {
            let (xs, s1) = match dec_fields_at(fields, buf, s) {
                Ok(p) => p,
                Err(e) => return Err(e),
            };
            let end: usize = if fields.len() == 0 {
                0
            } else {
                let last = fields.len() - 1;
                let sz = fields[last].ty.inline_size_of();
                fields[last].offset + sz
            };
            let s2 = match skip_padding_at(buf, s1, *size - end) {
                Ok(p) => p,
                Err(e) => return Err(e),
            };
            Ok((Value::Struct(xs), s2))
        },
        _ => Err(Error::Invalid),
    }
}

/// Decodes a value of type `t` in a new out-of-line block of `size` bytes.
fn dec_boxed_at(t: &FidlType, buf: &[u8], s: DecodeState, size: usize) -> (r: Result<
    (Value, DecodeState),
    Error,
>)
    requires
        wf_type(*t),
        state_ok(buf@.len(), s),
    ensures
        lift(r) == dec_boxed(*t, buf@, s, size as nat),
        r matches Ok((_, s2)) ==> state_ok(buf@.len(), s2),
    decreases t, 0nat, 3nat,
{
    let inner = match enter_block_at(buf, s, size as u64) {
        Ok(p) => p,
        Err(e) => return Err(e),
    };
    let (y, inner2) = match dec_value_at(t, buf, inner) {
        Ok(p) => p,
        Err(e) => return Err(e),
    };
    let s2 = match leave_block_at(buf, s, inner2, inner.end_block) {
        Ok(p) => p,
        Err(e) => return Err(e),
    };
    Ok((y, s2))
}

/// Decodes the empty struct that a unit success value stands for.
fn dec_unit_block_at(buf: &[u8], s: DecodeState) -> (r: Result<(Value, DecodeState), Error>)
    requires
        state_ok(buf@.len(), s),
    ensures
        lift(r) == dec_unit_block(buf@, s),
        r matches Ok((_, s2)) ==> state_ok(buf@.len(), s2),
{
    let inner = match enter_block_at(buf, s, 1) {
        Ok(p) => p,
        Err(e) => return Err(e),
    };
    let inner2 = match skip_padding_at(buf, inner, 1) {
        Ok(p) => p,
        Err(e) => return Err(e),
    };
    let s2 = match leave_block_at(buf, s, inner2, inner.end_block) {
        Ok(p) => p,
        Err(e) => return Err(e),
    };
    let fields: Vec<Value> = Vec::new();
    assert(views(fields) =~= Seq::<SpecValue>::empty());
    Ok((Value::Struct(fields), s2))
}

/// Decodes an optional boxed value.
fn dec_nullable_at(t: &FidlType, buf: &[u8], s: DecodeState) -> (r: Result<(Value, DecodeState), Error>)
    requires
        wf_type(*t),
        *t is Nullable,
        state_ok(buf@.len(), s),
    ensures
        lift(r) == dec_nullable(*t, buf@, s),
        r matches Ok((_, s2)) ==> state_ok(buf@.len(), s2),
    decreases t, 0nat, 1nat,
{
    match t {
        FidlType::Nullable(x) => match **x {
            FidlType::XUnion(..) => {
                if 24 > buf.len() - s.offset {
                    return Err(Error::OutOfRange);
                }
                match find_nonzero_in(buf, s.offset, s.offset + 24) {
                    Some(_) => match dec_value_at(x, buf, s) {
                        Ok((y, s2)) => Ok((Value::Boxed(Some(Box::new(y))), s2)),
                        Err(e) => Err(e),
                    },
                    None => Ok(
                        (
                            Value::Boxed(None),
                            DecodeState {
                                offset: s.offset + 24,
                                end_block: s.end_block,
                                next_out_of_line: s.next_out_of_line,
                                depth: s.depth,
                                handles_left: s.handles_left,
                            },
                        ),
                    ),
                }
            },
            _ => {
                let (present, s1) = match read_num_at(buf, s, 8) {
                    Ok(p) => p,
                    Err(e) => return Err(e),
                };
                if present == ALLOC_PRESENT_U64 {
                    let size = x.inline_size_of();
                    match dec_boxed_at(x, buf, s1, size) {
                        Ok((y, s2)) => Ok((Value::Boxed(Some(Box::new(y))), s2)),
                        Err(e) => Err(e),
                    }
                } else if present == ALLOC_ABSENT_U64 {
                    Ok((Value::Boxed(None), s1))
                } else {
                    Err(Error::Invalid)
                }
            },
        },
        _ => Err(Error::Invalid),
    }
}

/// Decodes the inline part of an envelope: its payload size, handle count and presence marker.
fn dec_envelope_header_at(buf: &[u8], s: DecodeState) -> (r: Result<(u64, u64, u64, DecodeState), Error>)
    requires
        state_ok(buf@.len(), s),
    ensures
        match r {
            Ok((nb, nh, present, s2)) => dec_envelope_header(buf@, s) == Ok::<
                (nat, nat, nat, DecodeState),
                Error,
            >((nb as nat, nh as nat, present as nat, s2)) && state_ok(buf@.len(), s2) && nb
                < 0x1_0000_0000,
            Err(e) => dec_envelope_header(buf@, s) == Err::<(nat, nat, nat, DecodeState), Error>(e),
        },
{
    let (num_bytes, s1) = match read_num_at(buf, s, 4) {
        Ok(p) => p,
        Err(e) => return Err(e),
    };
    proof {
        lemma_pow256_values();
        lemma_le_value_bound(buf@.subrange(s.offset as int, s.offset + 4));
    }
    let (num_handles, s2) = match read_num_at(buf, s1, 4) {
        Ok(p) => p,
        Err(e) => return Err(e),
    };
    let (present, s3) = match read_num_at(buf, s2, 8) {
        Ok(p) => p,
        Err(e) => return Err(e),
    };
    Ok((num_bytes, num_handles, present, s3))
}

/// Decodes the envelope of a table member that this decoder does not know,
/// skipping its payload and taking from the handle table the handles it declares.
pub fn decode_unknown_table_field(buf: &[u8], s: DecodeState) -> (r: Result<DecodeState, Error>)
    requires
        state_ok(buf@.len(), s),
    ensures
        match r {
            Ok(s2) => dec_unknown_field(buf@, s) == Ok::<DecodeState, Error>(s2) && state_ok(
                buf@.len(),
                s2,
            ),
            Err(e) => dec_unknown_field(buf@, s) == Err::<DecodeState, Error>(e),
        },
{
    let (num_bytes, num_handles, present, s1) = match dec_envelope_header_at(buf, s) {
        Ok(p) => p,
        Err(e) => return Err(e),
    };
    if present == ALLOC_PRESENT_U64 {
        let inner = match enter_block_at(buf, s1, num_bytes) {
            Ok(p) => p,
            Err(e) => return Err(e),
        };
        assert(spec_round_up(num_bytes as int, 8) >= num_bytes);
        if num_handles > inner.handles_left as u64 {
            return Err(Error::OutOfRange);
        }
        let inner2 = DecodeState {
            offset: inner.offset + num_bytes as usize,
            end_block: inner.end_block,
            next_out_of_line: inner.next_out_of_line,
            depth: inner.depth,
            handles_left: inner.handles_left - num_handles as usize,
        };
        leave_block_at(buf, s1, inner2, inner.end_block)
    } else if present == ALLOC_ABSENT_U64 {
        if num_bytes != 0 {
            Err(Error::UnexpectedNullRef)
        } else {
            Ok(s1)
        }
    } else {
        Err(Error::Invalid)
    }
}

/// Skips the envelopes of unknown members whose ordinals run from `next` up to `ordinal`.
fn skip_unknown_fields_at(buf: &[u8], s: DecodeState, next: u64, ordinal: u64) -> (r: Result<
    DecodeState,
    Error,
>)
    requires
        state_ok(buf@.len(), s),
    ensures
        match r {
            Ok(s2) => skip_unknown_fields(buf@, s, next as nat, ordinal as nat) == Ok::<
                DecodeState,
                Error,
            >(s2) && state_ok(buf@.len(), s2),
            Err(e) => skip_unknown_fields(buf@, s, next as nat, ordinal as nat) == Err::<
                DecodeState,
                Error,
            >(e),
        },
{
    let mut cur = s;
    let mut n = next;
    while n < ordinal
        invariant
            state_ok(buf@.len(), cur),
            skip_unknown_fields(buf@, s, next as nat, ordinal as nat) == skip_unknown_fields(
                buf@,
                cur,
                n as nat,
                ordinal as nat,
            ),
        decreases ordinal - n,
    {
        match decode_unknown_table_field(buf, cur) {
            Ok(s1) => {
                cur = s1;
                n = n + 1;
            },
            Err(e) => return Err(e),
        }
    }
    Ok(cur)
}

/// Skips the envelopes of unknown members up to the end of the current block.
fn skip_remaining_fields_at(buf: &[u8], s: DecodeState) -> (r: Result<DecodeState, Error>)
    requires
        state_ok(buf@.len(), s),
    ensures
        match r {
            Ok(s2) => skip_remaining_fields(buf@, s) == Ok::<DecodeState, Error>(s2) && state_ok(
                buf@.len(),
                s2,
            ),
            Err(e) => skip_remaining_fields(buf@, s) == Err::<DecodeState, Error>(e),
        },
{
    let mut cur = s;
    loop
        invariant
            state_ok(buf@.len(), cur),
            skip_remaining_fields(buf@, s) == skip_remaining_fields(buf@, cur),
        decreases buf@.len() - cur.offset,
    {
        if cur.offset >= cur.end_block {
            return Ok(cur);
        }
        match decode_unknown_table_field(buf, cur) {
            Ok(s1) => {
                if s1.offset <= cur.offset {
                    return Ok(s1);
                }
                cur = s1;
            },
            Err(e) => return Err(e),
        }
    }
}

/// The decoded optional value in a result, taken by its view.
pub open spec fn lift_opt(r: Result<(Option<Value>, DecodeState), Error>) -> Result<
    (Option<SpecValue>, DecodeState),
    Error,
> {
    match r {
        Ok((None, s)) => Ok((None, s)),
        Ok((Some(v), s)) => Ok((Some(v@), s)),
        Err(e) => Err(e),
    }
}

/// Decodes the envelope of a known table member of type `t`.
fn dec_member_envelope_at(t: &FidlType, buf: &[u8], s: DecodeState) -> (r: Result<
    (Option<Value>, DecodeState),
    Error,
>)
    requires
        wf_type(*t),
        state_ok(buf@.len(), s),
    ensures
        lift_opt(r) == dec_member_envelope(*t, buf@, s),
        r matches Ok((_, s2)) ==> state_ok(buf@.len(), s2),
    decreases t, 0nat, 4nat,
{
    let (num_bytes, num_handles, present, s1) = match dec_envelope_header_at(buf, s) {
        Ok(p) => p,
        Err(e) => return Err(e),
    };
    let (y, s2): (Option<Value>, DecodeState) = if present == ALLOC_PRESENT_U64 {
        let size = t.inline_size_of();
        match dec_boxed_at(t, buf, s1, size) {
            Ok((y, s2)) => (Some(y), s2),
            Err(e) => return Err(e),
        }
    } else if present == ALLOC_ABSENT_U64 {
        if num_bytes != 0 {
            return Err(Error::UnexpectedNullRef);
        }
        (None, s1)
    } else {
        return Err(Error::Invalid);
    };
    match (s1.next_out_of_line as u64).checked_add(num_bytes) {
        None => return Err(Error::Invalid),
        Some(expected) => {
            if s2.next_out_of_line as u64 != expected {
                return Err(Error::Invalid);
            }
        },
    }
    if num_handles != 0 {
        return Err(Error::Invalid);
    }
    Ok((y, s2))
}

/// Decodes the envelopes of the members of a table, with the envelopes of
/// unknown ordinals before each.
fn dec_members_at(members: &Vec<Member>, buf: &[u8], s: DecodeState) -> (r: Result<
    (Vec<Option<Value>>, DecodeState),
    Error,
>)
    requires
        forall|i: int| 0 <= i < members@.len() ==> wf_type(#[trigger] members@[i].ty),
        table_ordinals(members@),
        state_ok(buf@.len(), s),
    ensures
        match r {
            Ok((xs, s2)) => dec_members(members@, buf@, s, members@.len()) matches Ok((ys, s3, _))
                && ys == view_opt_seq(xs@, xs@.len()) && s3 == s2 && state_ok(buf@.len(), s2)
                && xs@.len() == members@.len(),
            Err(e) => dec_members(members@, buf@, s, members@.len()) == Err::<
                (Seq<Option<SpecValue>>, DecodeState, nat),
                Error,
            >(e),
        },
    decreases members, 0nat, 0nat,
{
    let mut xs: Vec<Option<Value>> = Vec::new();
    let mut cur = s;
    let mut next: u64 = 0;
    let mut i: usize = 0;
    assert(view_opt_seq(xs@, 0) =~= Seq::<Option<SpecValue>>::empty());
    while i < members.len()
        invariant
            i <= members@.len(),
            forall|j: int| 0 <= j < members@.len() ==> wf_type(#[trigger] members@[j].ty),
            table_ordinals(members@),
            state_ok(buf@.len(), cur),
            xs@.len() == i,
            i == 0 ==> next == 0,
            i > 0 ==> next <= members@[i - 1].ordinal,
            dec_members(members@, buf@, s, i as nat) == Ok::<
                (Seq<Option<SpecValue>>, DecodeState, nat),
                Error,
            >((view_opt_seq(xs@, xs@.len()), cur, next as nat)),
        decreases members@.len() - i,
    {
        assert(1 <= members@[i as int].ordinal <= super::wire::MAX_TABLE_ORDINAL);
        if i > 0 {
            assert(members@[i - 1].ordinal < members@[i as int].ordinal);
        }
        if cur.offset >= cur.end_block {
            proof {
                lemma_view_opt_seq_push(xs@, None);
            }
            xs.push(None);
            next = next + 1;
            i = i + 1;
            continue;
        }
        let ord = members[i].ordinal;
        let s2 = match skip_unknown_fields_at(buf, cur, next + 1, ord) {
            Ok(p) => p,
            Err(e) => {
                proof {
                    lemma_dec_members_err(members@, buf@, s, (i + 1) as nat, members@.len());
                }
                return Err(e);
            },
        };
        match dec_member_envelope_at(&members[i].ty, buf, s2) {
            Ok((y, s3)) => {
                proof {
                    lemma_view_opt_seq_push(xs@, y);
                }
                xs.push(y);
                cur = s3;
                next = if next + 1 >= ord {
                    next + 1
                } else {
                    ord
                };
                i = i + 1;
            },
            Err(e) => {
                proof {
                    lemma_dec_members_err(members@, buf@, s, (i + 1) as nat, members@.len());
                }
                return Err(e);
            },
        }
    }
    Ok((xs, cur))
}

/// Decodes a table value.
#[verifier::rlimit(90)]
fn dec_table_at(t: &FidlType, buf: &[u8], s: DecodeState) -> (r: Result<(Value, DecodeState), Error>)
    requires
        wf_type(*t),
        *t is Table,
        state_ok(buf@.len(), s),
    ensures
        lift(r) == dec_table(*t, buf@, s),
        r matches Ok((_, s2)) ==> state_ok(buf@.len(), s2),
    decreases t, 0nat, 1nat,
{
    match t {
        FidlType::Table(members) => {
            let (len, s1) = match read_num_at(buf, s, 8) {
                Ok(p) => p,
                Err(e) => return Err(e),
            };
            let (present, s2) = match read_num_at(buf, s1, 8) {
                Ok(p) => p,
                Err(e) => return Err(e),
            };
            if present != ALLOC_PRESENT_U64 {
                return Err(Error::Invalid);
            }
            let bytes_len = match len.checked_mul(16) {
                Some(n) => n,
                None => {
                    assert(spec_round_up((len * 16) as int, 8) >= len * 16);
                    return Err(Error::OutOfRange);
                },
            };
            let inner = match enter_block_at(buf, s2, bytes_len) {
                Ok(p) => p,
                Err(e) => return Err(e),
            };
            let (xs, inner2) = match dec_members_at(members, buf, inner) {
                Ok(p) => p,
                Err(e) => return Err(e),
            };
            let inner3 = match skip_remaining_fields_at(buf, inner2) {
                Ok(p) => p,
                Err(e) => return Err(e),
            };
            let s3 = match leave_block_at(buf, s2, inner3, inner.end_block) {
                Ok(p) => p,
                Err(e) => return Err(e),
            };
            Ok((Value::Table(xs), s3))
        },
        _ => Err(Error::Invalid),
    }
}

/// Decodes the inline part of a union: its ordinal and its envelope header.
pub fn decode_xunion_inline_portion(buf: &[u8], s: DecodeState) -> (r: Result<(u64, u64, u64, DecodeState), Error>)
    requires
        state_ok(buf@.len(), s),
    ensures
        match r {
            Ok((ordinal, nb, nh, s2)) => dec_union_header(buf@, s) == Ok::<
                (nat, nat, nat, DecodeState),
                Error,
            >((ordinal as nat, nb as nat, nh as nat, s2)) && state_ok(buf@.len(), s2),
            Err(e) => dec_union_header(buf@, s) == Err::<(nat, nat, nat, DecodeState), Error>(e),
        },
{
    let (ordinal, s1) = match read_num_at(buf, s, 8) {
        Ok(p) => p,
        Err(e) => return Err(e),
    };
    let (num_bytes, num_handles, present, s2) = match dec_envelope_header_at(buf, s1) {
        Ok(p) => p,
        Err(e) => return Err(e),
    };
    if present != ALLOC_PRESENT_U64 {
        return Err(Error::Invalid);
    }
    Ok((ordinal, num_bytes, num_handles, s2))
}

/// Decodes a union value.
fn dec_union_at(t: &FidlType, buf: &[u8], s: DecodeState) -> (r: Result<(Value, DecodeState), Error>)
    requires
        wf_type(*t),
        *t is XUnion,
        state_ok(buf@.len(), s),
    ensures
        lift(r) == dec_union(*t, buf@, s),
        r matches Ok((_, s2)) ==> state_ok(buf@.len(), s2),
    decreases t, 0nat, 1nat,
{
    match t {
        FidlType::XUnion(members, flexible) => {
            let (ordinal, num_bytes, num_handles, s1) = match decode_xunion_inline_portion(buf, s) {
                Ok(p) => p,
                Err(e) => return Err(e),
            };
            let mut k: usize = 0;
            while k < members.len() && members[k].ordinal != ordinal
                invariant
                    k <= members@.len(),
                    find_member(members@, ordinal, 0) == find_member(members@, ordinal, k as int),
                decreases members@.len() - k,
            {
                k = k + 1;
            }
            if k < members.len() {
                let size = members[k].ty.inline_size_of();
                match dec_boxed_at(&members[k].ty, buf, s1, size) {
                    Ok((y, s2)) => Ok((Value::Union(ordinal, Box::new(y)), s2)),
                    Err(e) => Err(e),
                }
            } else {
                if !*flexible {
                    return Err(Error::UnknownUnionTag);
                }
                let inner = match enter_block_at(buf, s1, num_bytes) {
                    Ok(p) => p,
                    Err(e) => return Err(e),
                };
                assert(spec_round_up(num_bytes as int, 8) >= num_bytes);
                let bytes = copy_bytes(buf, inner.offset, num_bytes as usize);
                if num_handles > inner.handles_left as u64 {
                    return Err(Error::OutOfRange);
                }
                let inner2 = DecodeState {
                    offset: inner.offset + num_bytes as usize,
                    end_block: inner.end_block,
                    next_out_of_line: inner.next_out_of_line,
                    depth: inner.depth,
                    handles_left: inner.handles_left - num_handles as usize,
                };
                let s2 = match leave_block_at(buf, s1, inner2, inner.end_block) {
                    Ok(p) => p,
                    Err(e) => return Err(e),
                };
                Ok((Value::UnknownUnion(ordinal, bytes), s2))
            }
        },
        _ => Err(Error::Invalid),
    }
}

/// Decodes a result value.
fn dec_result_at(t: &FidlType, buf: &[u8], s: DecodeState) -> (r: Result<(Value, DecodeState), Error>)
    requires
        wf_type(*t),
        *t is Result,
        state_ok(buf@.len(), s),
    ensures
        lift(r) == dec_result(*t, buf@, s),
        r matches Ok((_, s2)) ==> state_ok(buf@.len(), s2),
    decreases t, 0nat, 1nat,
{
    match t {
        FidlType::Result(ok, err) => {
            let (ordinal, _, _, s1) = match decode_xunion_inline_portion(buf, s) {
                Ok(p) => p,
                Err(e) => return Err(e),
            };
            if ordinal == 1 {
                let ok_size = ok.inline_size_of();
                let decoded = if ok_size == 0 {
                    dec_unit_block_at(buf, s1)
                } else {
                    dec_boxed_at(ok, buf, s1, ok_size)
                };
                match decoded {
                    Ok((y, s2)) => Ok((Value::ResultOk(Box::new(y)), s2)),
                    Err(e) => Err(e),
                }
            } else if ordinal == 2 {
                let size = err.inline_size_of();
                match dec_boxed_at(err, buf, s1, size) {
                    Ok((y, s2)) => Ok((Value::ResultErr(Box::new(y)), s2)),
                    Err(e) => Err(e),
                }
            } else {
                Err(Error::UnknownUnionTag)
            }
        },
        _ => Err(Error::Invalid),
    }
}

} // verus!
