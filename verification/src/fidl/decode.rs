use vstd::prelude::*;
use super::bytes::le_value;
use super::encode::find_member;
use super::header::first_nonzero;
use super::layout::{
    bits_known, enum_member, field_end, field_start_of_gap, inline_size, prim_bits, prim_int,
    spec_round_up,
};
use super::wire::{
    Error, FidlType, Member, SpecValue, StructField, ALLOC_ABSENT_U64, ALLOC_PRESENT_U64,
    MAX_RECURSION,
};
use vstd::utf8::valid_utf8;

verus! {

/// Where a decoder stands in a message: the next offset to read in the
/// current block, the end of that block, the start of the next out-of-line
/// block, how many out-of-line blocks deep it is, and how many handles of
/// the message's handle table it has not taken yet.
#[derive(Clone, Copy, Debug, PartialEq, Eq, Structural)]
pub struct DecodeState {
    pub offset: usize,
    pub end_block: usize,
    pub next_out_of_line: usize,
    pub depth: usize,
    pub handles_left: usize,
}

/// The state `s` with its offset moved `n` bytes further.
pub open spec fn advance(s: DecodeState, n: nat) -> DecodeState {
    DecodeState {
        offset: (s.offset + n) as usize,
        end_block: s.end_block,
        next_out_of_line: s.next_out_of_line,
        depth: s.depth,
        handles_left: s.handles_left,
    }
}

/// The state `s` after taking `n` handles, if the table holds that many.
pub open spec fn take_handles(s: DecodeState, n: nat) -> Result<DecodeState, Error> {
    if n > s.handles_left {
        Err(Error::OutOfRange)
    } else {
        Ok(DecodeState { handles_left: (s.handles_left - n) as usize, ..s })
    }
}

/// Reads the number whose `n` little-endian bytes are at the offset.
pub open spec fn read_num(b: Seq<u8>, s: DecodeState, n: nat) -> Result<(nat, DecodeState), Error> {
    if s.offset + n > b.len() {
        Err(Error::OutOfRange)
    } else {
        Ok((le_value(b.subrange(s.offset as int, s.offset + n)), advance(s, n)))
    }
}

/// Skips `n` bytes of padding at the offset, which must be zero.
pub open spec fn skip_padding(b: Seq<u8>, s: DecodeState, n: nat) -> Result<DecodeState, Error> {
    if n == 0 {
        Ok(s)
    } else if s.offset + n > b.len() {
        Err(Error::OutOfRange)
    } else {
        match first_nonzero(b, s.offset as int, s.offset + n) {
            Some(i) => Err(Error::NonZeroPadding { padding_start: s.offset, non_zero_pos: i as usize }),
            None => Ok(advance(s, n)),
        }
    }
}

/// Enters the next out-of-line block, of `len` bytes rounded up to eight.
pub open spec fn enter_block(b: Seq<u8>, s: DecodeState, len: nat) -> Result<DecodeState, Error> {
    let next = s.next_out_of_line + spec_round_up(len as int, 8);
    if next > b.len() {
        Err(Error::OutOfRange)
    } else if s.depth + 1 > MAX_RECURSION {
        Err(Error::MaxRecursionDepth)
    } else {
        Ok(
            DecodeState {
                offset: s.next_out_of_line,
                end_block: next as usize,
                next_out_of_line: next as usize,
                depth: (s.depth + 1) as usize,
                handles_left: s.handles_left,
            },
        )
    }
}

/// Leaves an out-of-line block that ends at `block_end`: the bytes left in it
/// must be zero; the decoder goes back to where it stood in `outer`.
pub open spec fn leave_block(b: Seq<u8>, outer: DecodeState, inner: DecodeState, block_end: usize) -> Result<
    DecodeState,
    Error,
> {
    match first_nonzero(b, inner.offset as int, block_end as int) {
        Some(i) => Err(Error::NonZeroPadding { padding_start: inner.offset, non_zero_pos: i as usize }),
        None => Ok(
            DecodeState {
                offset: outer.offset,
                end_block: outer.end_block,
                next_out_of_line: inner.next_out_of_line,
                depth: outer.depth,
                handles_left: inner.handles_left,
            },
        ),
    }
}

/// The value of integer or boolean type `t` whose little-endian bits are `x`.
pub open spec fn prim_of(t: FidlType, x: nat) -> SpecValue {
    match t {
        FidlType::Bool => SpecValue::Bool(x == 1),
        FidlType::U8 => SpecValue::U8(x as u8),
        FidlType::I8 => SpecValue::I8((x as u8) as i8),
        FidlType::U16 => SpecValue::U16(x as u16),
        FidlType::I16 => SpecValue::I16((x as u16) as i16),
        FidlType::U32 => SpecValue::U32(x as u32),
        FidlType::I32 => SpecValue::I32((x as u32) as i32),
        FidlType::U64 => SpecValue::U64(x as u64),
        _ => SpecValue::I64((x as u64) as i64),
    }
}

/// Decodes a boolean or integer of type `t`.
pub open spec fn dec_prim(t: FidlType, b: Seq<u8>, s: DecodeState) -> Result<(SpecValue, DecodeState), Error> {
    match read_num(b, s, inline_size(t) as nat) {
        Err(e) => Err(e),
        Ok((x, s2)) => if t is Bool && x > 1 {
            Err(Error::Invalid)
        } else {
            Ok((prim_of(t, x), s2))
        },
    }
}

/// Decodes a value of type `t` at the offset, and the out-of-line blocks it owns.
pub open spec fn dec_value(t: FidlType, b: Seq<u8>, s: DecodeState) -> Result<(SpecValue, DecodeState), Error>
    decreases t, 0nat, 2nat,
{
    match t {
        FidlType::Bits(p, mask) => match dec_prim(*p, b, s) {
            Err(e) => Err(e),
            Ok((v, s2)) => if bits_known(prim_bits(v), mask) {
                Ok((v, s2))
            } else {
                Err(Error::Invalid)
            },
        },
        FidlType::Enum(p, members) => match dec_prim(*p, b, s) {
            Err(e) => Err(e),
            Ok((v, s2)) => if enum_member(members@, prim_int(v)) {
                Ok((v, s2))
            } else {
                Err(Error::Invalid)
            },
        },
        FidlType::Array(..) => dec_array(t, b, s),
        FidlType::Vector(..) => dec_vector(t, b, s),
        FidlType::String(..) => dec_string(t, b, s),
        FidlType::Struct(..) => dec_struct(t, b, s),
        FidlType::EmptyStruct => match read_num(b, s, 1) {
            Err(e) => Err(e),
            Ok((x, s2)) => if x == 0 {
                Ok((SpecValue::EmptyStruct, s2))
            } else {
                Err(Error::Invalid)
            },
        },
        FidlType::Nullable(..) => dec_nullable(t, b, s),
        FidlType::Table(..) => dec_table(t, b, s),
        FidlType::XUnion(..) => dec_union(t, b, s),
        FidlType::Result(..) => dec_result(t, b, s),
        _ => dec_prim(t, b, s),
    }
}

/// Decodes `k` values of type `t`, one after the other.
pub open spec fn dec_elements(t: FidlType, b: Seq<u8>, s: DecodeState, k: nat) -> Result<
    (Seq<SpecValue>, DecodeState),
    Error,
>
    decreases t, k, 0nat,
{
    if k == 0 {
        Ok((Seq::empty(), s))
    } else {
        match dec_elements(t, b, s, (k - 1) as nat) {
            Err(e) => Err(e),
            Ok((xs, s1)) => match dec_value(t, b, s1) {
                Err(e) => Err(e),
                Ok((x, s2)) => Ok((xs.push(x), s2)),
            },
        }
    }
}

/// Decodes an array value.
pub open spec fn dec_array(t: FidlType, b: Seq<u8>, s: DecodeState) -> Result<(SpecValue, DecodeState), Error>
    decreases t, 0nat, 1nat,
{
    match t {
        FidlType::Array(e, n) => match dec_elements(*e, b, s, n as nat) {
            Err(err) => Err(err),
            Ok((xs, s2)) => Ok((SpecValue::Array(xs), s2)),
        },
        _ => Err(Error::Invalid),
    }
}

/// Decodes the length and presence marker of a vector or string: the length
/// when the contents are present, nothing when they are absent.
pub open spec fn dec_vector_header(b: Seq<u8>, s: DecodeState) -> Result<(Option<nat>, DecodeState), Error> {
    match read_num(b, s, 8) {
        Err(e) => Err(e),
        Ok((len, s1)) => match read_num(b, s1, 8) {
            Err(e) => Err(e),
            Ok((present, s2)) => if present == ALLOC_ABSENT_U64 {
                if len == 0 {
                    Ok((None, s2))
                } else {
                    Err(Error::UnexpectedNullRef)
                }
            } else if present == ALLOC_PRESENT_U64 {
                Ok((Some(len), s2))
            } else {
                Err(Error::Invalid)
            },
        },
    }
}

/// Decodes a vector value.
pub open spec fn dec_vector(t: FidlType, b: Seq<u8>, s: DecodeState) -> Result<(SpecValue, DecodeState), Error>
    decreases t, 0nat, 1nat,
{
    match t {
        FidlType::Vector(e, nullable) => match dec_vector_header(b, s) {
            Err(err) => Err(err),
            Ok((None, s2)) => if nullable {
                Ok((SpecValue::Vector(None), s2))
            } else {
                Err(Error::NotNullable)
            },
            Ok((Some(len), s2)) => match enter_block(b, s2, len * inline_size(*e) as nat) {
                Err(err) => Err(err),
                Ok(inner) => match dec_elements(*e, b, inner, len) {
                    Err(err) => Err(err),
                    Ok((xs, inner2)) => match leave_block(b, s2, inner2, inner.end_block) {
                        Err(err) => Err(err),
                        Ok(s3) => Ok((SpecValue::Vector(Some(xs)), s3)),
                    },
                },
            },
        },
        _ => Err(Error::Invalid),
    }
}

/// Decodes a string value.
pub open spec fn dec_string(t: FidlType, b: Seq<u8>, s: DecodeState) -> Result<(SpecValue, DecodeState), Error> {
    match t {
        FidlType::String(nullable) => match dec_vector_header(b, s) {
            Err(err) => Err(err),
            Ok((None, s2)) => if nullable {
                Ok((SpecValue::Str(None), s2))
            } else {
                Err(Error::NotNullable)
            },
            Ok((Some(len), s2)) => match enter_block(b, s2, len) {
                Err(err) => Err(err),
                Ok(inner) => {
                    let bytes = b.subrange(inner.offset as int, inner.offset + len);
                    if !valid_utf8(bytes) {
                        Err(Error::Utf8Error)
                    } else {
                        match leave_block(b, s2, advance(inner, len), inner.end_block) {
                            Err(err) => Err(err),
                            Ok(s3) => Ok((SpecValue::Str(Some(bytes)), s3)),
                        }
                    }
                },
            },
        },
        _ => Err(Error::Invalid),
    }
}

/// Decodes the first `k` fields of a struct, skipping the padding before each.
pub open spec fn dec_fields(fields: Seq<StructField>, b: Seq<u8>, s: DecodeState, k: nat) -> Result<
    (Seq<SpecValue>, DecodeState),
    Error,
>
    decreases fields, k, 0nat,
{
    if k == 0 || k > fields.len() {
        Ok((Seq::empty(), s))
    } else {
        match dec_fields(fields, b, s, (k - 1) as nat) {
            Err(e) => Err(e),
            Ok((xs, s1)) => {
                let gap = fields[k - 1].offset - field_start_of_gap(fields, k - 1);
                match skip_padding(b, s1, gap as nat) {
                    Err(e) => Err(e),
                    Ok(s2) => match dec_value(fields[k - 1].ty, b, s2) {
                        Err(e) => Err(e),
                        Ok((x, s3)) => Ok((xs.push(x), s3)),
                    },
                }
            },
        }
    }
}

/// Decodes a struct value: its fields, then the padding up to its size.
pub open spec fn dec_struct(t: FidlType, b: Seq<u8>, s: DecodeState) -> Result<(SpecValue, DecodeState), Error>
    decreases t, 0nat, 1nat,
{
    match t {
        FidlType::Struct(fields, size, _) => match dec_fields(fields@, b, s, fields@.len()) {
            Err(e) => Err(e),
            Ok((xs, s1)) => {
                let end = if fields@.len() == 0 {
                    0
                } else {
                    field_end(fields@, fields@.len() - 1)
                };
                match skip_padding(b, s1, (size - end) as nat) {
                    Err(e) => Err(e),
                    Ok(s2) => Ok((SpecValue::Struct(xs), s2)),
                }
            },
        },
        _ => Err(Error::Invalid),
    }
}

/// Decodes a value of type `t` in a new out-of-line block of `size` bytes.
pub open spec fn dec_boxed(t: FidlType, b: Seq<u8>, s: DecodeState, size: nat) -> Result<
    (SpecValue, DecodeState),
    Error,
>
    decreases t, 0nat, 3nat,
{
    match enter_block(b, s, size) {
        Err(e) => Err(e),
        Ok(inner) => match dec_value(t, b, inner) {
            Err(e) => Err(e),
            Ok((y, inner2)) => match leave_block(b, s, inner2, inner.end_block) {
                Err(e) => Err(e),
                Ok(s2) => Ok((y, s2)),
            },
        },
    }
}

/// Decodes the empty struct that a unit success value stands for, in a new
/// out-of-line block of one byte.
pub open spec fn dec_unit_block(b: Seq<u8>, s: DecodeState) -> Result<(SpecValue, DecodeState), Error> {
    match enter_block(b, s, 1) {
        Err(e) => Err(e),
        Ok(inner) => match skip_padding(b, inner, 1) {
            Err(e) => Err(e),
            Ok(inner2) => match leave_block(b, s, inner2, inner.end_block) {
                Err(e) => Err(e),
                Ok(s2) => Ok((SpecValue::Struct(Seq::empty()), s2)),
            },
        },
    }
}

/// Decodes an optional boxed value.
pub open spec fn dec_nullable(t: FidlType, b: Seq<u8>, s: DecodeState) -> Result<(SpecValue, DecodeState), Error>
    decreases t, 0nat, 1nat,
{
    match t {
        FidlType::Nullable(x) => if *x is XUnion {
            if s.offset + 24 > b.len() {
                Err(Error::OutOfRange)
            } else if first_nonzero(b, s.offset as int, s.offset + 24) is Some {
                match dec_value(*x, b, s) {
                    Err(e) => Err(e),
                    Ok((y, s2)) => Ok((SpecValue::Boxed(Some(Box::new(y))), s2)),
                }
            } else {
                Ok((SpecValue::Boxed(None), advance(s, 24)))
            }
        } else {
            match read_num(b, s, 8) {
                Err(e) => Err(e),
                Ok((present, s1)) => if present == ALLOC_PRESENT_U64 {
                    match dec_boxed(*x, b, s1, inline_size(*x) as nat) {
                        Err(e) => Err(e),
                        Ok((y, s2)) => Ok((SpecValue::Boxed(Some(Box::new(y))), s2)),
                    }
                } else if present == ALLOC_ABSENT_U64 {
                    Ok((SpecValue::Boxed(None), s1))
                } else {
                    Err(Error::Invalid)
                },
            }
        },
        _ => Err(Error::Invalid),
    }
}

/// Decodes the inline part of an envelope: its payload size, handle count and presence marker.
pub open spec fn dec_envelope_header(b: Seq<u8>, s: DecodeState) -> Result<
    (nat, nat, nat, DecodeState),
    Error,
> {
    match read_num(b, s, 4) {
        Err(e) => Err(e),
        Ok((num_bytes, s1)) => match read_num(b, s1, 4) {
            Err(e) => Err(e),
            Ok((num_handles, s2)) => match read_num(b, s2, 8) {
                Err(e) => Err(e),
                Ok((present, s3)) => Ok((num_bytes, num_handles, present, s3)),
            },
        },
    }
}

/// Decodes the envelope of a table member that this decoder does not know,
/// skipping its payload and taking from the handle table the handles it declares.
pub open spec fn dec_unknown_field(b: Seq<u8>, s: DecodeState) -> Result<DecodeState, Error> {
    match dec_envelope_header(b, s) {
        Err(e) => Err(e),
        Ok((num_bytes, num_handles, present, s1)) => if present == ALLOC_PRESENT_U64 {
            match enter_block(b, s1, num_bytes) {
                Err(e) => Err(e),
                Ok(inner) => match take_handles(advance(inner, num_bytes), num_handles) {
                    Err(e) => Err(e),
                    Ok(inner2) => leave_block(b, s1, inner2, inner.end_block),
                },
            }
        } else if present == ALLOC_ABSENT_U64 {
            if num_bytes != 0 {
                Err(Error::UnexpectedNullRef)
            } else {
                Ok(s1)
            }
        } else {
            Err(Error::Invalid)
        },
    }
}

/// Skips the envelopes of unknown members whose ordinals run from `next` up to `ordinal`.
pub open spec fn skip_unknown_fields(b: Seq<u8>, s: DecodeState, next: nat, ordinal: nat) -> Result<
    DecodeState,
    Error,
>
    decreases ordinal - next,
{
    if next >= ordinal {
        Ok(s)
    } else {
        match dec_unknown_field(b, s) {
            Err(e) => Err(e),
            Ok(s1) => skip_unknown_fields(b, s1, next + 1, ordinal),
        }
    }
}

/// Skips the envelopes of unknown members up to the end of the current block.
pub open spec fn skip_remaining_fields(b: Seq<u8>, s: DecodeState) -> Result<DecodeState, Error>
    decreases b.len() - s.offset,
{
    if s.offset >= s.end_block {
        Ok(s)
    } else {
        match dec_unknown_field(b, s) {
            Err(e) => Err(e),
            Ok(s1) => if s1.offset > s.offset && s1.offset <= b.len() {
                skip_remaining_fields(b, s1)
            } else {
                Ok(s1)
            },
        }
    }
}

/// Decodes the envelope of a known table member of type `t`: the member's
/// value if present, nothing if absent.
pub open spec fn dec_member_envelope(t: FidlType, b: Seq<u8>, s: DecodeState) -> Result<
    (Option<SpecValue>, DecodeState),
    Error,
>
    decreases t, 0nat, 4nat,
{
    match dec_envelope_header(b, s) {
        Err(e) => Err(e),
        Ok((num_bytes, num_handles, present, s1)) => {
            let decoded = if present == ALLOC_PRESENT_U64 {
                match dec_boxed(t, b, s1, inline_size(t) as nat) {
                    Err(e) => Err(e),
                    Ok((y, s2)) => Ok((Some(y), s2)),
                }
            } else if present == ALLOC_ABSENT_U64 {
                if num_bytes != 0 {
                    Err(Error::UnexpectedNullRef)
                } else {
                    Ok((None, s1))
                }
            } else {
                Err(Error::Invalid)
            };
            match decoded {
                Err(e) => Err(e),
                Ok((y, s2)) => if s2.next_out_of_line != s1.next_out_of_line + num_bytes {
                    Err(Error::Invalid)
                } else if num_handles != 0 {
                    Err(Error::Invalid)
                } else {
                    Ok((y, s2))
                },
            }
        },
    }
}

/// Decodes the envelopes of the first `k` members of a table, with the
/// envelopes of unknown ordinals before each; also gives the next ordinal to read.
pub open spec fn dec_members(members: Seq<Member>, b: Seq<u8>, s: DecodeState, k: nat) -> Result<
    (Seq<Option<SpecValue>>, DecodeState, nat),
    Error,
>
    decreases members, k, 0nat,
{
    if k == 0 || k > members.len() {
        Ok((Seq::empty(), s, 0))
    } else {
        match dec_members(members, b, s, (k - 1) as nat) {
            Err(e) => Err(e),
            Ok((xs, s1, next)) => if s1.offset >= s1.end_block {
                Ok((xs.push(None), s1, next + 1))
            } else {
                match skip_unknown_fields(b, s1, next + 1, members[k - 1].ordinal as nat) {
                    Err(e) => Err(e),
                    Ok(s2) => match dec_member_envelope(members[k - 1].ty, b, s2) {
                        Err(e) => Err(e),
                        Ok((y, s3)) => Ok(
                            (
                                xs.push(y),
                                s3,
                                if next + 1 >= members[k - 1].ordinal {
                                    next + 1
                                } else {
                                    members[k - 1].ordinal as nat
                                },
                            ),
                        ),
                    },
                }
            },
        }
    }
}

/// Decodes a table value.
pub open spec fn dec_table(t: FidlType, b: Seq<u8>, s: DecodeState) -> Result<(SpecValue, DecodeState), Error>
    decreases t, 0nat, 1nat,
{
    match t {
        FidlType::Table(members) => match read_num(b, s, 8) {
            Err(e) => Err(e),
            Ok((len, s1)) => match read_num(b, s1, 8) {
                Err(e) => Err(e),
                Ok((present, s2)) => if present != ALLOC_PRESENT_U64 {
                    Err(Error::Invalid)
                } else {
                    match enter_block(b, s2, len * 16) {
                        Err(e) => Err(e),
                        Ok(inner) => match dec_members(members@, b, inner, members@.len()) {
                            Err(e) => Err(e),
                            Ok((xs, inner2, _)) => match skip_remaining_fields(b, inner2) {
                                Err(e) => Err(e),
                                Ok(inner3) => match leave_block(b, s2, inner3, inner.end_block) {
                                    Err(e) => Err(e),
                                    Ok(s3) => Ok((SpecValue::Table(xs), s3)),
                                },
                            },
                        },
                    }
                },
            },
        },
        _ => Err(Error::Invalid),
    }
}

/// Decodes the inline part of a union: its ordinal and its envelope header,
/// whose presence marker must say present.
pub open spec fn dec_union_header(b: Seq<u8>, s: DecodeState) -> Result<(nat, nat, nat, DecodeState), Error> {
    match read_num(b, s, 8) {
        Err(e) => Err(e),
        Ok((ordinal, s1)) => match dec_envelope_header(b, s1) {
            Err(e) => Err(e),
            Ok((num_bytes, num_handles, present, s2)) => if present != ALLOC_PRESENT_U64 {
                Err(Error::Invalid)
            } else {
                Ok((ordinal, num_bytes, num_handles, s2))
            },
        },
    }
}

/// Decodes a union value.
pub open spec fn dec_union(t: FidlType, b: Seq<u8>, s: DecodeState) -> Result<(SpecValue, DecodeState), Error>
    decreases t, 0nat, 1nat,
{
    match t {
        FidlType::XUnion(members, flexible) => match dec_union_header(b, s) {
            Err(e) => Err(e),
            Ok((ordinal, num_bytes, num_handles, s1)) => match find_member(members@, ordinal as u64, 0) {
                Some(k) => if 0 <= k < members@.len() {
                    match dec_boxed(members@[k].ty, b, s1, inline_size(members@[k].ty) as nat) {
                        Err(e) => Err(e),
                        Ok((y, s2)) => Ok((SpecValue::Union(ordinal as u64, Box::new(y)), s2)),
                    }
                } else {
                    Err(Error::Invalid)
                },
                None => if !flexible {
                    Err(Error::UnknownUnionTag)
                } else {
                    match enter_block(b, s1, num_bytes) {
                        Err(e) => Err(e),
                        Ok(inner) => match take_handles(advance(inner, num_bytes), num_handles) {
                            Err(e) => Err(e),
                            Ok(inner2) => {
                                let bytes = b.subrange(inner.offset as int, inner.offset + num_bytes);
                                match leave_block(b, s1, inner2, inner.end_block) {
                                    Err(e) => Err(e),
                                    Ok(s2) => Ok((SpecValue::UnknownUnion(ordinal as u64, bytes), s2)),
                                }
                            },
                        },
                    }
                },
            },
        },
        _ => Err(Error::Invalid),
    }
}

/// Decodes a result value.
pub open spec fn dec_result(t: FidlType, b: Seq<u8>, s: DecodeState) -> Result<(SpecValue, DecodeState), Error>
    decreases t, 0nat, 1nat,
{
    match t {
        FidlType::Result(ok, err) => match dec_union_header(b, s) {
            Err(e) => Err(e),
            Ok((ordinal, _, _, s1)) => if ordinal == 1 {
                let decoded = if inline_size(*ok) == 0 {
                    dec_unit_block(b, s1)
                } else {
                    dec_boxed(*ok, b, s1, inline_size(*ok) as nat)
                };
                match decoded {
                    Err(e) => Err(e),
                    Ok((y, s2)) => Ok((SpecValue::ResultOk(Box::new(y)), s2)),
                }
            } else if ordinal == 2 {
                match dec_boxed(*err, b, s1, inline_size(*err) as nat) {
                    Err(e) => Err(e),
                    Ok((y, s2)) => Ok((SpecValue::ResultErr(Box::new(y)), s2)),
                }
            } else {
                Err(Error::UnknownUnionTag)
            },
        },
        _ => Err(Error::Invalid),
    }
}

/// What decoding the message `b` as a value of type `t` gives: the value, or
/// the first error the decoder finds.
pub open spec fn decode_message(t: FidlType, b: Seq<u8>, handles: nat) -> Result<SpecValue, Error> {
    let next = spec_round_up(inline_size(t), 8);
    if next > b.len() {
        Err(Error::OutOfRange)
    } else {
        let start = DecodeState {
            offset: 0,
            end_block: next as usize,
            next_out_of_line: next as usize,
            depth: 0,
            handles_left: handles as usize,
        };
        match dec_value(t, b, start) {
            Err(e) => Err(e),
            Ok((v, s)) => if s.next_out_of_line < b.len() {
                Err(Error::ExtraBytes)
            } else if s.handles_left != 0 {
                Err(Error::ExtraHandles)
            } else {
                match first_nonzero(b, s.offset as int, next) {
                    Some(i) => Err(
                        Error::NonZeroPadding { padding_start: s.offset, non_zero_pos: i as usize },
                    ),
                    None => Ok(v),
                }
            },
        }
    }
}

/// Once decoding some elements fails, decoding more of them fails the same way.
pub proof fn lemma_dec_elements_err(t: FidlType, b: Seq<u8>, s: DecodeState, i: nat, k: nat)
    requires
        i <= k,
        dec_elements(t, b, s, i) is Err,
    ensures
        dec_elements(t, b, s, k) == dec_elements(t, b, s, i),
    decreases k,
{
    if k > i {
        lemma_dec_elements_err(t, b, s, i, (k - 1) as nat);
    }
}

/// Once decoding some fields fails, decoding more of them fails the same way.
pub proof fn lemma_dec_fields_err(fields: Seq<StructField>, b: Seq<u8>, s: DecodeState, i: nat, k: nat)
    requires
        1 <= i <= k <= fields.len(),
        dec_fields(fields, b, s, i) is Err,
    ensures
        dec_fields(fields, b, s, k) == dec_fields(fields, b, s, i),
    decreases k,
{
    if k > i {
        lemma_dec_fields_err(fields, b, s, i, (k - 1) as nat);
    }
}

/// Once decoding the envelopes of some members fails, decoding more of them fails the same way.
pub proof fn lemma_dec_members_err(members: Seq<Member>, b: Seq<u8>, s: DecodeState, i: nat, k: nat)
    requires
        1 <= i <= k <= members.len(),
        dec_members(members, b, s, i) is Err,
    ensures
        dec_members(members, b, s, k) == dec_members(members, b, s, i),
    decreases k,
{
    if k > i {
        lemma_dec_members_err(members, b, s, i, (k - 1) as nat);
    }
}


/// The first non-zero byte of `b` in `[from, to)`: there is none exactly
/// when the range holds only zeros, and the one found has only zeros before it.
pub proof fn lemma_first_nonzero_is_first(b: Seq<u8>, from: int, to: int)
    ensures
        first_nonzero(b, from, to) is None <==> (forall|i: int| from <= i < to ==> b[i] == 0),
        (first_nonzero(b, from, to) matches Some(i) ==> from <= i < to && b[i] != 0 && (forall|j: int|
            from <= j < i ==> b[j] == 0)),
    decreases to - from,
{
    if from < to {
        lemma_first_nonzero_is_first(b, from + 1, to);
        if b[from] == 0 {
            assert forall|i: int| from <= i < to && (forall|k: int| from + 1 <= k < to ==> b[k] == 0) implies b[i] == 0 by {
                if i > from {
                    assert(from + 1 <= i < to);
                }
            }
        }
    }
}

/// Leaving an out-of-line block succeeds exactly when the bytes from the
/// end of its contents to the end of the block are all zero; otherwise the
/// decoder refuses it, naming the first non-zero byte.
pub proof fn law_leave_block_padding(b: Seq<u8>, outer: DecodeState, inner: DecodeState, block_end: usize)
    ensures
        leave_block(b, outer, inner, block_end) is Ok <==> (forall|i: int|
            inner.offset <= i < block_end ==> b[i] == 0),
        (leave_block(b, outer, inner, block_end) matches Err(e) ==> exists|i: int|
            inner.offset <= i < block_end && b[i] != 0 && (forall|j: int| inner.offset <= j < i ==> b[j] == 0)
                && e == (Error::NonZeroPadding { padding_start: inner.offset, non_zero_pos: i as usize })),
        (leave_block(b, outer, inner, block_end) matches Ok(s) ==> s.offset == outer.offset && s.end_block
            == outer.end_block && s.next_out_of_line == inner.next_out_of_line && s.depth == outer.depth
            && s.handles_left == inner.handles_left),
{
    lemma_first_nonzero_is_first(b, inner.offset as int, block_end as int);
}

/// A string decoded from its out-of-line block holds the block's first
/// bytes, as many as the header says, and is valid UTF-8; the rest of the
/// block, up to the next multiple of eight, is zero, and the next block
/// starts right after it.
pub proof fn law_string_block(nullable: bool, b: Seq<u8>, s: DecodeState)
    requires
        b.len() <= usize::MAX,
    ensures
        (dec_string(FidlType::String(nullable), b, s) matches Ok((SpecValue::Str(Some(x)), s3)) ==> {
            let start = s.next_out_of_line as int;
            &&& x == b.subrange(start, start + x.len())
            &&& valid_utf8(x)
            &&& forall|i: int| start + x.len() <= i < start + spec_round_up(x.len() as int, 8) ==> b[i] == 0
            &&& s3.next_out_of_line == start + spec_round_up(x.len() as int, 8)
        }),
{
    match dec_vector_header(b, s) {
        Ok((Some(len), s2)) => match enter_block(b, s2, len) {
            Ok(inner) => {
                assert(spec_round_up(len as int, 8) >= len);
                assert(s2.next_out_of_line == s.next_out_of_line);
                assert(inner.offset == s.next_out_of_line);
                assert(inner.end_block == s.next_out_of_line + spec_round_up(len as int, 8));
                assert(b.subrange(inner.offset as int, inner.offset + len).len() == len);
                law_leave_block_padding(b, s2, advance(inner, len), inner.end_block);
            },
            _ => {},
        },
        _ => {},
    }
}

/// Skipping `n` bytes of padding succeeds exactly when those bytes lie in
/// the message and are all zero, and then moves `n` bytes on; a non-zero byte
/// is refused, naming the first one.
pub proof fn law_skip_padding(b: Seq<u8>, s: DecodeState, n: nat)
    requires
        n > 0,
    ensures
        skip_padding(b, s, n) is Ok <==> s.offset + n <= b.len() && (forall|i: int|
            s.offset <= i < s.offset + n ==> b[i] == 0),
        (skip_padding(b, s, n) matches Ok(s2) ==> s2 == advance(s, n)),
        (skip_padding(b, s, n) matches Err(e) ==> (s.offset + n > b.len() && e == Error::OutOfRange) || exists|
            i: int|
            s.offset <= i < s.offset + n && b[i] != 0 && (forall|j: int| s.offset <= j < i ==> b[j] == 0) && e
                == (Error::NonZeroPadding { padding_start: s.offset, non_zero_pos: i as usize })),
{
    lemma_first_nonzero_is_first(b, s.offset as int, s.offset + n);
}

} // verus!
