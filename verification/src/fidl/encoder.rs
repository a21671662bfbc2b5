use vstd::prelude::*;
use super::bytes::{le_bytes, push_le, zeros};
use super::encode::{
    absent8, absent_envelope, envelope, envelope_header, find_member, lemma_find_member,
    lemma_nest_fields_ge, lemma_nest_seq_ge, lemma_nest_table_ge, nest, nest_fields, nest_seq,
    nest_table, pad8, present8, prim_bytes, table_prefix_len, unit_envelope, wire, wire_fields,
    wire_seq, wire_table,
};
use super::layout::{
    field_end, field_start_of_gap, has_type, inline_size, is_unit, lemma_inline_size_bounds,
    spec_round_up, wf_type, round_up_to_align,
};
use super::context::{default_encode_context, Context};
use super::wire::{
    lemma_view_opt_seq, lemma_view_seq, view_opt_seq, view_seq, view_value, Error, FidlType,
    Member, SpecValue, StructField, Value, ALLOC_PRESENT_U64, MAX_RECURSION,
};

verus! {

/// Appends `n` zero bytes to `out`.
pub fn push_zeros(out: &mut Vec<u8>, n: usize)
    ensures
        final(out)@ == old(out)@ + zeros(n as nat),
{
    let ghost start = out@;
    let mut i: usize = 0;
    while i < n
        invariant
            i <= n,
            out@ == start + zeros(i as nat),
        decreases n - i,
    {
        out.push(0u8);
        i = i + 1;
        assert(out@ =~= start + zeros(i as nat));
    }
}

/// Appends zero bytes to `out` up to the next multiple of eight.
pub fn pad_to_8(out: &mut Vec<u8>)
    ensures
        final(out)@ == pad8(old(out)@),
{
    let rem = out.len() % 8;
    if rem != 0 {
        push_zeros(out, 8 - rem);
    } else {
        assert(out@ =~= pad8(old(out)@));
    }
}

/// Appends the bytes of `b` to `out`.
pub fn push_bytes(out: &mut Vec<u8>, b: &[u8])
    ensures
        final(out)@ == old(out)@ + b@,
{
    let ghost start = out@;
    let mut i: usize = 0;
    while i < b.len()
        invariant
            i <= b@.len(),
            out@ == start + b@.subrange(0, i as int),
        decreases b@.len() - i,
    {
        out.push(b[i]);
        i = i + 1;
        assert(out@ =~= start + b@.subrange(0, i as int));
    }
    assert(b@.subrange(0, b@.len() as int) =~= b@);
}

/// Appends the inline header of a present envelope whose payload takes `num_bytes` bytes.
fn push_envelope_header(inl: &mut Vec<u8>, num_bytes: usize)
    ensures
        final(inl)@ == old(inl)@ + envelope_header(num_bytes as nat),
{
    let n: u64 = (num_bytes as u64) % 0x1_0000_0000;
    push_le(inl, n, 4);
    push_le(inl, 0, 4);
    push_le(inl, ALLOC_PRESENT_U64, 8);
    assert(inl@ =~= old(inl)@ + envelope_header(num_bytes as nat));
}

/// Appends the wire bytes of a boolean or integer value.
fn encode_prim(v: &Value, inl: &mut Vec<u8>)
    ensures
        final(inl)@ == old(inl)@ + prim_bytes(v@),
{
    match v {
        Value::Bool(b) => {
            inl.push(if *b { 1u8 } else { 0u8 });
        },
        Value::U8(x) => push_le(inl, *x as u64, 1),
        Value::I8(x) => push_le(inl, (*x as u8) as u64, 1),
        Value::U16(x) => push_le(inl, *x as u64, 2),
        Value::I16(x) => push_le(inl, (*x as u16) as u64, 2),
        Value::U32(x) => push_le(inl, *x as u64, 4),
        Value::I32(x) => push_le(inl, (*x as u32) as u64, 4),
        Value::U64(x) => push_le(inl, *x, 8),
        Value::I64(x) => push_le(inl, *x as u64, 8),
        _ => {
            assert(prim_bytes(v@) =~= Seq::<u8>::empty());
            assert(inl@ =~= old(inl)@ + prim_bytes(v@));
        },
    }
}

/// Whether `inl` and `ool` grew by the inline and out-of-line parts of `w`.
pub open spec fn appended(
    inl0: Seq<u8>,
    inl: Seq<u8>,
    ool0: Seq<u8>,
    ool: Seq<u8>,
    w: (Seq<u8>, Seq<u8>),
) -> bool {
    inl == inl0 + w.0 && ool == ool0 + w.1
}

/// The views of the values of `xs`.
pub open spec fn views(xs: Vec<Value>) -> Seq<SpecValue> {
    view_seq(xs@, xs@.len())
}

/// Appends the wire form of value `v` of type `t`, found `depth` out-of-line
/// objects deep: its inline bytes to `inl`, its out-of-line blocks to `ool`.
///
/// Fails with `MaxRecursionDepth` exactly when the out-of-line objects of the
/// value would nest deeper than `MAX_RECURSION`.
fn encode_value_at(t: &FidlType, v: &Value, depth: usize, inl: &mut Vec<u8>, ool: &mut Vec<u8>) -> (r:
    Result<(), Error>)
    requires
        wf_type(*t),
        has_type(*t, v@),
        depth <= MAX_RECURSION,
    ensures
        r is Ok <==> depth + nest(*t, v@, false) <= MAX_RECURSION,
        r is Err ==> r == Err::<(), Error>(Error::MaxRecursionDepth),
        r is Ok ==> appended(old(inl)@, final(inl)@, old(ool)@, final(ool)@, wire(*t, v@)),
    decreases v, 1nat,
{
    match t {
        FidlType::Array(..) => encode_array(t, v, depth, inl, ool),
        FidlType::Vector(..) => encode_vector_at(t, v, depth, inl, ool),
        FidlType::String(..) => encode_string_at(t, v, depth, inl, ool),
        FidlType::Struct(..) => encode_struct(t, v, depth, inl, ool),
        FidlType::EmptyStruct => {
            inl.push(0u8);
            assert(inl@ =~= old(inl)@ + wire(*t, v@).0);
            assert(ool@ =~= old(ool)@ + wire(*t, v@).1);
            Ok(())
        },
        FidlType::Nullable(..) => encode_nullable(t, v, depth, inl, ool),
        FidlType::Table(..) => encode_table(t, v, depth, inl, ool),
        FidlType::XUnion(..) => encode_union(t, v, depth, inl, ool),
        FidlType::Result(..) => encode_result(t, v, depth, inl, ool),
        _ => {
            encode_prim(v, inl);
            assert(inl@ =~= old(inl)@ + wire(*t, v@).0);
            assert(ool@ =~= old(ool)@ + wire(*t, v@).1);
            Ok(())
        },
    }
}


/// Appends an array value: its elements one after the other, inline.
fn encode_array(t: &FidlType, v: &Value, depth: usize, inl: &mut Vec<u8>, ool: &mut Vec<u8>) -> (r:
    Result<(), Error>)
    requires
        wf_type(*t),
        has_type(*t, v@),
        depth <= MAX_RECURSION,
        *t is Array,
    ensures
        r is Ok <==> depth + nest(*t, v@, false) <= MAX_RECURSION,
        r is Err ==> r == Err::<(), Error>(Error::MaxRecursionDepth),
        r is Ok ==> appended(old(inl)@, final(inl)@, old(ool)@, final(ool)@, wire(*t, v@)),
    decreases v, 0nat,
{
    match t {
        FidlType::Array(e, _) => match v {
            Value::Array(xs) => {
                proof {
                    lemma_view_seq(xs@, xs@.len());
                }
                encode_elements(e, xs, depth, inl, ool)
            },
            _ => {
                assert(false);
                Err(Error::MaxRecursionDepth)
            },
        },
        _ => {
            assert(false);
            Err(Error::MaxRecursionDepth)
        },
    }
}

/// Appends a vector value: its length and presence inline, its elements in a block of their own.
fn encode_vector_at(t: &FidlType, v: &Value, depth: usize, inl: &mut Vec<u8>, ool: &mut Vec<u8>) -> (r:
    Result<(), Error>)
    requires
        wf_type(*t),
        has_type(*t, v@),
        depth <= MAX_RECURSION,
        *t is Vector,
    ensures
        r is Ok <==> depth + nest(*t, v@, false) <= MAX_RECURSION,
        r is Err ==> r == Err::<(), Error>(Error::MaxRecursionDepth),
        r is Ok ==> appended(old(inl)@, final(inl)@, old(ool)@, final(ool)@, wire(*t, v@)),
    decreases v, 0nat,
{
    match t {
        FidlType::Vector(e, _) => match v {
            Value::Vector(None) => {
                push_le(inl, 0, 8);
                push_le(inl, 0, 8);
                assert(inl@ =~= old(inl)@ + wire(*t, v@).0);
                assert(ool@ =~= old(ool)@ + wire(*t, v@).1);
                Ok(())
            },
            Value::Vector(Some(xs)) => {
                proof {
                    lemma_view_seq(xs@, xs@.len());
                }
                push_le(inl, xs.len() as u64, 8);
                push_le(inl, ALLOC_PRESENT_U64, 8);
                if xs.len() == 0 {
                    assert(pad8(Seq::<u8>::empty()) =~= Seq::<u8>::empty());
                    assert(wire_seq(**e, views(*xs), 0) == (Seq::<u8>::empty(), Seq::<u8>::empty()));
                    assert(inl@ =~= old(inl)@ + wire(*t, v@).0);
                    assert(ool@ =~= old(ool)@ + wire(*t, v@).1);
                    return Ok(());
                }
                if depth + 1 > MAX_RECURSION {
                    return Err(Error::MaxRecursionDepth);
                }
                let mut ci: Vec<u8> = Vec::new();
                let mut co: Vec<u8> = Vec::new();
                assert(super::layout::all_have_type(**e, views(*xs)));
                let r = encode_elements(e, xs, depth + 1, &mut ci, &mut co);
                if r.is_err() {
                    return r;
                }
                assert(ci@ =~= wire_seq(**e, views(*xs), xs@.len()).0);
                assert(co@ =~= wire_seq(**e, views(*xs), xs@.len()).1);
                pad_to_8(&mut ci);
                ool.append(&mut ci);
                ool.append(&mut co);
                assert(inl@ =~= old(inl)@ + wire(*t, v@).0);
                assert(ool@ =~= old(ool)@ + wire(*t, v@).1);
                Ok(())
            },
            _ => {
                assert(false);
                Err(Error::MaxRecursionDepth)
            },
        },
        _ => {
            assert(false);
            Err(Error::MaxRecursionDepth)
        },
    }
}

/// Appends a string value: its length and presence inline, its bytes in a block of their own.
fn encode_string_at(t: &FidlType, v: &Value, depth: usize, inl: &mut Vec<u8>, ool: &mut Vec<u8>) -> (r:
    Result<(), Error>)
    requires
        wf_type(*t),
        has_type(*t, v@),
        depth <= MAX_RECURSION,
        *t is String,
    ensures
        r is Ok <==> depth + nest(*t, v@, false) <= MAX_RECURSION,
        r is Err ==> r == Err::<(), Error>(Error::MaxRecursionDepth),
        r is Ok ==> appended(old(inl)@, final(inl)@, old(ool)@, final(ool)@, wire(*t, v@)),
    decreases v, 0nat,
{
    match t {
        FidlType::String(_) => match v {
            Value::Str(None) => {
                push_le(inl, 0, 8);
                push_le(inl, 0, 8);
                assert(inl@ =~= old(inl)@ + wire(*t, v@).0);
                assert(ool@ =~= old(ool)@ + wire(*t, v@).1);
                Ok(())
            },
            Value::Str(Some(b)) => {
                push_le(inl, b.len() as u64, 8);
                push_le(inl, ALLOC_PRESENT_U64, 8);
                if depth + 1 > MAX_RECURSION {
                    return Err(Error::MaxRecursionDepth);
                }
                let mut cb: Vec<u8> = Vec::new();
                push_bytes(&mut cb, b.as_slice());
                assert(cb@ =~= b@);
                pad_to_8(&mut cb);
                ool.append(&mut cb);
                assert(inl@ =~= old(inl)@ + wire(*t, v@).0);
                assert(ool@ =~= old(ool)@ + wire(*t, v@).1);
                Ok(())
            },
            _ => {
                assert(false);
                Err(Error::MaxRecursionDepth)
            },
        },
        _ => {
            assert(false);
            Err(Error::MaxRecursionDepth)
        },
    }
}

/// Appends a struct value: its fields at their offsets, with zero padding between them.
fn encode_struct(t: &FidlType, v: &Value, depth: usize, inl: &mut Vec<u8>, ool: &mut Vec<u8>) -> (r:
    Result<(), Error>)
    requires
        wf_type(*t),
        has_type(*t, v@),
        depth <= MAX_RECURSION,
        *t is Struct,
    ensures
        r is Ok <==> depth + nest(*t, v@, false) <= MAX_RECURSION,
        r is Err ==> r == Err::<(), Error>(Error::MaxRecursionDepth),
        r is Ok ==> appended(old(inl)@, final(inl)@, old(ool)@, final(ool)@, wire(*t, v@)),
    decreases v, 0nat,
{
    match t {
        FidlType::Struct(fields, size, _) => match v {
            Value::Struct(xs) => {
                proof {
                    lemma_view_seq(xs@, xs@.len());
                }
                let r = encode_fields(fields, xs, depth, inl, ool);
                if r.is_err() {
                    return r;
                }
                let end: usize = if xs.len() == 0 {
                    0
                } else {
                    let last = xs.len() - 1;
                    let sz = fields[last].ty.inline_size_of();
                    fields[last].offset + sz
                };
                push_zeros(inl, *size - end);
                assert(inl@ =~= old(inl)@ + wire(*t, v@).0);
                Ok(())
            },
            _ => {
                assert(false);
                Err(Error::MaxRecursionDepth)
            },
        },
        _ => {
            assert(false);
            Err(Error::MaxRecursionDepth)
        },
    }
}

/// Appends an optional boxed value: a union inline, or a struct in a block of its own.
fn encode_nullable(t: &FidlType, v: &Value, depth: usize, inl: &mut Vec<u8>, ool: &mut Vec<u8>) -> (r:
    Result<(), Error>)
    requires
        wf_type(*t),
        has_type(*t, v@),
        depth <= MAX_RECURSION,
        *t is Nullable,
    ensures
        r is Ok <==> depth + nest(*t, v@, false) <= MAX_RECURSION,
        r is Err ==> r == Err::<(), Error>(Error::MaxRecursionDepth),
        r is Ok ==> appended(old(inl)@, final(inl)@, old(ool)@, final(ool)@, wire(*t, v@)),
    decreases v, 0nat,
{
    match t {
        FidlType::Nullable(x) => match v {
            Value::Boxed(None) => {
                match **x {
                    FidlType::XUnion(..) => push_zeros(inl, 24),
                    _ => push_le(inl, 0, 8),
                }
                assert(inl@ =~= old(inl)@ + wire(*t, v@).0);
                assert(ool@ =~= old(ool)@ + wire(*t, v@).1);
                Ok(())
            },
            Value::Boxed(Some(y)) => {
                match **x {
                    FidlType::XUnion(..) => encode_value_at(x, y, depth, inl, ool),
                    _ => {
                        push_le(inl, ALLOC_PRESENT_U64, 8);
                        if depth + 1 > MAX_RECURSION {
                            return Err(Error::MaxRecursionDepth);
                        }
                        let mut ci: Vec<u8> = Vec::new();
                        let mut co: Vec<u8> = Vec::new();
                        let r = encode_value_at(x, y, depth + 1, &mut ci, &mut co);
                        if r.is_err() {
                            return r;
                        }
                        assert(ci@ =~= wire(**x, y@).0);
                        assert(co@ =~= wire(**x, y@).1);
                        pad_to_8(&mut ci);
                        ool.append(&mut ci);
                        ool.append(&mut co);
                        assert(inl@ =~= old(inl)@ + wire(*t, v@).0);
                        assert(ool@ =~= old(ool)@ + wire(*t, v@).1);
                        Ok(())
                    },
                }
            },
            _ => {
                assert(false);
                Err(Error::MaxRecursionDepth)
            },
        },
        _ => {
            assert(false);
            Err(Error::MaxRecursionDepth)
        },
    }
}

/// Appends a table value: the envelopes of its members up to the last present one, in a block of their own.
fn encode_table(t: &FidlType, v: &Value, depth: usize, inl: &mut Vec<u8>, ool: &mut Vec<u8>) -> (r:
    Result<(), Error>)
    requires
        wf_type(*t),
        has_type(*t, v@),
        depth <= MAX_RECURSION,
        *t is Table,
    ensures
        r is Ok <==> depth + nest(*t, v@, false) <= MAX_RECURSION,
        r is Err ==> r == Err::<(), Error>(Error::MaxRecursionDepth),
        r is Ok ==> appended(old(inl)@, final(inl)@, old(ool)@, final(ool)@, wire(*t, v@)),
    decreases v, 0nat,
{
    match t {
        FidlType::Table(members) => match v {
            Value::Table(xs) => {
                proof {
                    lemma_view_opt_seq(xs@, xs@.len());
                }
                let ghost xv = view_opt_seq(xs@, xs@.len());
                let mut n: usize = xs.len();
                while n > 0 && xs[n - 1].is_none()
                    invariant
                        n <= xs@.len(),
                        xv == view_opt_seq(xs@, xs@.len()),
                        xv.len() == xs@.len(),
                        forall|i: int| 0 <= i < xs@.len() ==> (#[trigger] xv[i] is None <==> xs@[i] is None),
                        table_prefix_len(xv, xv.len()) == table_prefix_len(xv, n as nat),
                    decreases n,
                {
                    n = n - 1;
                }
                let max_ordinal: u64 = if n == 0 {
                    0
                } else {
                    members[n - 1].ordinal
                };
                push_le(inl, max_ordinal, 8);
                push_le(inl, ALLOC_PRESENT_U64, 8);
                if depth + 1 > MAX_RECURSION {
                    return Err(Error::MaxRecursionDepth);
                }
                let mut ci: Vec<u8> = Vec::new();
                let mut co: Vec<u8> = Vec::new();
                let r = encode_table_entries(members, xs, n, depth + 1, &mut ci, &mut co);
                if r.is_err() {
                    return r;
                }
                assert(ci@ =~= wire_table(members@, xv, n as nat).0);
                assert(co@ =~= wire_table(members@, xv, n as nat).1);
                pad_to_8(&mut ci);
                ool.append(&mut ci);
                ool.append(&mut co);
                assert(inl@ =~= old(inl)@ + wire(*t, v@).0);
                assert(ool@ =~= old(ool)@ + wire(*t, v@).1);
                Ok(())
            },
            _ => {
                assert(false);
                Err(Error::MaxRecursionDepth)
            },
        },
        _ => {
            assert(false);
            Err(Error::MaxRecursionDepth)
        },
    }
}

/// Appends a union value: its ordinal and the envelope holding its member.
fn encode_union(t: &FidlType, v: &Value, depth: usize, inl: &mut Vec<u8>, ool: &mut Vec<u8>) -> (r:
    Result<(), Error>)
    requires
        wf_type(*t),
        has_type(*t, v@),
        depth <= MAX_RECURSION,
        *t is XUnion,
    ensures
        r is Ok <==> depth + nest(*t, v@, false) <= MAX_RECURSION,
        r is Err ==> r == Err::<(), Error>(Error::MaxRecursionDepth),
        r is Ok ==> appended(old(inl)@, final(inl)@, old(ool)@, final(ool)@, wire(*t, v@)),
    decreases v, 0nat,
{
    match t {
        FidlType::XUnion(members, _) => match v {
            Value::Union(o, y) => {
                let ghost w = choose|i: int|
                    0 <= i < members@.len() && #[trigger] members@[i].ordinal == *o && has_type(
                        members@[i].ty,
                        y@,
                    );
                assert(members@[w].ordinal == *o);
                let mut k: usize = 0;
                while k < members.len() && members[k].ordinal != *o
                    invariant
                        0 <= k <= w < members@.len(),
                        members@[w].ordinal == *o,
                        forall|l: int| 0 <= l < k ==> #[trigger] members@[l].ordinal != *o,
                    decreases w - k,
                {
                    k = k + 1;
                }
                proof {
                    lemma_find_member(members@, *o, 0, k as int);
                }
                push_le(inl, *o, 8);
                let r = encode_in_envelope_at(&members[k].ty, y, depth, inl, ool);
                if r.is_ok() {
                    assert(inl@ =~= old(inl)@ + wire(*t, v@).0);
                }
                r
            },
            Value::UnknownUnion(o, b) => {
                push_le(inl, *o, 8);
                push_envelope_header(inl, b.len());
                if depth + 1 > MAX_RECURSION {
                    return Err(Error::MaxRecursionDepth);
                }
                let mut cb: Vec<u8> = Vec::new();
                push_bytes(&mut cb, b.as_slice());
                assert(cb@ =~= b@);
                pad_to_8(&mut cb);
                ool.append(&mut cb);
                assert(inl@ =~= old(inl)@ + wire(*t, v@).0);
                assert(ool@ =~= old(ool)@ + wire(*t, v@).1);
                Ok(())
            },
            _ => {
                assert(false);
                Err(Error::MaxRecursionDepth)
            },
        },
        _ => {
            assert(false);
            Err(Error::MaxRecursionDepth)
        },
    }
}

/// Appends a result value: ordinal one and the success value, or ordinal two and the error.
fn encode_result(t: &FidlType, v: &Value, depth: usize, inl: &mut Vec<u8>, ool: &mut Vec<u8>) -> (r:
    Result<(), Error>)
    requires
        wf_type(*t),
        has_type(*t, v@),
        depth <= MAX_RECURSION,
        *t is Result,
    ensures
        r is Ok <==> depth + nest(*t, v@, false) <= MAX_RECURSION,
        r is Err ==> r == Err::<(), Error>(Error::MaxRecursionDepth),
        r is Ok ==> appended(old(inl)@, final(inl)@, old(ool)@, final(ool)@, wire(*t, v@)),
    decreases v, 0nat,
{
    match t {
        FidlType::Result(ok, err) => match v {
            Value::ResultOk(y) => {
                push_le(inl, 1, 8);
                if ok.inline_size_of() == 0 {
                    if depth + 1 > MAX_RECURSION {
                        return Err(Error::MaxRecursionDepth);
                    }
                    push_envelope_header(inl, 8);
                    push_zeros(ool, 8);
                    assert(inl@ =~= old(inl)@ + wire(*t, v@).0);
                    Ok(())
                } else {
                    let r = encode_in_envelope_at(ok, y, depth, inl, ool);
                    if r.is_ok() {
                        assert(inl@ =~= old(inl)@ + wire(*t, v@).0);
                    }
                    r
                }
            },
            Value::ResultErr(y) => {
                push_le(inl, 2, 8);
                let r = encode_in_envelope_at(err, y, depth, inl, ool);
                if r.is_ok() {
                    assert(inl@ =~= old(inl)@ + wire(*t, v@).0);
                }
                r
            },
            _ => {
                assert(false);
                Err(Error::MaxRecursionDepth)
            },
        },
        _ => {
            assert(false);
            Err(Error::MaxRecursionDepth)
        },
    }
}


/// Appends the wire forms of the values of `xs`, all of type `t`, one after the other.
fn encode_elements(t: &FidlType, xs: &Vec<Value>, depth: usize, inl: &mut Vec<u8>, ool: &mut Vec<u8>) -> (r:
    Result<(), Error>)
    requires
        wf_type(*t),
        forall|i: int| 0 <= i < xs@.len() ==> has_type(*t, #[trigger] views(*xs)[i]),
        views(*xs).len() == xs@.len(),
        forall|i: int| 0 <= i < xs@.len() ==> #[trigger] views(*xs)[i] == view_value(xs@[i]),
        depth <= MAX_RECURSION,
    ensures
        r is Ok <==> depth + nest_seq(*t, views(*xs), xs@.len(), false) <= MAX_RECURSION,
        r is Err ==> r == Err::<(), Error>(Error::MaxRecursionDepth),
        r is Ok ==> appended(
            old(inl)@,
            final(inl)@,
            old(ool)@,
            final(ool)@,
            wire_seq(*t, views(*xs), xs@.len()),
        ),
    decreases xs, 1nat,
{
    let ghost xv = views(*xs);
    let mut i: usize = 0;
    while i < xs.len()
        invariant
            i <= xs@.len(),
            xv == views(*xs),
            wf_type(*t),
            forall|j: int| 0 <= j < xs@.len() ==> has_type(*t, #[trigger] xv[j]),
            xv.len() == xs@.len(),
            forall|j: int| 0 <= j < xs@.len() ==> #[trigger] xv[j] == view_value(xs@[j]),
            depth <= MAX_RECURSION,
            depth + nest_seq(*t, xv, i as nat, false) <= MAX_RECURSION,
            appended(old(inl)@, inl@, old(ool)@, ool@, wire_seq(*t, xv, i as nat)),
        decreases xs@.len() - i,
    {
        assert(xv[i as int] == xs@[i as int]@);
        let ghost inl1 = inl@;
        let ghost ool1 = ool@;
        let r = encode_value_at(t, &xs[i], depth, inl, ool);
        if r.is_err() {
            proof {
                lemma_nest_seq_ge(*t, xv, xv.len(), i as int, false);
            }
            return r;
        }
        i = i + 1;
        assert(inl@ =~= old(inl)@ + wire_seq(*t, xv, i as nat).0);
        assert(ool@ =~= old(ool)@ + wire_seq(*t, xv, i as nat).1);
    }
    Ok(())
}

/// Appends the fields of a struct value, each after the zero padding that
/// precedes its offset.
#[verifier::rlimit(40)]
fn encode_fields(
    fields: &Vec<StructField>,
    xs: &Vec<Value>,
    depth: usize,
    inl: &mut Vec<u8>,
    ool: &mut Vec<u8>,
) -> (r: Result<(), Error>)
    requires
        xs@.len() == fields@.len(),
        forall|i: int| 0 <= i < fields@.len() ==> wf_type(#[trigger] fields@[i].ty),
        forall|i: int|
            0 <= i < fields@.len() ==> field_start_of_gap(fields@, i) <= #[trigger] fields@[i].offset,
        forall|i: int| 0 <= i < xs@.len() ==> has_type(fields@[i].ty, #[trigger] views(*xs)[i]),
        views(*xs).len() == xs@.len(),
        forall|i: int| 0 <= i < xs@.len() ==> #[trigger] views(*xs)[i] == view_value(xs@[i]),
        depth <= MAX_RECURSION,
    ensures
        r is Ok <==> depth + nest_fields(fields@, views(*xs), xs@.len(), false) <= MAX_RECURSION,
        r is Err ==> r == Err::<(), Error>(Error::MaxRecursionDepth),
        r is Ok ==> appended(
            old(inl)@,
            final(inl)@,
            old(ool)@,
            final(ool)@,
            wire_fields(fields@, views(*xs), xs@.len()),
        ),
    decreases xs, 1nat,
{
    let ghost xv = views(*xs);
    let mut i: usize = 0;
    while i < xs.len()
        invariant
            i <= xs@.len(),
            xs@.len() == fields@.len(),
            xv == views(*xs),
            forall|j: int| 0 <= j < fields@.len() ==> wf_type(#[trigger] fields@[j].ty),
            forall|j: int|
                0 <= j < fields@.len() ==> field_start_of_gap(fields@, j) <= #[trigger] fields@[j].offset,
            forall|j: int| 0 <= j < xs@.len() ==> has_type(fields@[j].ty, #[trigger] xv[j]),
            xv.len() == xs@.len(),
            forall|j: int| 0 <= j < xs@.len() ==> #[trigger] xv[j] == view_value(xs@[j]),
            depth <= MAX_RECURSION,
            depth + nest_fields(fields@, xv, i as nat, false) <= MAX_RECURSION,
            appended(old(inl)@, inl@, old(ool)@, ool@, wire_fields(fields@, xv, i as nat)),
        decreases xs@.len() - i,
    {
        assert(xv[i as int] == xs@[i as int]@);
        assert(field_start_of_gap(fields@, i as int) <= fields@[i as int].offset);
        let start: usize = if i == 0 {
            0
        } else {
            let sz = fields[i - 1].ty.inline_size_of();
            fields[i - 1].offset + sz
        };
        assert(start == field_start_of_gap(fields@, i as int));
        push_zeros(inl, fields[i].offset - start);
        let r = encode_value_at(&fields[i].ty, &xs[i], depth, inl, ool);
        if r.is_err() {
            proof {
                lemma_nest_fields_ge(fields@, xv, xv.len(), i as int, false);
            }
            return r;
        }
        i = i + 1;
        assert(inl@ =~= old(inl)@ + wire_fields(fields@, xv, i as nat).0);
        assert(ool@ =~= old(ool)@ + wire_fields(fields@, xv, i as nat).1);
    }
    Ok(())
}

/// Appends the envelope holding value `v` of type `t`: its header to `inl`,
/// its payload block and the blocks that the payload owns to `ool`.
fn encode_in_envelope_at(t: &FidlType, v: &Value, depth: usize, inl: &mut Vec<u8>, ool: &mut Vec<u8>) -> (r:
    Result<(), Error>)
    requires
        wf_type(*t),
        has_type(*t, v@),
        depth <= MAX_RECURSION,
    ensures
        r is Ok <==> depth + 1 + nest(*t, v@, false) <= MAX_RECURSION,
        r is Err ==> r == Err::<(), Error>(Error::MaxRecursionDepth),
        r is Ok ==> appended(old(inl)@, final(inl)@, old(ool)@, final(ool)@, envelope(*t, v@)),
    decreases v, 2nat,
{
    if depth + 1 > MAX_RECURSION {
        return Err(Error::MaxRecursionDepth);
    }
    let mut ci: Vec<u8> = Vec::new();
    let mut co: Vec<u8> = Vec::new();
    let r = encode_value_at(t, v, depth + 1, &mut ci, &mut co);
    if r.is_err() {
        return r;
    }
    assert(ci@ =~= wire(*t, v@).0);
    assert(co@ =~= wire(*t, v@).1);
    pad_to_8(&mut ci);
    let before = ool.len();
    ool.append(&mut ci);
    ool.append(&mut co);
    assert(ool@ =~= old(ool)@ + envelope(*t, v@).1);
    let num_bytes = ool.len() - before;
    push_envelope_header(inl, num_bytes);
    Ok(())
}

/// Appends the first `n` entries of a table value: zeroed envelopes for the
/// ordinals that no member takes, then an envelope (absent or present) per member.
fn encode_table_entries(
    members: &Vec<Member>,
    xs: &Vec<Option<Value>>,
    n: usize,
    depth: usize,
    inl: &mut Vec<u8>,
    ool: &mut Vec<u8>,
) -> (r: Result<(), Error>)
    requires
        n <= xs@.len() == members@.len(),
        super::layout::table_ordinals(members@),
        forall|i: int| 0 <= i < members@.len() ==> wf_type(#[trigger] members@[i].ty),
        view_opt_seq(xs@, xs@.len()).len() == xs@.len(),
        forall|i: int|
            0 <= i < xs@.len() ==> #[trigger] view_opt_seq(xs@, xs@.len())[i] == match xs@[i] {
                None => None,
                Some(x) => Some(view_value(x)),
            },
        forall|i: int|
            0 <= i < xs@.len() ==> match #[trigger] view_opt_seq(xs@, xs@.len())[i] {
                None => true,
                Some(y) => has_type(members@[i].ty, y),
            },
        depth <= MAX_RECURSION,
    ensures
        r is Ok <==> depth + nest_table(members@, view_opt_seq(xs@, xs@.len()), n as nat, false)
            <= MAX_RECURSION,
        r is Err ==> r == Err::<(), Error>(Error::MaxRecursionDepth),
        r is Ok ==> appended(
            old(inl)@,
            final(inl)@,
            old(ool)@,
            final(ool)@,
            wire_table(members@, view_opt_seq(xs@, xs@.len()), n as nat),
        ),
    decreases xs, 1nat,
{
    let ghost xv = view_opt_seq(xs@, xs@.len());
    let mut k: usize = 0;
    let mut prev_end: usize = 0;
    while k < n
        invariant
            k <= n <= xs@.len() == members@.len(),
            xv == view_opt_seq(xs@, xs@.len()),
            super::layout::table_ordinals(members@),
            forall|i: int| 0 <= i < members@.len() ==> wf_type(#[trigger] members@[i].ty),
            xv.len() == xs@.len(),
            forall|i: int|
                0 <= i < xs@.len() ==> #[trigger] xv[i] == match xs@[i] {
                    None => None,
                    Some(x) => Some(view_value(x)),
                },
            forall|i: int|
                0 <= i < xs@.len() ==> match #[trigger] xv[i] {
                    None => true,
                    Some(y) => has_type(members@[i].ty, y),
                },
            depth <= MAX_RECURSION,
            depth + nest_table(members@, xv, k as nat, false) <= MAX_RECURSION,
            prev_end == (if k == 0 { 0 } else { members@[k - 1].ordinal * 16 }),
            appended(old(inl)@, inl@, old(ool)@, ool@, wire_table(members@, xv, k as nat)),
        decreases n - k,
    {
        let ord = members[k].ordinal;
        assert(1 <= members@[k as int].ordinal <= super::wire::MAX_TABLE_ORDINAL);
        if k > 0 {
            assert(members@[k - 1].ordinal < members@[k as int].ordinal);
        }
        let cur: usize = ((ord - 1) as usize) * 16;
        push_zeros(inl, cur - prev_end);
        match &xs[k] {
            None => {
                push_le(inl, 0, 4);
                push_le(inl, 0, 4);
                push_le(inl, 0, 8);
            },
            Some(y) => {
                assert(xv[k as int] == Some(y@));
                let r = encode_in_envelope_at(&members[k].ty, y, depth, inl, ool);
                if r.is_err() {
                    proof {
                        lemma_nest_table_ge(members@, xv, n as nat, k as int, false);
                    }
                    return r;
                }
            },
        }
        prev_end = (ord as usize) * 16;
        k = k + 1;
        assert(inl@ =~= old(inl)@ + wire_table(members@, xv, k as nat).0);
        assert(ool@ =~= old(ool)@ + wire_table(members@, xv, k as nat).1);
    }
    Ok(())
}

/// The bytes of a message holding value `v` of type `t`: its inline part
/// padded to eight bytes, then its out-of-line blocks.
pub open spec fn message(t: FidlType, v: SpecValue) -> Seq<u8> {
    pad8(wire(t, v).0) + wire(t, v).1
}

/// Appends the wire form of value `v` of type `t`, found `depth` out-of-line
/// objects deep: its inline bytes to `inl`, its out-of-line blocks to `ool`.
///
/// Fails with `MaxRecursionDepth` exactly when an out-of-line object of the
/// value would lie deeper than `MAX_RECURSION`; a value with no out-of-line
/// object is encoded at any depth.
pub fn encode_value(t: &FidlType, v: &Value, depth: usize, inl: &mut Vec<u8>, ool: &mut Vec<u8>) -> (r: Result<(), Error>)
    requires
        wf_type(*t),
        has_type(*t, v@),
    ensures
        r is Ok <==> (nest(*t, v@, false) == 0 || depth + nest(*t, v@, false) <= MAX_RECURSION),
        r is Err ==> r == Err::<(), Error>(Error::MaxRecursionDepth),
        r is Err ==> final(inl)@ == old(inl)@ && final(ool)@ == old(ool)@,
        r is Ok ==> appended(old(inl)@, final(inl)@, old(ool)@, final(ool)@, wire(*t, v@)),
{
    let d = if depth > MAX_RECURSION {
        MAX_RECURSION
    } else {
        depth
    };
    let mut i2: Vec<u8> = Vec::new();
    let mut o2: Vec<u8> = Vec::new();
    let r = encode_value_at(t, v, d, &mut i2, &mut o2);
    if r.is_ok() {
        assert(i2@ =~= Seq::<u8>::empty() + i2@);
        assert(o2@ =~= Seq::<u8>::empty() + o2@);
        inl.append(&mut i2);
        ool.append(&mut o2);
    }
    r
}

/// Appends a vector value: its length and presence inline, its elements in
/// a block of their own. An absent or empty vector writes no block, so it is
/// encoded at any depth.
pub fn encode_vector(t: &FidlType, v: &Value, depth: usize, inl: &mut Vec<u8>, ool: &mut Vec<u8>) -> (r: Result<(), Error>)
    requires
        wf_type(*t),
        has_type(*t, v@),
        *t is Vector,
    ensures
        r is Ok <==> (nest(*t, v@, false) == 0 || depth + nest(*t, v@, false) <= MAX_RECURSION),
        r is Err ==> r == Err::<(), Error>(Error::MaxRecursionDepth),
        r is Err ==> final(inl)@ == old(inl)@ && final(ool)@ == old(ool)@,
        r is Ok ==> appended(old(inl)@, final(inl)@, old(ool)@, final(ool)@, wire(*t, v@)),
{
    let d = if depth > MAX_RECURSION {
        MAX_RECURSION
    } else {
        depth
    };
    let mut i2: Vec<u8> = Vec::new();
    let mut o2: Vec<u8> = Vec::new();
    let r = encode_vector_at(t, v, d, &mut i2, &mut o2);
    if r.is_ok() {
        assert(i2@ =~= Seq::<u8>::empty() + i2@);
        assert(o2@ =~= Seq::<u8>::empty() + o2@);
        inl.append(&mut i2);
        ool.append(&mut o2);
    }
    r
}

/// Appends a string value: its length and presence inline, its bytes in a
/// block of their own. An absent string writes no block, so it is encoded
/// at any depth.
pub fn encode_string(t: &FidlType, v: &Value, depth: usize, inl: &mut Vec<u8>, ool: &mut Vec<u8>) -> (r: Result<(), Error>)
    requires
        wf_type(*t),
        has_type(*t, v@),
        *t is String,
    ensures
        r is Ok <==> (nest(*t, v@, false) == 0 || depth + nest(*t, v@, false) <= MAX_RECURSION),
        r is Err ==> r == Err::<(), Error>(Error::MaxRecursionDepth),
        r is Err ==> final(inl)@ == old(inl)@ && final(ool)@ == old(ool)@,
        r is Ok ==> appended(old(inl)@, final(inl)@, old(ool)@, final(ool)@, wire(*t, v@)),
{
    let d = if depth > MAX_RECURSION {
        MAX_RECURSION
    } else {
        depth
    };
    let mut i2: Vec<u8> = Vec::new();
    let mut o2: Vec<u8> = Vec::new();
    let r = encode_string_at(t, v, d, &mut i2, &mut o2);
    if r.is_ok() {
        assert(i2@ =~= Seq::<u8>::empty() + i2@);
        assert(o2@ =~= Seq::<u8>::empty() + o2@);
        inl.append(&mut i2);
        ool.append(&mut o2);
    }
    r
}

/// Appends the envelope holding value `v` of type `t`: its header to `inl`,
/// its payload block and the blocks that the payload owns to `ool`. The
/// payload is an out-of-line object, so it fails beyond `MAX_RECURSION`.
pub fn encode_in_envelope(t: &FidlType, v: &Value, depth: usize, inl: &mut Vec<u8>, ool: &mut Vec<u8>) -> (r: Result<(), Error>)
    requires
        wf_type(*t),
        has_type(*t, v@),
    ensures
        r is Ok <==> (depth + 1 + nest(*t, v@, false) <= MAX_RECURSION),
        r is Err ==> r == Err::<(), Error>(Error::MaxRecursionDepth),
        r is Err ==> final(inl)@ == old(inl)@ && final(ool)@ == old(ool)@,
        r is Ok ==> appended(old(inl)@, final(inl)@, old(ool)@, final(ool)@, envelope(*t, v@)),
{
    let d = if depth > MAX_RECURSION {
        MAX_RECURSION
    } else {
        depth
    };
    let mut i2: Vec<u8> = Vec::new();
    let mut o2: Vec<u8> = Vec::new();
    let r = encode_in_envelope_at(t, v, d, &mut i2, &mut o2);
    if r.is_ok() {
        assert(i2@ =~= Seq::<u8>::empty() + i2@);
        assert(o2@ =~= Seq::<u8>::empty() + o2@);
        inl.append(&mut i2);
        ool.append(&mut o2);
    }
    r
}

/// Encodes FIDL values into messages.
pub struct Encoder {}

impl Encoder {
    /// Encodes value `x` of type `t` into `buf`, which it overwrites.
    pub fn encode(buf: &mut Vec<u8>, t: &FidlType, x: &Value) -> (r: Result<(), Error>)
        requires
            wf_type(*t),
            has_type(*t, x@),
        ensures
            r is Ok <==> nest(*t, x@, false) <= MAX_RECURSION,
            r is Err ==> r == Err::<(), Error>(Error::MaxRecursionDepth),
            r is Ok ==> final(buf)@ == message(*t, x@),
    {
        let context = default_encode_context();
        Self::encode_with_context(&context, buf, t, x)
    }

    /// Encodes value `x` of type `t` into `buf`, which it overwrites, with the given context.
    pub fn encode_with_context(context: &Context, buf: &mut Vec<u8>, t: &FidlType, x: &Value) -> (r:
        Result<(), Error>)
        requires
            wf_type(*t),
            has_type(*t, x@),
        ensures
            r is Ok <==> nest(*t, x@, false) <= MAX_RECURSION,
            r is Err ==> r == Err::<(), Error>(Error::MaxRecursionDepth),
            r is Ok ==> final(buf)@ == message(*t, x@),
    {
        buf.clear();
        let mut inl: Vec<u8> = Vec::new();
        let mut ool: Vec<u8> = Vec::new();
        let r = encode_value_at(t, x, 0, &mut inl, &mut ool);
        if r.is_err() {
            return r;
        }
        assert(inl@ =~= wire(*t, x@).0);
        assert(ool@ =~= wire(*t, x@).1);
        pad_to_8(&mut inl);
        buf.append(&mut inl);
        buf.append(&mut ool);
        assert(buf@ =~= message(*t, x@));
        Ok(())
    }
}

} // verus!
