use vstd::prelude::*;
use super::bytes::zeros;
use super::encode::{
    envelope, find_member, pad8, table_prefix_len, unit_envelope, wire, wire_fields, wire_seq,
    wire_table,
};
use super::encoder::message;
use super::layout::{inline_size, spec_round_up};
use super::roundtrip::lemma_pad8;
use super::wire::{FidlType, Member, SpecValue, StructField};

verus! {

/// The out-of-line bytes of a value fill whole eight-byte blocks.
pub proof fn lemma_wire_ool_aligned(t: FidlType, v: SpecValue)
    ensures
        wire(t, v).1.len() % 8 == 0,
    decreases v, 0nat,
{
    match t {
        FidlType::Array(e, _) => match v {
            SpecValue::Array(xs) => lemma_wire_seq_ool_aligned(*e, xs, xs.len()),
            _ => {},
        },
        FidlType::Vector(e, _) => match v {
            SpecValue::Vector(Some(xs)) => {
                lemma_wire_seq_ool_aligned(*e, xs, xs.len());
                lemma_pad8(wire_seq(*e, xs, xs.len()).0);
            },
            _ => {},
        },
        FidlType::String(_) => match v {
            SpecValue::Str(Some(b)) => lemma_pad8(b),
            _ => {},
        },
        FidlType::Struct(fields, _, _) => match v {
            SpecValue::Struct(xs) => lemma_wire_fields_ool_aligned(fields@, xs, xs.len()),
            _ => {},
        },
        FidlType::Nullable(x) => match v {
            SpecValue::Boxed(Some(y)) => {
                lemma_wire_ool_aligned(*x, *y);
                lemma_pad8(wire(*x, *y).0);
            },
            _ => {},
        },
        FidlType::Table(members) => match v {
            SpecValue::Table(xs) => {
                let n = table_prefix_len(xs, xs.len());
                lemma_wire_table_ool_aligned(members@, xs, n);
                lemma_pad8(wire_table(members@, xs, n).0);
            },
            _ => {},
        },
        FidlType::XUnion(members, _) => match v {
            SpecValue::Union(ord, y) => match find_member(members@, ord, 0) {
                Some(k) => lemma_envelope_ool_aligned(members@[k].ty, *y),
                None => {},
            },
            SpecValue::UnknownUnion(_, b) => lemma_pad8(b),
            _ => {},
        },
        FidlType::Result(ok, err) => match v {
            SpecValue::ResultOk(y) => {
                if inline_size(*ok) != 0 {
                    lemma_envelope_ool_aligned(*ok, *y);
                } else {
                    assert(unit_envelope().1.len() == 8);
                }
            },
            SpecValue::ResultErr(y) => lemma_envelope_ool_aligned(*err, *y),
            _ => {},
        },
        _ => {},
    }
}

/// The bytes an envelope holds fill whole eight-byte blocks.
pub proof fn lemma_envelope_ool_aligned(t: FidlType, v: SpecValue)
    ensures
        envelope(t, v).1.len() % 8 == 0,
    decreases v, 1nat,
{
    lemma_wire_ool_aligned(t, v);
    lemma_pad8(wire(t, v).0);
}

/// The out-of-line bytes of the first `k` elements fill whole eight-byte blocks.
pub proof fn lemma_wire_seq_ool_aligned(t: FidlType, xs: Seq<SpecValue>, k: nat)
    ensures
        wire_seq(t, xs, k).1.len() % 8 == 0,
    decreases xs, k,
{
    if k > 0 && k <= xs.len() {
        lemma_wire_seq_ool_aligned(t, xs, (k - 1) as nat);
        lemma_wire_ool_aligned(t, xs[k - 1]);
    }
}

/// The out-of-line bytes of the first `k` fields fill whole eight-byte blocks.
pub proof fn lemma_wire_fields_ool_aligned(fields: Seq<StructField>, xs: Seq<SpecValue>, k: nat)
    ensures
        wire_fields(fields, xs, k).1.len() % 8 == 0,
    decreases xs, k,
{
    if k > 0 && k <= xs.len() {
        lemma_wire_fields_ool_aligned(fields, xs, (k - 1) as nat);
        lemma_wire_ool_aligned(fields[k - 1].ty, xs[k - 1]);
    }
}

/// The out-of-line bytes of the first `k` table members fill whole eight-byte blocks.
pub proof fn lemma_wire_table_ool_aligned(members: Seq<Member>, xs: Seq<Option<SpecValue>>, k: nat)
    ensures
        wire_table(members, xs, k).1.len() % 8 == 0,
    decreases xs, k,
{
    if k > 0 && k <= xs.len() {
        lemma_wire_table_ool_aligned(members, xs, (k - 1) as nat);
        match xs[k - 1] {
            Some(y) => lemma_envelope_ool_aligned(members[k - 1].ty, y),
            None => {},
        }
    }
}

/// An encoded message fills whole eight-byte blocks, and the padding after
/// its inline part is zero.
pub proof fn lemma_message_aligned(t: FidlType, v: SpecValue)
    ensures
        message(t, v).len() % 8 == 0,
        message(t, v).len() >= spec_round_up(wire(t, v).0.len() as int, 8),
        forall|i: int|
            wire(t, v).0.len() <= i < spec_round_up(wire(t, v).0.len() as int, 8) ==> #[trigger] message(t, v)[i] == 0,
{
    lemma_wire_ool_aligned(t, v);
    lemma_pad8(wire(t, v).0);
    let i = wire(t, v).0;
    let n = (spec_round_up(i.len() as int, 8) - i.len()) as nat;
    assert forall|j: int| i.len() <= j < spec_round_up(i.len() as int, 8) implies #[trigger] message(t, v)[j] == 0 by {
        assert(message(t, v)[j] == pad8(i)[j]);
        assert(pad8(i)[j] == zeros(n)[j - i.len()]);
    }
}

} // verus!
