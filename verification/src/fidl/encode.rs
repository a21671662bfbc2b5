use vstd::prelude::*;
use super::bytes::{le_bytes, zeros};
use super::layout::{distinct_ordinals, field_end, field_start_of_gap, inline_size, spec_round_up};
use super::wire::{FidlType, Member, SpecValue, StructField, ALLOC_PRESENT_U64};

verus! {

/// `s` followed by zero bytes up to the next multiple of eight.
pub open spec fn pad8(s: Seq<u8>) -> Seq<u8> {
    s + zeros((spec_round_up(s.len() as int, 8) - s.len()) as nat)
}

/// The presence marker of an out-of-line object.
pub open spec fn present8() -> Seq<u8> {
    le_bytes(ALLOC_PRESENT_U64 as nat, 8)
}

/// The absence marker of an out-of-line object.
pub open spec fn absent8() -> Seq<u8> {
    le_bytes(0, 8)
}

/// The wire bytes of a boolean or integer value.
pub open spec fn prim_bytes(v: SpecValue) -> Seq<u8> {
    match v {
        SpecValue::Bool(b) => seq![if b { 1u8 } else { 0u8 }],
        SpecValue::U8(x) => le_bytes(x as nat, 1),
        SpecValue::I8(x) => le_bytes((x as u8) as nat, 1),
        SpecValue::U16(x) => le_bytes(x as nat, 2),
        SpecValue::I16(x) => le_bytes((x as u16) as nat, 2),
        SpecValue::U32(x) => le_bytes(x as nat, 4),
        SpecValue::I32(x) => le_bytes((x as u32) as nat, 4),
        SpecValue::U64(x) => le_bytes(x as nat, 8),
        SpecValue::I64(x) => le_bytes((x as u64) as nat, 8),
        _ => Seq::empty(),
    }
}

/// The inline bytes of an envelope header: payload size, handle count and presence.
pub open spec fn envelope_header(num_bytes: nat) -> Seq<u8> {
    le_bytes(num_bytes % 0x1_0000_0000, 4) + le_bytes(0, 4) + present8()
}

/// The inline bytes of an absent envelope.
pub open spec fn absent_envelope() -> Seq<u8> {
    le_bytes(0, 4) + le_bytes(0, 4) + absent8()
}

/// The envelope that holds the empty struct a unit success value stands for.
pub open spec fn unit_envelope() -> (Seq<u8>, Seq<u8>) {
    (envelope_header(8), zeros(8))
}

/// The index of the first member with ordinal `o`, searching from `i`.
pub open spec fn find_member(members: Seq<Member>, o: u64, i: int) -> Option<int>
    decreases members.len() - i,
{
    if i < 0 || i >= members.len() {
        None
    } else if members[i].ordinal == o {
        Some(i)
    } else {
        find_member(members, o, i + 1)
    }
}

/// The number of entries of a table value up to and including its last present one.
pub open spec fn table_prefix_len(xs: Seq<Option<SpecValue>>, k: nat) -> nat
    decreases k,
{
    if k == 0 || k > xs.len() {
        0
    } else if xs[k - 1] is Some {
        k
    } else {
        table_prefix_len(xs, (k - 1) as nat)
    }
}

/// The inline bytes and the out-of-line bytes of value `v` of type `t`.
///
/// The inline bytes take exactly `inline_size(t)` bytes. The out-of-line bytes
/// are the blocks the value owns, depth first, each padded to eight bytes.
pub open spec fn wire(t: FidlType, v: SpecValue) -> (Seq<u8>, Seq<u8>)
    decreases v, 0nat,
{
    match t {
        FidlType::Array(e, _) => match v {
            SpecValue::Array(xs) => wire_seq(*e, xs, xs.len()),
            _ => (Seq::empty(), Seq::empty()),
        },
        FidlType::Vector(e, _) => match v {
            SpecValue::Vector(None) => (absent8() + absent8(), Seq::empty()),
            SpecValue::Vector(Some(xs)) => {
                let (i, o) = wire_seq(*e, xs, xs.len());
                (le_bytes(xs.len(), 8) + present8(), pad8(i) + o)
            },
            _ => (Seq::empty(), Seq::empty()),
        },
        FidlType::String(_) => match v {
            SpecValue::Str(None) => (absent8() + absent8(), Seq::empty()),
            SpecValue::Str(Some(b)) => (le_bytes(b.len(), 8) + present8(), pad8(b)),
            _ => (Seq::empty(), Seq::empty()),
        },
        FidlType::Struct(fields, size, _) => match v {
            SpecValue::Struct(xs) => {
                let (i, o) = wire_fields(fields@, xs, xs.len());
                let end = if xs.len() == 0 { 0 } else { field_end(fields@, xs.len() - 1) };
                (i + zeros((size - end) as nat), o)
            },
            _ => (Seq::empty(), Seq::empty()),
        },
        FidlType::EmptyStruct => (seq![0u8], Seq::empty()),
        FidlType::Nullable(x) => match v {
            SpecValue::Boxed(None) => if *x is XUnion {
                (zeros(24), Seq::empty())
            } else {
                (absent8(), Seq::empty())
            },
            SpecValue::Boxed(Some(y)) => if *x is XUnion {
                wire(*x, *y)
            } else {
                let (i, o) = wire(*x, *y);
                (present8(), pad8(i) + o)
            },
            _ => (Seq::empty(), Seq::empty()),
        },
        FidlType::Table(members) => match v {
            SpecValue::Table(xs) => {
                let n = table_prefix_len(xs, xs.len());
                let max_ordinal = if n == 0 { 0 } else { members@[n - 1].ordinal as nat };
                let (i, o) = wire_table(members@, xs, n);
                (le_bytes(max_ordinal, 8) + present8(), pad8(i) + o)
            },
            _ => (Seq::empty(), Seq::empty()),
        },
        FidlType::XUnion(members, _) => match v {
            SpecValue::Union(ord, y) => match find_member(members@, ord, 0) {
                Some(k) => {
                    let (i, o) = envelope(members@[k].ty, *y);
                    (le_bytes(ord as nat, 8) + i, o)
                },
                None => (Seq::empty(), Seq::empty()),
            },
            SpecValue::UnknownUnion(ord, b) => (
                le_bytes(ord as nat, 8) + envelope_header(b.len()),
                pad8(b),
            ),
            _ => (Seq::empty(), Seq::empty()),
        },
        FidlType::Result(ok, err) => match v {
            SpecValue::ResultOk(y) => {
                let (i, o) = if inline_size(*ok) == 0 {
                    unit_envelope()
                } else {
                    envelope(*ok, *y)
                };
                (le_bytes(1, 8) + i, o)
            },
            SpecValue::ResultErr(y) => {
                let (i, o) = envelope(*err, *y);
                (le_bytes(2, 8) + i, o)
            },
            _ => (Seq::empty(), Seq::empty()),
        },
        _ => (prim_bytes(v), Seq::empty()),
    }
}

/// The concatenated inline and out-of-line bytes of the first `k` elements of `xs`.
pub open spec fn wire_seq(t: FidlType, xs: Seq<SpecValue>, k: nat) -> (Seq<u8>, Seq<u8>)
    decreases xs, k,
{
    if k == 0 || k > xs.len() {
        (Seq::empty(), Seq::empty())
    } else {
        let (a, b) = wire_seq(t, xs, (k - 1) as nat);
        let (i, o) = wire(t, xs[k - 1]);
        (a + i, b + o)
    }
}

/// The inline bytes of the first `k` fields of a struct, with the padding
/// before each, and their out-of-line bytes.
pub open spec fn wire_fields(fields: Seq<StructField>, xs: Seq<SpecValue>, k: nat) -> (
    Seq<u8>,
    Seq<u8>,
)
    decreases xs, k,
{
    if k == 0 || k > xs.len() {
        (Seq::empty(), Seq::empty())
    } else {
        let (a, b) = wire_fields(fields, xs, (k - 1) as nat);
        let gap = fields[k - 1].offset - field_start_of_gap(fields, k - 1);
        let (i, o) = wire(fields[k - 1].ty, xs[k - 1]);
        (a + zeros(gap as nat) + i, b + o)
    }
}

/// The envelope holding value `v` of type `t`: its header and its out-of-line bytes.
pub open spec fn envelope(t: FidlType, v: SpecValue) -> (Seq<u8>, Seq<u8>)
    decreases v, 1nat,
{
    let (i, o) = wire(t, v);
    let body = pad8(i) + o;
    (envelope_header(body.len()), body)
}

/// The envelopes of the first `k` members of a table value, with zeroed
/// envelopes for reserved ordinals, and their out-of-line bytes.
pub open spec fn wire_table(members: Seq<Member>, xs: Seq<Option<SpecValue>>, k: nat) -> (
    Seq<u8>,
    Seq<u8>,
)
    decreases xs, k,
{
    if k == 0 || k > xs.len() {
        (Seq::empty(), Seq::empty())
    } else {
        let (a, b) = wire_table(members, xs, (k - 1) as nat);
        let gap_start = if k == 1 { 0 } else { members[k - 2].ordinal * 16 };
        let gap = (members[k - 1].ordinal - 1) * 16 - gap_start;
        let (i, o) = match xs[k - 1] {
            None => (absent_envelope(), Seq::empty()),
            Some(y) => envelope(members[k - 1].ty, y),
        };
        (a + zeros(gap as nat) + i, b + o)
    }
}


pub open spec fn max_nat(a: nat, b: nat) -> nat {
    if a >= b { a } else { b }
}

/// How deeply the out-of-line objects of value `v` of type `t` nest.
///
/// When `empty_counts` holds, present empty vectors count as one level: the
/// decoder enters their (empty) block, while the encoder skips it.
pub open spec fn nest(t: FidlType, v: SpecValue, empty_counts: bool) -> nat
    decreases v, 0nat,
{
    match t {
        FidlType::Array(e, _) => match v {
            SpecValue::Array(xs) => nest_seq(*e, xs, xs.len(), empty_counts),
            _ => 0,
        },
        FidlType::Vector(e, _) => match v {
            SpecValue::Vector(Some(xs)) => if xs.len() == 0 {
                if empty_counts { 1 } else { 0 }
            } else {
                1 + nest_seq(*e, xs, xs.len(), empty_counts)
            },
            _ => 0,
        },
        FidlType::String(_) => match v {
            SpecValue::Str(Some(_)) => 1,
            _ => 0,
        },
        FidlType::Struct(fields, _, _) => match v {
            SpecValue::Struct(xs) => nest_fields(fields@, xs, xs.len(), empty_counts),
            _ => 0,
        },
        FidlType::Nullable(x) => match v {
            SpecValue::Boxed(Some(y)) => if *x is XUnion {
                nest(*x, *y, empty_counts)
            } else {
                1 + nest(*x, *y, empty_counts)
            },
            _ => 0,
        },
        FidlType::Table(members) => match v {
            SpecValue::Table(xs) => 1 + nest_table(
                members@,
                xs,
                table_prefix_len(xs, xs.len()),
                empty_counts,
            ),
            _ => 0,
        },
        FidlType::XUnion(members, _) => match v {
            SpecValue::Union(ord, y) => match find_member(members@, ord, 0) {
                Some(k) => 1 + nest(members@[k].ty, *y, empty_counts),
                None => 0,
            },
            SpecValue::UnknownUnion(..) => 1,
            _ => 0,
        },
        FidlType::Result(ok, err) => match v {
            SpecValue::ResultOk(y) => if inline_size(*ok) == 0 {
                1
            } else {
                1 + nest(*ok, *y, empty_counts)
            },
            SpecValue::ResultErr(y) => 1 + nest(*err, *y, empty_counts),
            _ => 0,
        },
        _ => 0,
    }
}

/// The deepest nesting among the first `k` elements of `xs`.
pub open spec fn nest_seq(t: FidlType, xs: Seq<SpecValue>, k: nat, empty_counts: bool) -> nat
    decreases xs, k,
{
    if k == 0 || k > xs.len() {
        0
    } else {
        max_nat(nest_seq(t, xs, (k - 1) as nat, empty_counts), nest(t, xs[k - 1], empty_counts))
    }
}

/// The deepest nesting among the first `k` fields of a struct value.
pub open spec fn nest_fields(
    fields: Seq<StructField>,
    xs: Seq<SpecValue>,
    k: nat,
    empty_counts: bool,
) -> nat
    decreases xs, k,
{
    if k == 0 || k > xs.len() {
        0
    } else {
        max_nat(
            nest_fields(fields, xs, (k - 1) as nat, empty_counts),
            nest(fields[k - 1].ty, xs[k - 1], empty_counts),
        )
    }
}

/// The deepest nesting among the envelopes of the first `k` members of a table value.
pub open spec fn nest_table(
    members: Seq<Member>,
    xs: Seq<Option<SpecValue>>,
    k: nat,
    empty_counts: bool,
) -> nat
    decreases xs, k,
{
    if k == 0 || k > xs.len() {
        0
    } else {
        let here = match xs[k - 1] {
            None => 0,
            Some(y) => 1 + nest(members[k - 1].ty, y, empty_counts),
        };
        max_nat(nest_table(members, xs, (k - 1) as nat, empty_counts), here)
    }
}


/// The deepest nesting of a sequence bounds that of each element.
pub proof fn lemma_nest_seq_ge(t: FidlType, xs: Seq<SpecValue>, k: nat, i: int, ec: bool)
    requires
        0 <= i < k <= xs.len(),
    ensures
        nest_seq(t, xs, k, ec) >= nest(t, xs[i], ec),
    decreases k,
{
    if i < k - 1 {
        lemma_nest_seq_ge(t, xs, (k - 1) as nat, i, ec);
    }
}

/// The deepest nesting of the fields of a struct bounds that of each field.
pub proof fn lemma_nest_fields_ge(fields: Seq<StructField>, xs: Seq<SpecValue>, k: nat, i: int, ec: bool)
    requires
        0 <= i < k <= xs.len(),
    ensures
        nest_fields(fields, xs, k, ec) >= nest(fields[i].ty, xs[i], ec),
    decreases k,
{
    if i < k - 1 {
        lemma_nest_fields_ge(fields, xs, (k - 1) as nat, i, ec);
    }
}

/// The deepest nesting of the envelopes of a table bounds that of each present member.
pub proof fn lemma_nest_table_ge(
    members: Seq<Member>,
    xs: Seq<Option<SpecValue>>,
    k: nat,
    i: int,
    ec: bool,
)
    requires
        0 <= i < k <= xs.len(),
        xs[i] is Some,
    ensures
        nest_table(members, xs, k, ec) >= 1 + nest(members[i].ty, xs[i]->0, ec),
    decreases k,
{
    if i < k - 1 {
        lemma_nest_table_ge(members, xs, (k - 1) as nat, i, ec);
    }
}

/// With distinct ordinals, the search finds the member that carries the ordinal.
pub proof fn lemma_find_member(members: Seq<Member>, o: u64, j: int, i: int)
    requires
        0 <= j <= i < members.len(),
        members[i].ordinal == o,
        forall|l: int| j <= l < i ==> #[trigger] members[l].ordinal != o,
    ensures
        find_member(members, o, j) == Some(i),
    decreases i - j,
{
    if j < i {
        lemma_find_member(members, o, j + 1, i);
    }
}

/// With distinct ordinals, the search from the start finds the member that carries the ordinal.
pub proof fn lemma_find_member_distinct(members: Seq<Member>, o: u64, k: int)
    requires
        distinct_ordinals(members),
        0 <= k < members.len(),
        members[k].ordinal == o,
    ensures
        find_member(members, o, 0) == Some(k),
{
    assert forall|l: int| 0 <= l < k implies #[trigger] members[l].ordinal != o by {
        assert(members[l].ordinal != members[k].ordinal);
    }
    lemma_find_member(members, o, 0, k);
}

/// Whether every envelope among the values of `xs`, of type `t`, holds fewer
/// than 2^32 bytes.
pub open spec fn all_fit(t: FidlType, xs: Seq<SpecValue>) -> bool
    decreases xs, 1nat,
{
    forall|i: int| 0 <= i < xs.len() ==> envelopes_fit(t, #[trigger] xs[i])
}

/// Whether the envelope holding `y`, of type `t`, holds fewer than 2^32
/// bytes, and so does every envelope inside it.
pub open spec fn envelope_fits(t: FidlType, y: SpecValue) -> bool
    decreases y, 1nat,
{
    envelope(t, y).1.len() < 0x1_0000_0000 && envelopes_fit(t, y)
}

/// Whether every envelope in value `v` of type `t` holds fewer than 2^32
/// bytes, the most that the 32-bit size of an envelope header can tell.
pub open spec fn envelopes_fit(t: FidlType, v: SpecValue) -> bool
    decreases v, 0nat,
{
    match t {
        FidlType::Array(e, _) => match v {
            SpecValue::Array(xs) => all_fit(*e, xs),
            _ => true,
        },
        FidlType::Vector(e, _) => match v {
            SpecValue::Vector(Some(xs)) => all_fit(*e, xs),
            _ => true,
        },
        FidlType::Struct(fields, _, _) => match v {
            SpecValue::Struct(xs) => forall|i: int|
                0 <= i < xs.len() && i < fields@.len() ==> envelopes_fit(
                    fields@[i].ty,
                    #[trigger] xs[i],
                ),
            _ => true,
        },
        FidlType::Nullable(x) => match v {
            SpecValue::Boxed(Some(y)) => envelopes_fit(*x, *y),
            _ => true,
        },
        FidlType::Table(members) => match v {
            SpecValue::Table(xs) => forall|i: int|
                0 <= i < xs.len() && i < members@.len() ==> match #[trigger] xs[i] {
                    None => true,
                    Some(y) => envelope_fits(members@[i].ty, y),
                },
            _ => true,
        },
        FidlType::XUnion(members, _) => match v {
            SpecValue::Union(o, y) => match find_member(members@, o, 0) {
                Some(k) => 0 <= k < members@.len() ==> envelope_fits(members@[k].ty, *y),
                None => true,
            },
            SpecValue::UnknownUnion(_, bytes) => bytes.len() < 0x1_0000_0000,
            _ => true,
        },
        FidlType::Result(ok, err) => match v {
            SpecValue::ResultOk(y) => inline_size(*ok) == 0 || envelope_fits(*ok, *y),
            SpecValue::ResultErr(y) => envelope_fits(*err, *y),
            _ => true,
        },
        _ => true,
    }
}

} // verus!
