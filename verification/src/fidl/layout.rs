use vstd::prelude::*;
use super::wire::{FidlType, Member, SpecValue, StructField, MAX_INLINE_SIZE, MAX_TABLE_ORDINAL};
use vstd::utf8::valid_utf8;
use super::context::Context;

verus! {

/// The multiple of `align` that `x` rounds up to.
pub open spec fn spec_round_up(x: int, align: int) -> int {
    if x % align == 0 { x } else { x + (align - x % align) }
}

/// The only multiple of `a` in `[x, x + a)` is `x` rounded up to `a`.
pub proof fn lemma_round_up_unique(x: int, a: int, r: int)
    requires
        a > 0,
        x >= 0,
        r % a == 0,
        x <= r < x + a,
    ensures
        r == spec_round_up(x, a),
{
    vstd::arithmetic::div_mod::lemma_fundamental_div_mod(x, a);
    vstd::arithmetic::div_mod::lemma_fundamental_div_mod(r, a);
    let q = x / a;
    let m = x % a;
    let qr = r / a;
    assert(x == a * q + m);
    assert(r == a * qr);
    assert(0 <= m < a);
    if m == 0 {
        assert(a * q <= a * qr < a * q + a);
        assert(qr == q) by (nonlinear_arith)
            requires
                a > 0,
                a * q <= a * qr,
                a * qr < a * q + a,
        ;
    } else {
        assert(a * q + m <= a * qr < a * q + m + a);
        assert(qr == q + 1) by (nonlinear_arith)
            requires
                a > 0,
                0 < m < a,
                a * q + m <= a * qr,
                a * qr < a * q + m + a,
        ;
        assert(a * (q + 1) == a * q + a) by (nonlinear_arith);
    }
}

/// Rounds `x` up if necessary so that it is a multiple of `align`.
///
/// Requires `align` to be a (nonzero) power of two.
pub fn round_up_to_align(x: usize, align: usize) -> (r: usize)
    requires
        align > 0,
        align & ((align - 1) as usize) == 0,
        x + align - 1 <= usize::MAX,
    ensures
        r == spec_round_up(x as int, align as int),
{
    let s: usize = x + (align - 1);
    let r: usize = s - s % align;
    proof {
        vstd::arithmetic::div_mod::lemma_fundamental_div_mod(s as int, align as int);
        vstd::arithmetic::div_mod::lemma_mod_multiples_basic(s as int / align as int, align as int);
        assert(r as int == align * (s as int / align as int));
        assert((s as int / align as int) * align == align * (s as int / align as int)) by (nonlinear_arith);
        lemma_round_up_unique(x as int, align as int, r as int);
    }
    r
}

/// Whether `t` is an unsigned integer type.
pub open spec fn is_unsigned_prim(t: FidlType) -> bool {
    t is U8 || t is U16 || t is U32 || t is U64
}

/// Whether `t` is an integer type.
pub open spec fn is_int_prim(t: FidlType) -> bool {
    is_unsigned_prim(t) || t is I8 || t is I16 || t is I32 || t is I64
}

/// The size of the inline part of a value of type `t`.
pub open spec fn inline_size(t: FidlType) -> int
    decreases t,
{
    match t {
        FidlType::Bool | FidlType::U8 | FidlType::I8 | FidlType::EmptyStruct => 1,
        FidlType::U16 | FidlType::I16 => 2,
        FidlType::U32 | FidlType::I32 => 4,
        FidlType::U64 | FidlType::I64 => 8,
        FidlType::Bits(p, _) => inline_size(*p),
        FidlType::Enum(p, _) => inline_size(*p),
        FidlType::Array(e, n) => inline_size(*e) * n,
        FidlType::Vector(..) | FidlType::String(..) | FidlType::Table(..) => 16,
        FidlType::Struct(_, size, _) => size as int,
        FidlType::Nullable(x) => if *x is XUnion { 24 } else { 8 },
        FidlType::XUnion(..) | FidlType::Result(..) => 24,
    }
}

/// The alignment of the inline part of a value of type `t`.
pub open spec fn inline_align(t: FidlType) -> int
    decreases t,
{
    match t {
        FidlType::Bool | FidlType::U8 | FidlType::I8 | FidlType::EmptyStruct => 1,
        FidlType::U16 | FidlType::I16 => 2,
        FidlType::U32 | FidlType::I32 => 4,
        FidlType::U64 | FidlType::I64 => 8,
        FidlType::Bits(p, _) => inline_align(*p),
        FidlType::Enum(p, _) => inline_align(*p),
        FidlType::Array(e, _) => inline_align(*e),
        FidlType::Struct(_, _, align) => align as int,
        _ => 8,
    }
}

/// The end of field `i` of a struct: its offset plus its inline size.
pub open spec fn field_end(fields: Seq<StructField>, i: int) -> int {
    fields[i].offset + inline_size(fields[i].ty)
}

/// The offset at which the padding before field `i` starts.
pub open spec fn field_start_of_gap(fields: Seq<StructField>, i: int) -> int {
    if i == 0 { 0 } else { field_end(fields, i - 1) }
}

/// Whether the ordinals of `members` are distinct.
pub open spec fn distinct_ordinals(members: Seq<Member>) -> bool {
    forall|i: int, j: int|
        0 <= i < members.len() && 0 <= j < members.len() && i != j ==> members[i].ordinal
            != members[j].ordinal
}

/// Whether the ordinals of `members` increase from at least one up to `MAX_TABLE_ORDINAL`.
pub open spec fn table_ordinals(members: Seq<Member>) -> bool {
    &&& forall|i: int| 0 <= i < members.len() ==> 1 <= #[trigger] members[i].ordinal <= MAX_TABLE_ORDINAL
    &&& forall|i: int, j: int| 0 <= i < j < members.len() ==> members[i].ordinal < members[j].ordinal
}

/// Whether `t` is the unit type: a struct with no fields and no size.
pub open spec fn is_unit(t: FidlType) -> bool {
    match t {
        FidlType::Struct(fields, size, _) => fields@.len() == 0 && size == 0,
        _ => false,
    }
}

/// Whether `t` is a well-formed type: its layout is consistent and bounded.
pub open spec fn wf_type(t: FidlType) -> bool
    decreases t,
{
    match t {
        FidlType::Bits(p, _) => is_unsigned_prim(*p),
        FidlType::Enum(p, _) => is_int_prim(*p),
        FidlType::Array(e, n) => wf_type(*e) && inline_size(*e) * n <= MAX_INLINE_SIZE,
        FidlType::Vector(e, _) => wf_type(*e) && inline_size(*e) > 0,
        FidlType::Struct(fields, size, align) => {
            &&& size <= MAX_INLINE_SIZE
            &&& (align == 1 || align == 2 || align == 4 || align == 8)
            &&& forall|i: int| 0 <= i < fields@.len() ==> wf_type(#[trigger] fields@[i].ty)
            &&& forall|i: int|
                0 <= i < fields@.len() ==> field_start_of_gap(fields@, i) <= #[trigger] fields@[i].offset
            &&& (fields@.len() > 0 ==> field_end(fields@, fields@.len() - 1) <= size)
        },
        FidlType::Nullable(x) => (*x is Struct || *x is EmptyStruct || *x is XUnion) && wf_type(*x),
        FidlType::Table(members) => {
            &&& table_ordinals(members@)
            &&& forall|i: int| 0 <= i < members@.len() ==> wf_type(#[trigger] members@[i].ty)
        },
        FidlType::XUnion(members, _) => {
            &&& distinct_ordinals(members@)
            &&& forall|i: int| 0 <= i < members@.len() ==> wf_type(#[trigger] members@[i].ty)
        },
        FidlType::Result(o, e) => wf_type(*o) && wf_type(*e) && (inline_size(*o) == 0 ==> is_unit(*o)),
        _ => true,
    }
}


/// Whether `v` is a value of the integer or boolean type `p`.
pub open spec fn prim_matches(p: FidlType, v: SpecValue) -> bool {
    match p {
        FidlType::Bool => v is Bool,
        FidlType::U8 => v is U8,
        FidlType::I8 => v is I8,
        FidlType::U16 => v is U16,
        FidlType::I16 => v is I16,
        FidlType::U32 => v is U32,
        FidlType::I32 => v is I32,
        FidlType::U64 => v is U64,
        FidlType::I64 => v is I64,
        _ => false,
    }
}

/// The number an integer value stands for.
pub open spec fn prim_int(v: SpecValue) -> int {
    match v {
        SpecValue::U8(x) => x as int,
        SpecValue::I8(x) => x as int,
        SpecValue::U16(x) => x as int,
        SpecValue::I16(x) => x as int,
        SpecValue::U32(x) => x as int,
        SpecValue::I32(x) => x as int,
        SpecValue::U64(x) => x as int,
        SpecValue::I64(x) => x as int,
        _ => 0,
    }
}

/// The bits of an unsigned value.
pub open spec fn prim_bits(v: SpecValue) -> u64 {
    match v {
        SpecValue::U8(x) => x as u64,
        SpecValue::U16(x) => x as u64,
        SpecValue::U32(x) => x as u64,
        SpecValue::U64(x) => x,
        _ => 0,
    }
}

/// Whether `bits` sets only bits of `mask`.
pub open spec fn bits_known(bits: u64, mask: u64) -> bool {
    bits & !mask == 0
}

/// Whether `x` is one of the values of an enum.
pub open spec fn enum_member(members: Seq<i128>, x: int) -> bool {
    exists|i: int| 0 <= i < members.len() && members[i] as int == x
}

/// Whether every value of `xs` is a value of type `t`.
pub open spec fn all_have_type(t: FidlType, xs: Seq<SpecValue>) -> bool
    decreases xs, 1nat,
{
    forall|i: int| 0 <= i < xs.len() ==> has_type(t, #[trigger] xs[i])
}

/// Whether `v` is a value of type `t`.
pub open spec fn has_type(t: FidlType, v: SpecValue) -> bool
    decreases v, 0nat,
{
    match t {
        FidlType::Bits(p, mask) => prim_matches(*p, v) && bits_known(prim_bits(v), mask),
        FidlType::Enum(p, members) => prim_matches(*p, v) && enum_member(members@, prim_int(v)),
        FidlType::Array(e, n) => match v {
            SpecValue::Array(xs) => xs.len() == n && forall|i: int|
                0 <= i < xs.len() ==> has_type(*e, #[trigger] xs[i]),
            _ => false,
        },
        FidlType::Vector(e, nullable) => match v {
            SpecValue::Vector(None) => nullable,
            SpecValue::Vector(Some(xs)) => all_have_type(*e, xs),
            _ => false,
        },
        FidlType::String(nullable) => match v {
            SpecValue::Str(None) => nullable,
            SpecValue::Str(Some(b)) => valid_utf8(b),
            _ => false,
        },
        FidlType::Struct(fields, _, _) => match v {
            SpecValue::Struct(xs) => xs.len() == fields@.len() && forall|i: int|
                0 <= i < xs.len() ==> has_type(fields@[i].ty, #[trigger] xs[i]),
            _ => false,
        },
        FidlType::EmptyStruct => v is EmptyStruct,
        FidlType::Nullable(x) => match v {
            SpecValue::Boxed(None) => true,
            SpecValue::Boxed(Some(y)) => has_type(*x, *y),
            _ => false,
        },
        FidlType::Table(members) => match v {
            SpecValue::Table(xs) => xs.len() == members@.len() && forall|i: int|
                0 <= i < xs.len() ==> match #[trigger] xs[i] {
                    None => true,
                    Some(y) => has_type(members@[i].ty, y),
                },
            _ => false,
        },
        FidlType::XUnion(members, flexible) => match v {
            SpecValue::Union(o, y) => exists|i: int|
                0 <= i < members@.len() && #[trigger] members@[i].ordinal == o && has_type(
                    members@[i].ty,
                    *y,
                ),
            SpecValue::UnknownUnion(o, _) => flexible && forall|i: int|
                0 <= i < members@.len() ==> #[trigger] members@[i].ordinal != o,
            _ => false,
        },
        FidlType::Result(o, e) => match v {
            SpecValue::ResultOk(y) => has_type(*o, *y),
            SpecValue::ResultErr(y) => has_type(*e, *y),
            _ => false,
        },
        _ => prim_matches(t, v),
    }
}


/// A well-formed type has a bounded inline size.
pub proof fn lemma_inline_size_bounds(t: FidlType)
    requires
        wf_type(t),
    ensures
        0 <= inline_size(t) <= MAX_INLINE_SIZE,
    decreases t,
{
    match t {
        FidlType::Array(e, n) => {
            lemma_inline_size_bounds(*e);
            assert(0 <= inline_size(*e) * n) by (nonlinear_arith)
                requires
                    0 <= inline_size(*e),
                    0 <= n,
            ;
        },
        FidlType::Bits(p, _) => lemma_inline_size_bounds(*p),
        FidlType::Enum(p, _) => lemma_inline_size_bounds(*p),
        _ => {},
    }
}

/// A well-formed type has alignment one, two, four or eight.
pub proof fn lemma_inline_align_values(t: FidlType)
    requires
        wf_type(t),
    ensures
        inline_align(t) == 1 || inline_align(t) == 2 || inline_align(t) == 4 || inline_align(t)
            == 8,
    decreases t,
{
    match t {
        FidlType::Array(e, _) => {
            lemma_inline_align_values(*e);
        },
        FidlType::Bits(p, _) => lemma_inline_align_values(*p),
        FidlType::Enum(p, _) => lemma_inline_align_values(*p),
        _ => {},
    }
}

impl FidlType {
    /// Returns the size of the inline portion of a value of this type.
    pub fn inline_size_of(&self) -> (r: usize)
        requires
            wf_type(*self),
        ensures
            r == inline_size(*self),
            r <= MAX_INLINE_SIZE,
        decreases self,
    {
        proof {
            lemma_inline_size_bounds(*self);
        }
        match self {
            FidlType::Bool | FidlType::U8 | FidlType::I8 | FidlType::EmptyStruct => 1,
            FidlType::U16 | FidlType::I16 => 2,
            FidlType::U32 | FidlType::I32 => 4,
            FidlType::U64 | FidlType::I64 => 8,
            FidlType::Bits(p, _) => p.inline_size_of(),
            FidlType::Enum(p, _) => p.inline_size_of(),
            FidlType::Array(e, n) => {
                let es = e.inline_size_of();
                es * *n
            },
            FidlType::Vector(..) | FidlType::String(..) | FidlType::Table(..) => 16,
            FidlType::Struct(_, size, _) => *size,
            FidlType::Nullable(x) => match **x {
                FidlType::XUnion(..) => 24,
                _ => 8,
            },
            FidlType::XUnion(..) | FidlType::Result(..) => 24,
        }
    }

    /// Returns the minimum alignment of the inline portion of a value of this type.
    pub fn inline_align_of(&self) -> (r: usize)
        requires
            wf_type(*self),
        ensures
            r == inline_align(*self),
        decreases self,
    {
        proof {
            lemma_inline_align_values(*self);
        }
        match self {
            FidlType::Bool | FidlType::U8 | FidlType::I8 | FidlType::EmptyStruct => 1,
            FidlType::U16 | FidlType::I16 => 2,
            FidlType::U32 | FidlType::I32 => 4,
            FidlType::U64 | FidlType::I64 => 8,
            FidlType::Bits(p, _) => p.inline_align_of(),
            FidlType::Enum(p, _) => p.inline_align_of(),
            FidlType::Array(e, _) => e.inline_align_of(),
            FidlType::Struct(_, _, align) => *align,
            _ => 8,
        }
    }
}


/// The inline layout of the encoded form of a type.
pub trait Layout {
    /// Whether the layout of this type is defined.
    spec fn has_layout(&self) -> bool;

    /// Returns the minimum alignment of the inline portion of the encoded
    /// form: one, two, four or eight.
    fn inline_align(&self, context: &Context) -> (r: usize)
        requires
            self.has_layout(),
    ;

    /// Returns the size of the inline portion of the encoded form.
    fn inline_size(&self, context: &Context) -> (r: usize)
        requires
            self.has_layout(),
    ;
}

impl Layout for FidlType {
    open spec fn has_layout(&self) -> bool {
        wf_type(*self)
    }

    fn inline_align(&self, context: &Context) -> (r: usize)
        ensures
            r == inline_align(*self),
    {
        self.inline_align_of()
    }

    fn inline_size(&self, context: &Context) -> (r: usize)
        ensures
            r == inline_size(*self),
    {
        self.inline_size_of()
    }
}

/// Types that may be optional in the wire format.
pub trait Autonull {
    /// Returns whether the type is naturally able to be absent: such a type
    /// (a union) encodes a present value the same as the value itself, and
    /// an absent one as inline zeros; other types encode a presence marker
    /// and place the value out of line.
    fn naturally_nullable(&self, context: &Context) -> bool;
}

impl Autonull for FidlType {
    fn naturally_nullable(&self, context: &Context) -> (r: bool)
        ensures
            r == (*self is XUnion),
    {
        match self {
            FidlType::XUnion(..) => true,
            _ => false,
        }
    }
}

}
