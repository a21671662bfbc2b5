use vstd::prelude::*;

verus! {

/// The maximum recursion depth of encoding and decoding.
/// Each out-of-line object (vector or string contents, boxed struct, envelope
/// payload) counts as one step in the recursion depth.
pub const MAX_RECURSION: usize = 32;

/// Indicates that an optional value is present.
pub const ALLOC_PRESENT_U64: u64 = 0xffff_ffff_ffff_ffff;

/// Indicates that an optional value is present.
pub const ALLOC_PRESENT_U32: u32 = 0xffff_ffff;

/// Indicates that an optional value is absent.
pub const ALLOC_ABSENT_U64: u64 = 0;

/// Indicates that an optional value is absent.
pub const ALLOC_ABSENT_U32: u32 = 0;

/// Special ordinal signifying an epitaph message.
pub const EPITAPH_ORDINAL: u64 = 0xffff_ffff_ffff_ffff;

/// The current wire format magic number.
pub const MAGIC_NUMBER_INITIAL: u8 = 1;

/// The largest inline size of a well-formed type.
pub const MAX_INLINE_SIZE: usize = 0x1000_0000;

/// The largest ordinal of a table member.
pub const MAX_TABLE_ORDINAL: u64 = 0x100_0000;

/// Errors of encoding and decoding.
#[derive(Debug, Clone, Copy, PartialEq, Eq, Structural)]
pub enum Error {
    /// A read or a block lies beyond the end of the buffer.
    OutOfRange,
    /// Out-of-line objects are nested more than `MAX_RECURSION` deep.
    MaxRecursionDepth,
    /// Bytes remain after the message was decoded.
    ExtraBytes,
    /// Handles remain after the message was decoded.
    ExtraHandles,
    /// A padding byte is not zero.
    NonZeroPadding { padding_start: usize, non_zero_pos: usize },
    /// A value is not valid for its type.
    Invalid,
    /// An absent reference claims a non-zero size.
    UnexpectedNullRef,
    /// An absent value was found where the type does not allow it.
    NotNullable,
    /// A string is not valid UTF-8.
    Utf8Error,
    /// A strict union carries an unknown ordinal.
    UnknownUnionTag,
}

/// A field of a struct type: its type and its offset inside the struct.
#[derive(Debug)]
pub struct StructField {
    pub ty: FidlType,
    pub offset: usize,
}

/// A member of a table or union type: its ordinal and its type.
#[derive(Debug)]
pub struct Member {
    pub ordinal: u64,
    pub ty: FidlType,
}

/// A FIDL type, which decides the wire layout of its values.
#[derive(Debug)]
pub enum FidlType {
    Bool,
    U8,
    I8,
    U16,
    I16,
    U32,
    I32,
    U64,
    I64,
    /// A bits type over an unsigned integer, with the mask of its known bits.
    Bits(Box<FidlType>, u64),
    /// An enum type over an integer, with the values of its members.
    Enum(Box<FidlType>, Vec<i128>),
    /// A fixed-size array of `n` elements.
    Array(Box<FidlType>, usize),
    /// A vector; the flag says whether it may be absent.
    Vector(Box<FidlType>, bool),
    /// A UTF-8 string; the flag says whether it may be absent.
    String(bool),
    /// A struct with its fields, inline size and alignment.
    Struct(Vec<StructField>, usize, usize),
    /// A struct with no fields, which takes one zero byte.
    EmptyStruct,
    /// An optional boxed struct or union.
    Nullable(Box<FidlType>),
    /// A table with its members in increasing ordinal order.
    Table(Vec<Member>),
    /// A union; the flag says whether it is flexible.
    XUnion(Vec<Member>, bool),
    /// A result with its success and error types.
    Result(Box<FidlType>, Box<FidlType>),
}

/// The mathematical value of a FIDL value.
pub enum SpecValue {
    Bool(bool),
    U8(u8),
    I8(i8),
    U16(u16),
    I16(i16),
    U32(u32),
    I32(i32),
    U64(u64),
    I64(i64),
    Array(Seq<SpecValue>),
    Vector(Option<Seq<SpecValue>>),
    Str(Option<Seq<u8>>),
    Struct(Seq<SpecValue>),
    EmptyStruct,
    Boxed(Option<Box<SpecValue>>),
    Table(Seq<Option<SpecValue>>),
    Union(u64, Box<SpecValue>),
    UnknownUnion(u64, Seq<u8>),
    ResultOk(Box<SpecValue>),
    ResultErr(Box<SpecValue>),
}

/// A FIDL value. Bits and enum values are held as their primitive.
#[derive(Debug, PartialEq)]
pub enum Value {
    Bool(bool),
    U8(u8),
    I8(i8),
    U16(u16),
    I16(i16),
    U32(u32),
    I32(i32),
    U64(u64),
    I64(i64),
    Array(Vec<Value>),
    Vector(Option<Vec<Value>>),
    /// The UTF-8 bytes of a string, if present.
    Str(Option<Vec<u8>>),
    Struct(Vec<Value>),
    EmptyStruct,
    Boxed(Option<Box<Value>>),
    /// One entry per member of the table type, in member order.
    Table(Vec<Option<Value>>),
    /// A known union member: its ordinal and value.
    Union(u64, Box<Value>),
    /// A member of a flexible union that the type does not know: its ordinal and raw bytes.
    UnknownUnion(u64, Vec<u8>),
    ResultOk(Box<Value>),
    ResultErr(Box<Value>),
}

pub open spec fn view_value(v: Value) -> SpecValue
    decreases v, 0nat,
{
    match v {
        Value::Bool(b) => SpecValue::Bool(b),
        Value::U8(x) => SpecValue::U8(x),
        Value::I8(x) => SpecValue::I8(x),
        Value::U16(x) => SpecValue::U16(x),
        Value::I16(x) => SpecValue::I16(x),
        Value::U32(x) => SpecValue::U32(x),
        Value::I32(x) => SpecValue::I32(x),
        Value::U64(x) => SpecValue::U64(x),
        Value::I64(x) => SpecValue::I64(x),
        Value::Array(xs) => SpecValue::Array(view_seq(xs@, xs@.len())),
        Value::Vector(None) => SpecValue::Vector(None),
        Value::Vector(Some(xs)) => SpecValue::Vector(Some(view_seq(xs@, xs@.len()))),
        Value::Str(None) => SpecValue::Str(None),
        Value::Str(Some(b)) => SpecValue::Str(Some(b@)),
        Value::Struct(xs) => SpecValue::Struct(view_seq(xs@, xs@.len())),
        Value::EmptyStruct => SpecValue::EmptyStruct,
        Value::Boxed(None) => SpecValue::Boxed(None),
        Value::Boxed(Some(b)) => SpecValue::Boxed(Some(Box::new(view_value(*b)))),
        Value::Table(xs) => SpecValue::Table(view_opt_seq(xs@, xs@.len())),
        Value::Union(o, b) => SpecValue::Union(o, Box::new(view_value(*b))),
        Value::UnknownUnion(o, b) => SpecValue::UnknownUnion(o, b@),
        Value::ResultOk(b) => SpecValue::ResultOk(Box::new(view_value(*b))),
        Value::ResultErr(b) => SpecValue::ResultErr(Box::new(view_value(*b))),
    }
}

/// The views of the first `k` values of `s`.
pub open spec fn view_seq(s: Seq<Value>, k: nat) -> Seq<SpecValue>
    decreases s, k,
{
    if k == 0 || k > s.len() {
        Seq::empty()
    } else {
        view_seq(s, (k - 1) as nat).push(view_value(s[k - 1]))
    }
}

/// The views of the first `k` optional values of `s`.
pub open spec fn view_opt_seq(s: Seq<Option<Value>>, k: nat) -> Seq<Option<SpecValue>>
    decreases s, k,
{
    if k == 0 || k > s.len() {
        Seq::empty()
    } else {
        let last = match s[k - 1] {
            None => None,
            Some(x) => Some(view_value(x)),
        };
        view_opt_seq(s, (k - 1) as nat).push(last)
    }
}

/// The view of a sequence of values has one view per value.
pub proof fn lemma_view_seq(s: Seq<Value>, n: nat)
    requires
        n <= s.len(),
    ensures
        view_seq(s, n).len() == n,
        forall|i: int| 0 <= i < n ==> #[trigger] view_seq(s, n)[i] == view_value(s[i]),
    decreases n,
{
    if n > 0 {
        lemma_view_seq(s, (n - 1) as nat);
    }
}

/// The view of a sequence of optional values has one view per entry.
pub proof fn lemma_view_opt_seq(s: Seq<Option<Value>>, n: nat)
    requires
        n <= s.len(),
    ensures
        view_opt_seq(s, n).len() == n,
        forall|i: int|
            0 <= i < n ==> #[trigger] view_opt_seq(s, n)[i] == match s[i] {
                None => None,
                Some(x) => Some(view_value(x)),
            },
    decreases n,
{
    if n > 0 {
        lemma_view_opt_seq(s, (n - 1) as nat);
    }
}

/// Appending a value appends its view.
pub proof fn lemma_view_seq_push(s: Seq<Value>, x: Value)
    ensures
        view_seq(s.push(x), s.len() + 1) == view_seq(s, s.len()).push(view_value(x)),
{
    lemma_view_seq(s.push(x), s.len() + 1);
    lemma_view_seq(s, s.len());
    assert(view_seq(s.push(x), s.len() + 1) =~= view_seq(s, s.len()).push(view_value(x)));
}

/// Appending an optional value appends its view.
pub proof fn lemma_view_opt_seq_push(s: Seq<Option<Value>>, x: Option<Value>)
    ensures
        view_opt_seq(s.push(x), s.len() + 1) == view_opt_seq(s, s.len()).push(
            match x {
                None => None,
                Some(y) => Some(view_value(y)),
            },
        ),
{
    lemma_view_opt_seq(s.push(x), s.len() + 1);
    lemma_view_opt_seq(s, s.len());
    assert(view_opt_seq(s.push(x), s.len() + 1) =~= view_opt_seq(s, s.len()).push(
        match x {
            None => None,
            Some(y) => Some(view_value(y)),
        },
    ));
}

impl View for Value {
    type V = SpecValue;

    open spec fn view(&self) -> SpecValue {
        view_value(*self)
    }
}

} // verus!
