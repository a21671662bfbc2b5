use vstd::prelude::*;
use super::layout::{bits_known, enum_member, has_type, is_int_prim, is_unsigned_prim, prim_bits, prim_int, wf_type};
use super::wire::{FidlType, SpecValue, Value};

verus! {

/// The largest number an unsigned integer type holds.
pub open spec fn unsigned_max(t: FidlType) -> int {
    match t {
        FidlType::U8 => 0xff,
        FidlType::U16 => 0xffff,
        FidlType::U32 => 0xffff_ffff,
        _ => 0xffff_ffff_ffff_ffff,
    }
}

/// The smallest number an integer type holds.
pub open spec fn int_min(t: FidlType) -> int {
    match t {
        FidlType::I8 => -0x80,
        FidlType::I16 => -0x8000,
        FidlType::I32 => -0x8000_0000,
        FidlType::I64 => -0x8000_0000_0000_0000,
        _ => 0,
    }
}

/// The largest number an integer type holds.
pub open spec fn int_max(t: FidlType) -> int {
    match t {
        FidlType::I8 => 0x7f,
        FidlType::I16 => 0x7fff,
        FidlType::I32 => 0x7fff_ffff,
        FidlType::I64 => 0x7fff_ffff_ffff_ffff,
        _ => unsigned_max(t),
    }
}

impl FidlType {
    /// For a bits type: the value whose bits are `bits`, if it sets only
    /// bits that the type knows.
    pub fn from_bits(&self, bits: u64) -> (r: Option<Value>)
        requires
            wf_type(*self),
            *self is Bits,
            bits <= unsigned_max(*self->Bits_0),
        ensures
            r is Some <==> bits_known(bits, self->Bits_1),
            r matches Some(v) ==> has_type(*self, v@) && prim_bits(v@) == bits,
    {
        match self {
            FidlType::Bits(p, mask) => {
                if bits & !*mask != 0 {
                    return None;
                }
                let v = match **p {
                    FidlType::U8 => Value::U8(bits as u8),
                    FidlType::U16 => Value::U16(bits as u16),
                    FidlType::U32 => Value::U32(bits as u32),
                    _ => Value::U64(bits),
                };
                Some(v)
            },
            _ => None,
        }
    }

    /// For an enum type: the value whose number is `prim`, if it is one of
    /// the enum's members.
    pub fn from_primitive(&self, prim: i128) -> (r: Option<Value>)
        requires
            wf_type(*self),
            *self is Enum,
            int_min(*self->Enum_0) <= prim <= int_max(*self->Enum_0),
        ensures
            r is Some <==> enum_member(self->Enum_1@, prim as int),
            r matches Some(v) ==> has_type(*self, v@) && prim_int(v@) == prim,
    {
        match self {
            FidlType::Enum(p, members) => {
                let mut i: usize = 0;
                let mut found = false;
                while i < members.len()
                    invariant
                        i <= members@.len(),
                        !found ==> forall|j: int| 0 <= j < i ==> members@[j] as int != prim as int,
                        found ==> enum_member(members@, prim as int),
                    decreases members@.len() - i,
                {
                    if members[i] == prim {
                        found = true;
                    }
                    i = i + 1;
                }
                if !found {
                    return None;
                }
                let v = match **p {
                    FidlType::U8 => Value::U8(prim as u8),
                    FidlType::I8 => Value::I8(prim as i8),
                    FidlType::U16 => Value::U16(prim as u16),
                    FidlType::I16 => Value::I16(prim as i16),
                    FidlType::U32 => Value::U32(prim as u32),
                    FidlType::I32 => Value::I32(prim as i32),
                    FidlType::U64 => Value::U64(prim as u64),
                    _ => Value::I64(prim as i64),
                };
                Some(v)
            },
            _ => None,
        }
    }

    /// For a table type: the table value with every member absent.
    pub fn empty_table(&self) -> (r: Value)
        requires
            wf_type(*self),
            *self is Table,
        ensures
            has_type(*self, r@),
            r@ matches SpecValue::Table(xs) && xs.len() == self->Table_0@.len() && forall|i: int|
                0 <= i < xs.len() ==> xs[i] is None,
    {
        match self {
            FidlType::Table(members) => {
                let mut xs: Vec<Option<Value>> = Vec::new();
                let mut i: usize = 0;
                while i < members.len()
                    invariant
                        i <= members@.len(),
                        xs@.len() == i,
                        forall|j: int| 0 <= j < i ==> xs@[j] is None,
                    decreases members@.len() - i,
                {
                    xs.push(None);
                    i = i + 1;
                }
                proof {
                    super::wire::lemma_view_opt_seq(xs@, xs@.len());
                }
                Value::Table(xs)
            },
            _ => Value::Table(Vec::new()),
        }
    }
}

/// The number an integer value stands for, as the enum member it is.
pub fn into_primitive(v: &Value) -> (r: i128)
    ensures
        r == prim_int(v@),
{
    match v {
        Value::U8(x) => *x as i128,
        Value::I8(x) => *x as i128,
        Value::U16(x) => *x as i128,
        Value::I16(x) => *x as i128,
        Value::U32(x) => *x as i128,
        Value::I32(x) => *x as i128,
        Value::U64(x) => *x as i128,
        Value::I64(x) => *x as i128,
        _ => 0,
    }
}

} // verus!
