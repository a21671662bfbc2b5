use vstd::prelude::*;

verus! {

/// Bits of the flags of a message header.
#[derive(Clone, Copy, Debug, PartialEq, Eq, Structural)]
pub struct HeaderFlags {
    pub bits: u32,
}

impl HeaderFlags {
    /// The flag that indicates that unions in the transaction message body
    /// are encoded using the xunion format.
    pub fn unions_use_xunion_format() -> (r: HeaderFlags)
        ensures
            r.bits == 1,
    {
        HeaderFlags { bits: 1 }
    }

    /// The mask of all the flags this library knows.
    pub open spec fn all_bits() -> u32 {
        1
    }

    /// Returns the raw bits of the flags.
    pub fn bits(&self) -> (r: u32)
        ensures
            r == self.bits,
    {
        self.bits
    }

    /// The flags of `bits`, dropping the bits that correspond to no known flag.
    pub fn from_bits_truncate(bits: u32) -> (r: HeaderFlags)
        ensures
            r.bits == bits & Self::all_bits(),
    {
        HeaderFlags { bits: bits & 1 }
    }

    /// The three low bytes of the flags, in little-endian order.
    pub fn to_bytes(self) -> (r: [u8; 3])
        ensures
            r@ == seq![(self.bits % 0x100) as u8, ((self.bits / 0x100) % 0x100) as u8, ((self.bits / 0x1_0000) % 0x100) as u8],
    {
        let b0 = (self.bits % 0x100) as u8;
        let b1 = ((self.bits / 0x100) % 0x100) as u8;
        let b2 = ((self.bits / 0x1_0000) % 0x100) as u8;
        let r = [b0, b1, b2];
        assert(r@ =~= seq![b0, b1, b2]);
        r
    }
}

/// Context for encoding and decoding.
///
/// It is empty: it stands for the default behaviour of the current wire format.
#[derive(Clone, Copy, Debug)]
pub struct Context {}

impl Context {
    /// Returns the header flags to set when encoding with this context.
    pub fn header_flags(&self) -> (r: HeaderFlags)
        ensures
            r.bits == 1,
    {
        HeaderFlags::unions_use_xunion_format()
    }
}

/// The default context for encoding.
pub fn default_encode_context() -> (r: Context)
    ensures
        r == (Context {}),
{
    Context {}
}

} // verus!
