use vstd::prelude::*;
use super::bytes::{
    le_bytes, le_value, lemma_le_bytes_len, lemma_le_bytes_zero, lemma_le_value_of_bytes,
    lemma_pow256_values, push_le, read_le, zeros,
};
use super::context::{default_encode_context, Context, HeaderFlags};
use super::wire::{Error, EPITAPH_ORDINAL, MAGIC_NUMBER_INITIAL};

verus! {

/// The size of a message header on the wire.
pub const HEADER_SIZE: usize = 16;

/// The three flag bytes of a header as the flags they stand for.
pub open spec fn flags_of_bytes(flags: Seq<u8>) -> u32 {
    (flags[0] as u32 | ((flags[1] as u32) << 8u32) | ((flags[2] as u32) << 16u32)) & 1u32
}

/// The three flag bytes that the flags of `context` give.
pub open spec fn context_flag_bytes() -> Seq<u8> {
    seq![1u8, 0u8, 0u8]
}

/// The fields of a transaction header.
pub struct TransactionHeaderView {
    pub tx_id: u32,
    pub flags: Seq<u8>,
    pub magic_number: u8,
    pub ordinal: u64,
}

/// Header for transactional FIDL messages.
#[derive(Clone, Copy, Debug, PartialEq, Eq)]
pub struct TransactionHeader {
    /// Transaction ID which identifies a request-response pair.
    tx_id: u32,
    /// Flags set for this message. MUST NOT be validated by bindings.
    flags: [u8; 3],
    /// Magic number indicating the message's wire format. Two sides with
    /// different magic numbers are incompatible with each other.
    magic_number: u8,
    /// Ordinal which identifies the FIDL method.
    ordinal: u64,
}

impl View for TransactionHeader {
    type V = TransactionHeaderView;

    closed spec fn view(&self) -> TransactionHeaderView {
        TransactionHeaderView {
            tx_id: self.tx_id,
            flags: self.flags@,
            magic_number: self.magic_number,
            ordinal: self.ordinal,
        }
    }
}

/// The wire bytes of a transaction header: transaction id, flags, magic number, ordinal.
pub open spec fn transaction_header_bytes(h: TransactionHeaderView) -> Seq<u8> {
    le_bytes(h.tx_id as nat, 4) + h.flags + seq![h.magic_number] + le_bytes(h.ordinal as nat, 8)
}

/// The header whose wire bytes are the first sixteen bytes of `b`.
pub open spec fn transaction_header_of_bytes(b: Seq<u8>) -> TransactionHeaderView {
    TransactionHeaderView {
        tx_id: le_value(b.subrange(0, 4)) as u32,
        flags: b.subrange(4, 7),
        magic_number: b[7],
        ordinal: le_value(b.subrange(8, 16)) as u64,
    }
}

impl TransactionHeader {
    /// Returns whether the message containing this header is in a compatible wire format.
    pub fn is_compatible(&self) -> (r: bool)
        ensures
            r == (self@.magic_number == MAGIC_NUMBER_INITIAL),
    {
        self.magic_number == MAGIC_NUMBER_INITIAL
    }

    /// Creates a new transaction header with the default encode context and magic number.
    pub fn new(tx_id: u32, ordinal: u64) -> (r: TransactionHeader)
        ensures
            r@.tx_id == tx_id,
            r@.ordinal == ordinal,
            r@.flags == context_flag_bytes(),
            r@.magic_number == MAGIC_NUMBER_INITIAL,
    {
        TransactionHeader::new_full(tx_id, ordinal, &default_encode_context(), MAGIC_NUMBER_INITIAL)
    }

    /// Creates a new transaction header with a specific context and magic number.
    pub fn new_full(tx_id: u32, ordinal: u64, context: &Context, magic_number: u8) -> (r:
        TransactionHeader)
        ensures
            r@.tx_id == tx_id,
            r@.ordinal == ordinal,
            r@.flags == context_flag_bytes(),
            r@.magic_number == magic_number,
    {
        let flags = context.header_flags().to_bytes();
        TransactionHeader { tx_id, flags, magic_number, ordinal }
    }

    /// Returns the header's transaction id.
    pub fn tx_id(&self) -> (r: u32)
        ensures
            r == self@.tx_id,
    {
        self.tx_id
    }

    /// Returns the header's message ordinal.
    pub fn ordinal(&self) -> (r: u64)
        ensures
            r == self@.ordinal,
    {
        self.ordinal
    }

    /// Returns true if the header is for an epitaph message.
    pub fn is_epitaph(&self) -> (r: bool)
        ensures
            r == (self@.ordinal == EPITAPH_ORDINAL),
    {
        self.ordinal == EPITAPH_ORDINAL
    }

    /// Returns the magic number.
    pub fn magic_number(&self) -> (r: u8)
        ensures
            r == self@.magic_number,
    {
        self.magic_number
    }

    /// Returns the header's flags, keeping the known ones.
    pub fn flags(&self) -> (r: HeaderFlags)
        ensures
            r.bits == flags_of_bytes(self@.flags),
    {
        let bits: u32 = self.flags[0] as u32 | ((self.flags[1] as u32) << 8u32) | ((
        self.flags[2] as u32) << 16u32);
        HeaderFlags::from_bits_truncate(bits)
    }

    /// Returns the context to use for decoding the message body associated with this header.
    pub fn decoding_context(&self) -> (r: Context)
        ensures
            r == (Context {}),
    {
        Context {}
    }

    /// Returns the wire bytes of this header.
    pub fn to_bytes(&self) -> (r: Vec<u8>)
        ensures
            r@ == transaction_header_bytes(self@),
            self@.flags.len() == 3,
    {
        let mut out: Vec<u8> = Vec::new();
        push_le(&mut out, self.tx_id as u64, 4);
        out.push(self.flags[0]);
        out.push(self.flags[1]);
        out.push(self.flags[2]);
        out.push(self.magic_number);
        push_le(&mut out, self.ordinal, 8);
        assert(self@.flags =~= seq![self.flags[0], self.flags[1], self.flags[2]]);
        assert(out@ =~= transaction_header_bytes(self@));
        out
    }
}

/// Decodes the transaction header from a message.
/// Returns the header and the tail of the message.
pub fn decode_transaction_header(bytes: &[u8]) -> (r: Result<(TransactionHeader, &[u8]), Error>)
    ensures
        bytes@.len() < HEADER_SIZE ==> r == Err::<(TransactionHeader, &[u8]), Error>(
            Error::OutOfRange,
        ),
        bytes@.len() >= HEADER_SIZE ==> r is Ok && r->Ok_0.0@ == transaction_header_of_bytes(bytes@)
            && r->Ok_0.1@ == bytes@.subrange(HEADER_SIZE as int, bytes@.len() as int),
{
    if bytes.len() < HEADER_SIZE {
        return Err(Error::OutOfRange);
    }
    let (header_bytes, body_bytes) = bytes.split_at(HEADER_SIZE);
    let tx_id = read_le(header_bytes, 0, 4) as u32;
    let flags: [u8; 3] = [header_bytes[4], header_bytes[5], header_bytes[6]];
    let magic_number = header_bytes[7];
    let ordinal = read_le(header_bytes, 8, 8);
    let header = TransactionHeader { tx_id, flags, magic_number, ordinal };
    assert(flags@ =~= bytes@.subrange(4, 7));
    assert(header_bytes@.subrange(0, 4) =~= bytes@.subrange(0, 4));
    assert(header_bytes@.subrange(8, 16) =~= bytes@.subrange(8, 16));
    Ok((header, body_bytes))
}

/// The fields of a persistent header.
pub struct PersistentHeaderView {
    pub flags: Seq<u8>,
    pub magic_number: u8,
}

/// Header for persistently stored FIDL messages.
#[derive(Clone, Copy, Debug, PartialEq, Eq)]
pub struct PersistentHeader {
    /// Flags set for this message. MUST NOT be validated by bindings.
    flags: [u8; 3],
    /// Magic number indicating the message's wire format. Two sides with
    /// different magic numbers are incompatible with each other.
    magic_number: u8,
}

impl View for PersistentHeader {
    type V = PersistentHeaderView;

    closed spec fn view(&self) -> PersistentHeaderView {
        PersistentHeaderView { flags: self.flags@, magic_number: self.magic_number }
    }
}

/// The wire bytes of a persistent header: four zero bytes, the flags, the
/// magic number and eight zero bytes.
pub open spec fn persistent_header_bytes(h: PersistentHeaderView) -> Seq<u8> {
    zeros(4) + h.flags + seq![h.magic_number] + zeros(8)
}

/// The position of the first non-zero byte of `b` in `[from, to)`, if any.
pub open spec fn first_nonzero(b: Seq<u8>, from: int, to: int) -> Option<int>
    decreases to - from,
{
    if from >= to {
        None
    } else if b[from] != 0 {
        Some(from)
    } else {
        first_nonzero(b, from + 1, to)
    }
}

/// What decoding a persistent header from `b` gives: its flags and magic
/// number, or the error the decoder reports first.
pub open spec fn persistent_header_decoding(b: Seq<u8>) -> Result<(Seq<u8>, u8), Error> {
    if b.len() < HEADER_SIZE {
        Err(Error::OutOfRange)
    } else if let Some(i) = first_nonzero(b, 0, 4) {
        Err(Error::NonZeroPadding { padding_start: 0, non_zero_pos: i as usize })
    } else if let Some(i) = first_nonzero(b, 8, 16) {
        Err(Error::NonZeroPadding { padding_start: 8, non_zero_pos: i as usize })
    } else if b.len() > HEADER_SIZE {
        Err(Error::ExtraBytes)
    } else {
        Ok((b.subrange(4, 7), b[7]))
    }
}

/// Finds the first non-zero byte of `b` in `[from, to)`.
fn find_nonzero(b: &[u8], from: usize, to: usize) -> (r: Option<usize>)
    requires
        from <= to <= b@.len(),
    ensures
        match r {
            None => first_nonzero(b@, from as int, to as int) is None,
            Some(i) => first_nonzero(b@, from as int, to as int) == Some(i as int),
        },
    decreases to - from,
{
    if from >= to {
        None
    } else if b[from] != 0 {
        Some(from)
    } else {
        find_nonzero(b, from + 1, to)
    }
}

impl PersistentHeader {
    /// Creates a new persistent header with the default encode context and magic number.
    pub fn new() -> (r: PersistentHeader)
        ensures
            r@.flags == context_flag_bytes(),
            r@.magic_number == MAGIC_NUMBER_INITIAL,
    {
        PersistentHeader::new_full(&default_encode_context(), MAGIC_NUMBER_INITIAL)
    }

    /// Creates a new persistent header with a specific context and magic number.
    pub fn new_full(context: &Context, magic_number: u8) -> (r: PersistentHeader)
        ensures
            r@.flags == context_flag_bytes(),
            r@.magic_number == magic_number,
    {
        let flags = context.header_flags().to_bytes();
        PersistentHeader { flags, magic_number }
    }

    /// Returns the magic number.
    pub fn magic_number(&self) -> (r: u8)
        ensures
            r == self@.magic_number,
    {
        self.magic_number
    }

    /// Returns the header's flags, keeping the known ones.
    pub fn flags(&self) -> (r: HeaderFlags)
        ensures
            r.bits == flags_of_bytes(self@.flags),
    {
        let bits: u32 = self.flags[0] as u32 | ((self.flags[1] as u32) << 8u32) | ((
        self.flags[2] as u32) << 16u32);
        HeaderFlags::from_bits_truncate(bits)
    }

    /// Returns the context to use for decoding the message body associated with this header.
    pub fn decoding_context(&self) -> (r: Context)
        ensures
            r == (Context {}),
    {
        Context {}
    }

    /// Returns whether the message containing this header is in a compatible wire format.
    pub fn is_compatible(&self) -> (r: bool)
        ensures
            r == (self@.magic_number == MAGIC_NUMBER_INITIAL),
    {
        self.magic_number == MAGIC_NUMBER_INITIAL
    }
}

/// Creates a persistent header, to encode it and the message body separately.
pub fn create_persistent_header() -> (r: PersistentHeader)
    ensures
        r@.flags == context_flag_bytes(),
        r@.magic_number == MAGIC_NUMBER_INITIAL,
{
    PersistentHeader::new()
}

/// Encodes a persistent header to its persistent binary form.
pub fn encode_persistent_header(header: &mut PersistentHeader) -> (r: Result<Vec<u8>, Error>)
    ensures
        r is Ok,
        r->Ok_0@ == persistent_header_bytes(old(header)@),
        *final(header) == *old(header),
        final(header)@.flags.len() == 3,
{
    let mut out: Vec<u8> = Vec::new();
    push_le(&mut out, 0, 4);
    out.push(header.flags[0]);
    out.push(header.flags[1]);
    out.push(header.flags[2]);
    out.push(header.magic_number);
    push_le(&mut out, 0, 8);
    proof {
        super::bytes::lemma_le_bytes_zero(4);
        super::bytes::lemma_le_bytes_zero(8);
    }
    assert(header@.flags =~= seq![header.flags[0], header.flags[1], header.flags[2]]);
    assert(out@ =~= persistent_header_bytes(header@));
    Ok(out)
}

/// Decodes a persistently stored header from a message that holds the header alone.
pub fn decode_persistent_header(bytes: &[u8]) -> (r: Result<PersistentHeader, Error>)
    ensures
        match persistent_header_decoding(bytes@) {
            Ok((flags, magic_number)) => r is Ok && r->Ok_0@.flags == flags && r->Ok_0@.magic_number
                == magic_number,
            Err(e) => r == Err::<PersistentHeader, Error>(e),
        },
{
    if bytes.len() < HEADER_SIZE {
        return Err(Error::OutOfRange);
    }
    if let Some(i) = find_nonzero(bytes, 0, 4) {
        return Err(Error::NonZeroPadding { padding_start: 0, non_zero_pos: i });
    }
    if let Some(i) = find_nonzero(bytes, 8, 16) {
        return Err(Error::NonZeroPadding { padding_start: 8, non_zero_pos: i });
    }
    if bytes.len() > HEADER_SIZE {
        return Err(Error::ExtraBytes);
    }
    let flags: [u8; 3] = [bytes[4], bytes[5], bytes[6]];
    assert(flags@ =~= bytes@.subrange(4, 7));
    Ok(PersistentHeader { flags, magic_number: bytes[7] })
}

/// Decoding the header at the start of a transaction message gives back the
/// header that was written there, and the rest of the message as its body.
pub proof fn lemma_transaction_header_roundtrip(h: TransactionHeaderView, body: Seq<u8>)
    requires
        h.flags.len() == 3,
    ensures
        transaction_header_of_bytes(transaction_header_bytes(h) + body) == h,
        (transaction_header_bytes(h) + body).subrange(
            HEADER_SIZE as int,
            (transaction_header_bytes(h) + body).len() as int,
        ) == body,
{
    let b = transaction_header_bytes(h) + body;
    lemma_pow256_values();
    lemma_le_bytes_len(h.tx_id as nat, 4);
    lemma_le_bytes_len(h.ordinal as nat, 8);
    lemma_le_value_of_bytes(h.tx_id as nat, 4);
    lemma_le_value_of_bytes(h.ordinal as nat, 8);
    assert(b.subrange(0, 4) =~= le_bytes(h.tx_id as nat, 4));
    assert(b.subrange(4, 7) =~= h.flags);
    assert(b.subrange(8, 16) =~= le_bytes(h.ordinal as nat, 8));
    assert(b.subrange(HEADER_SIZE as int, b.len() as int) =~= body);
    let r = transaction_header_of_bytes(b);
    assert(r.flags =~= h.flags);
}

/// Decoding the bytes of an encoded persistent header gives back its flags
/// and magic number.
pub proof fn lemma_persistent_header_roundtrip(h: PersistentHeaderView)
    requires
        h.flags.len() == 3,
    ensures
        persistent_header_decoding(persistent_header_bytes(h)) == Ok::<(Seq<u8>, u8), Error>(
            (h.flags, h.magic_number),
        ),
{
    let b = persistent_header_bytes(h);
    assert(b.len() == 16);
    assert forall|i: int| 0 <= i < 4 implies b[i] == 0 by {}
    assert forall|i: int| 8 <= i < 16 implies b[i] == 0 by {}
    lemma_no_nonzero(b, 0, 4);
    lemma_no_nonzero(b, 8, 16);
    assert(b.subrange(4, 7) =~= h.flags);
}

/// A range of zero bytes holds no non-zero byte.
pub proof fn lemma_no_nonzero(b: Seq<u8>, from: int, to: int)
    requires
        forall|i: int| from <= i < to ==> b[i] == 0,
    ensures
        first_nonzero(b, from, to) is None,
    decreases to - from,
{
    if from < to {
        lemma_no_nonzero(b, from + 1, to);
    }
}

/// Every transaction header has three flag bytes.
pub proof fn lemma_transaction_header_flags(h: TransactionHeader)
    ensures
        h@.flags.len() == 3,
{
}

/// Every persistent header has three flag bytes.
pub proof fn lemma_persistent_header_flags(h: PersistentHeader)
    ensures
        h@.flags.len() == 3,
{
}

/// Decoding the encoding of any transaction header, followed by a body,
/// gives back the header and the body.
pub proof fn lemma_transaction_header_encode_decode(h: TransactionHeader, body: Seq<u8>)
    ensures
        transaction_header_of_bytes(transaction_header_bytes(h@) + body) == h@,
        (transaction_header_bytes(h@) + body).subrange(
            HEADER_SIZE as int,
            (transaction_header_bytes(h@) + body).len() as int,
        ) == body,
{
    lemma_transaction_header_flags(h);
    lemma_transaction_header_roundtrip(h@, body);
}

/// Decoding the encoding of any persistent header gives back its flags and
/// magic number.
pub proof fn lemma_persistent_header_encode_decode(h: PersistentHeader)
    ensures
        persistent_header_decoding(persistent_header_bytes(h@)) == Ok::<(Seq<u8>, u8), Error>(
            (h@.flags, h@.magic_number),
        ),
{
    lemma_persistent_header_flags(h);
    lemma_persistent_header_roundtrip(h@);
}

} // verus!
