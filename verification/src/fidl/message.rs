use vstd::prelude::*;
use super::context::Context;
use super::decode::{decode_message, DecodeState};
use super::decoder::{dec_value_at, find_nonzero_in};
use super::encode::nest;
use super::encoder::{message, Encoder};
use super::header::{
    context_flag_bytes, decode_persistent_header, persistent_header_bytes,
    persistent_header_decoding, transaction_header_bytes, PersistentHeader, TransactionHeader,
    HEADER_SIZE,
};
use super::layout::{has_type, round_up_to_align, spec_round_up, wf_type};
use super::wire::{Error, FidlType, SpecValue, Value, MAGIC_NUMBER_INITIAL, MAX_RECURSION};

verus! {

/// Decodes FIDL messages into values.
pub struct Decoder {}

impl Decoder {
    /// Decodes a value of type `t` from `buf` and the handle table
    /// `handles`, the body of a transaction message whose header is `header`.
    pub fn decode_into(header: &TransactionHeader, t: &FidlType, buf: &[u8], handles: &[u32]) -> (r:
        Result<Value, Error>)
        requires
            wf_type(*t),
        ensures
            match r {
                Ok(v) => decode_message(*t, buf@, handles@.len()) == Ok::<SpecValue, Error>(v@),
                Err(e) => decode_message(*t, buf@, handles@.len()) == Err::<SpecValue, Error>(e),
            },
    {
        Self::decode_with_context(&header.decoding_context(), t, buf, handles)
    }

    /// Decodes a value of type `t` from `buf`, with the given context.
    ///
    /// The whole of `buf` must be the message: bytes left after the value
    /// and its out-of-line blocks are an error, and so are handles of
    /// `handles` that the value did not take.
    pub fn decode_with_context(context: &Context, t: &FidlType, buf: &[u8], handles: &[u32]) -> (r:
        Result<Value, Error>)
        requires
            wf_type(*t),
        ensures
            match r {
                Ok(v) => decode_message(*t, buf@, handles@.len()) == Ok::<SpecValue, Error>(v@),
                Err(e) => decode_message(*t, buf@, handles@.len()) == Err::<SpecValue, Error>(e),
            },
    {
        let inline_size = t.inline_size_of();
        assert(8usize & ((8usize - 1) as usize) == 0) by (bit_vector);
        let next = round_up_to_align(inline_size, 8);
        if next > buf.len() {
            return Err(Error::OutOfRange);
        }
        let start = DecodeState {
            offset: 0,
            end_block: next,
            next_out_of_line: next,
            depth: 0,
            handles_left: handles.len(),
        };
        let (v, s) = match dec_value_at(t, buf, start) {
            Ok(p) => p,
            Err(e) => return Err(e),
        };
        if s.next_out_of_line < buf.len() {
            return Err(Error::ExtraBytes);
        }
        if s.handles_left != 0 {
            return Err(Error::ExtraHandles);
        }
        match find_nonzero_in(buf, s.offset, next) {
            Some(i) => Err(Error::NonZeroPadding { padding_start: s.offset, non_zero_pos: i }),
            None => Ok(v),
        }
    }
}

/// A transactional FIDL message: a header and a body.
pub struct TransactionMessage {
    pub header: TransactionHeader,
    pub body: Value,
}

impl TransactionMessage {
    /// Encodes the message, whose body has type `t`, into `buf`, which it overwrites.
    pub fn encode(&self, t: &FidlType, buf: &mut Vec<u8>) -> (r: Result<(), Error>)
        requires
            wf_type(*t),
            has_type(*t, self.body@),
        ensures
            r is Ok <==> nest(*t, self.body@, false) <= MAX_RECURSION,
            r is Err ==> r == Err::<(), Error>(Error::MaxRecursionDepth),
            r is Ok ==> final(buf)@ == transaction_header_bytes(self.header@) + message(
                *t,
                self.body@,
            ),
    {
        let mut body_bytes: Vec<u8> = Vec::new();
        let r = Encoder::encode(&mut body_bytes, t, &self.body);
        if r.is_err() {
            return r;
        }
        let mut out = self.header.to_bytes();
        out.append(&mut body_bytes);
        *buf = out;
        Ok(())
    }
}

/// A persistently stored FIDL message: a header and a body.
pub struct PersistentMessage {
    pub header: PersistentHeader,
    pub body: Value,
}

impl PersistentMessage {
    /// Encodes the message, whose body has type `t`, into `buf`, which it overwrites.
    pub fn encode(&self, t: &FidlType, buf: &mut Vec<u8>) -> (r: Result<(), Error>)
        requires
            wf_type(*t),
            has_type(*t, self.body@),
        ensures
            r is Ok <==> nest(*t, self.body@, false) <= MAX_RECURSION,
            r is Err ==> r == Err::<(), Error>(Error::MaxRecursionDepth),
            r is Ok ==> final(buf)@ == persistent_header_bytes(self.header@) + message(
                *t,
                self.body@,
            ),
    {
        let mut body_bytes: Vec<u8> = Vec::new();
        let r = Encoder::encode(&mut body_bytes, t, &self.body);
        if r.is_err() {
            return r;
        }
        let mut header = self.header;
        let mut out = match super::header::encode_persistent_header(&mut header) {
            Ok(b) => b,
            Err(e) => return Err(e),
        };
        out.append(&mut body_bytes);
        *buf = out;
        Ok(())
    }
}

/// Encodes `body`, of type `t`, into persistent binary form: a new header
/// followed by the encoded body.
pub fn encode_persistent(t: &FidlType, body: &Value) -> (r: Result<Vec<u8>, Error>)
    requires
        wf_type(*t),
        has_type(*t, body@),
    ensures
        r is Ok <==> nest(*t, body@, false) <= MAX_RECURSION,
        r is Err ==> r == Err::<Vec<u8>, Error>(Error::MaxRecursionDepth),
        r matches Ok(bytes) ==> bytes@.len() >= HEADER_SIZE && bytes@.subrange(0, HEADER_SIZE as int)
            == super::bytes::zeros(4) + context_flag_bytes() + seq![MAGIC_NUMBER_INITIAL]
            + super::bytes::zeros(8) && bytes@.subrange(HEADER_SIZE as int, bytes@.len() as int)
            == message(*t, body@),
{
    let mut body_bytes: Vec<u8> = Vec::new();
    let r = Encoder::encode(&mut body_bytes, t, body);
    if r.is_err() {
        return Err(Error::MaxRecursionDepth);
    }
    let mut header = PersistentHeader::new();
    let mut out = match super::header::encode_persistent_header(&mut header) {
        Ok(b) => b,
        Err(e) => return Err(e),
    };
    let ghost hb = out@;
    out.append(&mut body_bytes);
    assert(out@.subrange(0, HEADER_SIZE as int) =~= hb);
    assert(out@.subrange(HEADER_SIZE as int, out@.len() as int) =~= message(*t, body@));
    Ok(out)
}

/// Encodes a message body, of type `t`, to persistent binary form, to be
/// stored after the encoded `header`.
pub fn encode_persistent_body(t: &FidlType, body: &Value, header: &PersistentHeader) -> (r: Result<
    Vec<u8>,
    Error,
>)
    requires
        wf_type(*t),
        has_type(*t, body@),
    ensures
        r is Ok <==> nest(*t, body@, false) <= MAX_RECURSION,
        r is Err ==> r == Err::<Vec<u8>, Error>(Error::MaxRecursionDepth),
        r matches Ok(bytes) ==> bytes@ == message(*t, body@),
{
    let mut bytes: Vec<u8> = Vec::new();
    let r = Encoder::encode_with_context(&header.decoding_context(), &mut bytes, t, body);
    if r.is_err() {
        return Err(Error::MaxRecursionDepth);
    }
    Ok(bytes)
}

/// Decodes a value of type `t` from a message body stored in persistent
/// binary form after `header`.
pub fn decode_persistent_body(t: &FidlType, bytes: &[u8], header: &PersistentHeader) -> (r: Result<
    Value,
    Error,
>)
    requires
        wf_type(*t),
    ensures
        match r {
            Ok(v) => decode_message(*t, bytes@, 0) == Ok::<SpecValue, Error>(v@),
            Err(e) => decode_message(*t, bytes@, 0) == Err::<SpecValue, Error>(e),
        },
{
    let no_handles: Vec<u32> = Vec::new();
    Decoder::decode_with_context(&header.decoding_context(), t, bytes, no_handles.as_slice())
}

/// Decodes a value of type `t` from its persistent binary form: a header,
/// then the body.
pub fn decode_persistent(t: &FidlType, bytes: &[u8]) -> (r: Result<Value, Error>)
    requires
        wf_type(*t),
    ensures
        bytes@.len() < HEADER_SIZE ==> r == Err::<Value, Error>(Error::OutOfRange),
        bytes@.len() >= HEADER_SIZE ==> match persistent_header_decoding(
            bytes@.subrange(0, HEADER_SIZE as int),
        ) {
            Err(e) => r == Err::<Value, Error>(e),
            Ok(_) => match r {
                Ok(v) => decode_message(*t, bytes@.subrange(HEADER_SIZE as int, bytes@.len() as int), 0)
                    == Ok::<SpecValue, Error>(v@),
                Err(e) => decode_message(*t, bytes@.subrange(HEADER_SIZE as int, bytes@.len() as int), 0)
                    == Err::<SpecValue, Error>(e),
            },
        },
{
    if bytes.len() < HEADER_SIZE {
        return Err(Error::OutOfRange);
    }
    let (header_bytes, body_bytes) = bytes.split_at(HEADER_SIZE);
    let header = match decode_persistent_header(header_bytes) {
        Ok(h) => h,
        Err(e) => return Err(e),
    };
    decode_persistent_body(t, body_bytes, &header)
}

} // verus!
