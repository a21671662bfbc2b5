use fuchsia_lib::component::client::{
    connect_to_service, connect_to_service_at, connect_to_unified_service,
    connect_to_unified_service_instance, connect_to_unified_service_instance_at,
};
use fuchsia_lib::fidl::context::{default_encode_context, Context, HeaderFlags};
use fuchsia_lib::fidl::encoder::{
    encode_in_envelope, encode_string, encode_value, encode_vector, Encoder,
};
use fuchsia_lib::fidl::header::{
    create_persistent_header, decode_persistent_header, decode_transaction_header,
    encode_persistent_header, PersistentHeader, TransactionHeader, HEADER_SIZE,
};
use fuchsia_lib::fidl::layout::round_up_to_align;
use fuchsia_lib::fidl::message::{decode_persistent, encode_persistent, Decoder};
use fuchsia_lib::fidl::slices::{split_off_first_mut, split_off_front_mut, take_slice_mut};
use fuchsia_lib::fidl::values::into_primitive;
use fuchsia_lib::fidl::wire::{Error, FidlType, Member, StructField, Value, EPITAPH_ORDINAL};
use fuchsia_lib::setui::agent::AgentError;
use fuchsia_lib::setui::beacon::{BeaconBuilder, Sentinel};

fn ctx() -> Context {
    Context {}
}

fn encode(t: &FidlType, v: &Value) -> Result<Vec<u8>, Error> {
    let mut buf = Vec::new();
    Encoder::encode_with_context(&ctx(), &mut buf, t, v).map(|()| buf)
}

fn decode(t: &FidlType, buf: &[u8]) -> Result<Value, Error> {
    Decoder::decode_with_context(&ctx(), t, buf, &[])
}

/// A struct holding one out-of-line optional struct, nested `depth` times.
fn nested_boxes(depth: usize) -> (FidlType, Value) {
    let mut t = FidlType::Struct(vec![StructField { ty: FidlType::U8, offset: 0 }], 1, 1);
    let mut v = Value::Struct(vec![Value::U8(7)]);
    for _ in 0..depth {
        t = FidlType::Struct(
            vec![StructField { ty: FidlType::Nullable(Box::new(t)), offset: 0 }],
            8,
            8,
        );
        v = Value::Struct(vec![Value::Boxed(Some(Box::new(v)))]);
    }
    (t, v)
}

#[test]
fn transaction_header_bytes_round_trip() {
    let header = TransactionHeader::new(0x01020304, 0x1122334455667788);
    let bytes = header.to_bytes();
    assert_eq!(
        bytes,
        vec![4, 3, 2, 1, 1, 0, 0, 1, 0x88, 0x77, 0x66, 0x55, 0x44, 0x33, 0x22, 0x11]
    );
    let mut message = bytes.clone();
    message.extend_from_slice(&[9, 8, 7]);
    let (decoded, body) = decode_transaction_header(&message).expect("header");
    assert_eq!(decoded, header);
    assert_eq!(body, &[9, 8, 7]);
    assert_eq!(decoded.tx_id(), 0x01020304);
    assert_eq!(decoded.ordinal(), 0x1122334455667788);
    assert!(decoded.is_compatible());
    assert!(!decoded.is_epitaph());
    assert_eq!(decoded.flags().bits(), 1);
}

#[test]
fn transaction_header_too_short() {
    assert_eq!(decode_transaction_header(&[0u8; 15]).map(|(h, _)| h), Err(Error::OutOfRange));
    assert_eq!(HEADER_SIZE, 16);
}

#[test]
fn transaction_header_epitaph_and_magic() {
    let epitaph = TransactionHeader::new(0, EPITAPH_ORDINAL);
    assert!(epitaph.is_epitaph());
    let other = TransactionHeader::new_full(5, 6, &ctx(), 2);
    assert_eq!(other.magic_number(), 2);
    assert!(!other.is_compatible());
}

#[test]
fn persistent_header_round_trip() {
    let mut header = create_persistent_header();
    let bytes = encode_persistent_header(&mut header).expect("encode");
    assert_eq!(bytes, vec![0, 0, 0, 0, 1, 0, 0, 1, 0, 0, 0, 0, 0, 0, 0, 0]);
    let decoded = decode_persistent_header(&bytes).expect("decode");
    assert_eq!(decoded, header);
    assert!(decoded.is_compatible());
    assert_eq!(decoded.flags().bits(), 1);
    let other = PersistentHeader::new_full(&ctx(), 3);
    assert_eq!(other.magic_number(), 3);
    assert!(!other.is_compatible());
}

#[test]
fn persistent_header_errors() {
    let good = [0u8, 0, 0, 0, 1, 0, 0, 1, 0, 0, 0, 0, 0, 0, 0, 0];
    assert_eq!(decode_persistent_header(&good[..15]), Err(Error::OutOfRange));
    let mut bad_front = good;
    bad_front[2] = 5;
    assert_eq!(
        decode_persistent_header(&bad_front),
        Err(Error::NonZeroPadding { padding_start: 0, non_zero_pos: 2 })
    );
    let mut bad_back = good;
    bad_back[13] = 1;
    assert_eq!(
        decode_persistent_header(&bad_back),
        Err(Error::NonZeroPadding { padding_start: 8, non_zero_pos: 13 })
    );
    let mut long = good.to_vec();
    long.push(0);
    assert_eq!(decode_persistent_header(&long), Err(Error::ExtraBytes));
}

#[test]
fn persistent_message_round_trip() {
    let t = FidlType::Struct(
        vec![StructField { ty: FidlType::U32, offset: 0 }, StructField { ty: FidlType::String(false), offset: 8 }],
        24,
        8,
    );
    let v = Value::Struct(vec![Value::U32(42), Value::Str(Some(b"hi".to_vec()))]);
    let bytes = encode_persistent(&t, &v).expect("encode");
    assert_eq!(bytes.len(), 16 + 24 + 8);
    assert_eq!(decode_persistent(&t, &bytes), Ok(v));
}

#[test]
fn recursion_depth_limit() {
    let (t, v) = nested_boxes(32);
    let bytes = encode(&t, &v).expect("32 levels of boxes encode");
    assert_eq!(decode(&t, &bytes), Ok(v));
    let (t, v) = nested_boxes(33);
    assert_eq!(encode(&t, &v), Err(Error::MaxRecursionDepth));
}

#[test]
fn invalid_utf8_is_refused() {
    let t = FidlType::String(false);
    let good = encode(&t, &Value::Str(Some(b"ok".to_vec()))).expect("encode");
    assert_eq!(decode(&t, &good), Ok(Value::Str(Some(b"ok".to_vec()))));
    let mut bad = good.clone();
    bad[16] = 0xff;
    assert_eq!(decode(&t, &bad), Err(Error::Utf8Error));
}

#[test]
fn absent_values_need_nullable_types() {
    let absent = [0u8; 16];
    assert_eq!(decode(&FidlType::String(false), &absent), Err(Error::NotNullable));
    assert_eq!(decode(&FidlType::String(true), &absent), Ok(Value::Str(None)));
    let vector = FidlType::Vector(Box::new(FidlType::U8), true);
    assert_eq!(decode(&vector, &absent), Ok(Value::Vector(None)));
    let mut absent_with_len = absent;
    absent_with_len[0] = 1;
    assert_eq!(decode(&vector, &absent_with_len), Err(Error::UnexpectedNullRef));
}

#[test]
fn extra_bytes_and_short_buffers() {
    let t = FidlType::U32;
    assert_eq!(decode(&t, &[1, 0, 0, 0, 0, 0, 0, 0]), Ok(Value::U32(1)));
    assert_eq!(decode(&t, &[1, 0, 0, 0]), Err(Error::OutOfRange));
    assert_eq!(
        decode(&t, &[1, 0, 0, 0, 0, 0, 3, 0]),
        Err(Error::NonZeroPadding { padding_start: 4, non_zero_pos: 6 })
    );
    assert_eq!(decode(&t, &[1, 0, 0, 0, 0, 0, 0, 0, 0, 0, 0, 0, 0, 0, 0, 0]), Err(Error::ExtraBytes));
}

#[test]
fn invalid_bool_and_enum_values() {
    assert_eq!(decode(&FidlType::Bool, &[2, 0, 0, 0, 0, 0, 0, 0]), Err(Error::Invalid));
    let e = FidlType::Enum(Box::new(FidlType::U8), vec![1, 2]);
    assert_eq!(decode(&e, &[2, 0, 0, 0, 0, 0, 0, 0]), Ok(Value::U8(2)));
    assert_eq!(decode(&e, &[3, 0, 0, 0, 0, 0, 0, 0]), Err(Error::Invalid));
    assert_eq!(e.from_primitive(2), Some(Value::U8(2)));
    assert_eq!(e.from_primitive(3), None);
    assert_eq!(into_primitive(&Value::I16(-5)), -5);
    let b = FidlType::Bits(Box::new(FidlType::U16), 0b101);
    assert_eq!(b.from_bits(0b100), Some(Value::U16(0b100)));
    assert_eq!(b.from_bits(0b010), None);
    assert_eq!(decode(&b, &[2, 0, 0, 0, 0, 0, 0, 0]), Err(Error::Invalid));
}

#[test]
fn empty_table_value() {
    let t = FidlType::Table(vec![
        Member { ordinal: 1, ty: FidlType::U8 },
        Member { ordinal: 3, ty: FidlType::U64 },
    ]);
    let v = t.empty_table();
    assert_eq!(v, Value::Table(vec![None, None]));
    let bytes = encode(&t, &v).expect("encode");
    assert_eq!(bytes, vec![0, 0, 0, 0, 0, 0, 0, 0, 255, 255, 255, 255, 255, 255, 255, 255]);
    assert_eq!(decode(&t, &bytes), Ok(v));
}

#[test]
fn layout_sizes_and_rounding() {
    assert_eq!(round_up_to_align(0, 8), 0);
    assert_eq!(round_up_to_align(1, 8), 8);
    assert_eq!(round_up_to_align(13, 4), 16);
    assert_eq!(round_up_to_align(13, 1), 13);
    assert_eq!(round_up_to_align(8, 8), 8);
    assert_eq!(round_up_to_align(9, 8), 16);
    assert_eq!(round_up_to_align(5, 1), 5);
    assert_eq!(round_up_to_align(17, 16), 32);
    assert_eq!(round_up_to_align(100, 64), 128);
    assert_eq!(FidlType::U16.inline_size_of(), 2);
    assert_eq!(FidlType::String(false).inline_size_of(), 16);
    assert_eq!(FidlType::String(false).inline_align_of(), 8);
    assert_eq!(FidlType::Array(Box::new(FidlType::U32), 3).inline_size_of(), 12);
    assert_eq!(FidlType::EmptyStruct.inline_size_of(), 1);
}

#[test]
fn header_flags_and_contexts() {
    assert_eq!(HeaderFlags::unions_use_xunion_format().bits(), 1);
    assert_eq!(HeaderFlags::from_bits_truncate(0xffff_ffff).bits(), 1);
    assert_eq!(HeaderFlags::from_bits_truncate(2).bits(), 0);
    assert_eq!(HeaderFlags::unions_use_xunion_format().to_bytes(), [1, 0, 0]);
    assert_eq!(default_encode_context().header_flags().bits(), 1);
}

#[test]
fn service_paths() {
    assert_eq!(connect_to_service("fuchsia.Echo"), "/svc/fuchsia.Echo");
    assert_eq!(connect_to_service_at("/pkg/svc", "fuchsia.Echo"), "/pkg/svc/fuchsia.Echo");
    assert_eq!(connect_to_unified_service("fuchsia.Svc"), "/svc/fuchsia.Svc/default");
    assert_eq!(
        connect_to_unified_service_instance("fuchsia.Svc", "one"),
        "/svc/fuchsia.Svc/one"
    );
    assert_eq!(
        connect_to_unified_service_instance_at("/x", "fuchsia.Svc", "two"),
        "/x/fuchsia.Svc/two"
    );
}

#[test]
fn sentinel_collects_fuses_until_triggered() {
    let mut sentinel: Sentinel<u32> = Sentinel::new();
    sentinel.add_fuse(1);
    sentinel.add_fuse(2);
    assert_eq!(sentinel.num_fuses(), 2);
    sentinel.trigger();
    assert_eq!(sentinel.num_fuses(), 0);
    sentinel.add_fuse(3);
    assert_eq!(sentinel.num_fuses(), 0);
}

#[test]
fn beacon_builder_keeps_fuses_in_order() {
    let (messenger, fuses) = BeaconBuilder::new("m").add_fuse(1u8).add_fuse(2u8).into_parts();
    assert_eq!(messenger, "m");
    assert_eq!(fuses, vec![1, 2]);
}

#[test]
fn agent_error_messages() {
    assert_eq!(AgentError::UnhandledLifespan.message(), "Unhandled Lifespan");
    assert_eq!(AgentError::UnexpectedError.message(), "Unexpected Error");
}

#[test]
fn slices_split_off_the_front() {
    let mut v = vec![1u8, 2, 3, 4];
    let mut s: &mut [u8] = &mut v;
    let head = split_off_front_mut(&mut s, 2).expect("two elements");
    assert_eq!(head, &mut [1, 2]);
    head[0] = 9;
    assert_eq!(split_off_front_mut(&mut s, 3).map(|h| h.len()), Err(Error::OutOfRange));
    assert_eq!(s, &mut [3, 4]);
    let first = split_off_first_mut(&mut s).expect("one element");
    assert_eq!(*first, 3);
    let rest = take_slice_mut(&mut s);
    assert_eq!(rest, &mut [4]);
    assert!(s.is_empty());
    assert_eq!(split_off_first_mut(&mut s).map(|x| *x), Err(Error::OutOfRange));
    assert_eq!(v, vec![9, 2, 3, 4]);
}

#[test]
fn encoding_helpers_beyond_the_depth_limit() {
    let bytes = FidlType::Vector(Box::new(FidlType::U8), false);
    let (mut inl, mut ool) = (Vec::new(), Vec::new());
    assert_eq!(encode_vector(&bytes, &Value::Vector(Some(vec![])), 40, &mut inl, &mut ool), Ok(()));
    assert_eq!(inl, vec![0, 0, 0, 0, 0, 0, 0, 0, 255, 255, 255, 255, 255, 255, 255, 255]);
    assert!(ool.is_empty());
    let (mut inl, mut ool) = (Vec::new(), Vec::new());
    assert_eq!(
        encode_vector(&bytes, &Value::Vector(Some(vec![Value::U8(1)])), 32, &mut inl, &mut ool),
        Err(Error::MaxRecursionDepth)
    );
    let (mut inl, mut ool) = (Vec::new(), Vec::new());
    assert_eq!(
        encode_vector(&bytes, &Value::Vector(Some(vec![Value::U8(1)])), 31, &mut inl, &mut ool),
        Ok(())
    );
    assert_eq!(ool, vec![1, 0, 0, 0, 0, 0, 0, 0]);
    let (mut inl, mut ool) = (Vec::new(), Vec::new());
    assert_eq!(encode_value(&FidlType::U16, &Value::U16(0x0102), 100, &mut inl, &mut ool), Ok(()));
    assert_eq!(inl, vec![2, 1]);
    let (mut inl, mut ool) = (Vec::new(), Vec::new());
    assert_eq!(
        encode_string(&FidlType::String(true), &Value::Str(None), 50, &mut inl, &mut ool),
        Ok(())
    );
    let (mut inl, mut ool) = (Vec::new(), Vec::new());
    assert_eq!(
        encode_in_envelope(&FidlType::U8, &Value::U8(1), 32, &mut inl, &mut ool),
        Err(Error::MaxRecursionDepth)
    );
}

#[test]
fn messages_fill_whole_blocks() {
    let t = FidlType::Struct(vec![StructField { ty: FidlType::U8, offset: 0 }], 1, 1);
    let bytes = encode(&t, &Value::Struct(vec![Value::U8(9)])).expect("encode");
    assert_eq!(bytes, vec![9, 0, 0, 0, 0, 0, 0, 0]);
    let s = encode(&FidlType::String(false), &Value::Str(Some(b"abc".to_vec()))).expect("encode");
    assert_eq!(s.len() % 8, 0);
    assert_eq!(&s[16..], &[b'a', b'b', b'c', 0, 0, 0, 0, 0]);
}
