use fuchsia_lib::fidl::context::Context;
use fuchsia_lib::fidl::encoder::Encoder;
use fuchsia_lib::fidl::header::{
    create_persistent_header, decode_persistent_header, decode_transaction_header,
    encode_persistent_header,
};
use fuchsia_lib::fidl::message::{
    decode_persistent, decode_persistent_body, encode_persistent, encode_persistent_body, Decoder,
    TransactionMessage,
};
use fuchsia_lib::fidl::wire::{Error, FidlType, Member, StructField, Value};

fn ctx() -> Context {
    Context {}
}

fn encode(t: &FidlType, v: &Value) -> Vec<u8> {
    let mut buf = Vec::new();
    Encoder::encode_with_context(&ctx(), &mut buf, t, v).expect("Encoding failed");
    buf
}

fn decode(t: &FidlType, buf: &[u8]) -> Value {
    Decoder::decode_with_context(&ctx(), t, buf, &[]).expect("Decoding failed")
}

fn encode_decode(t: &FidlType, v: &Value) -> Value {
    decode(t, &encode(t, v))
}

fn assert_identity(t: FidlType, x: Value) {
    assert_eq!(x, encode_decode(&t, &x));
}

fn encode_assert_bytes(t: FidlType, v: Value, encoded_bytes: &[u8]) {
    assert_eq!(&encode(&t, &v)[..], encoded_bytes);
}

fn boxed(t: FidlType) -> Box<FidlType> {
    Box::new(t)
}

fn unit() -> FidlType {
    FidlType::Struct(vec![], 0, 1)
}

fn unit_value() -> Value {
    Value::Struct(vec![])
}

fn string(s: &str) -> Value {
    Value::Str(Some(s.as_bytes().to_vec()))
}

fn field(ty: FidlType, offset: usize) -> StructField {
    StructField { ty, offset }
}

fn member(ordinal: u64, ty: FidlType) -> Member {
    Member { ordinal, ty }
}

fn table_entries(v: &Value) -> &Vec<Option<Value>> {
    match v {
        Value::Table(xs) => xs,
        _ => panic!("not a table"),
    }
}

#[test]
fn encode_decode_nan() {
    let nan32 = encode_decode(&FidlType::U32, &Value::U32(f32::NAN.to_bits()));
    match nan32 {
        Value::U32(bits) => assert!(f32::from_bits(bits).is_nan()),
        _ => panic!("not a float"),
    }
    let nan64 = encode_decode(&FidlType::U64, &Value::U64(f64::NAN.to_bits()));
    match nan64 {
        Value::U64(bits) => assert!(f64::from_bits(bits).is_nan()),
        _ => panic!("not a float"),
    }
}

#[test]
fn encode_slices_of_primitives() {
    let vec_of = |t: FidlType| FidlType::Vector(boxed(t), false);
    let u8s = |xs: &[u8]| Value::Vector(Some(xs.iter().map(|x| Value::U8(*x)).collect()));
    let i8s = |xs: &[i8]| Value::Vector(Some(xs.iter().map(|x| Value::I8(*x)).collect()));
    let u64s = |xs: &[u64]| Value::Vector(Some(xs.iter().map(|x| Value::U64(*x)).collect()));
    let f32s = |xs: &[f32]| Value::Vector(Some(xs.iter().map(|x| Value::U32(x.to_bits())).collect()));
    let f64s = |xs: &[f64]| Value::Vector(Some(xs.iter().map(|x| Value::U64(x.to_bits())).collect()));

    assert_identity(vec_of(FidlType::U8), u8s(&[]));
    assert_identity(vec_of(FidlType::U8), u8s(&[0u8]));
    assert_identity(vec_of(FidlType::U8), u8s(&[1u8, 2, 3, 4, 5, 255]));

    assert_identity(vec_of(FidlType::I8), i8s(&[]));
    assert_identity(vec_of(FidlType::I8), i8s(&[0i8]));
    assert_identity(vec_of(FidlType::I8), i8s(&[1i8, 2, 3, 4, 5, -128, 127]));

    assert_identity(vec_of(FidlType::U64), u64s(&[]));
    assert_identity(vec_of(FidlType::U64), u64s(&[0u64]));
    assert_identity(vec_of(FidlType::U64), u64s(&[1u64, 2, 3, 4, 5, u64::MAX]));

    assert_identity(vec_of(FidlType::U32), f32s(&[]));
    assert_identity(vec_of(FidlType::U32), f32s(&[0.0f32]));
    assert_identity(vec_of(FidlType::U32), f32s(&[1.0f32, 2.0, 3.0, 4.0, 5.0, f32::MIN, f32::MAX]));

    assert_identity(vec_of(FidlType::U64), f64s(&[]));
    assert_identity(vec_of(FidlType::U64), f64s(&[0.0f64]));
    assert_identity(vec_of(FidlType::U64), f64s(&[1.0f64, 2.0, 3.0, 4.0, 5.0, f64::MIN, f64::MAX]));
}

fn result_unit_i32() -> FidlType {
    FidlType::Result(boxed(unit()), boxed(FidlType::I32))
}

#[test]
fn result_encode_empty_ok_value() {
    assert_identity(unit(), unit_value());
    assert_identity(result_unit_i32(), Value::ResultOk(Box::new(unit_value())));
    // An empty response is represented by () and has zero size.
    encode_assert_bytes(unit(), unit_value(), &[]);
    // But in the context of an error result type Result<(), ErrorType>, the
    // () in Ok(()) is treated as an empty struct (with size 1).
    encode_assert_bytes(
        result_unit_i32(),
        Value::ResultOk(Box::new(unit_value())),
        &[
            0x01, 0x00, 0x00, 0x00, // success ordinal
            0x00, 0x00, 0x00, 0x00, // success ordinal [cont.]
            0x08, 0x00, 0x00, 0x00, // 8 bytes (rounded up from 1)
            0x00, 0x00, 0x00, 0x00, // 0 handles
            0xff, 0xff, 0xff, 0xff, // present
            0xff, 0xff, 0xff, 0xff, // present [cont.]
            0x00, 0x00, 0x00, 0x00, // empty struct + 3 bytes padding
            0x00, 0x00, 0x00, 0x00, // padding
        ],
    );
}

#[test]
fn result_and_xunion_compat() {
    // OkayOrError { Okay(u64) = 1, Error(u32) = 2 }
    let okay_or_error = FidlType::XUnion(vec![member(1, FidlType::U64), member(2, FidlType::U32)], false);
    let result = FidlType::Result(boxed(FidlType::U64), boxed(FidlType::U32));

    let buf = encode(&okay_or_error, &Value::Union(1, Box::new(Value::U64(42u64))));
    assert_eq!(decode(&result, &buf), Value::ResultOk(Box::new(Value::U64(42))));

    let buf = encode(&okay_or_error, &Value::Union(2, Box::new(Value::U32(3u32))));
    assert_eq!(decode(&result, &buf), Value::ResultErr(Box::new(Value::U32(3))));
}

#[test]
fn result_and_xunion_compat_smaller() {
    // OkayOrError { Okay(Empty) = 1, Error(i32) = 2 }
    let okay_or_error =
        FidlType::XUnion(vec![member(1, FidlType::EmptyStruct), member(2, FidlType::I32)], false);

    // result to xunion
    let buf = encode(&result_unit_i32(), &Value::ResultOk(Box::new(unit_value())));
    assert_eq!(decode(&okay_or_error, &buf), Value::Union(1, Box::new(Value::EmptyStruct)));

    let buf = encode(&result_unit_i32(), &Value::ResultErr(Box::new(Value::I32(5))));
    assert_eq!(decode(&okay_or_error, &buf), Value::Union(2, Box::new(Value::I32(5))));

    // xunion to result
    let buf = encode(&okay_or_error, &Value::Union(1, Box::new(Value::EmptyStruct)));
    assert_eq!(decode(&result_unit_i32(), &buf), Value::ResultOk(Box::new(unit_value())));

    let buf = encode(&okay_or_error, &Value::Union(2, Box::new(Value::I32(3))));
    assert_eq!(decode(&result_unit_i32(), &buf), Value::ResultErr(Box::new(Value::I32(3))));
}

fn result_string_u32() -> FidlType {
    FidlType::Result(boxed(FidlType::String(false)), boxed(FidlType::U32))
}

#[test]
fn encode_decode_result() {
    let test_result = Value::ResultOk(Box::new(string("fuchsia")));
    let test_result_err = Value::ResultErr(Box::new(Value::U32(5)));

    match encode_decode(&result_string_u32(), &test_result) {
        Value::ResultOk(out) if *out == string("fuchsia") => {}
        x => panic!("unexpected decoded value {:?}", x),
    }
    match encode_decode(&result_string_u32(), &test_result_err) {
        Value::ResultErr(err_code) if *err_code == Value::U32(5) => {}
        x => panic!("unexpected decoded value {:?}", x),
    }
}

#[test]
fn encode_decode_result_array() {
    let t = FidlType::Array(boxed(result_string_u32()), 2);
    let ok = |s: &str| Value::ResultOk(Box::new(string(s)));
    let err = |e: u32| Value::ResultErr(Box::new(Value::U32(e)));

    let input = Value::Array(vec![ok("a"), ok("bcd")]);
    assert_eq!(encode_decode(&t, &input), Value::Array(vec![ok("a"), ok("bcd")]));

    let input = Value::Array(vec![err(7), err(42)]);
    assert_eq!(encode_decode(&t, &input), Value::Array(vec![err(7), err(42)]));

    let input = Value::Array(vec![ok("abc"), err(42)]);
    assert_eq!(encode_decode(&t, &input), Value::Array(vec![ok("abc"), err(42)]));
}

/// struct Foo { byte: u8, bignum: u64, string: String }
fn foo() -> FidlType {
    FidlType::Struct(
        vec![field(FidlType::U8, 0), field(FidlType::U64, 8), field(FidlType::String(false), 16)],
        32,
        8,
    )
}

fn foo_value(byte: u8, bignum: u64, s: &str) -> Value {
    Value::Struct(vec![Value::U8(byte), Value::U64(bignum), string(s)])
}

#[test]
fn encode_decode_struct() {
    let t = FidlType::Nullable(boxed(foo()));
    let out = encode_decode(&t, &Value::Boxed(Some(Box::new(foo_value(5, 22, "hello world")))));
    let out_foo = match out {
        Value::Boxed(Some(f)) => f,
        _ => panic!("should be some"),
    };
    match *out_foo {
        Value::Struct(fields) => {
            assert_eq!(fields[0], Value::U8(5));
            assert_eq!(fields[1], Value::U64(22));
            assert_eq!(fields[2], string("hello world"));
        }
        _ => panic!("not a struct"),
    }

    let out_foo = encode_decode(&t, &Value::Boxed(None));
    assert_eq!(out_foo, Value::Boxed(None));
}

#[test]
fn decode_struct_with_invalid_padding_fails() {
    let mut buf = encode(&foo(), &foo_value(0, 0, ""));
    buf[1] = 42;
    let result = Decoder::decode_with_context(&ctx(), &foo(), &buf, &[]);
    assert_eq!(result, Err(Error::NonZeroPadding { padding_start: 1, non_zero_pos: 1 }));
}

/// The tuple (u8, u64, String).
fn tuple_u8_u64_string() -> FidlType {
    FidlType::Struct(
        vec![field(FidlType::U8, 0), field(FidlType::U64, 8), field(FidlType::String(false), 16)],
        32,
        8,
    )
}

#[test]
fn encode_decode_tuple() {
    let start = Value::Struct(vec![Value::U8(5), Value::U64(10), string("foo")]);
    let out = encode_decode(&tuple_u8_u64_string(), &start);
    assert_eq!(out, start);
}

#[test]
fn encode_decode_struct_as_tuple() {
    let start = foo_value(5, 10, "foo");
    let out = decode(&tuple_u8_u64_string(), &encode(&foo(), &start));
    assert_eq!(out, Value::Struct(vec![Value::U8(5), Value::U64(10), string("foo")]));
}

#[test]
fn encode_decode_tuple_as_struct() {
    let start = Value::Struct(vec![Value::U8(5), Value::U64(10), string("foo")]);
    let out = decode(&foo(), &encode(&tuple_u8_u64_string(), &start));
    assert_eq!(out, foo_value(5, 10, "foo"));
}

#[test]
fn encode_decode_tuple_msg() {
    // The tuple (String, u8).
    let t = FidlType::Struct(vec![field(FidlType::String(false), 0), field(FidlType::U8, 16)], 17, 8);
    let body_start = Value::Struct(vec![string("foo"), Value::U8(5)]);
    let body_out = encode_decode(&t, &body_start);
    assert_eq!(body_out, body_start);
}

/// MyTable { num: i32 = 1, num_none: i32 = 2, string: String = 3, handle = 4 },
/// with a 32-bit number standing for the handle.
fn my_table() -> FidlType {
    FidlType::Table(vec![
        member(1, FidlType::I32),
        member(2, FidlType::I32),
        member(3, FidlType::String(false)),
        member(4, FidlType::U32),
    ])
}

/// TablePrefix { num: i32 = 1, num_none: i32 = 2 }
fn table_prefix() -> FidlType {
    FidlType::Table(vec![member(1, FidlType::I32), member(2, FidlType::I32)])
}

#[test]
fn table_encode_prefix_decode_full() {
    let table_prefix_in = Value::Table(vec![Some(Value::I32(5)), None]);
    let table_out = decode(&my_table(), &encode(&table_prefix(), &table_prefix_in));
    let xs = table_entries(&table_out);
    assert_eq!(xs[0], Some(Value::I32(5)));
    assert_eq!(xs[1], None);
    assert_eq!(xs[2], None);
    assert_eq!(xs[3], None);
}

#[test]
fn table_encode_omits_none_tail() {
    // "None" fields at the tail of a table shouldn't be encoded at all.
    let table_in = Value::Table(vec![Some(Value::I32(5)), None, None, None]);
    let table_prefix_out = decode(&table_prefix(), &encode(&my_table(), &table_in));
    let xs = table_entries(&table_prefix_out);
    assert_eq!(xs[0], Some(Value::I32(5)));
    assert_eq!(xs[1], None);
}

#[test]
fn table_decode_ignores_unrecognized_tail() {
    let table_in = Value::Table(vec![Some(Value::I32(5)), None, Some(string("foo")), None]);
    let table_prefix_out = decode(&table_prefix(), &encode(&my_table(), &table_in));
    let xs = table_entries(&table_prefix_out);
    assert_eq!(xs[0], Some(Value::I32(5)));
    assert_eq!(xs[1], None);
}

/// SimpleTable { x: i64 = 1, y: i64 = 5 }
fn simple_table() -> FidlType {
    FidlType::Table(vec![member(1, FidlType::I64), member(5, FidlType::I64)])
}

#[test]
fn table_golden_simple_table_with_xy() {
    let simple_table_with_xy: &[u8] = &[
        5, 0, 0, 0, 0, 0, 0, 0, // max ordinal
        255, 255, 255, 255, 255, 255, 255, 255, // alloc present
        8, 0, 0, 0, 0, 0, 0, 0, // envelope 1: num bytes / num handles
        255, 255, 255, 255, 255, 255, 255, 255, // alloc present
        0, 0, 0, 0, 0, 0, 0, 0, // envelope 2: num bytes / num handles
        0, 0, 0, 0, 0, 0, 0, 0, // no alloc
        0, 0, 0, 0, 0, 0, 0, 0, // envelope 3: num bytes / num handles
        0, 0, 0, 0, 0, 0, 0, 0, // no alloc
        0, 0, 0, 0, 0, 0, 0, 0, // envelope 4: num bytes / num handles
        0, 0, 0, 0, 0, 0, 0, 0, // no alloc
        8, 0, 0, 0, 0, 0, 0, 0, // envelope 5: num bytes / num handles
        255, 255, 255, 255, 255, 255, 255, 255, // alloc present
        42, 0, 0, 0, 0, 0, 0, 0, // field X
        67, 0, 0, 0, 0, 0, 0, 0, // field Y
    ];
    encode_assert_bytes(
        simple_table(),
        Value::Table(vec![Some(Value::I64(42)), Some(Value::I64(67))]),
        simple_table_with_xy,
    );
}

#[test]
fn table_golden_simple_table_with_y() {
    let simple_table_with_y: &[u8] = &[
        5, 0, 0, 0, 0, 0, 0, 0, // max ordinal
        255, 255, 255, 255, 255, 255, 255, 255, // alloc present
        0, 0, 0, 0, 0, 0, 0, 0, // envelope 1: num bytes / num handles
        0, 0, 0, 0, 0, 0, 0, 0, // no alloc
        0, 0, 0, 0, 0, 0, 0, 0, // envelope 2: num bytes / num handles
        0, 0, 0, 0, 0, 0, 0, 0, // no alloc
        0, 0, 0, 0, 0, 0, 0, 0, // envelope 3: num bytes / num handles
        0, 0, 0, 0, 0, 0, 0, 0, // no alloc
        0, 0, 0, 0, 0, 0, 0, 0, // envelope 4: num bytes / num handles
        0, 0, 0, 0, 0, 0, 0, 0, // no alloc
        8, 0, 0, 0, 0, 0, 0, 0, // envelope 5: num bytes / num handles
        255, 255, 255, 255, 255, 255, 255, 255, // alloc present
        67, 0, 0, 0, 0, 0, 0, 0, // field Y
    ];
    encode_assert_bytes(
        simple_table(),
        Value::Table(vec![None, Some(Value::I64(67))]),
        simple_table_with_y,
    );
}

#[test]
fn table_golden_string_and_vector_hello_27() {
    // TableWithStringAndVector { foo: String = 1, bar: i32 = 2, baz: Vec<u8> = 3 }
    let t = FidlType::Table(vec![
        member(1, FidlType::String(false)),
        member(2, FidlType::I32),
        member(3, FidlType::Vector(boxed(FidlType::U8), false)),
    ]);
    let table_with_string_and_vector_hello_27: &[u8] = &[
        2, 0, 0, 0, 0, 0, 0, 0, // max ordinal
        255, 255, 255, 255, 255, 255, 255, 255, // alloc present
        24, 0, 0, 0, 0, 0, 0, 0, // envelope 1: num bytes / num handles
        255, 255, 255, 255, 255, 255, 255, 255, // envelope 1: alloc present
        8, 0, 0, 0, 0, 0, 0, 0, // envelope 2: num bytes / num handles
        255, 255, 255, 255, 255, 255, 255, 255, // envelope 2: alloc present
        5, 0, 0, 0, 0, 0, 0, 0, // element 1: length
        255, 255, 255, 255, 255, 255, 255, 255, // element 1: alloc present
        104, 101, 108, 108, 111, 0, 0, 0, // element 1: hello
        27, 0, 0, 0, 0, 0, 0, 0, // element 2: value
    ];
    encode_assert_bytes(
        t,
        Value::Table(vec![Some(string("hello")), Some(Value::I32(27)), None]),
        table_with_string_and_vector_hello_27,
    );
}

#[test]
fn table_golden_empty_table() {
    let empty_table: &[u8] = &[
        0, 0, 0, 0, 0, 0, 0, 0, // max ordinal
        255, 255, 255, 255, 255, 255, 255, 255, // alloc present
    ];
    encode_assert_bytes(simple_table(), Value::Table(vec![None, None]), empty_table);
}

/// TableWithGaps { second: i32 = 2, fourth: i32 = 4 }
fn table_with_gaps() -> FidlType {
    FidlType::Table(vec![member(2, FidlType::I32), member(4, FidlType::I32)])
}

#[test]
fn encode_decode_table_with_gaps() {
    let table = Value::Table(vec![Some(Value::I32(1)), Some(Value::I32(2))]);
    let table_out = encode_decode(&table_with_gaps(), &table);
    let xs = table_entries(&table_out);
    assert_eq!(xs[0], Some(Value::I32(1)));
    assert_eq!(xs[1], Some(Value::I32(2)));
}

#[test]
fn encode_empty_envelopes_for_reserved_table_fields() {
    let table = Value::Table(vec![Some(Value::I32(1)), Some(Value::I32(2))]);
    let buf = encode(&table_with_gaps(), &table);
    // Expected layout:
    //     0x00 table header
    //     0x10 envelope 1 (reserved)
    //     0x20 envelope 2 (second)
    //     0x30 envelope 3 (reserved)
    //     0x40 envelope 4 (fourth)
    assert_eq!(&buf[0x10..0x20], &[0; 16]);
    assert_eq!(&buf[0x30..0x40], &[0; 16]);
}

#[test]
fn decode_table_missing_gaps() {
    // TableWithoutGaps { first: i32 = 1, second: i32 = 2 }
    let table_without_gaps = FidlType::Table(vec![member(1, FidlType::I32), member(2, FidlType::I32)]);
    // Field #1 is taken for a member that this side does not know, so it is
    // ignored; fields #3 and #4 are absent because the tail is omitted.
    let table = Value::Table(vec![Some(Value::I32(1)), Some(Value::I32(2))]);
    let out = decode(&table_with_gaps(), &encode(&table_without_gaps, &table));
    let xs = table_entries(&out);
    assert_eq!(xs[0], Some(Value::I32(2)));
    assert_eq!(xs[1], None);
}

fn test_sample_xunion(flexible: bool) -> FidlType {
    FidlType::XUnion(
        vec![member(0x29df47a5, FidlType::U32), member(0x6f317664, simple_table())],
        flexible,
    )
}

#[test]
fn xunion_golden_u() {
    let xunion_u_bytes = &[
        0xa5, 0x47, 0xdf, 0x29, 0x00, 0x00, 0x00, 0x00, // xunion discriminator + padding
        0x08, 0x00, 0x00, 0x00, 0x00, 0x00, 0x00, 0x00, // num bytes + num handles
        0xff, 0xff, 0xff, 0xff, 0xff, 0xff, 0xff, 0xff, // presence indicator
        0xef, 0xbe, 0xad, 0xde, 0x00, 0x00, 0x00, 0x00, // content + padding
    ];
    let u = || Value::Union(0x29df47a5, Box::new(Value::U32(0xdeadbeef)));
    encode_assert_bytes(test_sample_xunion(true), u(), xunion_u_bytes);
    encode_assert_bytes(test_sample_xunion(false), u(), xunion_u_bytes);
    // The nullable representation has the same layout.
    encode_assert_bytes(
        FidlType::Nullable(boxed(test_sample_xunion(true))),
        Value::Boxed(Some(Box::new(u()))),
        xunion_u_bytes,
    );
    encode_assert_bytes(
        FidlType::Nullable(boxed(test_sample_xunion(false))),
        Value::Boxed(Some(Box::new(u()))),
        xunion_u_bytes,
    );
}

#[test]
fn xunion_golden_null() {
    encode_assert_bytes(FidlType::Nullable(boxed(test_sample_xunion(true))), Value::Boxed(None), &[0; 24]);
    encode_assert_bytes(FidlType::Nullable(boxed(test_sample_xunion(false))), Value::Boxed(None), &[0; 24]);
}

#[test]
fn encode_decode_transaction_msg() {
    // A header with transaction id 4, no flags, magic number 1 and ordinal 6.
    let header_bytes = [4, 0, 0, 0, 0, 0, 0, 1, 6, 0, 0, 0, 0, 0, 0, 0];
    let (header, _) = decode_transaction_header(&header_bytes).expect("Decoding header failed");
    assert_eq!(header.tx_id(), 4);
    assert_eq!(header.ordinal(), 6);
    assert_eq!(header.magic_number(), 1);
    let body = string("hello");

    let start = TransactionMessage { header, body: string("hello") };
    let mut buf = Vec::new();
    start.encode(&FidlType::String(false), &mut buf).expect("Encoding failed");

    let (out_header, out_buf) = decode_transaction_header(&buf).expect("Decoding header failed");
    assert_eq!(header, out_header);

    let body_out = Decoder::decode_into(&header, &FidlType::String(false), out_buf, &[])
        .expect("Decoding body failed");
    assert_eq!(body, body_out);
}

#[test]
fn encode_decode_persistent_combined() {
    let body = string("hello");
    let buf = encode_persistent(&FidlType::String(false), &body).expect("Encoding failed");
    let body_out = decode_persistent(&FidlType::String(false), &buf).expect("Decoding failed");
    assert_eq!(body, body_out);
}

#[test]
fn encode_decode_persistent_separate() {
    let body = string("hello");
    let another_body = string("world");
    let t = FidlType::String(false);

    let mut header = create_persistent_header();
    let buf_header = encode_persistent_header(&mut header).expect("Header encoding failed");
    let buf_body = encode_persistent_body(&t, &body, &header).expect("Body encoding failed");
    let buf_another_body =
        encode_persistent_body(&t, &another_body, &header).expect("Body encoding failed");

    let header_out = decode_persistent_header(&buf_header).expect("Header decoding failed");
    assert_eq!(header, header_out);
    let body_out = decode_persistent_body(&t, &buf_body, &header).expect("Body decoding failed");
    assert_eq!(body, body_out);
    let another_body_out = decode_persistent_body(&t, &buf_another_body, &header)
        .expect("Another body decoding failed");
    assert_eq!(another_body, another_body_out);
}

#[test]
fn array_of_arrays() {
    let t = FidlType::Array(boxed(FidlType::Array(boxed(FidlType::U32), 5)), 2);
    let row = |xs: [u32; 5]| Value::Array(xs.iter().map(|x| Value::U32(*x)).collect());
    let input = Value::Array(vec![row([1, 2, 3, 4, 5]), row([5, 4, 3, 2, 1])]);
    let mut bytes = Vec::new();
    assert!(Encoder::encode_with_context(&ctx(), &mut bytes, &t, &input).is_ok());
    let output = Decoder::decode_with_context(&ctx(), &t, &bytes, &[])
        .expect(format!("Array decoding failed\nbytes: {:X?}", bytes).as_str());
    assert_eq!(input, output);
}

#[test]
fn strict_xunion_rejects_unknown_ordinal() {
    // StrictBoolXUnion { B(bool) = 12345 }
    let strict_bool_xunion = FidlType::XUnion(vec![member(12345, FidlType::Bool)], false);
    let input = Value::Union(0x29df47a5, Box::new(Value::U32(1)));
    let buf = encode(&test_sample_xunion(true), &input);
    let result = Decoder::decode_with_context(&ctx(), &strict_bool_xunion, &buf, &[]);
    assert_eq!(result, Err(Error::UnknownUnionTag));
}

#[test]
fn xunion_with_64_bit_ordinal() {
    // BigOrdinal { X(u64) = 0xffffffff }
    let big_ordinal = FidlType::XUnion(vec![member(0xffffffffu64, FidlType::U64)], false);
    let x = Value::Union(0xffffffffu64, Box::new(Value::U64(0)));
    match encode_decode(&big_ordinal, &x) {
        Value::Union(ordinal, _) => assert_eq!(ordinal, 0xffffffffu64),
        _ => panic!("not a union"),
    }
}

#[test]
fn extra_data_is_disallowed() {
    assert_eq!(Decoder::decode_with_context(&ctx(), &unit(), &[0], &[]), Err(Error::ExtraBytes));
    assert_eq!(
        Decoder::decode_with_context(&ctx(), &unit(), &[], &[0u32]),
        Err(Error::ExtraHandles)
    );
}

#[test]
fn encode_default_context() {
    let mut buf = Vec::new();
    Encoder::encode(&mut buf, &FidlType::U8, &Value::U8(1u8)).expect("Encoding failed");
    assert_eq!(&buf[..], &[1u8, 0, 0, 0, 0, 0, 0, 0]);
}

#[test]
fn flexible_xunion_unknown_variant_transparent_passthrough() {
    // TestSampleXUnionExpanded { SomethinElse = 55 }. Values of this library
    // hold no handles, so the variant holds a 32-bit number: what passes
    // through here is the bytes of the unknown variant.
    let expanded = FidlType::XUnion(vec![member(55, FidlType::U32)], true);
    let input = Value::Union(55, Box::new(Value::U32(0x1234)));

    // Encode expanded and decode as a union that lacks the variant.
    let buf = encode(&expanded, &input);
    let intermediate_missing_variant = decode(&test_sample_xunion(true), &buf);
    match &intermediate_missing_variant {
        Value::UnknownUnion(55, _) => {}
        _ => panic!("unexpected variant"),
    }

    // Encode it back and decode as the expanded union.
    let buf = encode(&test_sample_xunion(true), &intermediate_missing_variant);
    let out = decode(&expanded, &buf);
    assert_eq!(out, input);
}

#[test]
fn encode_epitaph() {
    // EpitaphBody { error: Status::UNAVAILABLE }: a struct holding one 32-bit status.
    let epitaph = FidlType::Struct(vec![field(FidlType::I32, 0)], 4, 4);
    let body = Value::Struct(vec![Value::I32(-28)]);
    assert_eq!(encode(&epitaph, &body), vec![0xe4, 0xff, 0xff, 0xff, 0, 0, 0, 0]);
    assert_identity(epitaph, body);
}

#[test]
fn unknown_table_field_takes_its_handles() {
    let wide = FidlType::Table(vec![member(1, FidlType::I32), member(2, FidlType::I32)]);
    let narrow = FidlType::Table(vec![member(1, FidlType::I32)]);
    let mut buf = encode(&wide, &Value::Table(vec![Some(Value::I32(1)), Some(Value::I32(2))]));
    // The envelope of member 2 says that it carries one handle.
    assert_eq!(buf[36], 0);
    buf[36] = 1;
    let known = Value::Table(vec![Some(Value::I32(1))]);
    assert_eq!(Decoder::decode_with_context(&ctx(), &narrow, &buf, &[7]), Ok(known));
    assert_eq!(Decoder::decode_with_context(&ctx(), &narrow, &buf, &[]), Err(Error::OutOfRange));
    assert_eq!(
        Decoder::decode_with_context(&ctx(), &narrow, &buf, &[7, 8]),
        Err(Error::ExtraHandles)
    );
}

#[test]
fn unknown_union_variant_takes_its_handles() {
    let expanded = FidlType::XUnion(vec![member(55, FidlType::U32)], true);
    let mut buf = encode(&expanded, &Value::Union(55, Box::new(Value::U32(0x1234))));
    // The envelope of the variant says that it carries one handle.
    assert_eq!(buf[12], 0);
    buf[12] = 1;
    let t = test_sample_xunion(true);
    match Decoder::decode_with_context(&ctx(), &t, &buf, &[5]) {
        Ok(Value::UnknownUnion(55, bytes)) => assert_eq!(&bytes[..4], &[0x34, 0x12, 0, 0]),
        other => panic!("unexpected result {:?}", other),
    }
    assert_eq!(Decoder::decode_with_context(&ctx(), &t, &buf, &[]), Err(Error::OutOfRange));
    assert_eq!(Decoder::decode_with_context(&ctx(), &t, &buf, &[5, 6]), Err(Error::ExtraHandles));
}
