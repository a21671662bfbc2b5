use fuchsia_lib::fidl::context::Context;
use fuchsia_lib::fidl::encoder::Encoder;
use fuchsia_lib::fidl::message::Decoder;
use fuchsia_lib::fidl::values::into_primitive;
use fuchsia_lib::fidl::wire::{FidlType, Member, StructField, Value};

fn encode_decode(ctx: &Context, t: &FidlType, start: &Value) -> Value {
    let mut buf = Vec::new();
    Encoder::encode_with_context(ctx, &mut buf, t, start).expect("Encoding failed");
    Decoder::decode_with_context(ctx, t, &buf, &[]).expect("Decoding failed")
}

fn assert_identity(t: FidlType, x: Value) {
    let ctx = Context {};
    assert_eq!(x, encode_decode(&ctx, &t, &x));
}

fn vector_of(e: FidlType, nullable: bool) -> FidlType {
    FidlType::Vector(Box::new(e), nullable)
}

fn ints(xs: &[i32]) -> Value {
    Value::Vector(Some(xs.iter().map(|x| Value::I32(*x)).collect()))
}

fn string(s: &str) -> Value {
    Value::Str(Some(s.as_bytes().to_vec()))
}

#[test]
fn encode_decode_byte() {
    assert_identity(FidlType::U8, Value::U8(0u8));
    assert_identity(FidlType::U8, Value::U8(57u8));
    assert_identity(FidlType::U8, Value::U8(255u8));
    assert_identity(FidlType::I8, Value::I8(0i8));
    assert_identity(FidlType::I8, Value::I8(-57i8));
    assert_identity(FidlType::I8, Value::I8(12i8));
}

#[test]
fn encode_decode_multibyte() {
    assert_identity(FidlType::U64, Value::U64(0u64));
    assert_identity(FidlType::U64, Value::U64(1u64));
    assert_identity(FidlType::U64, Value::U64(u64::MAX));
    assert_identity(FidlType::U64, Value::U64(u64::MIN));
    assert_identity(FidlType::I64, Value::I64(0i64));
    assert_identity(FidlType::I64, Value::I64(1i64));
    assert_identity(FidlType::I64, Value::I64(i64::MAX));
    assert_identity(FidlType::I64, Value::I64(i64::MIN));
    // Floats travel as their bits.
    assert_identity(FidlType::U32, Value::U32(0f32.to_bits()));
    assert_identity(FidlType::U32, Value::U32(1f32.to_bits()));
    assert_identity(FidlType::U32, Value::U32(f32::MAX.to_bits()));
    assert_identity(FidlType::U32, Value::U32(f32::MIN.to_bits()));
    assert_identity(FidlType::U64, Value::U64(0f64.to_bits()));
    assert_identity(FidlType::U64, Value::U64(1f64.to_bits()));
    assert_identity(FidlType::U64, Value::U64(f64::MAX.to_bits()));
    assert_identity(FidlType::U64, Value::U64(f64::MIN.to_bits()));
}

#[test]
fn encode_decode_out_of_line() {
    let vec_i32 = || vector_of(FidlType::I32, false);
    let opt_vec_i32 = || vector_of(FidlType::I32, true);
    assert_identity(vec_i32(), ints(&[]));
    assert_identity(vec_i32(), ints(&[1, 2, 3]));
    assert_identity(opt_vec_i32(), Value::Vector(None));
    assert_identity(opt_vec_i32(), ints(&[]));
    assert_identity(opt_vec_i32(), ints(&[1, 2, 3]));
    assert_identity(vector_of(vec_i32(), true), Value::Vector(Some(vec![ints(&[1, 2, 3])])));
    assert_identity(vector_of(opt_vec_i32(), true), Value::Vector(Some(vec![ints(&[1, 2, 3])])));
    assert_identity(FidlType::String(false), string(""));
    assert_identity(FidlType::String(false), string("foo"));
    assert_identity(FidlType::String(true), Value::Str(None));
    assert_identity(FidlType::String(true), string(""));
    assert_identity(FidlType::String(true), string("foo"));
    assert_identity(
        vector_of(FidlType::String(true), true),
        Value::Vector(Some(vec![Value::Str(None), string("foo")])),
    );
    assert_identity(
        vector_of(FidlType::String(false), false),
        Value::Vector(Some(vec![string("foo"), string("bar")])),
    );
}

#[test]
fn encode_decode_bits() {
    // Buttons(u32) { PLAY = 1, PAUSE = 2, STOP = 4 }
    let buttons = FidlType::Bits(Box::new(FidlType::U32), 1 | 2 | 4);
    let play = Value::U32(1);
    let pause = Value::U32(2);
    let stop = Value::U32(4);

    assert_eq!(buttons.from_bits(1), Some(Value::U32(1)));
    assert_eq!(buttons.from_bits(12), None);
    assert_eq!(into_primitive(&stop), 4);

    assert_identity(FidlType::Bits(Box::new(FidlType::U32), 7), play);
    assert_identity(FidlType::Bits(Box::new(FidlType::U32), 7), pause);
    assert_identity(FidlType::Bits(Box::new(FidlType::U32), 7), stop);
    assert_identity(
        FidlType::Bits(Box::new(FidlType::U32), 7),
        buttons.from_bits(1).expect("should be Play"),
    );
    assert_identity(
        FidlType::Bits(Box::new(FidlType::U32), 7),
        buttons.from_bits(2).expect("should be Pause"),
    );
}

#[test]
fn encode_decode_enum() {
    // Animal(i32) { Dog = 0, Cat = 1, Frog = 2 }
    let animal = || FidlType::Enum(Box::new(FidlType::I32), vec![0, 1, 2]);
    let dog = Value::I32(0);
    let cat = Value::I32(1);
    let frog = Value::I32(2);

    assert_eq!(animal().from_primitive(0), Some(Value::I32(0)));
    assert_eq!(animal().from_primitive(3), None);
    assert_eq!(into_primitive(&cat), 1);

    assert_identity(animal(), dog);
    assert_identity(animal(), Value::I32(1));
    assert_identity(animal(), frog);
    assert_identity(animal(), animal().from_primitive(0).expect("should be dog"));
    assert_identity(
        animal(),
        animal().from_primitive(into_primitive(&Value::I32(1))).expect("should be cat"),
    );
}

#[test]
fn result_with_size_non_multiple_of_align() {
    // Result<(Vec<u8>, bool), u32>: the tuple takes 17 bytes inline.
    let res = || {
        FidlType::Result(
            Box::new(FidlType::Struct(
                vec![
                    StructField { ty: vector_of(FidlType::U8, false), offset: 0 },
                    StructField { ty: FidlType::Bool, offset: 16 },
                ],
                17,
                8,
            )),
            Box::new(FidlType::U32),
        )
    };
    let bytes = |xs: &[u8]| Value::Vector(Some(xs.iter().map(|x| Value::U8(*x)).collect()));
    let ok = |v: Value, b: bool| Value::ResultOk(Box::new(Value::Struct(vec![v, Value::Bool(b)])));

    assert_identity(res(), ok(bytes(&[]), true));
    assert_identity(res(), ok(bytes(&[]), false));
    assert_identity(res(), ok(bytes(&[1, 2, 3, 4, 5]), true));
    assert_identity(res(), Value::ResultErr(Box::new(Value::U32(7u32))));
}

fn my_table() -> FidlType {
    FidlType::Table(vec![
        Member { ordinal: 1, ty: FidlType::I32 },
        Member { ordinal: 2, ty: FidlType::I32 },
        Member { ordinal: 3, ty: FidlType::String(false) },
        Member { ordinal: 4, ty: FidlType::U32 },
    ])
}

fn table_member(table: &Value, i: usize) -> Option<&Value> {
    match table {
        Value::Table(xs) => xs[i].as_ref(),
        _ => panic!("not a table"),
    }
}

#[test]
fn empty_table() {
    let mut table = my_table().empty_table();
    assert_eq!(None, table_member(&table, 0));
    if let Value::Table(xs) = &mut table {
        xs[0] = Some(Value::I32(32));
    }
    assert_eq!(Some(&Value::I32(32)), table_member(&table, 0));
    assert_eq!(None, table_member(&table, 2));
}

#[test]
fn xunion_with_out_of_line_data() {
    let xunion = || {
        FidlType::XUnion(vec![Member { ordinal: 1, ty: vector_of(FidlType::U8, false) }], true)
    };
    let variant = || {
        Value::Union(
            1,
            Box::new(Value::Vector(Some(vec![Value::U8(1), Value::U8(2), Value::U8(3)]))),
        )
    };
    assert_identity(xunion(), variant());
    assert_identity(
        FidlType::Nullable(Box::new(xunion())),
        Value::Boxed(Some(Box::new(variant()))),
    );
    assert_identity(FidlType::Nullable(Box::new(xunion())), Value::Boxed(None));
}
