use kass::error::ErrorKind;
use kass::value::{
    decode_scalar, Blob, ColValue, ColumnType, Decimal, MapKey, TypeId, TypeMeta, Uuid,
};

fn scalar(id: TypeId) -> ColumnType {
    ColumnType { id, meta: None }
}

fn cell(bytes: &[u8]) -> Vec<u8> {
    let mut out = (bytes.len() as i32).to_be_bytes().to_vec();
    out.extend_from_slice(bytes);
    out
}

fn framed(count: i32, cells: &[Vec<u8>]) -> Vec<u8> {
    let mut out = count.to_be_bytes().to_vec();
    for c in cells {
        out.extend_from_slice(c);
    }
    out
}

fn decode(ty: &ColumnType, bytes: &[u8]) -> ColValue {
    ColValue::decode(ty, &Some(bytes.to_vec())).unwrap()
}

fn decode_err(ty: &ColumnType, bytes: &[u8]) -> ErrorKind {
    ColValue::decode(ty, &Some(bytes.to_vec())).unwrap_err().kind
}

#[test]
fn test_cdrs_decimal_to_big_decimal() {
    let n1 = cdrs::types::decimal::Decimal::from(1234.567893456789);
    let n2 = Decimal { unscaled: n1.unscaled, scale: n1.scale };
    assert_eq!("1234.567893456789", n2.to_text().as_str());
}

#[test]
fn absent_cells_are_null() {
    assert_eq!(ColValue::Null, ColValue::decode(&scalar(TypeId::Int), &None).unwrap());
}

#[test]
fn integers_decode_big_endian() {
    assert_eq!(ColValue::Int(3), decode(&scalar(TypeId::Int), &[0, 0, 0, 3]));
    assert_eq!(ColValue::Int(-2), decode(&scalar(TypeId::Int), &[255, 255, 255, 254]));
    assert_eq!(ColValue::Int(-1), decode(&scalar(TypeId::Tinyint), &[255]));
    assert_eq!(ColValue::Int(-32768), decode(&scalar(TypeId::Smallint), &[128, 0]));
    assert_eq!(ColValue::Int(3), decode(&scalar(TypeId::Bigint), &[0, 0, 0, 0, 0, 0, 0, 3]));
    assert_eq!(ColValue::Int(i64::MIN), decode(&scalar(TypeId::Counter), &[128, 0, 0, 0, 0, 0, 0, 0]));
    assert_eq!(ColValue::Int(-129), decode(&scalar(TypeId::Varint), &[255, 127]));
    assert_eq!(ColValue::Int(300), decode(&scalar(TypeId::Varint), &[1, 44]));
    assert_eq!(ErrorKind::InvalidData, decode_err(&scalar(TypeId::Int), &[]));
    assert_eq!(ErrorKind::InvalidData, decode_err(&scalar(TypeId::Bigint), &[0; 9]));
}

#[test]
fn other_scalars_decode() {
    assert_eq!(ColValue::String("abcd".to_string()), decode(&scalar(TypeId::Varchar), b"abcd"));
    assert_eq!(ColValue::String("a\u{fffd}".to_string()), decode(&scalar(TypeId::Ascii), &[97, 255]));
    assert_eq!(ColValue::Boolean(false), decode(&scalar(TypeId::Boolean), &[0]));
    assert_eq!(ColValue::Boolean(true), decode(&scalar(TypeId::Boolean), &[1]));
    assert_eq!(ErrorKind::InvalidData, decode_err(&scalar(TypeId::Boolean), &[]));
    assert_eq!(ColValue::Double(0.3f64.to_bits()), decode(&scalar(TypeId::Double), &0.3f64.to_be_bytes()));
    assert_eq!(ColValue::Float(0.3f32.to_bits()), decode(&scalar(TypeId::Float), &0.3f32.to_be_bytes()));
    assert_eq!(
        ColValue::Decimal(Decimal { unscaled: 1234, scale: 2 }),
        decode(&scalar(TypeId::Decimal), &[0, 0, 0, 2, 4, 210])
    );
    assert_eq!(ColValue::Date(0), decode(&scalar(TypeId::Date), &[128, 0, 0, 0]));
    assert_eq!(ColValue::Date(17688), decode(&scalar(TypeId::Date), &(2147483648u32 + 17688).to_be_bytes()));
    assert_eq!(ColValue::Time(123000000), decode(&scalar(TypeId::Time), &123000000i64.to_be_bytes()));
    assert_eq!(ErrorKind::InvalidData, decode_err(&scalar(TypeId::Time), &(-1i64).to_be_bytes()));
    assert_eq!(
        ColValue::Timestamp(1566383530471),
        decode(&scalar(TypeId::Timestamp), &1566383530471i64.to_be_bytes())
    );
    assert_eq!(ColValue::Inet(vec![127, 0, 0, 1]), decode(&scalar(TypeId::Inet), &[127, 0, 0, 1]));
    assert_eq!(ErrorKind::InvalidData, decode_err(&scalar(TypeId::Inet), &[1, 2, 3]));
    assert_eq!(ColValue::Blob(Blob { bytes: vec![10, 27] }), decode(&scalar(TypeId::Blob), &[10, 27]));
    assert_eq!(ColValue::Null, decode(&scalar(TypeId::Null), &[1]));
    assert_eq!(ErrorKind::InvalidData, decode_err(&scalar(TypeId::Uuid), &[1; 15]));
    assert_eq!(ErrorKind::UnsupportedType, decode_scalar(TypeId::List, &[]).unwrap_err().kind);
}

#[test]
fn texts_of_blobs_and_uuids() {
    assert_eq!("0A1BFF", Blob { bytes: vec![10, 27, 255] }.to_hex_string());
    let id = Uuid {
        bytes: vec![0x67, 0xe5, 0x50, 0x44, 0x10, 0xb1, 0x42, 0x6f, 0x92, 0x47, 0xbb, 0x68, 0x0e, 0x5f, 0xe0, 0xc8],
    };
    assert_eq!("67e55044-10b1-426f-9247-bb680e5fe0c8", id.to_hyphenated_string());
}

#[test]
fn map_keys_take_canonical_text() {
    let key = |v: ColValue| v.into_map_key().unwrap();
    assert_eq!(MapKey::Text("-42".to_string()), key(ColValue::Int(-42)));
    assert_eq!(MapKey::Text("0".to_string()), key(ColValue::Int(0)));
    assert_eq!(MapKey::Text(i64::MIN.to_string()), key(ColValue::Int(i64::MIN)));
    assert_eq!(MapKey::Text("true".to_string()), key(ColValue::Boolean(true)));
    assert_eq!(MapKey::Text("hi".to_string()), key(ColValue::String("hi".to_string())));
    assert_eq!(MapKey::Text("2018-06-06".to_string()), key(ColValue::Date(17688)));
    assert_eq!(MapKey::Text("21:35:59.456".to_string()), key(ColValue::Time(77759456000000)));
    assert_eq!(MapKey::Text("00:00:00".to_string()), key(ColValue::Time(0)));
    assert_eq!(
        MapKey::Text("2019-08-21 10:32:10.471 UTC".to_string()),
        key(ColValue::Timestamp(1566383530471))
    );
    assert_eq!(MapKey::Text("0AFF".to_string()), key(ColValue::Blob(Blob { bytes: vec![10, 255] })));
    assert_eq!(MapKey::Double(7), key(ColValue::Double(7)));
    assert_eq!(MapKey::Inet(vec![10, 0, 0, 1]), key(ColValue::Inet(vec![10, 0, 0, 1])));
    assert_eq!(ErrorKind::InvalidMapKey, ColValue::Null.into_map_key().unwrap_err().kind);
    assert_eq!(ErrorKind::InvalidMapKey, ColValue::Sequence(vec![]).into_map_key().unwrap_err().kind);
}

#[test]
fn lists_sets_and_maps_decode_element_wise() {
    let list = ColumnType { id: TypeId::List, meta: Some(TypeMeta::ListOf(Box::new(scalar(TypeId::Int)))) };
    let bytes = framed(3, &[cell(&[0, 0, 0, 1]), vec![255, 255, 255, 255], cell(&[0, 0, 0, 3])]);
    assert_eq!(ColValue::Sequence(vec![ColValue::Int(1), ColValue::Null, ColValue::Int(3)]), decode(&list, &bytes));
    let set = ColumnType { id: TypeId::SetOf, meta: Some(TypeMeta::SetOf(Box::new(scalar(TypeId::Varchar)))) };
    assert_eq!(
        ColValue::Sequence(vec![ColValue::String("x".to_string())]),
        decode(&set, &framed(1, &[cell(b"x")]))
    );
    let map = ColumnType {
        id: TypeId::MapOf,
        meta: Some(TypeMeta::MapOf(Box::new(scalar(TypeId::Int)), Box::new(scalar(TypeId::Varchar)))),
    };
    let bytes = framed(
        3,
        &[cell(&[0, 0, 0, 1]), cell(b"a"), cell(&[0, 0, 0, 2]), cell(b"b"), cell(&[0, 0, 0, 1]), cell(b"c")],
    );
    assert_eq!(
        ColValue::Keyed(vec![
            (MapKey::Text("1".to_string()), ColValue::String("c".to_string())),
            (MapKey::Text("2".to_string()), ColValue::String("b".to_string())),
        ]),
        decode(&map, &bytes)
    );
}

#[test]
fn tuples_and_user_types_decode_in_declared_order() {
    let tuple = ColumnType {
        id: TypeId::Tuple,
        meta: Some(TypeMeta::TupleOf(vec![scalar(TypeId::Int), scalar(TypeId::Boolean)])),
    };
    let mut bytes = cell(&[0, 0, 0, 9]);
    bytes.extend(cell(&[1]));
    assert_eq!(ColValue::Sequence(vec![ColValue::Int(9), ColValue::Boolean(true)]), decode(&tuple, &bytes));
    assert_eq!(ErrorKind::InvalidData, decode_err(&tuple, &cell(&[0, 0, 0, 9])));
    let udt = ColumnType {
        id: TypeId::Udt,
        meta: Some(TypeMeta::UdtOf(vec![
            ("name".to_string(), scalar(TypeId::Varchar)),
            ("age".to_string(), scalar(TypeId::Int)),
        ])),
    };
    assert_eq!(
        ColValue::Keyed(vec![
            (MapKey::Text("name".to_string()), ColValue::String("ann".to_string())),
            (MapKey::Text("age".to_string()), ColValue::Null),
        ]),
        decode(&udt, &cell(b"ann"))
    );
}

#[test]
fn list_of_user_types_round_trips() {
    let person = ColumnType {
        id: TypeId::Udt,
        meta: Some(TypeMeta::UdtOf(vec![
            ("name".to_string(), scalar(TypeId::Varchar)),
            ("age".to_string(), scalar(TypeId::Int)),
        ])),
    };
    let list = ColumnType { id: TypeId::List, meta: Some(TypeMeta::ListOf(Box::new(person))) };
    let encode = |name: &str, age: i32| {
        let mut fields = cell(name.as_bytes());
        fields.extend(cell(&age.to_be_bytes()));
        cell(&fields)
    };
    let bytes = framed(2, &[encode("ann", 31), encode("bob", 42)]);
    let row = |name: &str, age: i64| {
        ColValue::Keyed(vec![
            (MapKey::Text("name".to_string()), ColValue::String(name.to_string())),
            (MapKey::Text("age".to_string()), ColValue::Int(age)),
        ])
    };
    assert_eq!(ColValue::Sequence(vec![row("ann", 31), row("bob", 42)]), decode(&list, &bytes));
}

#[test]
fn decoding_errors() {
    let bare_list = scalar(TypeId::List);
    assert_eq!(ErrorKind::MissingTypeMetadata, decode_err(&bare_list, &framed(0, &[])));
    let list = ColumnType { id: TypeId::List, meta: Some(TypeMeta::ListOf(Box::new(scalar(TypeId::Int)))) };
    assert_eq!(ErrorKind::InvalidData, decode_err(&list, &framed(2, &[cell(&[0, 0, 0, 1])])));
    assert_eq!(ErrorKind::InvalidData, decode_err(&list, &framed(-1, &[])));
    let bad_key = ColumnType {
        id: TypeId::MapOf,
        meta: Some(TypeMeta::MapOf(Box::new(list), Box::new(scalar(TypeId::Int)))),
    };
    let bytes = framed(1, &[cell(&framed(0, &[])), cell(&[0, 0, 0, 1])]);
    assert_eq!(ErrorKind::InvalidMapKey, decode_err(&bad_key, &bytes));
    let bare_udt = scalar(TypeId::Udt);
    assert_eq!(ErrorKind::MissingTypeMetadata, decode_err(&bare_udt, &[]));
}

#[test]
fn values_outside_their_range_are_no_keys() {
    assert_eq!(ErrorKind::InvalidMapKey, ColValue::Time(-1).into_map_key().unwrap_err().kind);
    assert_eq!(ErrorKind::InvalidMapKey, ColValue::Date(i64::MAX).into_map_key().unwrap_err().kind);
    let short = Uuid { bytes: vec![1, 2, 3] };
    assert_eq!(ErrorKind::InvalidMapKey, ColValue::Uuid(short).into_map_key().unwrap_err().kind);
    let decimal = ColValue::Decimal(Decimal { unscaled: 1, scale: 0 });
    assert_eq!(ErrorKind::InvalidMapKey, decimal.into_map_key().unwrap_err().kind);
}

#[test]
fn decimal_texts() {
    let text = |unscaled: i64, scale: u32| Decimal { unscaled, scale }.to_text();
    assert_eq!("12.34", text(1234, 2));
    assert_eq!("-12.5", text(-125, 1));
    assert_eq!("0.00", text(0, 2));
    assert_eq!("0.007", text(7, 3));
    assert_eq!("-42", text(-42, 0));
}

#[test]
fn date_and_time_texts() {
    assert_eq!(Some("1970-01-01".to_string()), kass::value::date_to_text(0));
    assert_eq!(Some("2018-06-06".to_string()), kass::value::date_to_text(17688));
    assert_eq!(None, kass::value::date_to_text(i64::MIN));
    assert_eq!(Some("00:00:00.123".to_string()), kass::value::time_to_text(123_000_000));
    assert_eq!(None, kass::value::time_to_text(86_400_000_000_000));
}
