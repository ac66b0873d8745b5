use cdbe::ColumnStore;
use cdbe::DbError;
use cdbe::TableSchema;
use cdbe::Value;
use cdbe::decimal_to_i32;
use cdbe::decode_values;
use cdbe::i32_to_decimal;
use cdbe::value_to_string;
use cdbe::DataType;

fn encode_one(decl: &str, text: &str) -> Vec<u8> {
    let store = ColumnStore::new("data");
    let schema = TableSchema::new("t".to_string(), vec![decl.to_string()]).unwrap();
    let writes = store
        .insert_row(&schema, &vec![text.to_string()], &vec![0u64])
        .unwrap();
    writes.into_iter().next().unwrap().data_bytes
}

#[test]
fn int_round_trip() {
    for v in [0i32, 25, -1, 7_654_321, i32::MAX, i32::MIN] {
        let bytes = encode_one("c:int", &v.to_string());
        assert_eq!(bytes.len(), 4);
        let decoded = decode_values(DataType::Int32, &bytes).unwrap();
        assert_eq!(decoded, vec![Value::Int(v)]);
    }
}

#[test]
fn int_encoding_is_little_endian() {
    let bytes = encode_one("c:int", "258");
    assert_eq!(bytes, vec![2, 1, 0, 0]);
    let neg = encode_one("c:int", "-1");
    assert_eq!(neg, vec![0xFF, 0xFF, 0xFF, 0xFF]);
}

#[test]
fn string_round_trip() {
    for s in ["Alice", "", "héllo wörld", "naïve — ✓"] {
        let bytes = encode_one("c:string", s);
        let decoded = decode_values(DataType::Utf8String, &bytes).unwrap();
        assert_eq!(decoded, vec![Value::Str(s.to_string())]);
    }
}

#[test]
fn string_encoding_is_length_prefixed() {
    let bytes = encode_one("c:string", "Alice");
    assert_eq!(bytes, vec![5, 0, 0, 0, b'A', b'l', b'i', b'c', b'e']);
}

#[test]
fn several_values_concatenate() {
    let mut data = Vec::new();
    data.extend_from_slice(&encode_one("c:int", "25"));
    data.extend_from_slice(&encode_one("c:int", "30"));
    let decoded = decode_values(DataType::Int32, &data).unwrap();
    assert_eq!(decoded, vec![Value::Int(25), Value::Int(30)]);
}

#[test]
fn truncated_length_prefix_is_corrupt() {
    // the prefix says five bytes follow, only one does
    let data = vec![5u8, 0, 0, 0, b'a'];
    assert_eq!(
        decode_values(DataType::Utf8String, &data),
        Err(DbError::CorruptData)
    );
}

#[test]
fn invalid_utf8_is_corrupt() {
    let data = vec![2u8, 0, 0, 0, 0xFF, 0xFE];
    assert_eq!(
        decode_values(DataType::Utf8String, &data),
        Err(DbError::CorruptData)
    );
}

#[test]
fn trailing_int_fragment_is_ignored() {
    let mut data = encode_one("c:int", "7");
    data.extend_from_slice(&[1, 2]);
    let decoded = decode_values(DataType::Int32, &data).unwrap();
    assert_eq!(decoded, vec![Value::Int(7)]);
}

#[test]
fn decimal_parsing_matches_integer_syntax() {
    assert_eq!(decimal_to_i32("25"), Some(25));
    assert_eq!(decimal_to_i32("+7"), Some(7));
    assert_eq!(decimal_to_i32("-7"), Some(-7));
    assert_eq!(decimal_to_i32("00123"), Some(123));
    assert_eq!(decimal_to_i32("2147483647"), Some(i32::MAX));
    assert_eq!(decimal_to_i32("-2147483648"), Some(i32::MIN));
    assert_eq!(decimal_to_i32("2147483648"), None);
    assert_eq!(decimal_to_i32("-2147483649"), None);
    assert_eq!(decimal_to_i32("99999999999999999999"), None);
    assert_eq!(decimal_to_i32(""), None);
    assert_eq!(decimal_to_i32("-"), None);
    assert_eq!(decimal_to_i32("+"), None);
    assert_eq!(decimal_to_i32("12a"), None);
    assert_eq!(decimal_to_i32(" 12"), None);
}

#[test]
fn decimal_rendering_matches_to_string() {
    for v in [0i32, 9, 10, 25, -5, -120, i32::MAX, i32::MIN] {
        assert_eq!(i32_to_decimal(v), v.to_string());
    }
}

#[test]
fn value_textual_forms() {
    assert_eq!(value_to_string(&Value::Int(30)), "30");
    assert_eq!(value_to_string(&Value::Str("Alice".to_string())), "Alice");
}
