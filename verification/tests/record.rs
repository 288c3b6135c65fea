//! Reading records and their descriptions.
use casacure::aipsio::Reader;
use casacure::record::{
    ArrayData, ArrayValue, DataType, RecordDesc, RecordError, RecordValue, TableRecord,
};
use casacure::recordio::read_array;



fn put_object(buf: &mut Vec<u8>, object_type: &str, version: u32, payload: &[u8]) {
    let length = (4 + 4 + object_type.len() + 4 + payload.len()) as u32;
    buf.extend_from_slice(&length.to_be_bytes());
    buf.extend_from_slice(&(object_type.len() as u32).to_be_bytes());
    buf.extend_from_slice(object_type.as_bytes());
    buf.extend_from_slice(&version.to_be_bytes());
    buf.extend_from_slice(payload);
}

fn put_string(buf: &mut Vec<u8>, s: &str) {
    buf.extend_from_slice(&(s.len() as u32).to_be_bytes());
    buf.extend_from_slice(s.as_bytes());
}

fn put_iposition(buf: &mut Vec<u8>, dims: &[i32]) {
    let mut payload = Vec::new();
    payload.extend_from_slice(&(dims.len() as u32).to_be_bytes());
    for d in dims {
        payload.extend_from_slice(&d.to_be_bytes());
    }
    put_object(buf, "IPosition", 1, &payload);
}

/// RecordDesc v2 with one scalar Int field and one ArrayString field.
fn sample_desc() -> Vec<u8> {
    let mut payload = Vec::new();
    payload.extend_from_slice(&2i32.to_be_bytes()); // nfields
    put_string(&mut payload, "count");
    payload.extend_from_slice(&5i32.to_be_bytes()); // TpInt
    put_string(&mut payload, "a comment");
    put_string(&mut payload, "names");
    payload.extend_from_slice(&24i32.to_be_bytes()); // TpArrayString
    put_iposition(&mut payload, &[-1]);
    put_string(&mut payload, "");
    let mut buf = Vec::new();
    put_object(&mut buf, "RecordDesc", 2, &payload);
    buf
}

#[test]
fn parses_record_desc() {
    let buf = sample_desc();
    let mut r = Reader::new(&buf);
    let desc = RecordDesc::read(&mut r).unwrap();
    assert_eq!(desc.fields.len(), 2);
    assert_eq!(desc.fields[0].name, "count");
    assert_eq!(desc.fields[0].data_type, DataType::Int);
    assert_eq!(desc.fields[0].comment, "a comment");
    assert_eq!(desc.fields[1].data_type, DataType::ArrayString);
    assert_eq!(desc.fields[1].shape, Some(vec![-1]));
}

#[test]
fn parses_table_record_with_scalar_and_array() {
    // TableRecord v1: desc + recordType + data (Int 42, string array).
    let mut payload = sample_desc();
    payload.extend_from_slice(&1i32.to_be_bytes()); // recordType Variable
    payload.extend_from_slice(&42i32.to_be_bytes());
    // Array<String> v3: ndim 1, shape [2], nelem 2, "foo", "bar"
    let mut arr = Vec::new();
    arr.extend_from_slice(&1u32.to_be_bytes());
    arr.extend_from_slice(&2u32.to_be_bytes());
    arr.extend_from_slice(&2u32.to_be_bytes());
    put_string(&mut arr, "foo");
    put_string(&mut arr, "bar");
    put_object(&mut payload, "Array<String>", 3, &arr);
    let mut buf = Vec::new();
    put_object(&mut buf, "TableRecord", 1, &payload);

    let mut r = Reader::new(&buf);
    let rec = TableRecord::read(&mut r).unwrap();
    assert_eq!(rec.record_type, 1);
    assert_eq!(rec.get("count"), Some(&RecordValue::Int(42)));
    assert_eq!(
        rec.get("names"),
        Some(&RecordValue::Array(ArrayValue {
            shape: vec![2],
            data: ArrayData::String(vec!["foo".into(), "bar".into()]),
        }))
    );
}

#[test]
fn parses_bit_packed_bool_array() {
    let mut arr = Vec::new();
    arr.extend_from_slice(&1u32.to_be_bytes()); // ndim
    arr.extend_from_slice(&10u32.to_be_bytes()); // shape
    arr.extend_from_slice(&10u32.to_be_bytes()); // nelem
                                                 // bits: elements 0,1,9 true -> byte0 = 0b00000011, byte1 = 0b00000010
    arr.extend_from_slice(&[0b0000_0011, 0b0000_0010]);
    let mut buf = Vec::new();
    put_object(&mut buf, "Array<void>", 3, &arr);
    let mut r = Reader::new(&buf);
    let v = read_array(&mut r, DataType::Bool).unwrap();
    let ArrayData::Bool(vals) = v.data else {
        panic!("expected bool array")
    };
    let expected: Vec<bool> = [
        true, true, false, false, false, false, false, false, false, true,
    ]
    .into();
    assert_eq!(vals, expected);
}

#[test]
fn rejects_unknown_data_type() {
    assert!(matches!(
        DataType::from_i32(99),
        Err(RecordError::UnknownDataType(99))
    ));
}

#[test]
fn array_types_have_element_types() {
    for (array, element) in [
        (DataType::ArrayBool, DataType::Bool),
        (DataType::ArrayInt64, DataType::Int64),
        (DataType::ArrayString, DataType::String),
        (DataType::ArrayQuantity, DataType::Quantity),
    ] {
        assert_eq!(array.element_type(), element);
        assert_eq!(element.element_type(), element);
        assert!(array.is_array());
        assert!(!element.is_array());
    }
}
