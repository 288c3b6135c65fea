//! Reading AipsIO streams.
use casacure::aipsio::{AipsIoError, Reader, MAGIC};


fn object_bytes(root: bool, object_type: &str, version: u32, payload: &[u8]) -> Vec<u8> {
    let mut buf = Vec::new();
    if root {
        buf.extend_from_slice(&MAGIC.to_be_bytes());
    }
    let length = (4 + 4 + object_type.len() + 4 + payload.len()) as u32;
    buf.extend_from_slice(&length.to_be_bytes());
    buf.extend_from_slice(&(object_type.len() as u32).to_be_bytes());
    buf.extend_from_slice(object_type.as_bytes());
    buf.extend_from_slice(&version.to_be_bytes());
    buf.extend_from_slice(payload);
    buf
}

#[test]
fn reads_root_object() {
    let buf = object_bytes(true, "Table", 2, &[0, 0, 0, 1]);
    let mut r = Reader::new(&buf);
    let obj = r.read_object_start(true).unwrap();
    assert_eq!(obj.object_type, "Table");
    assert_eq!(obj.version, 2);
    assert_eq!(obj.length as usize, buf.len() - 4);
    assert_eq!(obj.payload_offset, 21);
    assert_eq!(r.read_u32().unwrap(), 1);
}

#[test]
fn nested_object_has_no_magic() {
    let buf = object_bytes(false, "TableDesc", 2, &[]);
    let mut r = Reader::new(&buf);
    let obj = r.read_object_start(false).unwrap();
    assert_eq!(obj.object_type, "TableDesc");
    assert_eq!(obj.version, 2);
}

#[test]
fn rejects_bad_magic() {
    let buf = object_bytes(true, "Table", 2, &[]);
    let mut r = Reader::new(&buf[4..]); // drop the magic
    assert!(matches!(
        r.read_object_start(true),
        Err(AipsIoError::BadMagic { offset: 0, .. })
    ));
}

#[test]
fn rejects_truncated_buffer() {
    let buf = object_bytes(true, "Table", 2, &[1, 2, 3, 4]);
    let mut r = Reader::new(&buf[..buf.len() - 2]);
    r.read_object_start(true).unwrap();
    assert!(matches!(r.read_u32(), Err(AipsIoError::Truncated { .. })));
}

#[test]
fn reads_u64_big_endian() {
    let bytes = 0x0102030405060708u64.to_be_bytes();
    let mut r = Reader::new(&bytes);
    assert_eq!(r.read_u64().unwrap(), 0x0102030405060708);
}
