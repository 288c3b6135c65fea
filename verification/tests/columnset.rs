//! Reading the data-manager info of a table.
use casacure::aipsio::{Reader, MAGIC};
use casacure::columnset::{
    parse_column_set, parse_standard_stman, ColumnInfo, ColumnSetError, DataManagerBlob,
};
use casacure::record::RecordValue;
use casacure::tabledesc::{ColumnDesc, ColumnKind};


fn framed(object_type: &str, version: u32, payload: &[u8]) -> Vec<u8> {
    let mut buf = Vec::new();
    let length = (4 + 4 + object_type.len() + 4 + payload.len()) as u32;
    buf.extend_from_slice(&length.to_be_bytes());
    buf.extend_from_slice(&(object_type.len() as u32).to_be_bytes());
    buf.extend_from_slice(object_type.as_bytes());
    buf.extend_from_slice(&version.to_be_bytes());
    buf.extend_from_slice(payload);
    buf
}

fn root_framed(object_type: &str, version: u32, payload: &[u8]) -> Vec<u8> {
    let mut buf = Vec::new();
    buf.extend_from_slice(&MAGIC.to_be_bytes());
    buf.extend_from_slice(&framed(object_type, version, payload));
    buf
}

fn string_bytes(s: &str) -> Vec<u8> {
    let mut buf = (s.len() as u32).to_be_bytes().to_vec();
    buf.extend_from_slice(s.as_bytes());
    buf
}

fn block_bytes(values: &[u32]) -> Vec<u8> {
    let mut payload = (values.len() as u32).to_be_bytes().to_vec();
    for v in values {
        payload.extend_from_slice(&v.to_be_bytes());
    }
    framed("Block", 1, &payload)
}

fn ssm_blob(name: &str, offsets: &[u32], index_map: &[u32]) -> Vec<u8> {
    let mut payload = string_bytes(name);
    payload.extend_from_slice(&block_bytes(offsets));
    payload.extend_from_slice(&block_bytes(index_map));
    root_framed("SSM", 2, &payload)
}

fn scalar_column(name: &str, seq: u32) -> Vec<u8> {
    let mut payload = 2u32.to_be_bytes().to_vec(); // PlainColumn class version
    payload.extend_from_slice(&string_bytes(name));
    payload.extend_from_slice(&1u32.to_be_bytes()); // subclass version
    payload.extend_from_slice(&seq.to_be_bytes());
    payload
}

fn array_column(name: &str, seq: u32, shape_col: Option<&str>) -> Vec<u8> {
    let mut payload = 2u32.to_be_bytes().to_vec();
    payload.extend_from_slice(&string_bytes(name));
    payload.extend_from_slice(&1u32.to_be_bytes());
    payload.extend_from_slice(&seq.to_be_bytes());
    match shape_col {
        Some(s) => {
            payload.push(1);
            payload.extend_from_slice(&string_bytes(s));
        }
        None => payload.push(0),
    }
    payload
}

fn opaque(bytes: &[u8]) -> Vec<u8> {
    let mut buf = (bytes.len() as u32).to_be_bytes().to_vec();
    buf.extend_from_slice(bytes);
    buf
}

/// A `ColumnDesc` shim for the per-column kind dispatch.
fn desc(name: &str, kind: ColumnKind) -> ColumnDesc {
    ColumnDesc {
        name: name.into(),
        comment: String::new(),
        data_type: casacure::record::DataType::Int,
        data_manager_type: "StandardStMan".into(),
        data_manager_group: "StandardStMan".into(),
        options: 0,
        ndim: -1,
        shape: None,
        max_length: 0,
        keywords: casacure::record::TableRecord {
            desc: Default::default(),
            record_type: 0,
            values: Vec::new(),
        },
        kind,
    }
}

#[test]
fn parses_version2_column_set() {
    // version -2, u32 nrow, seq_count, nr, one DM, column info, one blob.
    let mut payload = Vec::new();
    payload.extend_from_slice(&(-2i32).to_be_bytes());
    payload.extend_from_slice(&1u32.to_be_bytes()); // nrow
    payload.extend_from_slice(&1u32.to_be_bytes()); // seq_count
    payload.extend_from_slice(&1u32.to_be_bytes()); // nr dms
    payload.extend_from_slice(&string_bytes("StandardStMan"));
    payload.extend_from_slice(&0u32.to_be_bytes()); // seqnr 0
    payload.extend_from_slice(&scalar_column("COL", 0));
    let blob = ssm_blob("StandardStMan", &[0, 4, 36], &[0, 1, 2]);
    payload.extend_from_slice(&opaque(&blob));

    let mut r = Reader::new(&payload);
    let cs = parse_column_set(
        &mut r,
        &[desc("COL", ColumnKind::Scalar(RecordValue::Int(0)))],
    )
    .unwrap();
    assert_eq!(cs.version, 2);
    assert_eq!(cs.nrow, 1);
    assert_eq!(cs.storage_option, None);
    assert_eq!(cs.seq_count, 1);
    assert_eq!(cs.data_managers.len(), 1);
    assert_eq!(cs.data_managers[0].manager_type, "StandardStMan");
    assert_eq!(cs.data_managers[0].sequence_nr, 0);
    assert_eq!(
        cs.columns,
        vec![ColumnInfo {
            original_name: "COL".into(),
            data_manager_seq: 0,
            shape_column: None,
        }]
    );
    let dm = cs.data_manager_for(&cs.columns[0]).unwrap();
    let ssm = match &dm.blob {
        DataManagerBlob::StandardStMan(s) => s,
        _ => panic!("expected StandardStMan blob"),
    };
    assert_eq!(ssm.data_manager_name, "StandardStMan");
    assert_eq!(ssm.column_offset, vec![0, 4, 36]);
    assert_eq!(ssm.col_index_map, vec![0, 1, 2]);
    // All bytes consumed.
    assert_eq!(r.position(), payload.len());
}

#[test]
fn parses_version3_column_set_with_storage_option() {
    let mut payload = Vec::new();
    payload.extend_from_slice(&(-3i32).to_be_bytes());
    payload.extend_from_slice(&5u64.to_be_bytes()); // nrow
    payload.extend_from_slice(&2i32.to_be_bytes()); // opt = SepFile
    payload.extend_from_slice(&(-1i32).to_be_bytes()); // block size
    payload.extend_from_slice(&1u32.to_be_bytes()); // seq_count
    payload.extend_from_slice(&1u32.to_be_bytes()); // nr
    payload.extend_from_slice(&string_bytes("StandardStMan"));
    payload.extend_from_slice(&0u32.to_be_bytes());
    payload.extend_from_slice(&scalar_column("A", 0));
    payload.extend_from_slice(&opaque(&ssm_blob("S", &[0, 2], &[0, 0])));

    let mut r = Reader::new(&payload);
    let cs = parse_column_set(
        &mut r,
        &[desc("A", ColumnKind::Scalar(RecordValue::Int(0)))],
    )
    .unwrap();
    assert_eq!(cs.version, 3);
    assert_eq!(cs.nrow, 5);
    assert_eq!(cs.storage_option, Some((2, -1)));
}

#[test]
fn parses_array_column_with_shape_column() {
    let mut payload = Vec::new();
    payload.extend_from_slice(&(-2i32).to_be_bytes());
    payload.extend_from_slice(&0u32.to_be_bytes()); // nrow
    payload.extend_from_slice(&1u32.to_be_bytes()); // seq_count
    payload.extend_from_slice(&1u32.to_be_bytes()); // nr
    payload.extend_from_slice(&string_bytes("StandardStMan"));
    payload.extend_from_slice(&0u32.to_be_bytes());
    payload.extend_from_slice(&array_column("ARR", 0, Some("ARR_IDX")));
    payload.extend_from_slice(&opaque(&ssm_blob("S", &[0], &[0])));

    let mut r = Reader::new(&payload);
    let cs = parse_column_set(&mut r, &[desc("ARR", ColumnKind::Array)]).unwrap();
    assert_eq!(
        cs.columns,
        vec![ColumnInfo {
            original_name: "ARR".into(),
            data_manager_seq: 0,
            shape_column: Some("ARR_IDX".into()),
        }]
    );
}

#[test]
fn parses_array_column_without_shape_column() {
    let mut payload = Vec::new();
    payload.extend_from_slice(&(-2i32).to_be_bytes());
    payload.extend_from_slice(&0u32.to_be_bytes());
    payload.extend_from_slice(&1u32.to_be_bytes());
    payload.extend_from_slice(&1u32.to_be_bytes());
    payload.extend_from_slice(&string_bytes("StandardStMan"));
    payload.extend_from_slice(&0u32.to_be_bytes());
    payload.extend_from_slice(&array_column("ARR", 0, None));
    payload.extend_from_slice(&opaque(&ssm_blob("S", &[0], &[0])));

    let mut r = Reader::new(&payload);
    let cs = parse_column_set(&mut r, &[desc("ARR", ColumnKind::Array)]).unwrap();
    assert_eq!(cs.columns[0].shape_column, None);
}

#[test]
fn leaves_unknown_data_managers_raw() {
    let mut payload = Vec::new();
    payload.extend_from_slice(&(-2i32).to_be_bytes());
    payload.extend_from_slice(&0u32.to_be_bytes());
    payload.extend_from_slice(&1u32.to_be_bytes());
    payload.extend_from_slice(&1u32.to_be_bytes());
    payload.extend_from_slice(&string_bytes("IncrementalStMan"));
    payload.extend_from_slice(&0u32.to_be_bytes());
    payload.extend_from_slice(&scalar_column("A", 0));
    let blob = b"\xde\xad\xbe\xef";
    payload.extend_from_slice(&opaque(blob));

    let mut r = Reader::new(&payload);
    let cs = parse_column_set(
        &mut r,
        &[desc("A", ColumnKind::Scalar(RecordValue::Int(0)))],
    )
    .unwrap();
    assert_eq!(cs.data_managers[0].manager_type, "IncrementalStMan");
    assert_eq!(
        cs.data_managers[0].blob,
        DataManagerBlob::Unsupported(blob.to_vec())
    );
}

#[test]
fn rejects_wrong_plaincolumn_version() {
    let mut payload = Vec::new();
    payload.extend_from_slice(&(-2i32).to_be_bytes());
    payload.extend_from_slice(&0u32.to_be_bytes());
    payload.extend_from_slice(&1u32.to_be_bytes());
    payload.extend_from_slice(&1u32.to_be_bytes());
    payload.extend_from_slice(&string_bytes("StandardStMan"));
    payload.extend_from_slice(&0u32.to_be_bytes());
    payload.extend_from_slice(&3u32.to_be_bytes()); // unsupported version
    payload.extend_from_slice(&string_bytes("A"));

    let mut r = Reader::new(&payload);
    assert!(matches!(
        parse_column_set(
            &mut r,
            &[desc("A", ColumnKind::Scalar(RecordValue::Int(0)))]
        ),
        Err(ColumnSetError::UnsupportedColumnVersion(3))
    ));
}

#[test]
fn rejects_non_ssm_standardstman_blob() {
    let blob = root_framed("XXY", 2, b"");
    let err = parse_standard_stman(&blob, "StandardStMan").unwrap_err();
    assert!(matches!(
        err,
        ColumnSetError::UnexpectedBlobType {
            manager_type,
            found
        } if manager_type == "StandardStMan" && found == "XXY"
    ));
}
