//! Reading and writing IncrementalStMan data files.
use casacure::aipsio::Writer;
use casacure::ism::{IsmError, IsmFile};
use casacure::ismout::{write_ism_blob, write_ism_file, WriteIsmColumn};
use casacure::record::{DataType, RecordValue};
use casacure::ssm::DATA_START;
use casacure::ssmout::encode_scalar_cell;
use casacure::tabledesc::{ColumnDesc, ColumnKind};


fn scalar_desc(name: &str, dt: DataType) -> ColumnDesc {
    ColumnDesc {
        name: name.into(),
        comment: String::new(),
        data_type: dt,
        data_manager_type: "IncrementalStMan".into(),
        data_manager_group: "IncrementalStMan".into(),
        options: 1,
        ndim: -1,
        shape: None,
        max_length: 0,
        keywords: casacure::record::TableRecord {
            desc: Default::default(),
            record_type: 0,
            values: Vec::new(),
        },
        kind: ColumnKind::Scalar(RecordValue::Int(0)),
    }
}

/// Build a little-endian ISM file: one bucket with a single int column,
/// rows 0..3 compressed into one interval holding the value 42.
fn one_interval_file() -> Vec<u8> {
    let bs = 64u32;
    let mut file = vec![0u8; DATA_START + bs as usize];
    let mut w = Writer::new_le();
    w.put_root_object_start("IncrementalStMan", 5);
    w.put_bool(false); // little endian
    w.put_u32(bs);
    w.put_u32(1); // nbucket
    w.put_u32(0); // pers cache
    w.put_u32(0); // uniqnr
    w.put_u32(0); // nfree
    w.put_i32(-1); // first free
    w.put_object_end();
    let hdr = w.into_bytes();
    file[..hdr.len()].copy_from_slice(&hdr);
    let b = DATA_START;
    // indexOffset: data is 8 bytes -> index at 12 (data 4..12).
    file[b..b + 4].copy_from_slice(&12u32.to_le_bytes());
    file[b + 4..b + 8].copy_from_slice(&42i32.to_le_bytes());
    // column 0 index: nr=1, rownrs=[0], offsets=[0].
    file[b + 12..b + 16].copy_from_slice(&1u32.to_le_bytes());
    file[b + 16..b + 20].copy_from_slice(&0u32.to_le_bytes());
    file[b + 20..b + 24].copy_from_slice(&0u32.to_le_bytes());
    // ISMIndex after the last bucket.
    let mut w = Writer::new_le();
    w.put_root_object_start("ISMIndex", 1);
    w.put_u32(1); // nused
    w.put_object_start("Block", 1);
    w.put_u32(2);
    w.put_u32(0);
    w.put_u32(3);
    w.put_object_end();
    w.put_object_start("Block", 1);
    w.put_u32(1);
    w.put_u32(0);
    w.put_object_end();
    w.put_object_end();
    file.extend_from_slice(&w.into_bytes());
    file
}

#[test]
fn reads_interval_compressed_values() {
    let f = IsmFile::parse(&one_interval_file(), false).unwrap();
    assert_eq!(f.header.bucket_size, 64);
    assert_eq!(f.header.nbucket, 1);
    assert_eq!(f.index.rows, vec![0, 3]);
    assert_eq!(f.index.bucket_numbers, vec![0]);
    let d = scalar_desc("X", DataType::Int);
    // All rows in the interval [0..2] share the single stored value.
    for row in 0..3 {
        assert_eq!(
            f.read_scalar_cell(0, &d, row).unwrap(),
            RecordValue::Int(42),
            "row {row}"
        );
    }
    assert!(matches!(
        f.read_scalar_cell(0, &d, 3),
        Err(IsmError::RowOutOfRange { .. })
    ));
}

#[test]
fn reads_distinct_rows_across_intervals() {
    // Rows 0..2 -> 0, 2..5 -> 1, 5..6 -> 2 (three intervals), two columns
    // (Int at data offsets 0/4, Double at 8/16/24/32...).
    let bs = 128u32;
    let mut file = vec![0u8; DATA_START + bs as usize];
    let mut w = Writer::new_le();
    w.put_root_object_start("IncrementalStMan", 5);
    w.put_bool(false);
    w.put_u32(bs);
    w.put_u32(1);
    w.put_u32(0);
    w.put_u32(0);
    w.put_u32(0);
    w.put_i32(-1);
    w.put_object_end();
    let hdr = w.into_bytes();
    file[..hdr.len()].copy_from_slice(&hdr);
    let b = DATA_START;
    // Data: col0 ints {0@0, 10@4, 20@8}; col1 doubles {0.5@12, 1.5@20, 2.5@28}.
    // dataLeng 36 -> index at 40.
    file[b..b + 4].copy_from_slice(&40u32.to_le_bytes());
    file[b + 4..b + 8].copy_from_slice(&0i32.to_le_bytes());
    file[b + 8..b + 12].copy_from_slice(&10i32.to_le_bytes());
    file[b + 12..b + 16].copy_from_slice(&20i32.to_le_bytes());
    file[b + 16..b + 24].copy_from_slice(&0.5f64.to_le_bytes());
    file[b + 24..b + 32].copy_from_slice(&1.5f64.to_le_bytes());
    file[b + 32..b + 40].copy_from_slice(&2.5f64.to_le_bytes());
    // col0: nr=3 rownrs [0,2,4] offsets [0,4,8]; col1: nr=3 rownrs [0,2,4] offsets [12,20,28].
    let mut pos = 40usize;
    for col in 0..2usize {
        for v in [3u32, 0, 2, 4] {
            file[b + pos..b + pos + 4].copy_from_slice(&v.to_le_bytes());
            pos += 4;
        }
        let offsets: Vec<u32> = if col == 0 {
            vec![0, 4, 8]
        } else {
            vec![12, 20, 28]
        };
        for o in offsets {
            file[b + pos..b + pos + 4].copy_from_slice(&o.to_le_bytes());
            pos += 4;
        }
    }
    let mut w = Writer::new_le();
    w.put_root_object_start("ISMIndex", 1);
    w.put_u32(1);
    w.put_object_start("Block", 1);
    w.put_u32(2);
    w.put_u32(0);
    w.put_u32(6);
    w.put_object_end();
    w.put_object_start("Block", 1);
    w.put_u32(1);
    w.put_u32(0);
    w.put_object_end();
    w.put_object_end();
    file.extend_from_slice(&w.into_bytes());

    let f = IsmFile::parse(&file, false).unwrap();
    let int_col = scalar_desc("I", DataType::Int);
    let dbl_col = scalar_desc("D", DataType::Double);
    let ints = [0, 0, 10, 10, 20, 20];
    let dbls = [0.5, 0.5, 1.5, 1.5, 2.5, 2.5];
    for row in 0..6 {
        assert_eq!(
            f.read_scalar_cell(0, &int_col, row).unwrap(),
            RecordValue::Int(ints[row as usize]),
            "int row {row}"
        );
        assert_eq!(
            f.read_scalar_cell(1, &dbl_col, row).unwrap(),
            RecordValue::Double(f64::to_bits(dbls[row as usize])),
            "double row {row}"
        );
    }
}

/// Round-trip a `write_ism_file` output through `IsmFile::parse` in
/// either byte order. `icomp` repeats values so the writer must use
/// interval compression; `jcol` changes every row.
fn writer_round_trip(big: bool) {
    let n: u64 = 9;
    let icomp = [5i32, 5, 5, 7, 7, 2, 2, 9, 9];
    let jcol = [1.0f64, 2.0, 3.0, 4.0, 5.0, 6.0, 7.0, 8.0, 9.0];
    let icol = scalar_desc("I", DataType::Int);
    let dcol = scalar_desc("J", DataType::Double);
    let mut ibytes = Vec::new();
    let mut jbytes = Vec::new();
    for i in 0..n as usize {
        ibytes.extend_from_slice(
            &encode_scalar_cell(big, &icol, &RecordValue::Int(icomp[i])).unwrap(),
        );
        jbytes.extend_from_slice(
            &encode_scalar_cell(big, &dcol, &RecordValue::Double(jcol[i].to_bits())).unwrap(),
        );
    }
    let cols = [
        WriteIsmColumn {
            cell_size: 4,
            bytes: &ibytes,
        },
        WriteIsmColumn {
            cell_size: 8,
            bytes: &jbytes,
        },
    ];
    let file = write_ism_file(big, n, &cols);
    let f = IsmFile::parse(&file, big).unwrap();
    assert_eq!(f.header.bucket_size, 32768);
    assert_eq!(f.header.nbucket, 1);
    assert_eq!(f.index.rows, vec![0, 9]);
    for i in 0..n {
        assert_eq!(
            f.read_scalar_cell(0, &icol, i).unwrap(),
            RecordValue::Int(icomp[i as usize]),
            "col0 row {i}"
        );
        assert_eq!(
            f.read_scalar_cell(1, &dcol, i).unwrap(),
            RecordValue::Double(jcol[i as usize].to_bits()),
            "col1 row {i}"
        );
    }
}

#[test]
fn writer_round_trips_both_endians() {
    writer_round_trip(true);
    writer_round_trip(false);
}

#[test]
fn writer_spans_buckets() {
    // One Int column: rows_per_bucket = (32768 - 4)/12 = 2730, so 2800
    // rows force a second ISM bucket; check around the boundary.
    let n: u64 = 2800;
    let icol = scalar_desc("I", DataType::Int);
    let vals: Vec<i32> = (0..n as i32).map(|i| i % 7 - 3).collect();
    let mut bytes = Vec::with_capacity(n as usize * 4);
    for &v in &vals {
        bytes.extend_from_slice(
            &encode_scalar_cell(false, &icol, &RecordValue::Int(v)).unwrap(),
        );
    }
    let cols = [WriteIsmColumn {
        cell_size: 4,
        bytes: &bytes,
    }];
    let file = write_ism_file(false, n, &cols);
    let f = IsmFile::parse(&file, false).unwrap();
    assert!(
        f.header.nbucket > 1,
        "must span buckets: nbucket={}",
        f.header.nbucket
    );
    assert_eq!(f.index.rows.first(), Some(&0));
    assert_eq!(f.index.rows.last(), Some(&2800));
    for (i, &v) in vals.iter().enumerate().skip(2700).take(150) {
        assert_eq!(
            f.read_scalar_cell(0, &icol, i as u64).unwrap(),
            RecordValue::Int(v),
            "row {i}"
        );
    }
}

#[test]
fn writer_ism_blob_parses_as_spec() {
    let blob = write_ism_blob("IncrementalStMan");
    let mut r = casacure::aipsio::Reader::new(&blob);
    let obj = r.read_object_start(true).unwrap();
    assert_eq!(obj.object_type, "ISM");
    assert_eq!(obj.version, 3);
    assert_eq!(r.read_string().unwrap(), "IncrementalStMan");
}

#[test]
fn writer_fills_buckets_with_different_rows() {
    // Two Int columns: (32768 - 4 - 2 * 4) / 24 = 1364 rows fit a bucket.
    let col = scalar_desc("I", DataType::Int);
    for n in [1364u64, 1365] {
        let mut bytes = [Vec::new(), Vec::new()];
        for r in 0..n as i32 {
            bytes[0].extend_from_slice(&r.to_le_bytes());
            bytes[1].extend_from_slice(&(-1 - r).to_le_bytes());
        }
        let cols = [
            WriteIsmColumn { cell_size: 4, bytes: &bytes[0] },
            WriteIsmColumn { cell_size: 4, bytes: &bytes[1] },
        ];
        let f = IsmFile::parse(&write_ism_file(false, n, &cols), false).unwrap();
        assert_eq!(u64::from(f.header.nbucket), n - 1363);
        assert_eq!(f.index.rows.last(), Some(&n));
        for r in 0..n {
            let v = r as i32;
            assert_eq!(f.read_scalar_cell(0, &col, r).unwrap(), RecordValue::Int(v));
            assert_eq!(f.read_scalar_cell(1, &col, r).unwrap(), RecordValue::Int(-1 - v));
        }
        assert!(matches!(
            f.read_scalar_cell(0, &col, n),
            Err(IsmError::RowOutOfRange { .. })
        ));
    }
}
