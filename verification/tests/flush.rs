//! Flushes in place: what is stored, and what a reader finds afterwards.
use casacure::columnset::{write_standard_stman, DataManagerBlob, DmBlob, StandardStMan};
use casacure::json::FloatTexts;
use casacure::record::{ArrayData, ArrayValue, DataType, RecordValue, TableRecord};
use casacure::ssm::StandardStManFile;
use casacure::ssmdata::{build_ssm_data, CellContent};
use casacure::ssmfile::write_standard_stman_file;
use casacure::ssmout::{StandardStManLayout, WriteColumn};
use casacure::table::{build_table_dat, parse_table_dat, TableCreateError};
use casacure::tablecreate::create_table;
use casacure::tabledesc::{ColumnDesc, ColumnKind, TableDesc};
use casacure::tableread::{ManagerFile, Table};
use casacure::writetable::{WritableTable, WriteTableError};

fn no_numbers() -> FloatTexts {
    FloatTexts {
        singles: Vec::new(),
        doubles: Vec::new(),
    }
}

fn empty_record() -> TableRecord {
    TableRecord {
        desc: Default::default(),
        record_type: 0,
        values: Vec::new(),
    }
}

fn column(name: &str, manager: &str, group: &str, data_type: DataType, kind: ColumnKind) -> ColumnDesc {
    ColumnDesc {
        name: name.into(),
        comment: String::new(),
        data_type,
        data_manager_type: manager.into(),
        data_manager_group: group.into(),
        options: 0,
        ndim: -1,
        shape: None,
        max_length: 0,
        keywords: empty_record(),
        kind,
    }
}

fn int_column(name: &str, manager: &str, group: &str) -> ColumnDesc {
    let kind = ColumnKind::Scalar(RecordValue::Int(0));
    column(name, manager, group, DataType::Int, kind)
}

fn table(columns: Vec<ColumnDesc>) -> TableDesc {
    TableDesc {
        name: "t".into(),
        version: String::new(),
        comment: String::new(),
        keywords: empty_record(),
        private_keywords: empty_record(),
        columns,
    }
}

fn array(v: i32) -> RecordValue {
    RecordValue::Array(ArrayValue {
        shape: vec![2],
        data: ArrayData::Int(vec![v, -v]),
    })
}

/// Put rebuilt files in the place of the old ones.
fn replace(files: &mut [ManagerFile], wt: &mut WritableTable, disk: &Table) -> Vec<u32> {
    let seqs = wt.managers_to_rewrite(&disk.dat);
    for seq in &seqs {
        let rebuilt = wt.rewrite_manager(disk, *seq, &no_numbers(), &[], &[]).unwrap();
        let name = format!("table.f{seq}");
        for f in files.iter_mut().filter(|f| f.sequence_nr == *seq) {
            for r in &rebuilt {
                if r.name == name {
                    f.data = r.bytes.clone();
                } else {
                    assert_eq!(r.name, format!("{name}i"));
                    f.index = Some(r.bytes.clone());
                }
            }
        }
        wt.manager_stored(&disk.dat, *seq);
    }
    seqs
}

/// Two StandardStMan managers, the first with a number, a string and an array
/// column, in either byte order.
fn stored(big: bool, rows: u64) -> (Vec<u8>, Vec<ManagerFile>) {
    let text = ColumnKind::Scalar(RecordValue::String(String::new()));
    let desc = table(vec![
        int_column("N", "StandardStMan", "A"),
        column("S", "StandardStMan", "A", DataType::String, text),
        column("V", "StandardStMan", "A", DataType::Int, ColumnKind::Array),
        int_column("M", "StandardStMan", "B"),
    ]);
    let values: Vec<Vec<RecordValue>> = vec![
        (0..rows).map(|r| RecordValue::Int(r as i32)).collect(),
        (0..rows).map(|r| RecordValue::String(format!("the name of row {r}"))).collect(),
        (0..rows).map(|r| array(r as i32)).collect(),
        (0..rows).map(|r| RecordValue::Int(-(r as i32))).collect(),
    ];
    let mut dms = Vec::new();
    let mut files = Vec::new();
    for (seq, name, cols) in [(0u32, "A", vec![0usize, 1, 2]), (1, "B", vec![3])] {
        let out = build_ssm_data(big, rows, name, &desc, &values, &cols, &no_numbers(), &[]).unwrap();
        dms.push(DmBlob {
            manager_type: "StandardStMan".into(),
            sequence_nr: seq,
            blob: write_standard_stman(&out.manager),
        });
        files.push(ManagerFile {
            sequence_nr: seq,
            data: out.file,
            index: out.f0i,
        });
    }
    let dat = build_table_dat(big, rows, &desc, &dms, &[0, 0, 0, 1]).unwrap();
    (dat, files)
}

#[test]
fn flushes_in_place_keep_the_byte_order() {
    for big in [false, true] {
        let rows = 70u64;
        let (dat, mut files) = stored(big, rows);
        let disk = Table::open("/t".into(), false, &dat, None, &files).unwrap();
        assert_eq!(disk.dat.header.big_endian, big);
        let other = files[1].data.clone();
        let mut wt = WritableTable::open_for_update("/t", None, &disk);
        wt.putcell(0, 33, RecordValue::Int(1000)).unwrap();
        wt.putcell(1, 2, RecordValue::String("another name, and a long one".into())).unwrap();
        wt.putcell(2, 69, array(77)).unwrap();
        assert!(wt.preserving(Some(&disk.dat)));
        assert_eq!(replace(&mut files, &mut wt, &disk), vec![0]);
        for c in 0..4 {
            assert_eq!(wt.pending_rows(c).len(), 0);
            assert!(c == 3 || wt.cell(c, 33).is_none());
        }
        assert_eq!(files[1].data, other);
        let t = Table::open("/t".into(), true, &dat, None, &files).unwrap();
        for r in 0..rows {
            let n = if r == 33 { 1000 } else { r as i32 };
            let s = match r {
                2 => "another name, and a long one".to_string(),
                _ => format!("the name of row {r}"),
            };
            let a = if r == 69 { array(77) } else { array(r as i32) };
            assert_eq!(t.getcell(0, r).unwrap(), RecordValue::Int(n));
            assert_eq!(t.getcell(1, r).unwrap(), RecordValue::String(s));
            assert_eq!(t.getcell(2, r).unwrap(), a);
            assert_eq!(t.getcell(3, r).unwrap(), RecordValue::Int(-(r as i32)));
        }
    }
}

/// A table with two Int columns in one StandardStMan manager, whose file was
/// laid out elsewhere, and one in another.
fn laid_out(manager: StandardStMan, data: Vec<u8>, rows: u64) -> (Vec<u8>, Vec<ManagerFile>) {
    let desc = table(vec![
        int_column("N", "StandardStMan", "A"),
        int_column("P", "StandardStMan", "A"),
        int_column("M", "StandardStMan", "B"),
    ]);
    let values: Vec<Vec<RecordValue>> = (0..3)
        .map(|c| (0..rows).map(|r| RecordValue::Int(100 * c + r as i32)).collect())
        .collect();
    let out = build_ssm_data(false, rows, "B", &desc, &values, &[2], &no_numbers(), &[]).unwrap();
    let blob = |seq: u32, m: &StandardStMan| DmBlob {
        manager_type: "StandardStMan".into(),
        sequence_nr: seq,
        blob: write_standard_stman(m),
    };
    let dms = [blob(0, &manager), blob(1, &out.manager)];
    let dat = build_table_dat(false, rows, &desc, &dms, &[0, 0, 1]).unwrap();
    let file = |seq: u32, data: Vec<u8>| ManagerFile {
        sequence_nr: seq,
        data,
        index: None,
    };
    (dat, vec![file(0, data), file(1, out.file)])
}

fn int_cells(base: i32, rows: u64) -> Vec<u8> {
    (0..rows).flat_map(|r| (base + r as i32).to_le_bytes()).collect()
}

#[test]
fn flushes_in_place_keep_the_stored_layout() {
    // Five rows in a bucket of 64 bytes, with the second column before the
    // first and a gap between them.
    let rows = 13u64;
    let l = StandardStManLayout {
        rows_per_bucket: 5,
        bucket_size: 64,
        column_offset: vec![40, 8],
    };
    let (n, p) = (int_cells(0, rows), int_cells(100, rows));
    let column = |bytes| WriteColumn {
        cell_size: 4,
        cell_bits: 0,
        bytes,
    };
    let data = write_standard_stman_file(false, rows, &[column(&n), column(&p)], &l, &[]);
    let manager = StandardStMan {
        data_manager_name: "A".into(),
        column_offset: vec![40, 8],
        col_index_map: vec![0, 0],
    };
    let (dat, mut files) = laid_out(manager, data, rows);
    let disk = Table::open("/t".into(), false, &dat, None, &files).unwrap();
    assert_eq!(disk.getcell(1, 12).unwrap(), RecordValue::Int(112));
    let mut wt = WritableTable::open_for_update("/t", None, &disk);
    wt.putcell(0, 6, RecordValue::Int(-6)).unwrap();
    wt.putcell(1, 12, RecordValue::Int(-12)).unwrap();
    assert!(wt.preserving(Some(&disk.dat)));
    assert_eq!(replace(&mut files, &mut wt, &disk), vec![0]);
    let t = Table::open("/t".into(), true, &dat, None, &files).unwrap();
    for r in 0..rows {
        let v = r as i32;
        let want = [
            if r == 6 { -6 } else { v },
            if r == 12 { -12 } else { 100 + v },
            200 + v,
        ];
        for (c, w) in want.iter().enumerate() {
            assert_eq!(t.getcell(c, r).unwrap(), RecordValue::Int(*w), "column {c} row {r}");
        }
    }
    let file = StandardStManFile::parse(&files[0].data, false).unwrap();
    assert_eq!(file.header().bucket_size, 64);
    assert_eq!(file.indices()[0].rows_per_bucket, 5);
}

#[test]
fn flushes_in_place_refuse_a_layout_that_holds_nothing() {
    // Both columns in the same place: neither can be rebuilt.
    let rows = 3u64;
    let cells = int_cells(0, rows);
    let l = StandardStManLayout {
        rows_per_bucket: 4,
        bucket_size: 16,
        column_offset: vec![0],
    };
    let one = [WriteColumn {
        cell_size: 4,
        cell_bits: 0,
        bytes: &cells,
    }];
    let data = write_standard_stman_file(false, rows, &one, &l, &[]);
    for (offsets, map) in [(vec![0u32, 0], vec![0u32, 0]), (vec![0, 0], vec![0, 1])] {
        let manager = StandardStMan {
            data_manager_name: "A".into(),
            column_offset: offsets,
            col_index_map: map.clone(),
        };
        let (dat, _) = laid_out(manager.clone(), data.clone(), rows);
        let (_, files) = laid_out(manager, data.clone(), rows);
        let disk = Table::open("/t".into(), false, &dat, None, &files).unwrap();
        let mut wt = WritableTable::open_for_update("/t", None, &disk);
        wt.putcell(0, 1, RecordValue::Int(5)).unwrap();
        match wt.rewrite_manager(&disk, 0, &no_numbers(), &[], &[]) {
            Err(WriteTableError::Storage(s)) if map[1] == 0 => assert_eq!(
                s,
                "cannot keep the stored layout of data-manager type StandardStMan"
            ),
            Err(WriteTableError::Read { column: 1, .. }) if map[1] == 1 => {}
            other => panic!("expected a refusal, got {other:?}"),
        }
        match wt.rewrite_manager(&disk, 7, &no_numbers(), &[], &[]) {
            Err(WriteTableError::Storage(s)) => assert_eq!(s, "table.dat lost DM sequence 7"),
            other => panic!("expected a refusal, got {other:?}"),
        }
    }
}

#[test]
fn string_array_cells_lie_in_string_buckets() {
    for big in [false, true] {
        let text = ColumnKind::Scalar(RecordValue::String(String::new()));
        let desc = table(vec![
            column("W", "StandardStMan", "A", DataType::String, ColumnKind::Array),
            column("S", "StandardStMan", "A", DataType::String, text),
        ]);
        let words = |r: u64| {
            RecordValue::Array(ArrayValue {
                shape: vec![1],
                data: ArrayData::String(vec![format!("w{r}")]),
            })
        };
        let name = |r: u64| RecordValue::String(format!("the name of row {r}"));
        let rows = 40u64;
        let values = vec![(0..rows).map(words).collect(), (0..rows).map(name).collect()];
        // Contents of many lengths, one longer than a bucket.
        let content = |r: u64| vec![r as u8 + 1; if r == 7 { 2000 } else { 3 * r as usize }];
        let contents: Vec<CellContent> = (0..rows)
            .map(|row| CellContent {
                column: 0,
                row,
                bytes: content(row),
            })
            .collect();
        let out = build_ssm_data(big, rows, "A", &desc, &values, &[0, 1], &no_numbers(), &contents)
            .unwrap();
        assert!(out.f0i.is_none());
        let f = StandardStManFile::parse(&out.file, big).unwrap();
        let size = f.header().bucket_size as usize;
        for r in 0..rows {
            let offset = out.manager.column_offset[0];
            let cell = f.cell_bytes(0, offset, r, 12).unwrap();
            let word = |i: usize| {
                let b: [u8; 4] = cell[4 * i..4 * i + 4].try_into().unwrap();
                if big { i32::from_be_bytes(b) } else { i32::from_le_bytes(b) }
            };
            let want = content(r);
            assert_eq!(word(2) as usize, want.len());
            let (mut bucket, mut at) = (word(0), word(1) as usize);
            let mut got = Vec::new();
            while got.len() < want.len() {
                let b = f.bucket_bytes(bucket as u32).unwrap();
                assert_eq!(b.len(), size);
                let used = i32::from_be_bytes(b[4..8].try_into().unwrap()) as usize;
                let n = (want.len() - got.len()).min(used - at);
                got.extend_from_slice(&b[16 + at..16 + at + n]);
                bucket = i32::from_be_bytes(b[12..16].try_into().unwrap());
                at = 0;
            }
            assert_eq!(got, want, "row {r}");
            let s = f.read_scalar_cell(&out.manager, 1, &desc.columns[1], r).unwrap();
            assert_eq!(s, name(r));
        }
        match build_ssm_data(
            big,
            rows,
            "A",
            &desc,
            &values,
            &[0, 1],
            &no_numbers(),
            &contents[..39],
        ) {
            Err(TableCreateError::Io(s)) => {
                assert_eq!(s, "t.W: no content is given for a string array")
            }
            other => panic!("expected an error, got {other:?}"),
        }
    }
}

#[test]
fn tables_with_string_arrays_are_created() {
    let mut words = column("W", "StandardStMan", "A", DataType::String, ColumnKind::Array);
    words.shape = Some(vec![2]);
    let mut wt = WritableTable::create("/t", None, table(vec![words, int_column("N", "StandardStMan", "A")]));
    wt.addrows(2);
    wt.putcell(1, 1, RecordValue::Int(8)).unwrap();
    let contents = [0u64, 1].map(|row| CellContent {
        column: 0,
        row,
        bytes: vec![9; 20],
    });
    let files = wt.regrowth(&no_numbers(), &contents, &[]).unwrap();
    let list = vec![ManagerFile {
        sequence_nr: 0,
        data: files.files[0].bytes.clone(),
        index: None,
    }];
    let t = Table::open("/t".into(), true, &files.dat, None, &list).unwrap();
    assert_eq!(t.nrows(), 2);
    assert_eq!(t.getcell(1, 1).unwrap(), RecordValue::Int(8));
    assert!(wt.regrowth(&no_numbers(), &[], &[]).is_err());
}

#[test]
fn record_columns_name_the_value_that_they_refuse() {
    let desc = table(vec![column("R", "StandardStMan", "A", DataType::Record, ColumnKind::Record)]);
    for (v, text) in [
        (RecordValue::Int(5), "Int(5)"),
        (RecordValue::String("x".into()), "String(\"x\")"),
    ] {
        let values = vec![vec![v]];
        match build_ssm_data(false, 1, "A", &desc, &values, &[0], &no_numbers(), &[]) {
            Err(TableCreateError::NotScalar(s)) => {
                assert_eq!(s, format!("t.R: expected a record cell, got {text}"))
            }
            other => panic!("expected an error, got {other:?}"),
        }
    }
}

#[test]
fn small_buckets_stay_small() {
    // A bit for each of 32 rows: four bytes for a column.
    for (columns, size) in [(1usize, 128u32), (2, 128), (3, 12), (4, 16)] {
        let flag = || column("B", "StandardStMan", "A", DataType::Bool, ColumnKind::Scalar(RecordValue::Bool(false)));
        let desc = table((0..columns).map(|_| flag()).collect());
        let values: Vec<Vec<RecordValue>> = (0..columns)
            .map(|c| (0..70).map(|r| RecordValue::Bool((r + c) % 3 == 0)).collect())
            .collect();
        let cols: Vec<usize> = (0..columns).collect();
        let out = build_ssm_data(false, 70, "A", &desc, &values, &cols, &no_numbers(), &[]).unwrap();
        let f = StandardStManFile::parse(&out.file, false).unwrap();
        assert_eq!(f.header().bucket_size, size);
        for (c, list) in values.iter().enumerate() {
            for (r, v) in list.iter().enumerate() {
                let got = f.read_scalar_cell(&out.manager, c, &desc.columns[c], r as u64).unwrap();
                assert_eq!(got, *v);
            }
        }
    }
}

#[test]
fn array_files_begin_with_version_and_length() {
    for big in [false, true] {
        let desc = table(vec![column("V", "StandardStMan", "A", DataType::Int, ColumnKind::Array)]);
        let values = vec![vec![array(1), array(2), array(3)]];
        let out = build_ssm_data(big, 3, "A", &desc, &values, &[0], &no_numbers(), &[]).unwrap();
        let f = out.f0i.unwrap();
        // Each record: the number of dimensions, one dimension, two elements.
        assert_eq!(f.len(), 16 + 3 * 16);
        assert_eq!(&f[0..4], &[0u8; 4]);
        let length: [u8; 8] = f[4..12].try_into().unwrap();
        let length = if big { u64::from_be_bytes(length) } else { u64::from_le_bytes(length) };
        assert_eq!(length, f.len() as u64);
        assert_eq!(&f[12..16], &[0u8; 4]);
    }
}

#[test]
fn columns_of_one_group_share_a_manager() {
    let desc = table(vec![
        int_column("A", "StandardStMan", "G"),
        int_column("B", "IncrementalStMan", "G"),
        int_column("C", "IncrementalStMan", "G"),
        int_column("D", "StandardStMan", "H"),
        int_column("E", "StandardStMan", "G"),
    ]);
    let values: Vec<Vec<RecordValue>> =
        (0..5).map(|c| (0..3).map(|r| RecordValue::Int(10 * c + r)).collect()).collect();
    let files = create_table(&desc, &values, &no_numbers(), &[], &[]).unwrap();
    let dat = parse_table_dat(&files.dat).unwrap();
    let seqs: Vec<u32> = dat.column_set.columns.iter().map(|c| c.data_manager_seq).collect();
    assert_eq!(seqs, vec![0, 1, 1, 2, 0]);
    let kinds: Vec<&str> =
        dat.column_set.data_managers.iter().map(|m| m.manager_type.as_str()).collect();
    assert_eq!(kinds, vec!["StandardStMan", "IncrementalStMan", "StandardStMan"]);
    assert!(matches!(dat.column_set.data_managers[0].blob, DataManagerBlob::StandardStMan(_)));
    let list: Vec<ManagerFile> = (0..3u32)
        .map(|seq| {
            let name = format!("table.f{seq}");
            let f = files.files.iter().find(|f| f.name == name).unwrap();
            ManagerFile {
                sequence_nr: seq,
                data: f.bytes.clone(),
                index: None,
            }
        })
        .collect();
    let t = Table::open("/t".into(), true, &files.dat, None, &list).unwrap();
    for c in 0..5usize {
        for r in 0..3u64 {
            let want = RecordValue::Int(10 * c as i32 + r as i32);
            assert_eq!(t.getcell(c, r).unwrap(), want, "column {c} row {r}");
        }
    }
}
