//! What holds of the library as a whole, on concrete values.
use casacure::aipsio::{AipsIoError, Reader, Writer};
use casacure::calendar::{
    angle_text, civil_days, mjd_weekday, mjd_yearday, mjd_yearweek, mjd_ymd, sexagesimal_text,
    time_text,
};
use casacure::dminfo::{DmInfo, DmSpec, TsmHypercube};
use casacure::dmlist::TiledCube;
use casacure::json::FloatTexts;
use casacure::lockfile::{LockMode, LockOptions, LockType, TableSyncData};
use casacure::lockstate::{
    add_request, info_frame, info_length, remove_request, request_pids, use_range, LockState,
    Release,
};
use casacure::ms::{
    complete_ms_desc, default_ms, join, maketabdesc, merge_extra_columns, required_ms_desc,
    standard_subtable, MsError, Schema, STANDARD_SUBTABLES,
};
use casacure::paths::{absolute_dir, lexical_normalize, relativize_one, resolve_subtable};
use casacure::quanta::{fixed_text, is_fixed, scientific_text};
use casacure::record::{ArrayData, ArrayValue, DataType, RecordValue, TableRecord};
use casacure::rowset::RowSet;
use casacure::slice::slice_array_value;
use casacure::ssmcell::decode_scalar;
use casacure::table::parse_table_dat;
use casacure::tablecreate::create_table;
use casacure::tabledesc::{ColumnDesc, ColumnKind, TableDesc};
use casacure::tableread::{ManagerFile, Table, TableReadError};
use casacure::tilepatch::{patch_tiles, ElementSize, TileGeometry, TileRow};
use casacure::units::parse_unit;
use casacure::writetable::{WritableTable, WriteTableError};

fn no_numbers() -> FloatTexts {
    FloatTexts {
        singles: Vec::new(),
        doubles: Vec::new(),
    }
}

fn empty_record() -> TableRecord {
    TableRecord {
        desc: Default::default(),
        record_type: 0,
        values: Vec::new(),
    }
}

fn column(name: &str, data_type: DataType, default: RecordValue) -> ColumnDesc {
    ColumnDesc {
        name: name.into(),
        comment: String::new(),
        data_type,
        data_manager_type: "StandardStMan".into(),
        data_manager_group: "StandardStMan".into(),
        options: 0,
        ndim: -1,
        shape: None,
        max_length: 0,
        keywords: empty_record(),
        kind: ColumnKind::Scalar(default),
    }
}

fn table(columns: Vec<ColumnDesc>) -> TableDesc {
    TableDesc {
        name: "t".into(),
        version: String::new(),
        comment: String::new(),
        keywords: empty_record(),
        private_keywords: empty_record(),
        columns,
    }
}

#[test]
fn names_normalize_once() {
    for s in ["/a/./b/../c", "a/../../b", "/../x", "", ".", "/", "a//b/"] {
        let once = lexical_normalize(s);
        assert_eq!(lexical_normalize(&once), once, "{s}");
        assert!(once.split('/').all(|part| part != "." && part != ".."), "{s}");
        assert_eq!(once.starts_with('/'), s.starts_with('/'), "{s}");
    }
    assert_eq!(lexical_normalize("/a/b.c/..d"), "/a/b.c/..d");
    assert_eq!(lexical_normalize("a/./b/../c"), "a/c");
    assert_eq!(lexical_normalize("/a/./b/../c"), "/a/c");
    assert_eq!(absolute_dir("x/../t", Some("/data")), "/data/t");
    assert_eq!(absolute_dir("/data/t", Some("/other")), "/data/t");
}

#[test]
fn subtable_names_resolve_again() {
    let dir = "/data/obs.ms";
    for name in ["/data/obs.ms/ANTENNA", "/data/other.ms", "/elsewhere/x"] {
        let stored = relativize_one(name, dir);
        assert_eq!(resolve_subtable(&stored, dir), name, "{stored}");
    }
    assert_eq!(relativize_one("/data/obs.ms/ANTENNA", dir), "././ANTENNA");
}

#[test]
fn slices_pick_the_elements_between_their_bounds() {
    let a = ArrayValue {
        shape: vec![2, 3],
        data: ArrayData::Int(vec![0, 1, 2, 3, 4, 5]),
    };
    let s = slice_array_value(&a, &[0, 1], &[1, 2]).unwrap();
    assert_eq!(s.shape, vec![2, 2]);
    assert_eq!(s.data, ArrayData::Int(vec![1, 2, 4, 5]));
    assert!(matches!(
        slice_array_value(&a, &[0, 1], &[1, 3]),
        Err(TableReadError::BadSlice(..))
    ));
}

#[test]
fn dates_and_day_counts_agree() {
    for mjd in [-100_840i64, 0, 40_587, 51_544, 60_000, 88_069] {
        let (y, m, d) = mjd_ymd(mjd);
        assert_eq!(civil_days(y, m, d), mjd - 40_587, "{mjd}");
    }
    assert_eq!(mjd_ymd(60_000), (2023, 2, 25));
    assert_eq!(mjd_weekday(60_000), 6);
    assert_eq!(mjd_yearday(60_000), 56);
    assert_eq!(mjd_yearweek(60_000), 8);
    assert_eq!(time_text(1, 30, 0), "01:30:00");
    assert_eq!(angle_text(true, 45, 0, 7), "-045.00.07");
    assert_eq!(
        sexagesimal_text(Some(false), 90, 3, "d", 0, 2, "m", "00.000"),
        "+090d00m00.000"
    );
    assert_eq!(sexagesimal_text(None, 6, 2, "h", 0, 2, "m", "00.000"), "06h00m00.000");
    let year = 25_000_000_000_000_000i64;
    assert_eq!(civil_days(year, 3, 1) - civil_days(year - 400, 3, 1), 146_097);
    assert_eq!(civil_days(1970, 1, i64::MAX), i64::MAX - 1);
}

#[test]
fn numbers_lose_the_zeros_behind_their_point() {
    assert!(is_fixed(-4, 5) && is_fixed(4, 5) && !is_fixed(5, 5) && !is_fixed(-5, 5));
    assert_eq!(fixed_text(false, "166.6700"), "166.67");
    assert_eq!(fixed_text(true, "2.000"), "-2");
    assert_eq!(fixed_text(false, "100"), "100");
    assert_eq!(scientific_text(false, "1.5000", -26), "1.5e-26");
    assert_eq!(scientific_text(false, "1.0000", 5), "1e+05");
}

#[test]
fn products_and_powers_of_units_are_undone() {
    let a = parse_unit("km/s").unwrap();
    let b = parse_unit("Jy").unwrap();
    let back = a.multiplied(&b).unwrap().divided(&b).unwrap();
    assert!(back.conforms(&a));
    assert!(a.raised(3).unwrap().rooted(3).unwrap().conforms(&a));
    assert_eq!(a.canonical_string(), "m.s-1");
}

#[test]
fn a_write_lock_is_not_weakened() {
    let options = LockOptions::locking_default().effective();
    let mut s = LockState::new(&options, false, false);
    assert!(!s.begin(LockType::Write));
    s.settle(LockType::Write, true);
    assert!(s.begin(LockType::Read));
    assert_eq!(s.held, Some(LockType::Write));
    assert_eq!(s.read_release(), Release::Nothing);
    assert_eq!(s.write_release(true), Release::StoreAndUnlock);
    assert_eq!(s.write_release(false), Release::Unlock);
    s.released();
    assert_eq!(s.held, None);
    let mut missing = LockState::new(&options, true, true);
    assert!(missing.begin(LockType::Write));
    assert_eq!(missing.write_release(true), Release::Forget);
    assert!(!missing.observable());
    // Every 25th call looks, and not more often than the interval says.
    let mut s = LockState::new(&options, false, false);
    for _ in 0..25 {
        assert!(!s.inspect_due(false, None));
    }
    assert!(s.inspect_due(false, None));
    assert!(s.inspect_due(true, Some(0)));
    for mode in [LockMode::AutoLocking, LockMode::NoLocking, LockMode::UserLocking] {
        assert_eq!(LockMode::parse(mode.as_str()), Some(mode));
    }
    assert_eq!(LockMode::parse("none of them"), None);
    assert_eq!(use_range(&options), (1, 1));
}

#[test]
fn request_lists_gain_and_lose_entries() {
    let (at, entry, head) = add_request(2, 77).unwrap();
    assert_eq!((at, head), (20, vec![0, 0, 0, 3]));
    assert_eq!(entry, vec![0, 0, 0, 77, 0, 0, 0, 0]);
    assert!(add_request(32, 77).is_none());
    let mut list = vec![0, 0, 0, 3];
    for pid in [5u8, 77, 6] {
        list.extend_from_slice(&[0, 0, 0, pid, 0, 0, 0, 0]);
    }
    assert_eq!(request_pids(&list, 3), vec![5, 77, 6]);
    let kept = remove_request(&list, 3, 77, &[true, false, false]);
    assert_eq!(kept, vec![0, 0, 0, 1, 0, 0, 0, 6, 0, 0, 0, 0]);
}

#[test]
fn sync_records_are_framed() {
    let data = TableSyncData {
        nrrow: 9,
        nrcolumn: 2,
        modify_counter: 1,
        table_change_counter: 1,
        dm_counters: vec![4],
    };
    let frame = info_frame(&data);
    let len = info_length(&frame[..4]).unwrap();
    assert_eq!(len as usize, frame.len() - 4);
    assert_eq!(TableSyncData::parse(&frame[4..]).unwrap(), data);
    assert_eq!(info_length(&[0, 0, 0, 0]), None);
    assert_eq!(info_length(&[4, 0, 0, 1]), None);
}

#[test]
fn row_sets_hold_what_was_inserted() {
    let mut s = RowSet::new();
    s.reserve(200);
    for r in [3usize, 63, 64, 199] {
        s.insert(r);
    }
    assert!(s.any());
    assert!(s.contains(64) && !s.contains(65) && !s.contains(5000));
    s.clear();
    assert!(!s.any());
}

#[test]
fn written_cells_are_read_back_and_rows_dropped() {
    let desc = table(vec![
        column("N", DataType::Int, RecordValue::Int(-1)),
        column("M", DataType::Int, RecordValue::Int(-2)),
    ]);
    let mut wt = WritableTable::create("/tables/w", None, desc);
    wt.addrows(4);
    wt.putcell(0, 2, RecordValue::Int(20)).unwrap();
    assert_eq!(wt.cell(0, 2), Some(&RecordValue::Int(20)));
    assert_eq!(wt.cell(0, 1), Some(&RecordValue::Int(-1)));
    assert_eq!(wt.pending_rows(0), vec![2]);
    assert!(!wt.has_pending(1));
    wt.drop_rows(&[0, 3]);
    assert_eq!(wt.nrows(), 2);
    assert_eq!(wt.cell(0, 1), Some(&RecordValue::Int(20)));
    assert_eq!(wt.pending_rows(0), vec![1]);
    assert!(matches!(
        wt.putcell(0, 2, RecordValue::Int(1)),
        Err(WriteTableError::RowOutOfRange { row: 2, nrow: 2 })
    ));
    assert!(matches!(
        wt.putcell(9, 0, RecordValue::Int(1)),
        Err(WriteTableError::NoSuchColumn { .. })
    ));
    wt.renamecol("M", "K").unwrap();
    assert!(wt.renamecol("M", "L").is_err());
    wt.removecol(0);
    assert_eq!(wt.desc().columns.len(), 1);
    assert_eq!(wt.desc().columns[0].name, "K");
}

#[test]
fn raw_cells_are_the_stored_bytes() {
    let mut a = column("A", DataType::Short, RecordValue::Short(0));
    a.kind = ColumnKind::Array;
    a.shape = Some(vec![2]);
    a.ndim = 1;
    let desc = table(vec![
        column("N", DataType::Int, RecordValue::Int(0)),
        a,
        column("S", DataType::String, RecordValue::String(String::new())),
    ]);
    let pair = |x: i16| {
        RecordValue::Array(ArrayValue {
            shape: vec![2],
            data: ArrayData::Short(vec![x, x + 1]),
        })
    };
    let values = vec![
        vec![RecordValue::Int(1), RecordValue::Int(0x0102_0304)],
        vec![pair(5), pair(7)],
        vec![RecordValue::String("a".into()), RecordValue::String("b".into())],
    ];
    let files = create_table(&desc, &values, &no_numbers(), &[], &[]).unwrap();
    let dat = parse_table_dat(&files.dat).unwrap();
    let mut found = Vec::new();
    for m in &dat.column_set.data_managers {
        let name = format!("table.f{}", m.sequence_nr);
        let get = |n: String| files.files.iter().find(|f| f.name == n).map(|f| f.bytes.clone());
        found.push(ManagerFile {
            sequence_nr: m.sequence_nr,
            data: get(name.clone()).unwrap(),
            index: get(format!("{name}i")),
        });
    }
    let t = Table::open("/tables/raw".into(), true, &files.dat, None, &found).unwrap();
    assert!(t.raw_column_supported(0) && t.raw_column_supported(1) && !t.raw_column_supported(2));
    let n = t.getcol_raw(0, 0, 2).unwrap();
    assert_eq!(n[1].bytes, vec![4, 3, 2, 1]);
    assert!(n[1].shape.is_empty());
    let a = t.getcol_raw(1, 1, 1).unwrap();
    assert_eq!((a[0].shape.clone(), a[0].bytes.clone()), (vec![2], vec![7, 0, 8, 0]));
    assert!(matches!(t.getcol_raw(0, 2, 1), Err(TableReadError::Ssm(_))));
}

#[test]
fn tiles_are_patched_row_by_row() {
    let geometry = TileGeometry {
        nrdim: 2,
        nrrow: 3,
        cubes: vec![TiledCube {
            cube_shape: vec![2, 3],
            tile_shape: vec![2, 2],
        }],
    };
    let tile = vec![9u8; 16];
    let rows = [TileRow {
        row: 2,
        cell: vec![1, 2, 3, 4],
    }];
    let out = patch_tiles(&tile, &geometry, 3, ElementSize::Bytes(2), &rows).unwrap();
    let mut want = tile.clone();
    want[8..12].copy_from_slice(&[1, 2, 3, 4]);
    assert_eq!(out, want);
    let bits = [TileRow {
        row: 1,
        cell: vec![0b10],
    }];
    let out = patch_tiles(&[0, 0], &geometry, 3, ElementSize::Bits, &bits).unwrap();
    assert_eq!(out, vec![0b1000, 0]);
    assert!(patch_tiles(&tile, &geometry, 4, ElementSize::Bytes(2), &rows).is_none());
}

#[test]
fn data_managers_are_told_as_json() {
    let info = DmInfo {
        manager_type: "TiledShapeStMan".into(),
        name: "TiledData".into(),
        seqnr: 3,
        spec: DmSpec::TiledShapeStMan {
            default_tile_shape: vec![4, 5],
            seqnr: 3,
            hypercubes: vec![TsmHypercube {
                cube_shape: vec![4, 5, 6],
                tile_shape: vec![4, 5, 1],
                cell_shape: vec![4, 5],
                bucket_size: 80,
            }],
        },
        columns: vec!["DATA".into()],
    };
    let json = info.to_json();
    assert!(json.starts_with('{') && json.ends_with('}'), "{json}");
    for part in ["\"TiledShapeStMan\"", "\"TiledData\"", "\"DATA\"", "80"] {
        assert!(json.contains(part), "{part} in {json}");
    }
}

#[test]
fn measurement_sets_link_their_subtables() {
    let schemas = vec![
        Schema {
            table: "MS".into(),
            complete: false,
            desc: table(vec![column("TIME", DataType::Int, RecordValue::Int(0))]),
        },
        Schema {
            table: "MS".into(),
            complete: true,
            desc: table(vec![column("ALL", DataType::Int, RecordValue::Int(0))]),
        },
    ];
    assert_eq!(required_ms_desc(&schemas, None).unwrap().columns[0].name, "TIME");
    assert_eq!(complete_ms_desc(&schemas, None).unwrap().columns[0].name, "ALL");
    assert!(matches!(
        required_ms_desc(&schemas, Some("NO_SUCH")),
        Err(MsError::UnknownSubtable(_)) | Err(MsError::BadSchema(_))
    ));
    assert_eq!(STANDARD_SUBTABLES, 12);
    assert_eq!(standard_subtable(12), None);
    assert_eq!(join("/data", "x"), "/data/x");
    let extra = vec![column("EXTRA", DataType::Int, RecordValue::Int(0))];
    let files = default_ms("/data/obs.ms", None, &schemas, &extra, &no_numbers(), &[]).unwrap();
    let dat = parse_table_dat(&files.dat).unwrap();
    let names: Vec<&str> = dat.desc.columns.iter().map(|c| c.name.as_str()).collect();
    assert_eq!(names, ["TIME", "EXTRA"]);
    let linked: Vec<&str> = dat.desc.keywords.desc.fields.iter().map(|f| f.name.as_str()).collect();
    for i in 0..12 {
        assert!(linked.contains(&standard_subtable(i).unwrap()));
    }
    let mut d = maketabdesc(&extra);
    merge_extra_columns(&mut d, &extra);
    assert_eq!(d.columns.len(), 1);
}

#[test]
fn invalid_bytes_in_texts() {
    // A stream refuses them; a cell shows a replacement character.
    let mut w = Writer::new();
    w.put_opaque(&[0x61, 0xff]);
    let b = w.into_bytes();
    let mut r = Reader::new(&b);
    assert!(matches!(r.read_string(), Err(AipsIoError::BadString { .. })));
    let mut cd = column("S", DataType::String, RecordValue::String(String::new()));
    cd.max_length = 4;
    assert_eq!(
        decode_scalar(&[0x61, 0xff, 0x62, 0], &cd, true).unwrap(),
        RecordValue::String("a\u{fffd}b".into())
    );
}
