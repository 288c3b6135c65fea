//! Files grown and changed in place.
use casacure::arrayfile::ArrayFile;
use casacure::columnset::DataManagerBlob;
use casacure::dmlist::TiledCube;
use casacure::growdat::{
    patch_lock_nrrow, patch_table_dat_nrow, table_dat_nrow_fields, table_dat_nrow_fits,
    RowCountError,
};
use casacure::ism::IsmFile;
use casacure::ismgrow::{ism_update, IsmUpdateError, PendingCell};
use casacure::json::FloatTexts;
use casacure::record::{ArrayData, DataType, RecordValue, TableRecord};
use casacure::ssm::StandardStManFile;
use casacure::ssmcell::read_array_cell;
use casacure::ssmgrow::ssm_grow;
use casacure::table::{lock_sync_nrrow, parse_table_dat};
use casacure::tablecreate::{create_table, TableFiles};
use casacure::tabledesc::{ColumnDesc, ColumnKind, TableDesc};
use casacure::tilegrow::{grown_cell_shape, grown_tile_length, TiledState};

fn empty_record() -> TableRecord {
    TableRecord {
        desc: Default::default(),
        record_type: 0,
        values: Vec::new(),
    }
}

fn column(name: &str, data_type: DataType, manager: &str, default: RecordValue) -> ColumnDesc {
    ColumnDesc {
        name: name.into(),
        comment: String::new(),
        data_type,
        data_manager_type: manager.into(),
        data_manager_group: manager.into(),
        options: 0,
        ndim: -1,
        shape: None,
        max_length: 0,
        keywords: empty_record(),
        kind: ColumnKind::Scalar(default),
    }
}

fn array_column(name: &str, data_type: DataType, shape: Option<Vec<i64>>) -> ColumnDesc {
    ColumnDesc {
        ndim: 1,
        shape,
        kind: ColumnKind::Array,
        ..column(name, data_type, "StandardStMan", RecordValue::Int(0))
    }
}

fn table(columns: Vec<ColumnDesc>) -> TableDesc {
    TableDesc {
        name: "t".into(),
        version: String::new(),
        comment: String::new(),
        keywords: empty_record(),
        private_keywords: empty_record(),
        columns,
    }
}

fn create(desc: &TableDesc, values: &[Vec<RecordValue>]) -> TableFiles {
    let numbers = FloatTexts {
        singles: Vec::new(),
        doubles: Vec::new(),
    };
    create_table(desc, values, &numbers, &[], &[]).unwrap()
}

fn file<'a>(files: &'a TableFiles, name: &str) -> Option<&'a [u8]> {
    files
        .files
        .iter()
        .find(|f| f.name == name)
        .map(|f| f.bytes.as_slice())
}

#[test]
fn standard_rows_are_appended_in_place() {
    let columns = vec![
        column("N", DataType::Int, "StandardStMan", RecordValue::Int(7)),
        column("B", DataType::Bool, "StandardStMan", RecordValue::Bool(true)),
        column(
            "S",
            DataType::String,
            "StandardStMan",
            RecordValue::String("abc".into()),
        ),
        array_column("A", DataType::Short, Some(vec![3])),
        array_column("V", DataType::Int, None),
    ];
    let desc = table(columns.clone());
    let old = 40u64;
    // Short strings and long ones, which have buckets of their own.
    let name = |r: u64| {
        RecordValue::String(if r % 2 == 0 { format!("r{r}") } else { format!("a long name {r}") })
    };
    let one = || {
        RecordValue::Array(casacure::record::ArrayValue {
            shape: vec![3],
            data: ArrayData::Short(vec![1, 2, 3]),
        })
    };
    let var = || {
        RecordValue::Array(casacure::record::ArrayValue {
            shape: vec![1],
            data: ArrayData::Int(vec![9]),
        })
    };
    let values = vec![
        (0..old).map(|r| RecordValue::Int(r as i32)).collect(),
        (0..old).map(|r| RecordValue::Bool(r % 3 == 0)).collect(),
        (0..old).map(name).collect(),
        (0..old).map(|_| one()).collect(),
        (0..old).map(|_| var()).collect(),
    ];
    let files = create(&desc, &values);
    let data = file(&files, "table.f0").unwrap();
    let f0i = file(&files, "table.f0i");
    let dat = parse_table_dat(&files.dat).unwrap();
    let manager = match &dat.column_set.data_managers[0].blob {
        DataManagerBlob::StandardStMan(m) => m,
        other => panic!("expected a StandardStMan, got {other:?}"),
    };
    for new in [40u64, 41, 60, 200] {
        let g = ssm_grow(data, f0i, false, manager, &columns, old, new).unwrap();
        let size = StandardStManFile::parse(data, false).unwrap().header().bucket_size;
        let grown = g.apply(data, size).unwrap();
        let mut file = ArrayFile::open(f0i, false);
        file.append(&g.arrays);
        let arrays = file.finish().unwrap_or(f0i.unwrap().to_vec());
        let f = StandardStManFile::parse(&grown, false).unwrap().with_array_file(arrays);
        for row in 0..new {
            let n = f.read_scalar_cell(manager, 0, &columns[0], row).unwrap();
            let b = f.read_scalar_cell(manager, 1, &columns[1], row).unwrap();
            let s = f.read_scalar_cell(manager, 2, &columns[2], row).unwrap();
            let a = read_array_cell(&f, manager, 3, &columns[3], row);
            if row < old {
                assert_eq!(n, RecordValue::Int(row as i32));
                assert_eq!(b, RecordValue::Bool(row % 3 == 0));
                assert_eq!(s, name(row));
                assert_eq!(a.unwrap(), one());
            } else {
                assert_eq!(n, RecordValue::Int(7));
                assert_eq!(b, RecordValue::Bool(true));
                assert_eq!(s, RecordValue::String("abc".into()));
                assert_eq!(
                    a.unwrap(),
                    RecordValue::Array(casacure::record::ArrayValue {
                        shape: vec![3],
                        data: ArrayData::Short(vec![0, 0, 0]),
                    })
                );
                assert!(read_array_cell(&f, manager, 4, &columns[4], row).is_err());
            }
        }
        assert!(f.read_scalar_cell(manager, 0, &columns[0], new).is_err());
    }
    // A wrong row count, a column that has no default in a bucket, a file
    // that is none.
    assert!(ssm_grow(data, f0i, false, manager, &columns, 39, 50).is_none());
    let mut strings = columns.clone();
    strings[3] = array_column("A", DataType::String, Some(vec![3]));
    assert!(ssm_grow(data, f0i, false, manager, &strings, old, 50).is_none());
    let mut long = columns.clone();
    long[2].kind = ColumnKind::Scalar(RecordValue::String("nine chars".into()));
    assert!(ssm_grow(data, f0i, false, manager, &long, old, 50).is_none());
    assert!(ssm_grow(&[], f0i, false, manager, &columns, old, 50).is_none());
}

#[test]
fn incremental_rows_are_updated_in_place() {
    let columns = vec![
        column("T", DataType::Int, "IncrementalStMan", RecordValue::Int(-5)),
        column("F", DataType::Bool, "IncrementalStMan", RecordValue::Bool(false)),
    ];
    let desc = table(columns.clone());
    let old = 3000u64;
    let values = vec![
        (0..old).map(|r| RecordValue::Int(r as i32)).collect(),
        (0..old).map(|r| RecordValue::Bool(r / 2 % 2 == 0)).collect(),
    ];
    let files = create(&desc, &values);
    let data = file(&files, "table.f0").unwrap();
    let cell = |row: u64, v: i32| PendingCell {
        row,
        cell: v.to_le_bytes().to_vec(),
    };
    let pending = vec![vec![cell(3, 100), cell(2999, 101), cell(3001, 102), cell(8000, 103)]];
    for new in [3000u64, 3002, 9000] {
        let u = ism_update(data, false, &columns, old, new, &pending).unwrap().unwrap();
        let size = IsmFile::parse(data, false).unwrap().header().bucket_size;
        let out = u.apply(data, size).unwrap();
        let f = IsmFile::parse(&out, false).unwrap();
        assert_eq!(f.index().rows[f.index().rows.len() - 1], new);
        for row in 0..new {
            let want = match row {
                3 => 100,
                2999 => 101,
                3001 => 102,
                8000 => 103,
                r if r < old => r as i32,
                _ => -5,
            };
            assert_eq!(
                f.read_scalar_cell(0, &columns[0], row).unwrap(),
                RecordValue::Int(want),
                "row {row}"
            );
            assert_eq!(
                f.read_scalar_cell(1, &columns[1], row).unwrap(),
                RecordValue::Bool(row < old && row / 2 % 2 == 0)
            );
        }
        assert!(f.read_scalar_cell(0, &columns[0], new).is_err());
    }
    // Cells of the wrong size, other layouts.
    let bad = vec![vec![PendingCell {
        row: 5,
        cell: vec![1, 2],
    }]];
    match ism_update(data, false, &columns, old, old, &bad) {
        Err(IsmUpdateError::CellSize { found: 2, want: 4 }) => {}
        other => panic!("expected a cell size fault, got {other:?}"),
    }
    assert!(ism_update(data, false, &columns, old - 1, old, &pending).unwrap().is_none());
    assert!(ism_update(&[], false, &columns, old, old, &pending).unwrap().is_none());
    let text = vec![column(
        "T",
        DataType::String,
        "IncrementalStMan",
        RecordValue::String(String::new()),
    )];
    assert!(ism_update(data, false, &text, old, old, &pending).unwrap().is_none());
}

#[test]
fn row_counts_are_changed_in_place() {
    let columns = vec![column("N", DataType::Int, "StandardStMan", RecordValue::Int(7))];
    let desc = table(columns);
    let files = create(&desc, &[(0..5).map(RecordValue::Int).collect::<Vec<_>>()]);
    let more = create(&desc, &[(0..9).map(RecordValue::Int).collect::<Vec<_>>()]);
    assert!(table_dat_nrow_fits(&files.dat, 9));
    assert!(!table_dat_nrow_fits(&files.dat, 1 << 32));
    let f = table_dat_nrow_fields(&files.dat).unwrap();
    assert_eq!((f.header_width, f.set_width), (4, 4));
    let patched = patch_table_dat_nrow(&files.dat, 9).unwrap();
    assert_eq!(patched, more.dat);
    assert_eq!(parse_table_dat(&patched).unwrap().header.nrow, 9);
    assert!(matches!(
        patch_table_dat_nrow(&files.dat, 1 << 32),
        Err(RowCountError::TooMany(_))
    ));
    assert!(matches!(
        patch_table_dat_nrow(&[1, 2, 3], 1),
        Err(RowCountError::NotFound)
    ));
    assert!(!table_dat_nrow_fits(&[], 1));
}

#[test]
fn lock_row_counts_are_changed_in_place() {
    let record = |version: u32, nrow: &[u8]| {
        let mut b = vec![9u8; 7];
        b.extend_from_slice(&4u32.to_be_bytes());
        b.extend_from_slice(b"sync");
        b.extend_from_slice(&version.to_be_bytes());
        b.extend_from_slice(nrow);
        b.extend_from_slice(&[8, 8]);
        b
    };
    let wide = record(2, &5u64.to_be_bytes());
    assert_eq!(lock_sync_nrrow(&wide), Some(5));
    let p = patch_lock_nrrow(&wide, 1 << 33).unwrap();
    assert_eq!(p, record(2, &(1u64 << 33).to_be_bytes()));
    assert_eq!(lock_sync_nrrow(&p), Some(1 << 33));
    let narrow = record(1, &5u32.to_be_bytes());
    assert_eq!(patch_lock_nrrow(&narrow, 6).unwrap(), record(1, &6u32.to_be_bytes()));
    assert!(matches!(
        patch_lock_nrrow(&narrow, 1 << 32),
        Err(RowCountError::TooMany(_))
    ));
    // Other versions, a truncated record and other bytes stay as they are.
    let other = record(3, &5u64.to_be_bytes());
    assert_eq!(patch_lock_nrrow(&other, 6).unwrap(), other);
    let cut = wide[..20].to_vec();
    assert_eq!(patch_lock_nrrow(&cut, 6).unwrap(), cut);
    assert_eq!(patch_lock_nrrow(&[], 6).unwrap(), Vec::<u8>::new());
}

#[test]
fn array_records_are_appended_and_rewritten() {
    let mut f = ArrayFile::open(None, true);
    assert_eq!(f.push(&[1, 2, 3, 4]), 16);
    assert_eq!(f.push(&[5, 6]), 20);
    let bytes = f.finish().unwrap();
    assert_eq!(bytes.len(), 22);
    assert_eq!(&bytes[4..12], &22u64.to_be_bytes());
    assert_eq!(&bytes[16..], &[1, 2, 3, 4, 5, 6]);
    let mut f = ArrayFile::open(Some(&bytes), true);
    f.rewrite(16, vec![9, 9, 9, 9]);
    let again = f.finish().unwrap();
    assert_eq!(&again[16..], &[9, 9, 9, 9, 5, 6]);
    assert!(ArrayFile::open(Some(&again), true).finish().is_none());
    // Records of a file with a version carry a reference count.
    let mut counted = vec![0u8; 16];
    counted[3] = 1;
    let mut f = ArrayFile::open(Some(&counted), true);
    assert_eq!(f.push(&[7]), 16);
    assert_eq!(&f.finish().unwrap()[16..], &[0, 0, 0, 1, 7]);
}

#[test]
fn tiled_columns_grow_with_a_cell_shape() {
    let cd = array_column("D", DataType::Float, Some(vec![4, 2]));
    let state = |nrrow: u64, keeps_layout: bool| TiledState {
        nrrow,
        root_type: "TiledShapeStMan".into(),
        data_types: vec![DataType::Float],
        cubes: vec![
            TiledCube {
                cube_shape: vec![],
                tile_shape: vec![],
            },
            TiledCube {
                cube_shape: vec![3, 5, 10],
                tile_shape: vec![3, 5, 1],
            },
        ],
        keeps_layout,
    };
    let kind = "TiledShapeStMan";
    assert_eq!(grown_cell_shape(&state(10, true), kind, &cd, 10, None), Some(vec![3, 5]));
    assert_eq!(grown_cell_shape(&state(10, false), kind, &cd, 10, None), None);
    assert_eq!(grown_cell_shape(&state(10, true), kind, &cd, 9, None), None);
    assert_eq!(grown_cell_shape(&state(10, true), "TiledColumnStMan", &cd, 10, None), None);
    assert_eq!(grown_cell_shape(&state(0, false), kind, &cd, 0, None), Some(vec![4, 2]));
    let open = array_column("D", DataType::Float, None);
    assert_eq!(
        grown_cell_shape(&state(0, false), kind, &open, 0, Some(vec![6])),
        Some(vec![6])
    );
    assert_eq!(
        grown_cell_shape(&state(0, false), kind, &open, 0, Some(vec![6, 0])),
        Some(vec![3, 5])
    );
    let other = array_column("D", DataType::Int, None);
    assert_eq!(grown_cell_shape(&state(0, false), kind, &other, 0, None), None);
    assert_eq!(grown_tile_length(100, 80, 5), 100);
    assert_eq!(grown_tile_length(100, 80, 0), 80);
    assert_eq!(grown_tile_length(10, 80, 5), 80);
}
