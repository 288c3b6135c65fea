//! Reading StandardStMan data files.
use casacure::aipsio::MAGIC;
use casacure::columnset::StandardStMan;
use casacure::record::{DataType, RecordValue};
use casacure::ssm::{IndexedBucket, SsmError, SsmIndex, StandardStManFile, DATA_START};
use casacure::tabledesc::{ColumnDesc, ColumnKind};



/// Minimal BigEndian file-builder helpers for unit tests.
struct Be(Vec<u8>);
impl Be {
    fn u32(&mut self, v: u32) {
        self.0.extend_from_slice(&v.to_be_bytes());
    }
    fn framed(&mut self, object_type: &str, version: u32, payload: &[u8]) {
        self.u32((4 + 4 + object_type.len() + 4 + payload.len()) as u32);
        self.u32(object_type.len() as u32);
        self.0.extend_from_slice(object_type.as_bytes());
        self.u32(version);
        self.0.extend_from_slice(payload);
    }
    fn root(&mut self, object_type: &str, version: u32, payload: &[u8]) {
        self.0.extend_from_slice(&MAGIC.to_be_bytes());
        self.framed(object_type, version, payload);
    }
    fn block_u32(&mut self, values: &[u32]) {
        let mut payload = Vec::new();
        payload.extend_from_slice(&(values.len() as u32).to_be_bytes());
        for v in values {
            payload.extend_from_slice(&v.to_be_bytes());
        }
        self.framed("Block", 1, &payload);
    }
}

fn scalar_desc(name: &str, data_type: DataType, max_len: i32) -> ColumnDesc {
    ColumnDesc {
        name: name.into(),
        comment: String::new(),
        data_type,
        data_manager_type: "StandardStMan".into(),
        data_manager_group: "StandardStMan".into(),
        options: 0,
        ndim: -1,
        shape: None,
        max_length: max_len,
        keywords: casacure::record::TableRecord {
            desc: Default::default(),
            record_type: 0,
            values: Vec::new(),
        },
        kind: ColumnKind::Scalar(RecordValue::Int(0)),
    }
}

fn spec(offsets: &[u32]) -> StandardStMan {
    StandardStMan {
        data_manager_name: "StandardStMan".into(),
        column_offset: offsets.to_vec(),
        col_index_map: vec![0; offsets.len()],
    }
}

/// Build a file with one index and one data bucket per `data_buckets`
/// entry (bucket numbers 0..n), plus a trailing index bucket.
fn build_file(bucket_size: u32, data_buckets: &[&[u8]], index_payload: &[u8]) -> Vec<u8> {
    let mut file = Vec::new();
    // Header: v2 (big endian, no flag).
    let mut payload = Vec::new();
    payload.extend_from_slice(&bucket_size.to_be_bytes());
    payload.extend_from_slice(&(data_buckets.len() as u32 + 1).to_be_bytes());
    payload.extend_from_slice(&0u32.to_be_bytes()); // pers cache
    payload.extend_from_slice(&0u32.to_be_bytes()); // free buckets
    payload.extend_from_slice(&(-1i32).to_be_bytes()); // first free
    payload.extend_from_slice(&1u32.to_be_bytes()); // nr idx buckets
    payload.extend_from_slice(&(data_buckets.len() as u32).to_be_bytes()); // first idx bucket
    payload.extend_from_slice(&8i32.to_be_bytes()); // idx bucket offset
    payload.extend_from_slice(&(-1i32).to_be_bytes()); // last string bucket
    payload.extend_from_slice(&(index_payload.len() as u32).to_be_bytes()); // index length
    payload.extend_from_slice(&1u32.to_be_bytes()); // nr indices
    let mut header = Be(Vec::new());
    header.root("StandardStMan", 2, &payload);
    file.extend_from_slice(&header.0);
    // Pad to DATA_START.
    file.resize(DATA_START, 0);
    // Data buckets (numbers 0..nused).
    for b in data_buckets {
        file.extend_from_slice(b);
        file.resize(file.len() + bucket_size as usize - b.len(), 0);
    }
    // Index bucket (number nused): [checkNr=-1][next=-1][index stream].
    let idx_bucket_nr = data_buckets.len() as u32;
    let mut ib = Vec::new();
    ib.extend_from_slice(&(-1i32).to_be_bytes());
    ib.extend_from_slice(&(-1i32).to_be_bytes());
    ib.extend_from_slice(index_payload);
    file.extend_from_slice(&ib);
    file.resize(file.len() + bucket_size as usize - ib.len(), 0);
    assert_eq!(
        file.len(),
        DATA_START + (idx_bucket_nr as usize + 1) * bucket_size as usize
    );
    file
}

fn index_payload(last_rows: &[u64], bucket_numbers: &[u32]) -> Vec<u8> {
    // Single SSMIndex, v1.
    let mut payload = Vec::new();
    payload.extend_from_slice(&(last_rows.len() as u32).to_be_bytes()); // nused
    payload.extend_from_slice(&32u32.to_be_bytes()); // rows per bucket
    payload.extend_from_slice(&1i32.to_be_bytes()); // nr columns
                                                    // SimpleOrderedMap (empty): framed object with default, size, incr.
    let mut map_payload = Vec::new();
    map_payload.extend_from_slice(&0i32.to_be_bytes());
    map_payload.extend_from_slice(&0u32.to_be_bytes());
    map_payload.extend_from_slice(&1u32.to_be_bytes());
    let mut map = Be(Vec::new());
    map.framed("SimpleOrderedMap", 1, &map_payload);
    let mut payload2 = Vec::new();
    payload2.extend_from_slice(&payload);
    payload2.extend_from_slice(&map.0);
    // last_row Block (u32 vals) + bucket_number Block.
    let mut lr = Be(Vec::new());
    lr.block_u32(&last_rows.iter().map(|&x| x as u32).collect::<Vec<_>>());
    let mut bn = Be(Vec::new());
    bn.block_u32(bucket_numbers);
    payload2.extend_from_slice(&lr.0);
    payload2.extend_from_slice(&bn.0);
    let mut obj = Be(Vec::new());
    obj.root("SSMIndex", 1, &payload2);
    obj.0
}

fn parse(file: &[u8]) -> StandardStManFile {
    StandardStManFile::parse(file, true).unwrap()
}

#[test]
fn parses_header_and_index() {
    let file = build_file(256, &[&[]], &index_payload(&[0], &[0]));
    let f = parse(&file);
    assert_eq!(f.header().version, 2);
    assert!(f.header().big_endian);
    assert_eq!(f.header().bucket_size, 256);
    assert_eq!(f.header().nr_buckets, 2);
    assert_eq!(f.header().nr_index, 1);
    assert_eq!(f.indices.len(), 1);
    assert_eq!(f.indices[0].rows_per_bucket, 32);
    assert_eq!(f.indices[0].last_row, vec![0]);
    assert_eq!(f.indices[0].bucket_number, vec![0]);
}

#[test]
fn finds_rows_across_buckets() {
    let idx = SsmIndex {
        rows_per_bucket: 32,
        nr_columns: 1,
        last_row: vec![31, 63],
        bucket_number: vec![4, 9],
    };
    assert_eq!(
        idx.find(0),
        Some(IndexedBucket {
            number: 4,
            start_row: 0,
            end_row: 31
        })
    );
    assert_eq!(
        idx.find(30),
        Some(IndexedBucket {
            number: 4,
            start_row: 0,
            end_row: 31
        })
    );
    assert_eq!(
        idx.find(40),
        Some(IndexedBucket {
            number: 9,
            start_row: 32,
            end_row: 63
        })
    );
    assert_eq!(idx.find(64), None);
    assert_eq!(
        SsmIndex {
            rows_per_bucket: 32,
            nr_columns: 1,
            last_row: vec![],
            bucket_number: vec![]
        }
        .find(0),
        None
    );
}

#[test]
fn reads_numeric_scalar_cells() {
    // One data bucket holding: bool(1B)@0, int(4B)@8, double(8B)@16.
    let mut data_bucket = [0u8; 64];
    data_bucket[0] = 1; // bool true
    data_bucket[8..12].copy_from_slice(&12345i32.to_be_bytes());
    data_bucket[16..24].copy_from_slice(&1.25f64.to_be_bytes());
    let file = build_file(256, &[&data_bucket], &index_payload(&[0], &[0]));
    let f = parse(&file);
    let s = spec(&[0, 8, 16]);
    let b = f
        .read_scalar_cell(&s, 0, &scalar_desc("B", DataType::Bool, 0), 0)
        .unwrap();
    assert_eq!(b, RecordValue::Bool(true));
    let i = f
        .read_scalar_cell(&s, 1, &scalar_desc("I", DataType::Int, 0), 0)
        .unwrap();
    assert_eq!(i, RecordValue::Int(12345));
    let d = f
        .read_scalar_cell(&s, 2, &scalar_desc("D", DataType::Double, 0), 0)
        .unwrap();
    assert_eq!(d, RecordValue::Double(1.25f64.to_bits()));
}

#[test]
fn reads_inline_short_string() {
    // Variable string cell: 12-byte reference area with the payload
    // memcpy'd over the front; total length in the trailing Int.
    let mut data_bucket = [0u8; 64];
    // "hello" over the first bytes, len 5 as the 3rd Int.
    data_bucket[0..5].copy_from_slice(b"hello");
    data_bucket[8..12].copy_from_slice(&5i32.to_be_bytes());
    let file = build_file(256, &[&data_bucket], &index_payload(&[0], &[0]));
    let f = parse(&file);
    let s = spec(&[0]);
    let v = f
        .read_scalar_cell(&s, 0, &scalar_desc("S", DataType::String, 0), 0)
        .unwrap();
    assert_eq!(v, RecordValue::String("hello".into()));
}

#[test]
fn reads_fixed_length_string() {
    let mut data_bucket = [0u8; 64];
    data_bucket[0..6].copy_from_slice(b"hi\0\0\0\0");
    let file = build_file(256, &[&data_bucket], &index_payload(&[0], &[0]));
    let f = parse(&file);
    let s = spec(&[0]);
    let v = f
        .read_scalar_cell(&s, 0, &scalar_desc("S", DataType::String, 6), 0)
        .unwrap();
    assert_eq!(v, RecordValue::String("hi".into()));
}

#[test]
fn reads_long_string_from_string_bucket() {
    // A cell reference to a string bucket is resolved: build a bucket 2
    // holding a long string, referenced as [bucket 2][offset 16][…].
    // String-bucket header is big-endian canonical:
    // [unused][usedLength][nDeleted][nextBucket].
    let content = b"a string that is definitely longer than eight characters";
    let mut sb = vec![0u8; 256];
    sb[4..8].copy_from_slice(&(content.len() as u32).to_be_bytes()); // used
    sb[8..12].copy_from_slice(&((256 - 16 - content.len()) as u32).to_be_bytes()); // nDeleted
    sb[12..16].copy_from_slice(&(-1i32).to_be_bytes()); // next = -1
    sb[16..16 + content.len()].copy_from_slice(content);
    // Bucket 0: cell ref [bucket 2][offset 16][len]; bucket 1: index;
    // bucket 2: the string bucket.
    let mut data_bucket = [0u8; 256];
    data_bucket[0..4].copy_from_slice(&2i32.to_be_bytes());
    data_bucket[4..8].copy_from_slice(&0i32.to_be_bytes()); // data-area offset 0
    data_bucket[8..12].copy_from_slice(&(content.len() as i32).to_be_bytes());
    let mut file = build_file(256, &[&data_bucket], &index_payload(&[0], &[0]));
    file.extend_from_slice(&sb);
    let f = parse(&file);
    let s = spec(&[0]);
    assert_eq!(
        f.read_scalar_cell(&s, 0, &scalar_desc("S", DataType::String, 0), 0)
            .unwrap(),
        RecordValue::String(String::from_utf8(content.to_vec()).unwrap())
    );
}

#[test]
fn rejects_row_out_of_range() {
    let file = build_file(256, &[&[0u8; 64]], &index_payload(&[31], &[0]));
    let f = parse(&file);
    let s = spec(&[0]);
    assert!(matches!(
        f.read_scalar_cell(&s, 0, &scalar_desc("I", DataType::Int, 0), 32),
        Err(SsmError::RowOutOfRange { row: 32 })
    ));
}

#[test]
fn rejects_array_columns() {
    let file = build_file(256, &[&[0u8; 64]], &index_payload(&[0], &[0]));
    let f = parse(&file);
    let s = spec(&[0]);
    let mut desc = scalar_desc("A", DataType::Int, 0);
    desc.kind = ColumnKind::Array;
    assert!(matches!(
        f.read_scalar_cell(&s, 0, &desc, 0),
        Err(SsmError::ArrayColumn(_))
    ));
}

#[test]
fn reads_index_spread_across_buckets() {
    // An SSMIndex whose stream (127 bytes) exceeds one index bucket's
    // data area (bucket_size - 8) is chained across index buckets with
    // the next-bucket pointer in bytes 4..8; index_bucket_offset = 0.
    let mut b0 = [0u8; 64];
    b0[0..4].copy_from_slice(&11i32.to_be_bytes()); // cell of row 0
    let mut b1 = [0u8; 64];
    // Rows 32..63 live in bucket 1; row 40's cell is at (40-32)*4 = 32.
    b1[32..36].copy_from_slice(&22i32.to_be_bytes());
    let full = index_payload(&[31, 63], &[0, 1]);
    // Split the index across buckets of 64 - 8 usable bytes.
    let mut chunks: Vec<&[u8]> = Vec::new();
    let mut rest: &[u8] = &full;
    while !rest.is_empty() {
        let take = rest.len().min(64 - 8);
        chunks.push(&rest[..take]);
        rest = &rest[take..];
    }
    assert!(chunks.len() > 1, "test index must span several buckets");

    let bucket_size = 64u32;
    let n_index = chunks.len() as u32;
    let first_idx = 2u32; // after the two data buckets
    let mut payload = Vec::new();
    payload.extend_from_slice(&bucket_size.to_be_bytes());
    payload.extend_from_slice(&(2 + n_index).to_be_bytes());
    payload.extend_from_slice(&0u32.to_be_bytes()); // pers cache
    payload.extend_from_slice(&0u32.to_be_bytes()); // free buckets
    payload.extend_from_slice(&(-1i32).to_be_bytes());
    payload.extend_from_slice(&n_index.to_be_bytes()); // nr idx buckets
    payload.extend_from_slice(&first_idx.to_be_bytes());
    payload.extend_from_slice(&0i32.to_be_bytes()); // idx offset 0 -> chain
    payload.extend_from_slice(&(-1i32).to_be_bytes());
    payload.extend_from_slice(&(full.len() as u32).to_be_bytes());
    payload.extend_from_slice(&1u32.to_be_bytes()); // nr indices
    let mut header = Be(Vec::new());
    header.root("StandardStMan", 2, &payload);
    let mut file = header.0;
    file.resize(DATA_START, 0);
    for b in [&b0[..], &b1[..]] {
        file.extend_from_slice(b);
        file.resize(file.len() + 64 - b.len(), 0);
    }
    for (i, chunk) in chunks.iter().enumerate() {
        let mut b = Vec::new();
        b.extend_from_slice(&(-1i32).to_be_bytes()); // check nr
        let next = if i + 1 < chunks.len() {
            (first_idx + (i + 1) as u32) as i32
        } else {
            -1
        };
        b.extend_from_slice(&next.to_be_bytes());
        b.extend_from_slice(chunk);
        file.extend_from_slice(&b);
        file.resize(file.len() + 64 - b.len(), 0);
    }

    let f = parse(&file);
    assert_eq!(f.indices[0].last_row, vec![31, 63]);
    assert_eq!(f.indices[0].bucket_number, vec![0, 1]);
    let s = spec(&[0]);
    let desc = scalar_desc("I", DataType::Int, 0);
    assert_eq!(
        f.read_scalar_cell(&s, 0, &desc, 0).unwrap(),
        RecordValue::Int(11)
    );
    assert_eq!(
        f.read_scalar_cell(&s, 0, &desc, 40).unwrap(),
        RecordValue::Int(22)
    );
}

#[test]
fn rejects_endian_flag_mismatch() {
    // Header v3 with flag = false, parsed as a big-endian table.
    let mut payload = Vec::new();
    payload.push(0); // bool flag false
    payload.extend_from_slice(&64u32.to_be_bytes());
    payload.extend_from_slice(&1u32.to_be_bytes());
    payload.extend_from_slice(&0u32.to_be_bytes());
    payload.extend_from_slice(&0u32.to_be_bytes());
    payload.extend_from_slice(&(-1i32).to_be_bytes());
    payload.extend_from_slice(&0u32.to_be_bytes());
    payload.extend_from_slice(&(-1i32).to_be_bytes());
    payload.extend_from_slice(&0i32.to_be_bytes());
    payload.extend_from_slice(&(-1i32).to_be_bytes());
    payload.extend_from_slice(&0u32.to_be_bytes());
    payload.extend_from_slice(&0u32.to_be_bytes());
    let mut header = Be(Vec::new());
    header.root("StandardStMan", 3, &payload);
    let mut file = header.0;
    file.resize(DATA_START, 0);
    assert!(matches!(
        StandardStManFile::parse(&file, true),
        Err(SsmError::EndianMismatch {
            flag: false,
            expected: true
        })
    ));
}
