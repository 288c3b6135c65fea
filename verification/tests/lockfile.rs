//! The lock file's sync record and its request list.
use casacure::aipsio::Writer;
use casacure::lockfile::TableSyncData;

#[test]
fn sync_record_round_trips_v1_and_v2() {
    let small = TableSyncData {
        nrrow: 276,
        nrcolumn: 24,
        modify_counter: 20,
        table_change_counter: 2,
        dm_counters: vec![3; 10],
    };
    let bytes = small.to_bytes();
    assert_eq!(TableSyncData::parse(&bytes).unwrap(), small);
    // Root layout: [magic][objlen][namelen=4]["sync"][version=1].
    assert_eq!(&bytes[8..12], &[0, 0, 0, 4]);
    assert_eq!(&bytes[12..16], b"sync");
    assert_eq!(&bytes[16..20], &[0, 0, 0, 1]);

    let huge = TableSyncData {
        nrrow: 5_000_000_000,
        nrcolumn: 3,
        modify_counter: 1,
        table_change_counter: 1,
        dm_counters: vec![1, 2],
    };
    let bytes = huge.to_bytes();
    let parsed = TableSyncData::parse(&bytes).unwrap();
    assert_eq!(parsed, huge);
    assert_eq!(parsed.nrrow, 5_000_000_000);
}

#[test]
fn short_form_sync_parses_with_defaults() {
    let mut w = Writer::new();
    w.put_root_object_start("sync", 1);
    w.put_u32(7);
    w.put_i32(-1);
    w.put_u32(4);
    w.put_object_end();
    let parsed = TableSyncData::parse(&w.into_bytes()).unwrap();
    assert_eq!(parsed.nrrow, 7);
    assert_eq!(parsed.nrcolumn, -1);
    assert_eq!(parsed.modify_counter, 4);
    assert_eq!(parsed.table_change_counter, 0);
    assert!(parsed.dm_counters.is_empty());
}

