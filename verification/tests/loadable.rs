use b2::error::{Error, IoErrorKind};
use b2::keydir::{EntryWithLiveness, FileId, Liveness};
use b2::loadable::{load_all_entries_from_file, load_latest_entries, read_valid_record, DataFile};
use b2::merge_pointer::MergePointer;
use b2::loadable::Loadable;
use b2::record::{KeySize, Record, TxId, ValueSize};

fn file(id: u32, records: &[Record]) -> DataFile {
    let mut bytes = Vec::new();
    for record in records {
        bytes.extend_from_slice(record.deref());
    }
    DataFile { file_id: FileId(id), bytes }
}

#[test]
fn merge_pointer_read_one_points_at_the_record() {
    let first = Record::new(b"key", b"value", TxId(4));
    let second = Record::new(b"k2", b"gone", TxId(5));
    let data = file(1, &[first, second]).bytes;
    let mut offset = 0u64;

    let (key, pointer) =
        MergePointer::read_one(&data, &mut offset, FileId(3), b"gone").unwrap().unwrap();
    assert_eq!(key, b"key");
    assert_eq!(
        pointer,
        MergePointer {
            liveness: Liveness::Live,
            file_id: FileId(3),
            tx_id: TxId(4),
            record_offset: 0,
            record_size: 34,
            key_size: KeySize(3),
            value_size: ValueSize(5),
        }
    );
    assert_eq!(offset, 34);
    assert_eq!(pointer.tx_id(), TxId(4));

    let (key, pointer) =
        MergePointer::read_one(&data, &mut offset, FileId(3), b"gone").unwrap().unwrap();
    assert_eq!(key, b"k2");
    assert_eq!(pointer.liveness, Liveness::Deleted);
    assert_eq!(pointer.record_offset, 34);
    assert_eq!(pointer.record_size, 32);
    assert_eq!(offset, 66);

    assert!(MergePointer::read_one(&data, &mut offset, FileId(3), b"gone").unwrap().is_none());
}

#[test]
fn read_one_leaves_the_offset_on_an_error() {
    let record = Record::new(b"key", b"value", TxId(4));
    let mut data = record.deref().clone();
    data[30] ^= 1;
    let mut offset = 0u64;
    match MergePointer::read_one(&data, &mut offset, FileId(1), b"gone") {
        Err(Error::CorruptRecord) => {}
        _ => panic!("a corrupt record was read"),
    }
    assert_eq!(offset, 0);

    data.truncate(20);
    match EntryWithLiveness::read_one(&data, &mut offset, FileId(1), b"gone") {
        Err(Error::IoError(IoErrorKind::UnexpectedEof)) => {}
        _ => panic!("a record cut short was read"),
    }
    assert_eq!(offset, 0);
}

#[test]
fn read_valid_record_beyond_the_end_finds_nothing() {
    let record = Record::new(b"key", b"value", TxId(4));
    let data = record.deref().clone();
    assert!(matches!(read_valid_record(&data, 34), Ok(None)));
    assert!(matches!(read_valid_record(&data, 1000), Ok(None)));
    assert!(matches!(read_valid_record(&data, u64::MAX), Ok(None)));
    assert!(matches!(read_valid_record(&data, 1), Err(Error::IoError(IoErrorKind::UnexpectedEof))));
}

#[test]
fn the_last_record_of_a_key_in_a_file_stands() {
    let data = file(
        1,
        &[
            Record::new(b"a", b"1", TxId(9)),
            Record::new(b"b", b"2", TxId(2)),
            Record::new(b"a", b"3", TxId(3)),
        ],
    );
    let map = load_all_entries_from_file::<MergePointer>(&data.bytes, FileId(1), b"gone").unwrap();
    assert_eq!(map.keys(), vec![b"a".to_vec(), b"b".to_vec()]);
    assert_eq!(map.get(b"a").unwrap().tx_id, TxId(3));
    assert_eq!(map.get(b"a").unwrap().record_offset, 56);
    assert_eq!(map.get(b"b").unwrap().record_offset, 28);
}

#[test]
fn an_empty_file_holds_no_entries() {
    let map = load_all_entries_from_file::<EntryWithLiveness>(&[], FileId(1), b"gone").unwrap();
    assert_eq!(map.len(), 0);
    let map = load_latest_entries::<EntryWithLiveness>(&Vec::new(), b"gone").unwrap();
    assert_eq!(map.len(), 0);
}

#[test]
fn across_files_the_highest_transaction_id_stands() {
    let files = vec![
        file(1, &[Record::new(b"a", b"1", TxId(5)), Record::new(b"b", b"1", TxId(6))]),
        file(2, &[Record::new(b"a", b"2", TxId(4)), Record::new(b"c", b"gone", TxId(8))]),
        file(3, &[Record::new(b"b", b"3", TxId(7))]),
    ];
    let map = load_latest_entries::<EntryWithLiveness>(&files, b"gone").unwrap();
    assert_eq!(map.keys(), vec![b"a".to_vec(), b"b".to_vec(), b"c".to_vec()]);
    assert_eq!(map.get(b"a").unwrap().entry.file_id, FileId(1));
    assert_eq!(map.get(b"a").unwrap().entry.tx_id, TxId(5));
    assert_eq!(map.get(b"b").unwrap().entry.file_id, FileId(3));
    assert_eq!(map.get(b"b").unwrap().entry.tx_id, TxId(7));
    assert_eq!(map.get(b"c").unwrap().liveness, Liveness::Deleted);
}

#[test]
fn of_two_files_with_one_transaction_id_the_first_stands() {
    let files = vec![
        file(1, &[Record::new(b"a", b"1", TxId(5))]),
        file(2, &[Record::new(b"a", b"2", TxId(5))]),
    ];
    let map = load_latest_entries::<MergePointer>(&files, b"gone").unwrap();
    assert_eq!(map.get(b"a").unwrap().file_id, FileId(1));
}

#[test]
fn the_first_file_that_cannot_be_read_decides_the_error() {
    let mut corrupt = file(1, &[Record::new(b"a", b"1", TxId(5))]);
    corrupt.bytes[27] ^= 1;
    let mut short = file(2, &[Record::new(b"a", b"2", TxId(6))]);
    short.bytes.pop();
    let good = file(3, &[Record::new(b"a", b"3", TxId(7))]);

    let files = vec![file(0, &[]), corrupt, short, good];
    assert!(matches!(
        load_latest_entries::<MergePointer>(&files, b"gone"),
        Err(Error::CorruptRecord)
    ));
    let files = vec![files.into_iter().nth(2).unwrap(), file(1, &[])];
    assert!(matches!(
        load_latest_entries::<MergePointer>(&files, b"gone"),
        Err(Error::IoError(IoErrorKind::UnexpectedEof))
    ));
}

#[test]
fn entries_are_ordered_by_transaction_id_alone() {
    let early = MergePointer {
        liveness: Liveness::Live,
        file_id: FileId(9),
        tx_id: TxId(1),
        record_offset: 500,
        record_size: 30,
        key_size: KeySize(2),
        value_size: ValueSize(2),
    };
    let late = MergePointer { file_id: FileId(1), tx_id: TxId(2), record_offset: 0, ..early };
    let other = MergePointer { file_id: FileId(3), ..early };
    assert!(early < late);
    assert!(late > early);
    assert!(!(early < other) && !(early > other));
    assert_eq!(early.partial_cmp(&other), Some(std::cmp::Ordering::Equal));
    assert_ne!(early, other);

    let a = EntryWithLiveness {
        liveness: Liveness::Deleted,
        entry: b2::keydir::EntryPointer {
            file_id: FileId(1),
            value_position: 9,
            value_size: ValueSize(1),
            tx_id: TxId(7),
        },
    };
    let b = EntryWithLiveness {
        liveness: Liveness::Live,
        entry: b2::keydir::EntryPointer { tx_id: TxId(8), ..a.entry },
    };
    assert!(a < b);
    assert_eq!(b.partial_cmp(&a), Some(std::cmp::Ordering::Greater));
}

#[test]
fn record_keys_lists_the_key_of_every_record() {
    let data = file(
        1,
        &[
            Record::new(b"a", b"1", TxId(2)),
            Record::new(b"b", b"2", TxId(3)),
            Record::new(b"a", b"3", TxId(4)),
            Record::new(b"", b"", TxId(5)),
        ],
    )
    .bytes;
    let (keys, problem) = b2::loadable::record_keys(&data);
    assert_eq!(keys, vec![b"a".to_vec(), b"b".to_vec(), b"a".to_vec(), Vec::new()]);
    assert!(problem.is_none());

    let (keys, problem) = b2::loadable::record_keys(&[]);
    assert!(keys.is_empty());
    assert!(problem.is_none());
}

#[test]
fn record_keys_stops_at_the_first_record_that_cannot_be_read() {
    let mut data = file(
        1,
        &[
            Record::new(b"a", b"1", TxId(2)),
            Record::new(b"b", b"2", TxId(3)),
            Record::new(b"c", b"3", TxId(4)),
        ],
    )
    .bytes;
    data[28 + 27] ^= 1;
    let (keys, problem) = b2::loadable::record_keys(&data);
    assert_eq!(keys, vec![b"a".to_vec()]);
    assert!(matches!(problem, Some(Error::CorruptRecord)));

    data.truncate(28 + 10);
    let (keys, problem) = b2::loadable::record_keys(&data);
    assert_eq!(keys, vec![b"a".to_vec()]);
    assert!(matches!(problem, Some(Error::IoError(IoErrorKind::UnexpectedEof))));
}
