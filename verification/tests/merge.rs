use b2::base::Base;
use b2::error::Error;
use b2::keydir::{EntryPointer, FileId};
use b2::loadable::DataFile;
use b2::merge::MergeCopy;
use b2::record::{Record, TxId, ValueSize};
use b2::{FlushBehavior, Options};

fn file(id: u32, records: &[Record]) -> DataFile {
    let mut bytes = Vec::new();
    for record in records {
        bytes.extend_from_slice(record.deref());
    }
    DataFile { file_id: FileId(id), bytes }
}

fn options(max: u64) -> Options {
    Options { max_file_size_bytes: max, max_readers: 1, flush_behavior: FlushBehavior::WhenFull }
}

fn copy_of(files: &[DataFile]) -> Vec<DataFile> {
    files.iter().map(|f| DataFile { file_id: f.file_id, bytes: f.bytes.clone() }).collect()
}

fn start(files: &[DataFile], max: u64) -> Base {
    Base::with_tombstone(copy_of(files), options(max), b"gone".to_vec()).unwrap()
}

#[test]
fn merge_copies_the_latest_live_record_of_each_key() {
    let files = vec![
        file(
            1,
            &[
                Record::new(b"a", b"1", TxId(2)),
                Record::new(b"b", b"22", TxId(3)),
                Record::new(b"a", b"333", TxId(4)),
            ],
        ),
        file(2, &[Record::new(b"c", b"4", TxId(5)), Record::new(b"b", b"gone", TxId(6))]),
    ];
    let mut base = start(&files, 1000);
    assert_eq!(base.active_file_id, FileId(3));
    assert_eq!(base.keys(), vec![b"a".to_vec(), b"c".to_vec()]);

    let copies = base.merge(&files).unwrap();
    assert_eq!(
        copies,
        vec![
            MergeCopy {
                source: FileId(1),
                record_offset: 57,
                record_size: 30,
                target: FileId(2),
                target_offset: 0,
            },
            MergeCopy {
                source: FileId(2),
                record_offset: 0,
                record_size: 28,
                target: FileId(2),
                target_offset: 30,
            },
        ]
    );
    assert_eq!(
        base.get(b"a"),
        Some(EntryPointer {
            file_id: FileId(2),
            value_position: 27,
            value_size: ValueSize(3),
            tx_id: TxId(4),
        })
    );
    assert_eq!(
        base.get(b"c"),
        Some(EntryPointer {
            file_id: FileId(2),
            value_position: 30 + 27,
            value_size: ValueSize(1),
            tx_id: TxId(5),
        })
    );
    assert_eq!(base.get(b"b"), None);
    assert_eq!(base.active_file_id, FileId(3));
    assert_eq!(base.tx_id, TxId(7));
    assert_eq!(base.offset, 0);
}

#[test]
fn merge_goes_to_the_next_file_beyond_the_full_size() {
    let files = vec![
        file(1, &[Record::new(b"a", b"1", TxId(2)), Record::new(b"b", b"2", TxId(3))]),
        file(2, &[Record::new(b"c", b"3", TxId(4)), Record::new(b"d", b"4", TxId(5))]),
    ];
    // a record is 28 bytes: the first new file is beyond 30 after two
    let mut base = start(&files, 30);
    let copies = base.merge(&files).unwrap();
    let targets: Vec<(u32, u64)> = copies.iter().map(|c| (c.target.0, c.target_offset)).collect();
    assert_eq!(targets, vec![(2, 0), (2, 28), (1, 0), (1, 28)]);
    assert_eq!(base.get(b"c").unwrap().file_id, FileId(1));
    assert_eq!(base.get(b"c").unwrap().value_position, 27);
    assert_eq!(base.get(b"d").unwrap().value_position, 28 + 27);
}

#[test]
fn merge_stays_in_the_last_file_when_no_name_is_left() {
    let files = vec![file(
        1,
        &[
            Record::new(b"a", b"1", TxId(2)),
            Record::new(b"b", b"2", TxId(3)),
            Record::new(b"c", b"3", TxId(4)),
        ],
    )];
    let mut base = start(&files, 10);
    let copies = base.merge(&files).unwrap();
    let targets: Vec<(u32, u64)> = copies.iter().map(|c| (c.target.0, c.target_offset)).collect();
    assert_eq!(targets, vec![(1, 0), (1, 28), (1, 56)]);
}

#[test]
fn merge_passes_over_what_the_index_holds_later() {
    let files = vec![file(1, &[Record::new(b"a", b"1", TxId(2)), Record::new(b"b", b"2", TxId(3))])];
    let mut base = start(&files, 1000);
    let write = base.insert(b"a".to_vec(), b"new");
    assert_eq!(write.file_id, FileId(2));
    let pointer = base.get(b"a").unwrap();

    let copies = base.merge(&files).unwrap();
    assert_eq!(copies.len(), 1);
    assert_eq!(copies[0].record_offset, 28);
    assert_eq!(base.get(b"a"), Some(pointer));
    assert_eq!(base.get(b"b").unwrap().file_id, FileId(1));
    assert_eq!(base.get(b"b").unwrap().value_position, 27);
}

#[test]
fn merge_of_nothing_copies_nothing() {
    let mut base = start(&[], 1000);
    assert_eq!(base.merge(&Vec::new()).unwrap(), Vec::new());
    let files = vec![file(1, &[Record::new(b"a", b"gone", TxId(2))])];
    let mut base = start(&files, 1000);
    assert_eq!(base.merge(&files).unwrap(), Vec::new());
    assert!(base.keys().is_empty());
}

#[test]
fn merge_copies_no_more_than_the_files_hold() {
    let files = vec![
        file(1, &[Record::new(b"a", b"1", TxId(2)), Record::new(b"a", b"22", TxId(3))]),
        file(2, &[Record::new(b"b", b"333", TxId(4)), Record::new(b"a", b"4444", TxId(5))]),
    ];
    let total: u64 = files.iter().map(|f| f.bytes.len() as u64).sum();
    let mut base = start(&files, 1000);
    let copies = base.merge(&files).unwrap();
    let copied: u64 = copies.iter().map(|c| c.record_size).sum();
    assert_eq!(copied, 30 + 31);
    assert!(copied <= total);
    assert!(copies.iter().all(|c| c.record_size >= 26));
}

#[test]
fn merge_fails_on_a_corrupt_file_and_leaves_the_index() {
    let good = vec![file(1, &[Record::new(b"a", b"1", TxId(2))])];
    let mut base = start(&good, 1000);
    let before = base.get(b"a");
    let mut bad = copy_of(&good);
    bad[0].bytes[26] ^= 1;
    assert!(matches!(base.merge(&bad), Err(Error::CorruptRecord)));
    assert_eq!(base.get(b"a"), before);
}

#[test]
fn merge_leaves_behind_a_key_deleted_in_the_active_file() {
    // the key was deleted in the active file: the index holds nothing for it,
    // and its record in the inactive file is not copied
    let files = vec![file(1, &[Record::new(b"a", b"1", TxId(2)), Record::new(b"b", b"2", TxId(3))])];
    let mut base = start(&files, 1000);
    assert!(base.remove(b"a".to_vec()).is_some());
    assert!(!base.contains_key(b"a"));

    let copies = base.merge(&files).unwrap();
    assert_eq!(copies.len(), 1);
    assert_eq!(copies[0].record_offset, 28);
    assert!(!base.contains_key(b"a"));
    assert_eq!(base.get(b"a"), None);
    assert_eq!(base.keys(), vec![b"b".to_vec()]);
}

#[test]
fn merge_leaves_the_keys_and_their_writes_as_they_were() {
    let files = vec![
        file(1, &[Record::new(b"a", b"1", TxId(2)), Record::new(b"b", b"2", TxId(3))]),
        file(2, &[Record::new(b"c", b"3", TxId(4)), Record::new(b"b", b"gone", TxId(5))]),
    ];
    let mut base = start(&files, 1000);
    base.insert(b"d".to_vec(), b"4");
    base.remove(b"c".to_vec());
    let keys = base.keys();
    let writes: Vec<_> = keys.iter().map(|k| base.get(k).unwrap().tx_id).collect();
    assert_eq!(keys, vec![b"a".to_vec(), b"d".to_vec()]);

    let copies = base.merge(&files).unwrap();
    assert_eq!(copies.len(), 1);
    assert_eq!(base.keys(), keys);
    let after: Vec<_> = keys.iter().map(|k| base.get(k).unwrap().tx_id).collect();
    assert_eq!(after, writes);
    assert_eq!(base.get(b"d").unwrap().file_id, FileId(3));
}

#[test]
fn merge_copies_a_record_with_the_same_transaction_id_as_the_index() {
    let files = vec![file(1, &[Record::new(b"a", b"1", TxId(2))])];
    let mut base = start(&files, 1000);
    assert_eq!(base.get(b"a").unwrap().tx_id, TxId(2));
    let copies = base.merge(&files).unwrap();
    assert_eq!(copies.len(), 1);
}
