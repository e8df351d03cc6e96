use b2::base::{Base, Write};
use b2::error::{Error, IoErrorKind};
use b2::keydir::FileId;
use b2::loadable::DataFile;
use b2::record::{Record, TxId};
use b2::{FlushBehavior, Options};
use std::collections::BTreeMap;

/// A directory held in memory: file names and their bytes.
struct Disk {
    files: BTreeMap<String, Vec<u8>>,
    flushes: usize,
}

struct Db {
    base: Base,
}

fn empty_disk() -> Disk {
    Disk { files: BTreeMap::new(), flushes: 0 }
}

fn names(disk: &Disk) -> Vec<String> {
    disk.files.keys().cloned().collect()
}

fn data_files(disk: &Disk, ids: &[FileId]) -> Vec<DataFile> {
    ids.iter()
        .map(|id| DataFile { file_id: *id, bytes: disk.files[&id.to_string()].clone() })
        .collect()
}

fn open(disk: &mut Disk, options: Options) -> Result<Db, Error> {
    assert!(options.max_file_size_bytes > 0);
    let ids = Base::all_db_file_ids(&names(disk));
    let base = Base::new(data_files(disk, &ids), options)?;
    let name = base.active_file_id.to_string();
    assert!(!disk.files.contains_key(&name), "the active file exists already");
    disk.files.insert(name, Vec::new());
    Ok(Db { base })
}

fn apply(disk: &mut Disk, write: Write) {
    let file = disk.files.get_mut(&write.file_id.to_string()).unwrap();
    assert_eq!(file.len() as u64, write.offset);
    file.extend_from_slice(write.record.deref());
    if let Some(id) = write.rollover {
        disk.flushes += 1;
        assert!(disk.files.insert(id.to_string(), Vec::new()).is_none());
    }
    if write.flush {
        disk.flushes += 1;
    }
}

fn encode<T: serde::Serialize + ?Sized>(value: &T) -> Vec<u8> {
    bincode::serialize(value).unwrap()
}

fn insert<V: serde::Serialize>(db: &mut Db, disk: &mut Disk, k: &str, v: &V) {
    let write = db.base.insert(encode(k), &encode(v));
    apply(disk, write);
}

fn remove(db: &mut Db, disk: &mut Disk, k: &str) {
    if let Some(write) = db.base.remove(encode(k)) {
        apply(disk, write);
    }
}

fn get<V: serde::de::DeserializeOwned>(db: &Db, disk: &Disk, k: &str) -> Option<V> {
    let entry = db.base.get(&encode(k))?;
    let file = &disk.files[&entry.file_id.to_string()];
    let start = entry.value_position as usize;
    let end = start + entry.value_size.0 as usize;
    Some(bincode::deserialize(&file[start..end]).unwrap())
}

fn contains_key(db: &Db, k: &str) -> bool {
    db.base.contains_key(&encode(k))
}

fn merge(db: &mut Db, disk: &mut Disk) -> Result<(), Error> {
    let ids = Base::all_db_file_ids(&names(disk));
    let inactive = db.base.inactive_db_file_ids(ids);
    let files = data_files(disk, &inactive);
    let copies = db.base.merge(&files)?;
    for copy in copies {
        let source = &disk.files[&copy.source.to_string()];
        let start = copy.record_offset as usize;
        let bytes = source[start..start + copy.record_size as usize].to_vec();
        let target = disk.files.entry(b2::directory::merge_file_name(copy.target)).or_default();
        assert_eq!(target.len() as u64, copy.target_offset);
        target.extend_from_slice(&bytes);
    }
    let ids = Base::all_db_file_ids(&names(disk));
    for id in db.base.inactive_db_file_ids(ids) {
        disk.files.remove(&id.to_string());
    }
    for name in Base::merge_files(&names(disk)) {
        let bytes = disk.files.remove(&name).unwrap();
        if !bytes.is_empty() {
            disk.files.insert(b2::directory::merge_file_stem(&name).unwrap(), bytes);
        }
    }
    Ok(())
}

fn get_files(disk: &Disk) -> Vec<String> {
    names(disk)
}

#[test]
fn simple_roundtrip() {
    let mut dir = empty_disk();

    let mut db = open(&mut dir, Options::default()).unwrap();

    let k = "foo".to_string();
    let v = "bar".to_string();

    insert(&mut db, &mut dir, &k, &v);

    let challenge: String = get(&db, &dir, &k).unwrap();

    assert_eq!(challenge, v);
}

#[test]
fn simple_write_then_delete() {
    let mut dir = empty_disk();

    let mut db = open(&mut dir, Options::default()).unwrap();

    let k = "foo".to_string();
    let v = "bar".to_string();

    insert(&mut db, &mut dir, &k, &v);

    let challenge: String = get(&db, &dir, &k).unwrap();

    assert_eq!(challenge, v);

    remove(&mut db, &mut dir, &k);

    let challenge2: Option<String> = get(&db, &dir, &k);

    assert_eq!(challenge2, None);
}

#[test]
fn simple_write_then_drop_then_load() {
    let mut dir = empty_disk();

    let mut db = open(&mut dir, Options::default()).unwrap();

    let k = "foo".to_string();
    let v = "bar".to_string();

    insert(&mut db, &mut dir, &k, &v);

    let challenge: String = get(&db, &dir, &k).unwrap();

    assert_eq!(challenge, v);

    drop(db);

    let db = open(&mut dir, Options::default()).unwrap();

    let challenge: String = get(&db, &dir, &k).unwrap();

    assert_eq!(challenge, v);
    assert!(get_files(&dir).len() >= 2);
}

#[test]
fn delete_then_write() {
    let mut dir = empty_disk();

    let mut db = open(&mut dir, Options::default()).unwrap();

    let k = "foo".to_string();
    let v = "bar".to_string();

    assert!(!contains_key(&db, &k));

    // note that k has not been inserted yet
    remove(&mut db, &mut dir, &k);

    assert!(!contains_key(&db, &k));

    let challenge1: Option<String> = get(&db, &dir, &k);

    assert_eq!(challenge1, None);

    insert(&mut db, &mut dir, &k, &v);

    let challenge2: String = get(&db, &dir, &k).unwrap();

    assert_eq!(challenge2, v);

    drop(db);

    let db = open(&mut dir, Options::default()).unwrap();

    let challenge3: String = get(&db, &dir, &k).unwrap();

    assert_eq!(challenge3, v)
}

#[test]
fn varied_value_types_in_the_same_db() {
    let mut dir = empty_disk();

    let mut db = open(&mut dir, Options::default()).unwrap();

    let k1 = "foo".to_string();
    let k2 = "bar".to_string();
    let k3 = "baz".to_string();

    // three different types of values in the same db
    let v1: String = "bar".to_string();
    let v2: u32 = 99;
    let v3: [i128; 3] = [-1, -2, -3];

    insert(&mut db, &mut dir, &k1, &v1);
    insert(&mut db, &mut dir, &k2, &v2);
    insert(&mut db, &mut dir, &k3, &v3);

    let c1: String = get(&db, &dir, &k1).unwrap();
    assert_eq!(c1, v1);

    let c2: u32 = get(&db, &dir, &k2).unwrap();
    assert_eq!(c2, v2);

    let c3: [i128; 3] = get(&db, &dir, &k3).unwrap();
    assert_eq!(c3, v3);
}

#[test]
fn merge_simple() {
    let mut dir = empty_disk();

    let mut db = open(&mut dir, Options::default()).unwrap();

    let k = "some key".to_string();

    let v1 = "v1".to_string();
    let v2 = "v2".to_string();
    let v3 = "v3".to_string();

    insert(&mut db, &mut dir, &k, &v1);
    assert_eq!(get::<String>(&db, &dir, &k).unwrap(), v1);
    insert(&mut db, &mut dir, &k, &v2);
    assert_eq!(get::<String>(&db, &dir, &k).unwrap(), v2);
    insert(&mut db, &mut dir, &k, &v3);
    assert_eq!(get::<String>(&db, &dir, &k).unwrap(), v3);

    assert_eq!(get_files(&dir).len(), 1);

    drop(db);

    let mut db = open(&mut dir, Options::default()).unwrap();

    assert_eq!(get_files(&dir).len(), 2);

    assert_eq!(get::<String>(&db, &dir, &k).unwrap(), v3);

    merge(&mut db, &mut dir).unwrap();

    assert_eq!(get_files(&dir).len(), 2);

    assert_eq!(get::<String>(&db, &dir, &k).unwrap(), v3);
}

#[test]
fn merge_delete() {
    let mut dir = empty_disk();

    let mut db = open(&mut dir, Options::default()).unwrap();

    let k = "some key".to_string();

    let v1 = "v1".to_string();
    let v2 = "v2".to_string();
    let v3 = "v3".to_string();

    insert(&mut db, &mut dir, &k, &v1);
    assert_eq!(get::<String>(&db, &dir, &k).unwrap(), v1);
    insert(&mut db, &mut dir, &k, &v2);
    assert_eq!(get::<String>(&db, &dir, &k).unwrap(), v2);
    insert(&mut db, &mut dir, &k, &v3);
    assert_eq!(get::<String>(&db, &dir, &k).unwrap(), v3);

    remove(&mut db, &mut dir, &k);

    drop(db);

    let mut db = open(&mut dir, Options::default()).unwrap();

    merge(&mut db, &mut dir).unwrap();

    assert_eq!(contains_key(&db, &k), false);

    assert_eq!(get_files(&dir).len(), 1);
}

#[test]
fn merge_same_key() {
    let mut dir = empty_disk();

    let mut db = open(&mut dir, Options::default()).unwrap();

    let k = "some key".to_string();

    let v1 = "v1".to_string();
    let v2 = "v2".to_string();

    insert(&mut db, &mut dir, &k, &v1);

    drop(db);

    let mut db = open(&mut dir, Options::default()).unwrap();

    insert(&mut db, &mut dir, &k, &v2);

    merge(&mut db, &mut dir).unwrap();

    assert_eq!(get::<String>(&db, &dir, &k).unwrap(), v2);

    assert_eq!(get_files(&dir).len(), 1);
}

#[test]
fn opening_an_empty_directory_starts_at_file_1_and_tx_1() {
    let mut dir = empty_disk();
    let db = open(&mut dir, Options::default()).unwrap();
    assert_eq!(db.base.active_file_id, FileId(1));
    assert_eq!(db.base.offset, 0);
    assert_eq!(db.base.tx_id, TxId(1));
    assert_eq!(get_files(&dir), vec!["1".to_string()]);
    assert!(db.base.keys().is_empty());
}

#[test]
fn the_encoded_tombstone_is_the_bincode_form_of_the_text() {
    let mut dir = empty_disk();
    let db = open(&mut dir, Options::default()).unwrap();
    let mut expected = vec![17u8, 0, 0, 0, 0, 0, 0, 0];
    expected.extend_from_slice(b"bitcask_tombstone");
    assert_eq!(db.base.serialized_tombstone, expected);
    assert_ne!(&db.base.serialized_tombstone[..], &Record::tombstone()[..]);
}

#[test]
fn a_write_says_where_the_value_stands() {
    let mut dir = empty_disk();
    let mut db = open(&mut dir, Options::default()).unwrap();
    let key = encode("foo");
    let value = encode("bar");

    let write = db.base.insert(key.clone(), &value);
    assert_eq!(write.file_id, FileId(1));
    assert_eq!(write.offset, 0);
    assert_eq!(write.rollover, None);
    assert!(write.flush);
    assert_eq!(write.record.tx_id(), TxId(2));
    assert_eq!(write.record.key_bytes(), &key[..]);
    assert_eq!(write.record.value_bytes(), &value[..]);
    let size = 26 + key.len() as u64 + value.len() as u64;
    assert_eq!(write.record.len() as u64, size);

    let entry = db.base.get(&key).unwrap();
    assert_eq!(entry.file_id, FileId(1));
    assert_eq!(entry.value_position, 26 + key.len() as u64);
    assert_eq!(entry.value_size.0 as usize, value.len());
    assert_eq!(entry.tx_id, TxId(2));
    assert_eq!(db.base.offset, size);
    assert_eq!(db.base.tx_id, TxId(2));

    let write = db.base.insert(key.clone(), &value);
    assert_eq!(write.offset, size);
    assert_eq!(write.record.tx_id(), TxId(3));
    let entry = db.base.get(&key).unwrap();
    assert_eq!(entry.value_position, size + 26 + key.len() as u64);
    assert_eq!(entry.tx_id, TxId(3));
}

#[test]
fn transaction_ids_rise_in_file_order() {
    let mut dir = empty_disk();
    let mut db = open(&mut dir, Options::default()).unwrap();
    insert(&mut db, &mut dir, "a", &1u32);
    insert(&mut db, &mut dir, "b", &2u32);
    remove(&mut db, &mut dir, "a");
    insert(&mut db, &mut dir, "c", &3u32);

    let data = &dir.files["1"];
    let mut pos = 0;
    let mut seen = Vec::new();
    while let Some(record) = Record::read_from(data, pos).unwrap() {
        assert!(record.is_valid());
        seen.push(record.tx_id().0);
        pos += record.len();
    }
    assert_eq!(seen, vec![2, 3, 4, 5]);
}

#[test]
fn removing_writes_a_tombstone_and_forgets_the_key() {
    let mut dir = empty_disk();
    let mut db = open(&mut dir, Options::default()).unwrap();
    insert(&mut db, &mut dir, "foo", &"bar".to_string());
    let before = dir.files["1"].len();

    let write = db.base.remove(encode("foo")).unwrap();
    assert_eq!(write.record.value_bytes(), &db.base.serialized_tombstone[..]);
    assert_eq!(write.record.key_bytes(), &encode("foo")[..]);
    assert_eq!(write.offset as usize, before);
    apply(&mut dir, write);
    assert!(!contains_key(&db, "foo"));
    assert_eq!(db.base.get(&encode("foo")), None);

    // a second removal writes nothing
    let len = dir.files["1"].len();
    assert!(db.base.remove(encode("foo")).is_none());
    assert_eq!(dir.files["1"].len(), len);
    assert_eq!(db.base.tx_id, TxId(3));
}

#[test]
fn a_deleted_key_stays_deleted_after_reopening() {
    let mut dir = empty_disk();
    let mut db = open(&mut dir, Options::default()).unwrap();
    insert(&mut db, &mut dir, "foo", &"bar".to_string());
    insert(&mut db, &mut dir, "keep", &7u32);
    remove(&mut db, &mut dir, "foo");
    drop(db);

    let db = open(&mut dir, Options::default()).unwrap();
    assert!(!contains_key(&db, "foo"));
    assert_eq!(get::<u32>(&db, &dir, "keep"), Some(7));
    assert_eq!(db.base.keys(), vec![encode("keep")]);
    // the deletion holds the highest id: the counter goes on behind it
    assert_eq!(db.base.tx_id, TxId(5));
    assert_eq!(db.base.active_file_id, FileId(2));
}

#[test]
fn the_active_file_rolls_over_at_the_full_size() {
    let mut dir = empty_disk();
    let options = Options {
        max_file_size_bytes: 100,
        max_readers: 4,
        flush_behavior: FlushBehavior::WhenFull,
    };
    let mut db = open(&mut dir, options).unwrap();
    let key = encode("k");
    let value = vec![0u8; 10];
    let size = 26 + key.len() as u64 + 10;
    assert_eq!(size, 45);

    let write = db.base.insert(key.clone(), &value);
    assert_eq!(write.rollover, None);
    assert!(!write.flush);
    apply(&mut dir, write);
    let write = db.base.insert(key.clone(), &value);
    assert_eq!(write.rollover, None);
    apply(&mut dir, write);
    assert_eq!(db.base.offset, 90);

    // 135 bytes: the file is full, and closed behind this record
    let write = db.base.insert(key.clone(), &value);
    assert_eq!(write.file_id, FileId(1));
    assert_eq!(write.offset, 90);
    assert_eq!(write.rollover, Some(FileId(2)));
    apply(&mut dir, write);
    assert_eq!(db.base.active_file_id, FileId(2));
    assert_eq!(db.base.offset, 0);
    assert_eq!(dir.files["1"].len(), 135);
    assert_eq!(dir.files["2"].len(), 0);
    assert_eq!(db.base.get(&key).unwrap().file_id, FileId(1));

    let write = db.base.insert(key.clone(), &value);
    assert_eq!(write.file_id, FileId(2));
    assert_eq!(write.offset, 0);
    apply(&mut dir, write);
    let entry = db.base.get(&key).unwrap();
    assert_eq!(entry.file_id, FileId(2));
    assert_eq!(entry.value_position, 26 + key.len() as u64);
    let start = entry.value_position as usize;
    assert_eq!(&dir.files["2"][start..start + 10], &value[..]);
}

#[test]
fn a_record_that_fills_the_file_exactly_closes_it() {
    let mut dir = empty_disk();
    let options = Options {
        max_file_size_bytes: 30,
        max_readers: 4,
        flush_behavior: FlushBehavior::AfterEveryWrite,
    };
    let mut db = open(&mut dir, options).unwrap();
    let write = db.base.insert(vec![1u8, 2], &[3u8, 4]);
    assert_eq!(write.record.len(), 30);
    assert_eq!(write.rollover, Some(FileId(2)));
    assert!(write.flush);
    assert_eq!(db.base.offset, 0);
}

#[test]
fn opening_fails_on_a_corrupt_record() {
    let mut dir = empty_disk();
    let mut db = open(&mut dir, Options::default()).unwrap();
    insert(&mut db, &mut dir, "foo", &"bar".to_string());
    drop(db);
    let last = dir.files["1"].len() - 1;
    dir.files.get_mut("1").unwrap()[last] ^= 0x40;

    match open(&mut dir, Options::default()) {
        Err(Error::CorruptRecord) => {}
        Err(e) => panic!("another error: {:?}", e),
        Ok(_) => panic!("a corrupt file was opened"),
    }
}

#[test]
fn opening_fails_on_a_record_cut_short() {
    let mut dir = empty_disk();
    let mut db = open(&mut dir, Options::default()).unwrap();
    insert(&mut db, &mut dir, "foo", &"bar".to_string());
    drop(db);
    dir.files.get_mut("1").unwrap().pop();

    match open(&mut dir, Options::default()) {
        Err(Error::IoError(IoErrorKind::UnexpectedEof)) => {}
        Err(e) => panic!("another error: {:?}", e),
        Ok(_) => panic!("a file cut short was opened"),
    }
}

#[test]
fn names_that_are_no_ids_are_passed_over_at_start() {
    let mut dir = empty_disk();
    dir.files.insert("notes.txt".to_string(), b"not a record".to_vec());
    dir.files.insert("7.merge".to_string(), b"left over".to_vec());
    dir.files.insert("7".to_string(), Vec::new());
    let db = open(&mut dir, Options::default()).unwrap();
    assert_eq!(db.base.active_file_id, FileId(8));
    assert!(db.base.keys().is_empty());
}

#[test]
fn the_higher_transaction_id_wins_whatever_the_file() {
    // file 1 holds the later write, file 2 the earlier one
    let tombstone = {
        let mut dir = empty_disk();
        open(&mut dir, Options::default()).unwrap().base.serialized_tombstone
    };
    let later = Record::new(b"k", b"later", TxId(9));
    let earlier = Record::new(b"k", b"early", TxId(3));
    let files = vec![
        DataFile { file_id: FileId(2), bytes: earlier.deref().clone() },
        DataFile { file_id: FileId(1), bytes: later.deref().clone() },
    ];
    let base = Base::with_tombstone(files, Options::default(), tombstone).unwrap();
    let entry = base.get(b"k").unwrap();
    assert_eq!(entry.file_id, FileId(1));
    assert_eq!(entry.tx_id, TxId(9));
    assert_eq!(entry.value_position, 27);
    assert_eq!(entry.value_size.0, 5);
    assert_eq!(base.tx_id, TxId(10));
    assert_eq!(base.active_file_id, FileId(3));
}

#[test]
fn the_transaction_counter_stops_at_the_highest_id() {
    let record = Record::new(b"k", b"v", TxId(u128::MAX));
    let files = vec![DataFile { file_id: FileId(1), bytes: record.deref().clone() }];
    let base = Base::with_tombstone(files, Options::default(), b"gone".to_vec()).unwrap();
    assert_eq!(base.tx_id, TxId(u128::MAX));
}

#[test]
fn default_options() {
    let options = Options::default();
    assert_eq!(options.max_file_size_bytes, 268_435_456);
    assert_eq!(options.max_file_size_bytes, 2u64.pow(28));
    assert_eq!(options.max_readers, 536_870_911);
    assert_eq!(options.max_readers, u32::MAX >> 3);
    assert_eq!(options.flush_behavior, FlushBehavior::AfterEveryWrite);
    assert_eq!(FlushBehavior::default(), FlushBehavior::AfterEveryWrite);
}

#[test]
fn reopening_builds_the_index_that_was_left() {
    let mut dir = empty_disk();
    let options = Options {
        max_file_size_bytes: 120,
        max_readers: 4,
        flush_behavior: FlushBehavior::WhenFull,
    };
    let mut db = open(&mut dir, options).unwrap();
    for round in 0u32..5 {
        insert(&mut db, &mut dir, "a", &round);
        insert(&mut db, &mut dir, "b", &(round * 10));
        insert(&mut db, &mut dir, "c", &"text".to_string());
        if round % 2 == 0 {
            remove(&mut db, &mut dir, "b");
        }
    }
    insert(&mut db, &mut dir, "d", &1u8);
    assert!(get_files(&dir).len() > 2);

    let mut left: Vec<(Vec<u8>, b2::keydir::EntryPointer)> =
        db.base.keys().into_iter().map(|k| (k.clone(), db.base.get(&k).unwrap())).collect();
    left.sort_by(|x, y| x.0.cmp(&y.0));
    let tx_id = db.base.tx_id;
    drop(db);

    let db = open(&mut dir, options).unwrap();
    let mut found: Vec<(Vec<u8>, b2::keydir::EntryPointer)> =
        db.base.keys().into_iter().map(|k| (k.clone(), db.base.get(&k).unwrap())).collect();
    found.sort_by(|x, y| x.0.cmp(&y.0));
    assert_eq!(found, left);
    assert_eq!(get::<u32>(&db, &dir, "a"), Some(4));
    assert_eq!(get::<u32>(&db, &dir, "b"), None);
    assert_eq!(get::<String>(&db, &dir, "c"), Some("text".to_string()));
    assert_eq!(get::<u8>(&db, &dir, "d"), Some(1));
    assert_eq!(db.base.tx_id, TxId(tx_id.0 + 1));
}

#[test]
fn every_closed_file_holds_the_full_size_and_less_than_a_record_more() {
    let mut dir = empty_disk();
    let options = Options {
        max_file_size_bytes: 100,
        max_readers: 4,
        flush_behavior: FlushBehavior::WhenFull,
    };
    let mut db = open(&mut dir, options).unwrap();
    let mut largest = 0usize;
    for n in 0u32..40 {
        let value = vec![0u8; (n % 7) as usize * 9];
        let write = db.base.insert(encode(&n), &value);
        largest = largest.max(write.record.len());
        apply(&mut dir, write);
    }
    let active = db.base.active_file_id.to_string();
    let closed: Vec<usize> =
        dir.files.iter().filter(|(name, _)| **name != active).map(|(_, f)| f.len()).collect();
    assert!(closed.len() > 5);
    for size in closed {
        assert!(size >= 100);
        assert!(size < 100 + largest);
    }
}

#[test]
fn a_value_that_equals_the_encoded_tombstone_reads_as_a_deletion() {
    let mut dir = empty_disk();
    let mut db = open(&mut dir, Options::default()).unwrap();
    let tombstone = db.base.serialized_tombstone.clone();
    let write = db.base.insert(b"k".to_vec(), &tombstone);
    apply(&mut dir, write);
    assert!(db.base.contains_key(b"k"));
    drop(db);

    let db = open(&mut dir, Options::default()).unwrap();
    assert!(!db.base.contains_key(b"k"));
}

#[test]
fn a_key_written_again_after_a_deletion_and_a_restart_is_kept() {
    let mut dir = empty_disk();
    let mut db = open(&mut dir, Options::default()).unwrap();
    insert(&mut db, &mut dir, "k", &"v1".to_string());
    remove(&mut db, &mut dir, "k");
    assert_eq!(db.base.tx_id, TxId(3));
    drop(db);

    // the index is empty, and the counter still goes on behind the deletion
    let mut db = open(&mut dir, Options::default()).unwrap();
    assert!(!contains_key(&db, "k"));
    assert_eq!(db.base.tx_id, TxId(4));
    insert(&mut db, &mut dir, "k", &"v2".to_string());
    assert_eq!(db.base.get(&encode("k")).unwrap().tx_id, TxId(5));
    assert_eq!(get::<String>(&db, &dir, "k"), Some("v2".to_string()));
    drop(db);

    let db = open(&mut dir, Options::default()).unwrap();
    assert!(contains_key(&db, "k"));
    assert_eq!(get::<String>(&db, &dir, "k"), Some("v2".to_string()));
    assert_eq!(db.base.tx_id, TxId(6));
}

#[test]
fn transaction_ids_rise_across_files_and_restarts() {
    let mut dir = empty_disk();
    let options = Options {
        max_file_size_bytes: 60,
        max_readers: 4,
        flush_behavior: FlushBehavior::WhenFull,
    };
    for round in 0u32..4 {
        let mut db = open(&mut dir, options).unwrap();
        insert(&mut db, &mut dir, "a", &round);
        insert(&mut db, &mut dir, "b", &round);
        remove(&mut db, &mut dir, "a");
        remove(&mut db, &mut dir, "b");
    }
    let mut ids: Vec<u32> = dir.files.keys().map(|name| name.parse().unwrap()).collect();
    ids.sort();
    let mut seen: Vec<u128> = Vec::new();
    for id in ids {
        let data = &dir.files[&id.to_string()];
        let mut pos = 0;
        while let Some(record) = Record::read_from(data, pos).unwrap() {
            seen.push(record.tx_id().0);
            pos += record.len();
        }
    }
    assert_eq!(seen.len(), 16);
    assert!(seen.windows(2).all(|pair| pair[0] < pair[1]), "{:?}", seen);
}

#[test]
fn merge_keeps_a_key_deleted_that_was_deleted_in_the_active_file() {
    let mut dir = empty_disk();
    let mut db = open(&mut dir, Options::default()).unwrap();
    insert(&mut db, &mut dir, "k", &"v".to_string());
    insert(&mut db, &mut dir, "other", &1u32);
    drop(db);

    let mut db = open(&mut dir, Options::default()).unwrap();
    remove(&mut db, &mut dir, "k");
    assert_eq!(get::<String>(&db, &dir, "k"), None);

    merge(&mut db, &mut dir).unwrap();
    assert!(!contains_key(&db, "k"));
    assert_eq!(get::<String>(&db, &dir, "k"), None);
    assert_eq!(get::<u32>(&db, &dir, "other"), Some(1));
    drop(db);

    let db = open(&mut dir, Options::default()).unwrap();
    assert!(!contains_key(&db, "k"));
    assert_eq!(get::<u32>(&db, &dir, "other"), Some(1));
}

#[test]
fn merge_leaves_every_get_as_it_was() {
    let mut dir = empty_disk();
    let options = Options {
        max_file_size_bytes: 150,
        max_readers: 4,
        flush_behavior: FlushBehavior::WhenFull,
    };
    let mut db = open(&mut dir, options).unwrap();
    for round in 0u32..6 {
        insert(&mut db, &mut dir, "a", &round);
        insert(&mut db, &mut dir, "b", &format!("text {}", round));
        insert(&mut db, &mut dir, "c", &(round as u64));
        if round % 2 == 1 {
            remove(&mut db, &mut dir, "c");
        }
    }
    drop(db);
    let mut db = open(&mut dir, options).unwrap();
    insert(&mut db, &mut dir, "d", &7u8);
    remove(&mut db, &mut dir, "a");
    let keys = db.base.keys();

    merge(&mut db, &mut dir).unwrap();
    assert_eq!(db.base.keys(), keys);
    assert_eq!(get::<u32>(&db, &dir, "a"), None);
    assert_eq!(get::<String>(&db, &dir, "b"), Some("text 5".to_string()));
    assert_eq!(get::<u64>(&db, &dir, "c"), None);
    assert_eq!(get::<u8>(&db, &dir, "d"), Some(7));
    let active = db.base.active_file_id.to_string();
    assert!(dir.files.iter().all(|(name, bytes)| *name == active || !bytes.is_empty()));
    assert!(dir.files.keys().all(|name| FileId::from_str(name).is_ok()));

    // a second merge finds nothing to change
    let files = get_files(&dir);
    let contents: Vec<Vec<u8>> = dir.files.values().cloned().collect();
    merge(&mut db, &mut dir).unwrap();
    assert_eq!(get_files(&dir), files);
    assert_eq!(dir.files.values().cloned().collect::<Vec<_>>(), contents);
    assert_eq!(db.base.keys(), keys);
    drop(db);

    let db = open(&mut dir, options).unwrap();
    assert_eq!(get::<u32>(&db, &dir, "a"), None);
    assert_eq!(get::<String>(&db, &dir, "b"), Some("text 5".to_string()));
    assert_eq!(get::<u64>(&db, &dir, "c"), None);
    assert_eq!(get::<u8>(&db, &dir, "d"), Some(7));
}
