use b2::error::ParseIntError;
use b2::keydir::{EntryPointer, EntryWithLiveness, FileId, Keydir, Liveness};
use b2::keymap::KeyMap;
use b2::loadable::Loadable;
use b2::record::{Record, TxId, ValueSize};

fn pointer(file: u32, position: u64, tx: u128) -> EntryPointer {
    EntryPointer {
        file_id: FileId(file),
        value_position: position,
        value_size: ValueSize(3),
        tx_id: TxId(tx),
    }
}

fn empty_keydir() -> Keydir {
    Keydir::new(KeyMap::new())
}

#[test]
fn keydir_insert_returns_the_previous_pointer() {
    let mut keydir = empty_keydir();
    assert_eq!(keydir.insert(b"a".to_vec(), pointer(1, 10, 1)), None);
    assert_eq!(keydir.insert(b"b".to_vec(), pointer(1, 20, 2)), None);
    assert_eq!(keydir.insert(b"a".to_vec(), pointer(2, 30, 3)), Some(pointer(1, 10, 1)));
    assert_eq!(keydir.get(b"a"), Some(&pointer(2, 30, 3)));
    assert_eq!(keydir.get(b"b"), Some(&pointer(1, 20, 2)));
    assert_eq!(keydir.get(b"c"), None);
    assert_eq!(keydir.get(b""), None);
}

#[test]
fn keydir_remove_returns_the_previous_pointer() {
    let mut keydir = empty_keydir();
    keydir.insert(b"a".to_vec(), pointer(1, 10, 1));
    keydir.insert(b"b".to_vec(), pointer(1, 20, 2));
    assert_eq!(keydir.remove(b"c"), None);
    assert_eq!(keydir.remove(b"a"), Some(pointer(1, 10, 1)));
    assert_eq!(keydir.remove(b"a"), None);
    assert!(!keydir.contains_key(b"a"));
    assert!(keydir.contains_key(b"b"));
    assert_eq!(keydir.keys(), vec![b"b".to_vec()]);
}

#[test]
fn keydir_keys_come_in_the_order_of_first_insertion() {
    let mut keydir = empty_keydir();
    keydir.insert(b"b".to_vec(), pointer(1, 0, 1));
    keydir.insert(b"a".to_vec(), pointer(1, 0, 2));
    keydir.insert(b"c".to_vec(), pointer(1, 0, 3));
    keydir.insert(b"a".to_vec(), pointer(1, 0, 4));
    assert_eq!(keydir.keys(), vec![b"b".to_vec(), b"a".to_vec(), b"c".to_vec()]);
    keydir.remove(b"b");
    assert_eq!(keydir.keys(), vec![b"a".to_vec(), b"c".to_vec()]);
}

#[test]
fn keydir_latest_tx_id_is_the_highest() {
    let mut keydir = empty_keydir();
    assert_eq!(keydir.latest_tx_id(), None);
    keydir.insert(b"a".to_vec(), pointer(1, 0, 5));
    assert_eq!(keydir.latest_tx_id(), Some(TxId(5)));
    keydir.insert(b"b".to_vec(), pointer(1, 0, 9));
    keydir.insert(b"c".to_vec(), pointer(1, 0, 7));
    assert_eq!(keydir.latest_tx_id(), Some(TxId(9)));
    keydir.remove(b"b");
    assert_eq!(keydir.latest_tx_id(), Some(TxId(7)));
    keydir.insert(b"d".to_vec(), pointer(1, 0, 0));
    assert_eq!(keydir.latest_tx_id(), Some(TxId(7)));
}

#[test]
fn keys_that_differ_in_length_only_are_different_keys() {
    let mut keydir = empty_keydir();
    keydir.insert(b"ab".to_vec(), pointer(1, 0, 1));
    assert!(!keydir.contains_key(b"a"));
    assert!(!keydir.contains_key(b"abc"));
    assert!(keydir.contains_key(b"ab"));
}

#[test]
fn keymap_tells_places_and_values() {
    let mut map: KeyMap<u32> = KeyMap::new();
    assert_eq!(map.len(), 0);
    assert_eq!(map.insert(b"x".to_vec(), 1), None);
    assert_eq!(map.insert(b"y".to_vec(), 2), None);
    assert_eq!(map.insert(b"x".to_vec(), 3), Some(1));
    assert_eq!(map.len(), 2);
    assert_eq!(map.find(b"x"), Some(0));
    assert_eq!(map.find(b"y"), Some(1));
    assert_eq!(map.find(b"z"), None);
    assert_eq!(map.key_at(0), b"x");
    assert_eq!(*map.value_at(0), 3);
    assert_eq!(map.key_at(1), b"y");
    assert_eq!(*map.value_at(1), 2);
    assert_eq!(map.remove(b"x"), Some(3));
    assert_eq!(map.find(b"y"), Some(0));
    assert_eq!(map.get(b"y"), Some(&2));
    assert_eq!(map.keys(), vec![b"y".to_vec()]);
}

#[test]
fn file_id_reads_decimal_names() {
    assert_eq!(FileId::from_str("0"), Ok(FileId(0)));
    assert_eq!(FileId::from_str("1"), Ok(FileId(1)));
    assert_eq!(FileId::from_str("42"), Ok(FileId(42)));
    assert_eq!(FileId::from_str("007"), Ok(FileId(7)));
    assert_eq!(FileId::from_str("+5"), Ok(FileId(5)));
    assert_eq!(FileId::from_str("4294967295"), Ok(FileId(u32::MAX)));
}

#[test]
fn file_id_refuses_other_names() {
    assert_eq!(FileId::from_str(""), Err(ParseIntError::Empty));
    assert_eq!(FileId::from_str("+"), Err(ParseIntError::InvalidDigit));
    assert_eq!(FileId::from_str("-"), Err(ParseIntError::InvalidDigit));
    assert_eq!(FileId::from_str("-1"), Err(ParseIntError::InvalidDigit));
    assert_eq!(FileId::from_str("1.merge"), Err(ParseIntError::InvalidDigit));
    assert_eq!(FileId::from_str("12a"), Err(ParseIntError::InvalidDigit));
    assert_eq!(FileId::from_str(" 1"), Err(ParseIntError::InvalidDigit));
    assert_eq!(FileId::from_str("++1"), Err(ParseIntError::InvalidDigit));
    assert_eq!(FileId::from_str("\u{0663}"), Err(ParseIntError::InvalidDigit));
    assert_eq!(FileId::from_str("4294967296"), Err(ParseIntError::PosOverflow));
    assert_eq!(FileId::from_str("99999999999"), Err(ParseIntError::PosOverflow));
    // what comes first decides
    assert_eq!(FileId::from_str("99999999999x"), Err(ParseIntError::PosOverflow));
    assert_eq!(FileId::from_str("9x99999999999"), Err(ParseIntError::InvalidDigit));
}

#[test]
fn file_id_reads_as_the_standard_library_does() {
    for name in ["0", "10", "+10", "0010", "4294967295", "4294967296", "", "+", "-3", "1e3", "٣"] {
        assert_eq!(FileId::from_str(name).ok().map(|id| id.0), name.parse::<u32>().ok(), "{}", name);
    }
}

#[test]
fn file_id_to_string_is_decimal() {
    assert_eq!(FileId(0).to_string(), "0");
    assert_eq!(FileId(7).to_string(), "7");
    assert_eq!(FileId(10).to_string(), "10");
    assert_eq!(FileId(1203).to_string(), "1203");
    assert_eq!(FileId(u32::MAX).to_string(), "4294967295");
    for n in [0u32, 9, 10, 99, 100, 101, 65535, 1_000_000_000, u32::MAX] {
        assert_eq!(FileId(n).to_string(), n.to_string());
        assert_eq!(FileId::from_str(&FileId(n).to_string()), Ok(FileId(n)));
    }
}

#[test]
fn file_id_arithmetic() {
    let mut id = FileId::from(3u32);
    assert_eq!(id.add(1), FileId(4));
    id.add_assign(2);
    assert_eq!(id, FileId(5));
    assert_eq!(*id.deref(), 5);
    assert!(FileId(2) < FileId(10));
}

#[test]
fn entry_with_liveness_read_one_points_at_the_value() {
    let first = Record::new(b"key", b"value", TxId(4));
    let second = Record::new(b"k2", b"gone", TxId(5));
    let mut data = first.deref().clone();
    data.extend_from_slice(second.deref());
    let mut offset = 0u64;

    let (key, entry) =
        EntryWithLiveness::read_one(&data, &mut offset, FileId(3), b"gone").unwrap().unwrap();
    assert_eq!(key, b"key");
    assert_eq!(
        entry,
        EntryWithLiveness {
            liveness: Liveness::Live,
            entry: EntryPointer {
                file_id: FileId(3),
                value_position: 26 + 3,
                value_size: ValueSize(5),
                tx_id: TxId(4),
            },
        }
    );
    assert_eq!(offset, 34);
    assert_eq!(entry.tx_id(), TxId(4));

    let (key, entry) =
        EntryWithLiveness::read_one(&data, &mut offset, FileId(3), b"gone").unwrap().unwrap();
    assert_eq!(key, b"k2");
    assert_eq!(entry.liveness, Liveness::Deleted);
    assert_eq!(entry.entry.value_position, 34 + 26 + 2);
    assert_eq!(offset, 34 + 32);

    assert!(EntryWithLiveness::read_one(&data, &mut offset, FileId(3), b"gone").unwrap().is_none());
    assert_eq!(offset, 34 + 32);
}
