use b2::base::{sort_files, Base};
use b2::directory::{has_merge_extension, merge_file_name, merge_file_stem};
use b2::keydir::FileId;
use b2::loadable::DataFile;
use b2::Options;
use std::path::Path;

fn names(list: &[&str]) -> Vec<String> {
    list.iter().map(|s| s.to_string()).collect()
}

#[test]
fn all_db_file_ids_keeps_the_names_that_are_ids() {
    let ids = Base::all_db_file_ids(&names(&["3", "notes", "1.merge", "", "12", "x1", "2"]));
    assert_eq!(ids, vec![FileId(3), FileId(12), FileId(2)]);
    assert_eq!(Base::all_db_file_ids(&Vec::new()), Vec::<FileId>::new());
}

#[test]
fn inactive_db_file_ids_leaves_the_active_file_out() {
    let base = Base::with_tombstone(
        vec![DataFile { file_id: FileId(4), bytes: Vec::new() }],
        Options::default(),
        b"gone".to_vec(),
    )
    .unwrap();
    assert_eq!(base.active_file_id, FileId(5));
    let ids = base.inactive_db_file_ids(vec![FileId(5), FileId(1), FileId(4), FileId(5)]);
    assert_eq!(ids, vec![FileId(1), FileId(4)]);
}

#[test]
fn merge_files_keeps_the_names_with_the_extension() {
    let found = Base::merge_files(&names(&["1", "1.merge", ".merge", "a.b.merge", "merge", "2.merge2"]));
    assert_eq!(found, names(&["1.merge", "a.b.merge"]));
}

#[test]
fn the_merge_extension_is_told_as_paths_tell_it() {
    for name in ["1.merge", ".merge", "merge", "x.merge", "1.MERGE", "1.merge.", "a.b.merge", "é.merge", ""] {
        let expected = Path::new(name).extension().map(|e| e == "merge").unwrap_or(false);
        assert_eq!(has_merge_extension(name), expected, "{:?}", name);
        let stem = if expected {
            Some(Path::new(name).file_stem().unwrap().to_str().unwrap().to_string())
        } else {
            None
        };
        assert_eq!(merge_file_stem(name), stem, "{:?}", name);
    }
}

#[test]
fn merge_file_names_lead_back_to_their_ids() {
    assert_eq!(merge_file_name(FileId(7)), "7.merge");
    assert_eq!(merge_file_name(FileId(120)), "120.merge");
    assert_eq!(merge_file_stem("120.merge"), Some("120".to_string()));
    for n in [0u32, 5, 10, u32::MAX] {
        let stem = merge_file_stem(&merge_file_name(FileId(n))).unwrap();
        assert_eq!(FileId::from_str(&stem), Ok(FileId(n)));
    }
}

#[test]
fn sort_files_orders_by_id_and_keeps_equal_ids_in_order() {
    let mut files: Vec<DataFile> = [(3u32, 0u8), (1, 1), (2, 2), (1, 3), (0, 4), (3, 5)]
        .iter()
        .map(|(id, tag)| DataFile { file_id: FileId(*id), bytes: vec![*tag] })
        .collect();
    sort_files(&mut files);
    let order: Vec<(u32, u8)> = files.iter().map(|f| (f.file_id.0, f.bytes[0])).collect();
    assert_eq!(order, vec![(0, 4), (1, 1), (1, 3), (2, 2), (3, 0), (3, 5)]);

    let mut none: Vec<DataFile> = Vec::new();
    sort_files(&mut none);
    assert!(none.is_empty());
}
