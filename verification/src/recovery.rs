//! Why the data files always lead back to the index: what a start-up reads
//! from the files after a write is what the index holds after that write.

use crate::base::{
    ascending, lemma_live_entries, lemma_sorted_by_id, live_entries, sorted_by_id, Base, Write,
};
use crate::error::{Error, IoErrorKind};
use crate::keydir::{EntryPointer, EntryWithLiveness, FileId, Liveness};
use crate::keymap::{
    delete, distinct_keys, has_key, lemma_delete, lemma_position, lemma_put, position, put, to_map,
    value_of,
};
use crate::merge::{
    lemma_merge_keeps_keys, lemma_merge_keeps_writes, merge_fold, merge_start,
};
use crate::merge_pointer::MergePointer;
use crate::loadable::{
    file_entries, fold_latest, latest_entries, lemma_fold_latest_distinct, scan_from,
    valid_record_at, DataFile, Loadable,
};
use crate::endian::{lemma_be_value_bound, lemma_pow256_values};
use crate::record::{
    image_key, image_key_size, image_tx_id, image_valid, image_value, image_value_size,
    lemma_image_of, lemma_record_at_well_formed, record_at, record_size_at, well_formed,
    HEADER_SIZE,
};
use crate::Options;
use vstd::prelude::*;

verus! {

/// A record appended to a file that reads to its end adds its entry to the
/// file's entries, behind all the others.
pub proof fn lemma_scan_append<L: Loadable>(
    data: Seq<u8>,
    img: Seq<u8>,
    offset: nat,
    file_id: FileId,
    serialized_tombstone: Seq<u8>,
    acc: Seq<(Seq<u8>, L)>,
)
    requires
        offset <= data.len(),
        scan_from::<L>(data, offset, file_id, serialized_tombstone, acc) is Ok,
        well_formed(img),
        image_valid(img),
    ensures
        scan_from::<L>(data + img, offset, file_id, serialized_tombstone, acc) == Ok::<
            Seq<(Seq<u8>, L)>,
            Error,
        >(
            put(
                scan_from::<L>(data, offset, file_id, serialized_tombstone, acc)->Ok_0,
                image_key(img),
                L::of_record(img, data.len(), file_id, serialized_tombstone),
            ),
        ),
    decreases data.len() - offset,
{
    let longer = data + img;
    let pos = offset as int;
    if offset == data.len() {
        assert(longer.subrange(pos + 20, pos + 22) =~= img.subrange(20, 22));
        assert(longer.subrange(pos + 22, pos + 26) =~= img.subrange(22, 26));
        assert(record_size_at(longer, pos) == img.len());
        assert(longer.subrange(pos, pos + img.len()) =~= img);
        assert(valid_record_at(longer, offset) == Ok::<Option<Seq<u8>>, Error>(Some(img)));
        let next = offset + img.len();
        let acc2 = put(
            acc,
            image_key(img),
            L::of_record(img, offset, file_id, serialized_tombstone),
        );
        assert(record_at(longer, next as int) == Ok::<
            Option<Seq<u8>>,
            IoErrorKind,
        >(None));
        assert(scan_from::<L>(longer, next, file_id, serialized_tombstone, acc2) == Ok::<
            Seq<(Seq<u8>, L)>,
            Error,
        >(acc2));
    } else {
        assert(data.subrange(pos + 20, pos + 22) =~= longer.subrange(pos + 20, pos + 22));
        assert(data.subrange(pos + 22, pos + 26) =~= longer.subrange(pos + 22, pos + 26));
        let size = record_size_at(data, pos);
        assert(record_size_at(longer, pos) == size);
        assert(data.subrange(pos, pos + size) =~= longer.subrange(pos, pos + size));
        let found = data.subrange(pos, pos + size);
        assert(valid_record_at(longer, offset) == valid_record_at(data, offset));
        lemma_scan_append::<L>(
            data,
            img,
            offset + size,
            file_id,
            serialized_tombstone,
            put(
                acc,
                image_key(found),
                L::of_record(found, offset, file_id, serialized_tombstone),
            ),
        );
    }
}

/// Scanning keeps the keys distinct.
pub proof fn lemma_scan_distinct<L: Loadable>(
    data: Seq<u8>,
    offset: nat,
    file_id: FileId,
    serialized_tombstone: Seq<u8>,
    acc: Seq<(Seq<u8>, L)>,
)
    requires
        distinct_keys(acc),
        scan_from::<L>(data, offset, file_id, serialized_tombstone, acc) is Ok,
    ensures
        distinct_keys(scan_from::<L>(data, offset, file_id, serialized_tombstone, acc)->Ok_0),
    decreases data.len() - offset,
{
    match valid_record_at(data, offset) {
        Ok(Some(img)) => {
            let entry = L::of_record(img, offset, file_id, serialized_tombstone);
            lemma_put(acc, image_key(img), entry);
            lemma_scan_distinct::<L>(
                data,
                offset + record_size_at(data, offset as int),
                file_id,
                serialized_tombstone,
                put(acc, image_key(img), entry),
            );
        },
        _ => {},
    }
}

/// The latest entries of any files hold no key twice.
pub proof fn lemma_latest_entries_distinct<L: Loadable>(
    files: Seq<DataFile>,
    serialized_tombstone: Seq<u8>,
)
    requires
        latest_entries::<L>(files, serialized_tombstone) is Ok,
    ensures
        distinct_keys(latest_entries::<L>(files, serialized_tombstone)->Ok_0),
    decreases files.len(),
{
    if files.len() > 0 {
        lemma_latest_entries_distinct::<L>(files.drop_last(), serialized_tombstone);
        lemma_fold_latest_distinct(
            latest_entries::<L>(files.drop_last(), serialized_tombstone)->Ok_0,
            file_entries::<L>(
                files.last().bytes@,
                files.last().file_id,
                serialized_tombstone,
            )->Ok_0,
        );
    }
}

/// Of two maps, what `later` holds where it holds something later than
/// `earlier`, or something for a key that `earlier` lacks; and what `earlier`
/// holds elsewhere.
pub open spec fn later_of<L: Loadable>(
    earlier: Map<Seq<u8>, L>,
    later: Map<Seq<u8>, L>,
) -> Map<Seq<u8>, L> {
    Map::new(
        |key: Seq<u8>| earlier.contains_key(key) || later.contains_key(key),
        |key: Seq<u8>|
            if later.contains_key(key) && (!earlier.contains_key(key) || later[key].order()
                > earlier[key].order()) {
                later[key]
            } else {
                earlier[key]
            },
    )
}

/// Folding the entries of a file into what earlier files gave keeps, key by
/// key, the later of the two.
pub proof fn lemma_fold_latest_map<L: Loadable>(
    acc: Seq<(Seq<u8>, L)>,
    entries: Seq<(Seq<u8>, L)>,
)
    requires
        distinct_keys(acc),
        distinct_keys(entries),
    ensures
        distinct_keys(fold_latest(acc, entries)),
        to_map(fold_latest(acc, entries)) == later_of(to_map(acc), to_map(entries)),
    decreases entries.len(),
{
    lemma_fold_latest_distinct(acc, entries);
    let folded = fold_latest(acc, entries);
    if entries.len() == 0 {
        assert forall|key: Seq<u8>| !#[trigger] has_key(entries, key) by {}
        assert(to_map(folded) =~= later_of(to_map(acc), to_map(entries)));
    } else {
        let front = entries.drop_last();
        let last = entries.len() - 1;
        let key = entries.last().0;
        let entry = entries.last().1;
        assert forall|i: int| 0 <= i < front.len() implies #[trigger] front[i] == entries[i] by {}
        assert(distinct_keys(front)) by {
            assert forall|i: int, j: int| 0 <= i < j < front.len() implies (#[trigger] front[i]).0
                != (#[trigger] front[j]).0 by {
                assert(entries[i].0 != entries[j].0);
            }
        }
        lemma_fold_latest_map(acc, front);
        let mid = fold_latest(acc, front);
        assert(!has_key(front, key)) by {
            if has_key(front, key) {
                let w = position(front, key);
                assert(entries[w].0 != entries[last].0);
            }
        }
        assert(entries =~= put(front, key, entry));
        lemma_put(front, key, entry);
        lemma_put(mid, key, entry);
        assert(to_map(mid).contains_key(key) == to_map(acc).contains_key(key));
        assert(to_map(folded) =~= later_of(to_map(acc), to_map(entries))) by {
            assert forall|other: Seq<u8>|
                to_map(folded).contains_key(other) == later_of(
                    to_map(acc),
                    to_map(entries),
                ).contains_key(other) by {
                if other != key {
                    assert(has_key(folded, other) == has_key(mid, other));
                    assert(has_key(entries, other) == has_key(front, other));
                    assert(to_map(mid).contains_key(other) == (to_map(acc).contains_key(other)
                        || to_map(front).contains_key(other)));
                }
            }
            assert forall|other: Seq<u8>| #[trigger]
                to_map(folded).contains_key(other) implies to_map(folded)[other] == later_of(
                to_map(acc),
                to_map(entries),
            )[other] by {
                if other != key {
                    assert(has_key(entries, other) == has_key(front, other));
                    assert(has_key(folded, other) == has_key(mid, other));
                    assert(to_map(mid)[other] == later_of(to_map(acc), to_map(front))[other]);
                    if has_key(front, other) {
                        assert(value_of(entries, other) == value_of(front, other));
                    }
                    assert(value_of(folded, other) == value_of(mid, other));
                } else {
                    if has_key(mid, key) {
                        assert(to_map(mid)[key] == later_of(to_map(acc), to_map(front))[key]);
                        assert(value_of(mid, key) == value_of(acc, key));
                    }
                }
            }
        }
    }
}

/// Files that are in the order of their ids are sorted already.
pub proof fn lemma_sorted_ascending(files: Seq<DataFile>)
    requires
        ascending(files),
    ensures
        sorted_by_id(files) == files,
    decreases files.len(),
{
    if files.len() > 0 {
        let front = files.drop_last();
        assert(ascending(front));
        lemma_sorted_ascending(front);
        if front.len() > 0 {
            assert(files[front.len() - 1].file_id@ <= files[files.len() - 1].file_id@);
        }
        assert(files =~= front.push(files.last()));
    }
}

/// What is read from files depends on their ids and bytes alone.
pub proof fn lemma_latest_entries_same<L: Loadable>(
    files: Seq<DataFile>,
    others: Seq<DataFile>,
    serialized_tombstone: Seq<u8>,
)
    requires
        files.len() == others.len(),
        forall|i: int|
            0 <= i < files.len() ==> (#[trigger] files[i]).file_id == others[i].file_id
                && files[i].bytes@ == others[i].bytes@,
    ensures
        latest_entries::<L>(files, serialized_tombstone) == latest_entries::<L>(
            others,
            serialized_tombstone,
        ),
    decreases files.len(),
{
    if files.len() > 0 {
        let last = files.len() - 1;
        assert(files[last].file_id == others[last].file_id && files[last].bytes@
            == others[last].bytes@);
        assert forall|i: int| 0 <= i < files.drop_last().len() implies (
        #[trigger] files.drop_last()[i]).file_id == others.drop_last()[i].file_id
            && files.drop_last()[i].bytes@ == others.drop_last()[i].bytes@ by {
            assert(files[i].file_id == others[i].file_id);
        }
        lemma_latest_entries_same::<L>(files.drop_last(), others.drop_last(), serialized_tombstone);
    }
}

/// The pointers of the keys that `entries` holds with a record that stores
/// a value.
pub open spec fn live_map(entries: Map<Seq<u8>, EntryWithLiveness>) -> Map<Seq<u8>, EntryPointer> {
    Map::new(
        |key: Seq<u8>| entries.contains_key(key) && entries[key].liveness == Liveness::Live,
        |key: Seq<u8>| entries[key].entry,
    )
}

/// The index that a start-up builds from the files `disk`.
pub open spec fn recovered(disk: Seq<DataFile>, serialized_tombstone: Seq<u8>) -> Result<
    Map<Seq<u8>, EntryPointer>,
    Error,
> {
    match latest_entries::<EntryWithLiveness>(sorted_by_id(disk), serialized_tombstone) {
        Ok(entries) => Ok(to_map(live_entries(entries))),
        Err(e) => Err(e),
    }
}

/// Nothing that is read from the files `disk` is later than the engine's
/// transaction id: the next write is later than all of it.
pub open spec fn covered(base: Base, disk: Seq<DataFile>) -> bool {
    latest_entries::<EntryWithLiveness>(sorted_by_id(disk), base.serialized_tombstone@) matches Ok(
        read,
    ) && forall|i: int| 0 <= i < read.len() ==> (#[trigger] read[i]).1.entry.tx_id@ <= base.tx_id@
}

/// The files `disk` hold what the engine's index holds: they are in the order
/// of their ids, the last is the active file, as long as the engine says, a
/// start-up on them builds the index that the engine has, and nothing in them
/// is later than the engine's transaction id.
pub open spec fn consistent(base: Base, disk: Seq<DataFile>) -> bool {
    &&& base.wf()
    &&& disk.len() > 0
    &&& ascending(disk)
    &&& disk.last().file_id == base.active_file_id
    &&& disk.last().bytes@.len() == base.offset
    &&& recovered(disk, base.serialized_tombstone@) == Ok::<Map<Seq<u8>, EntryPointer>, Error>(
        base.keydir@,
    )
    &&& covered(base, disk)
}

/// The files `after` are the files `before` with `write` done to them: the
/// record appended to the last file, and the next file begun where the write
/// closes that one.
pub open spec fn written_to(before: Seq<DataFile>, after: Seq<DataFile>, write: Write) -> bool {
    let n = before.len() as int;
    &&& n > 0
    &&& after.len() == if write.rollover is Some {
        n + 1
    } else {
        n
    }
    &&& forall|i: int| 0 <= i < n - 1 ==> #[trigger] after[i] == before[i]
    &&& after[n - 1].file_id == before[n - 1].file_id
    &&& after[n - 1].bytes@ == before[n - 1].bytes@ + write.record@
    &&& write.rollover matches Some(id) ==> after[n].file_id == id && after[n].bytes@.len() == 0
}

/// The live entries, taken as a map.
pub proof fn lemma_live_map(entries: Seq<(Seq<u8>, EntryWithLiveness)>)
    requires
        distinct_keys(entries),
    ensures
        to_map(live_entries(entries)) == live_map(to_map(entries)),
{
    lemma_live_entries(entries);
    assert forall|key: Seq<u8>|
        to_map(live_entries(entries)).contains_key(key) == live_map(to_map(entries)).contains_key(
            key,
        ) by {
        assert(to_map(live_entries(entries)).contains_key(key) == has_key(
            live_entries(entries),
            key,
        ));
    }
    assert forall|key: Seq<u8>| #[trigger]
        to_map(live_entries(entries)).contains_key(key) implies to_map(live_entries(entries))[key]
        == live_map(to_map(entries))[key] by {
        assert(has_key(live_entries(entries), key));
    }
    assert(to_map(live_entries(entries)) =~= live_map(to_map(entries)));
}

/// An empty file at the end adds nothing to what is read.
pub proof fn lemma_empty_file_last<L: Loadable>(files: Seq<DataFile>, serialized_tombstone: Seq<u8>)
    requires
        files.len() > 0,
        files.last().bytes@.len() == 0,
    ensures
        latest_entries::<L>(files, serialized_tombstone) == latest_entries::<L>(
            files.drop_last(),
            serialized_tombstone,
        ),
{
    let none = Seq::<(Seq<u8>, L)>::empty();
    assert(file_entries::<L>(files.last().bytes@, files.last().file_id, serialized_tombstone)
        == Ok::<Seq<(Seq<u8>, L)>, Error>(none));
    match latest_entries::<L>(files.drop_last(), serialized_tombstone) {
        Ok(acc) => {
            assert(fold_latest(acc, none) == acc);
        },
        Err(_) => {},
    }
}

/// A record appended to the last file, later than what the files hold for
/// its key, takes the key in what is read from the files, and nothing else
/// changes.
pub proof fn lemma_append_latest<L: Loadable>(
    before: Seq<DataFile>,
    after: Seq<DataFile>,
    img: Seq<u8>,
    serialized_tombstone: Seq<u8>,
)
    requires
        before.len() > 0,
        after.len() == before.len(),
        forall|i: int| 0 <= i < before.len() - 1 ==> #[trigger] after[i] == before[i],
        after.last().file_id == before.last().file_id,
        after.last().bytes@ == before.last().bytes@ + img,
        well_formed(img),
        image_valid(img),
        latest_entries::<L>(before, serialized_tombstone) is Ok,
        has_key(latest_entries::<L>(before, serialized_tombstone)->Ok_0, image_key(img))
            ==> value_of(
            latest_entries::<L>(before, serialized_tombstone)->Ok_0,
            image_key(img),
        ).order() < L::of_record(
            img,
            before.last().bytes@.len(),
            before.last().file_id,
            serialized_tombstone,
        ).order(),
    ensures
        latest_entries::<L>(after, serialized_tombstone) is Ok,
        distinct_keys(latest_entries::<L>(before, serialized_tombstone)->Ok_0),
        distinct_keys(latest_entries::<L>(after, serialized_tombstone)->Ok_0),
        to_map(latest_entries::<L>(after, serialized_tombstone)->Ok_0) == to_map(
            latest_entries::<L>(before, serialized_tombstone)->Ok_0,
        ).insert(
            image_key(img),
            L::of_record(
                img,
                before.last().bytes@.len(),
                before.last().file_id,
                serialized_tombstone,
            ),
        ),
{
    let key = image_key(img);
    let data = before.last().bytes@;
    let file_id = before.last().file_id;
    let entry = L::of_record(img, data.len(), file_id, serialized_tombstone);
    let none = Seq::<(Seq<u8>, L)>::empty();
    assert(after.drop_last() =~= before.drop_last());
    let acc = latest_entries::<L>(before.drop_last(), serialized_tombstone)->Ok_0;
    let old_entries = file_entries::<L>(data, file_id, serialized_tombstone)->Ok_0;
    let new_entries = file_entries::<L>(data + img, file_id, serialized_tombstone)->Ok_0;
    lemma_scan_append::<L>(data, img, 0, file_id, serialized_tombstone, none);
    lemma_scan_distinct::<L>(data, 0, file_id, serialized_tombstone, none);
    lemma_scan_distinct::<L>(data + img, 0, file_id, serialized_tombstone, none);
    lemma_latest_entries_distinct::<L>(before.drop_last(), serialized_tombstone);
    lemma_latest_entries_distinct::<L>(before, serialized_tombstone);
    lemma_put(old_entries, key, entry);
    lemma_fold_latest_map(acc, old_entries);
    lemma_fold_latest_map(acc, new_entries);
    let read_before = fold_latest(acc, old_entries);
    let read_after = fold_latest(acc, new_entries);
    assert(latest_entries::<L>(after, serialized_tombstone) == Ok::<Seq<(Seq<u8>, L)>, Error>(
        read_after,
    ));
    assert(to_map(read_before).contains_key(key) == has_key(read_before, key));
    assert(to_map(read_after) =~= to_map(read_before).insert(key, entry)) by {
        assert forall|other: Seq<u8>| #[trigger]
            to_map(read_after).contains_key(other) implies to_map(read_after)[other] == to_map(
            read_before,
        ).insert(key, entry)[other] by {
            if other == key {
                if to_map(acc).contains_key(key) {
                    assert(to_map(read_before)[key].order() >= to_map(acc)[key].order());
                }
            }
        }
    }
}

/// After a value was stored, the files still lead back to the index: a
/// start-up on them builds the index that the engine has, and nothing in them
/// is later than the engine's transaction id.
///
/// This asks that the value is not the encoded tombstone, which a start-up
/// reads as a deletion.
pub proof fn lemma_insert_persists(
    before: Base,
    after: Base,
    write: Write,
    key: Seq<u8>,
    value: Seq<u8>,
    disk: Seq<DataFile>,
    disk_after: Seq<DataFile>,
)
    requires
        consistent(before, disk),
        before.can_write(key.len(), value.len()),
        after.wrote(before, write, key, value),
        after.keydir.entries() == put(
            before.keydir.entries(),
            key,
            before.next_entry(key.len(), value.len()),
        ),
        written_to(disk, disk_after, write),
        value != before.serialized_tombstone@,
    ensures
        consistent(after, disk_after),
{
    let pointer = before.next_entry(key.len(), value.len());
    lemma_write_is_latest(before, after, write, key, value, disk, disk_after);
    lemma_written(before, after, write, key, value, disk, disk_after);
    lemma_put(before.keydir.entries(), key, pointer);
    let tombstone = before.serialized_tombstone@;
    let read = latest_entries::<EntryWithLiveness>(disk, tombstone)->Ok_0;
    let read_after = latest_entries::<EntryWithLiveness>(
        sorted_by_id(disk_after),
        tombstone,
    )->Ok_0;
    lemma_live_map(read);
    lemma_live_map(read_after);
    assert(live_map(to_map(read_after)) =~= live_map(to_map(read)).insert(key, pointer));
}

/// After a key was deleted, the files still lead back to the index: a
/// start-up on them builds the index that the engine has, and nothing in them
/// is later than the engine's transaction id.
pub proof fn lemma_delete_persists(
    before: Base,
    after: Base,
    write: Write,
    key: Seq<u8>,
    disk: Seq<DataFile>,
    disk_after: Seq<DataFile>,
)
    requires
        consistent(before, disk),
        before.can_write(key.len(), before.serialized_tombstone@.len()),
        after.wrote(before, write, key, before.serialized_tombstone@),
        after.keydir.entries() == delete(before.keydir.entries(), key),
        written_to(disk, disk_after, write),
    ensures
        consistent(after, disk_after),
{
    lemma_write_is_latest(
        before,
        after,
        write,
        key,
        before.serialized_tombstone@,
        disk,
        disk_after,
    );
    lemma_written(before, after, write, key, before.serialized_tombstone@, disk, disk_after);
    lemma_delete(before.keydir.entries(), key);
    let tombstone = before.serialized_tombstone@;
    let read = latest_entries::<EntryWithLiveness>(disk, tombstone)->Ok_0;
    let read_after = latest_entries::<EntryWithLiveness>(
        sorted_by_id(disk_after),
        tombstone,
    )->Ok_0;
    lemma_live_map(read);
    lemma_live_map(read_after);
    assert(live_map(to_map(read_after)) =~= live_map(to_map(read)).remove(key));
}

/// What a write does to what a start-up reads: the written record's entry
/// takes its key, and the files stay in order, with the active file last.
proof fn lemma_written(
    before: Base,
    after: Base,
    write: Write,
    key: Seq<u8>,
    value: Seq<u8>,
    disk: Seq<DataFile>,
    disk_after: Seq<DataFile>,
)
    requires
        consistent(before, disk),
        before.can_write(key.len(), value.len()),
        after.wrote(before, write, key, value),
        written_to(disk, disk_after, write),
        ({
            let read = latest_entries::<EntryWithLiveness>(disk, before.serialized_tombstone@)->Ok_0;
            has_key(read, key) ==> value_of(read, key).entry.tx_id@ <= before.tx_id@
        }),
    ensures
        sorted_by_id(disk) == disk,
        sorted_by_id(disk_after) == disk_after,
        ascending(disk_after),
        disk_after.last().file_id == after.active_file_id,
        disk_after.last().bytes@.len() == after.offset,
        latest_entries::<EntryWithLiveness>(disk, before.serialized_tombstone@) is Ok,
        latest_entries::<EntryWithLiveness>(disk_after, before.serialized_tombstone@) is Ok,
        distinct_keys(
            latest_entries::<EntryWithLiveness>(disk, before.serialized_tombstone@)->Ok_0,
        ),
        distinct_keys(
            latest_entries::<EntryWithLiveness>(disk_after, before.serialized_tombstone@)->Ok_0,
        ),
        to_map(latest_entries::<EntryWithLiveness>(disk_after, before.serialized_tombstone@)->Ok_0)
            == to_map(
            latest_entries::<EntryWithLiveness>(disk, before.serialized_tombstone@)->Ok_0,
        ).insert(
            key,
            EntryWithLiveness {
                liveness: if value == before.serialized_tombstone@ {
                    Liveness::Deleted
                } else {
                    Liveness::Live
                },
                entry: before.next_entry(key.len(), value.len()),
            },
        ),
{
    let tombstone = before.serialized_tombstone@;
    let n = disk.len() as int;
    let img = write.record@;
    lemma_image_of(key, value, after.tx_id@);
    lemma_sorted_ascending(disk);
    let written = disk_after.subrange(0, n);
    assert forall|i: int| 0 <= i < n - 1 implies #[trigger] written[i] == disk[i] by {
        assert(disk_after[i] == disk[i]);
    }
    assert(written.last() == disk_after[n - 1]);
    assert(ascending(disk_after)) by {
        assert forall|i: int, j: int| 0 <= i <= j < disk_after.len() implies disk_after[i].file_id@
            <= disk_after[j].file_id@ by {
            if i < n - 1 {
                assert(disk_after[i] == disk[i]);
            }
            if j < n - 1 {
                assert(disk_after[j] == disk[j]);
            }
            if i < n {
                assert(disk[i].file_id@ <= disk[n - 1].file_id@);
            }
            if j < n {
                assert(disk[i].file_id@ <= disk[j].file_id@);
            }
        }
    }
    lemma_sorted_ascending(disk_after);
    lemma_append_latest::<EntryWithLiveness>(disk, written, img, tombstone);
    if write.rollover is Some {
        assert(disk_after.drop_last() =~= written);
        lemma_empty_file_last::<EntryWithLiveness>(disk_after, tombstone);
    } else {
        assert(disk_after =~= written);
    }
}

/// A start-up leaves files that lead back to the index: the files it read,
/// in the order of their ids, and behind them the new active file, empty.
/// Nothing in them is later than the engine's transaction id, a deletion no
/// more than a value.
pub proof fn lemma_start_persists(
    base: Base,
    files: Seq<DataFile>,
    options: Options,
    disk: Seq<DataFile>,
)
    requires
        latest_entries::<EntryWithLiveness>(sorted_by_id(files), base.serialized_tombstone@) is Ok,
        base.starts_from(
            files,
            options,
            base.serialized_tombstone@,
            latest_entries::<EntryWithLiveness>(
                sorted_by_id(files),
                base.serialized_tombstone@,
            )->Ok_0,
        ),
        disk.len() == files.len() + 1,
        disk.drop_last() == sorted_by_id(files),
        disk.last().file_id == base.active_file_id,
        disk.last().bytes@.len() == 0,
    ensures
        consistent(base, disk),
{
    let sorted = sorted_by_id(files);
    lemma_sorted_by_id(files);
    assert(ascending(disk)) by {
        assert forall|i: int, j: int| 0 <= i <= j < disk.len() implies disk[i].file_id@
            <= disk[j].file_id@ by {
            if j < sorted.len() {
                assert(disk[i] == sorted[i] && disk[j] == sorted[j]);
            } else if i < sorted.len() {
                assert(disk[i] == sorted[i]);
                lemma_member_of_sorted(files, i);
            }
        }
    }
    lemma_sorted_ascending(disk);
    lemma_empty_file_last::<EntryWithLiveness>(disk, base.serialized_tombstone@);
    assert(covered(base, disk));
}

/// Each of the sorted files is one of the files.
proof fn lemma_member_of_sorted(files: Seq<DataFile>, i: int)
    requires
        0 <= i < sorted_by_id(files).len(),
    ensures
        files.contains(sorted_by_id(files)[i]),
{
    broadcast use vstd::seq_lib::group_to_multiset_ensures;

    lemma_sorted_by_id(files);
    let sorted = sorted_by_id(files);
    sorted.to_multiset_ensures();
    files.to_multiset_ensures();
    assert(sorted.contains(sorted[i]));
    assert(files.to_multiset().count(sorted[i]) > 0);
}

/// A start-up on files that lead back to an engine's index builds that
/// index.
pub proof fn lemma_reopen(base: Base, disk: Seq<DataFile>, reopened: Base, options: Options)
    requires
        consistent(base, disk),
        reopened.starts_from(
            disk,
            options,
            base.serialized_tombstone@,
            latest_entries::<EntryWithLiveness>(
                sorted_by_id(disk),
                base.serialized_tombstone@,
            )->Ok_0,
        ),
    ensures
        reopened.keydir@ == base.keydir@,
{
}

/// A write is later than everything that is read from the files: its
/// record carries a transaction id above every id read, and after it nothing
/// in the files is later than the engine's transaction id.
pub proof fn lemma_write_is_latest(
    before: Base,
    after: Base,
    write: Write,
    key: Seq<u8>,
    value: Seq<u8>,
    disk: Seq<DataFile>,
    disk_after: Seq<DataFile>,
)
    requires
        consistent(before, disk),
        before.can_write(key.len(), value.len()),
        after.wrote(before, write, key, value),
        written_to(disk, disk_after, write),
    ensures
        covered(after, disk_after),
        ({
            let read = latest_entries::<EntryWithLiveness>(disk, before.serialized_tombstone@)->Ok_0;
            &&& latest_entries::<EntryWithLiveness>(disk, before.serialized_tombstone@) is Ok
            &&& forall|i: int|
                0 <= i < read.len() ==> (#[trigger] read[i]).1.entry.tx_id@ < image_tx_id(
                    write.record@,
                )
            &&& has_key(read, key) ==> value_of(read, key).entry.tx_id@ <= before.tx_id@
        }),
{
    let tombstone = before.serialized_tombstone@;
    lemma_sorted_ascending(disk);
    lemma_image_of(key, value, after.tx_id@);
    let read = latest_entries::<EntryWithLiveness>(disk, tombstone)->Ok_0;
    if has_key(read, key) {
        let at = position(read, key);
        assert(read[at].1.entry.tx_id@ <= before.tx_id@);
    }
    lemma_written(before, after, write, key, value, disk, disk_after);
    let read_after = latest_entries::<EntryWithLiveness>(disk_after, tombstone)->Ok_0;
    assert forall|i: int| 0 <= i < read_after.len() implies (
    #[trigger] read_after[i]).1.entry.tx_id@ <= after.tx_id@ by {
        let other = read_after[i].0;
        lemma_position(read_after, i);
        assert(to_map(read_after).contains_key(other));
        assert(to_map(read_after)[other] == read_after[i].1);
        if other != key {
            assert(to_map(read).contains_key(other));
            assert(to_map(read)[other] == read_after[i].1);
            let at = position(read, other);
            assert(read[at].1.entry.tx_id@ <= before.tx_id@);
        }
    }
}

/// `entry` stands for a whole record of `key` that begins at `offset` in
/// `file`, with a checksum that holds.
pub open spec fn is_record_of<L: Loadable>(
    file: DataFile,
    serialized_tombstone: Seq<u8>,
    key: Seq<u8>,
    entry: L,
    offset: nat,
) -> bool {
    valid_record_at(file.bytes@, offset) matches Ok(Some(img)) && image_key(img) == key && entry
        == L::of_record(img, offset, file.file_id, serialized_tombstone)
}

/// `entry` stands for a record of `key` somewhere in `file`.
pub open spec fn in_file<L: Loadable>(
    file: DataFile,
    serialized_tombstone: Seq<u8>,
    key: Seq<u8>,
    entry: L,
) -> bool {
    exists|offset: nat| #[trigger] is_record_of(file, serialized_tombstone, key, entry, offset)
}

/// `entry` stands for a record of `key` in one of `files`.
pub open spec fn came_from<L: Loadable>(
    files: Seq<DataFile>,
    serialized_tombstone: Seq<u8>,
    key: Seq<u8>,
    entry: L,
) -> bool {
    exists|f: int, offset: nat|
        0 <= f < files.len() && #[trigger] is_record_of(
            files[f],
            serialized_tombstone,
            key,
            entry,
            offset,
        )
}

/// Every entry that a scan adds stands for a record of its key in the file.
proof fn lemma_scan_came_from<L: Loadable>(
    file: DataFile,
    offset: nat,
    serialized_tombstone: Seq<u8>,
    acc: Seq<(Seq<u8>, L)>,
)
    requires
        scan_from::<L>(file.bytes@, offset, file.file_id, serialized_tombstone, acc) is Ok,
        forall|i: int|
            0 <= i < acc.len() ==> in_file(file, serialized_tombstone, (#[trigger] acc[i]).0, acc[i].1),
    ensures
        ({
            let read = scan_from::<L>(
                file.bytes@,
                offset,
                file.file_id,
                serialized_tombstone,
                acc,
            )->Ok_0;
            forall|i: int|
                0 <= i < read.len() ==> in_file(
                    file,
                    serialized_tombstone,
                    (#[trigger] read[i]).0,
                    read[i].1,
                )
        }),
    decreases file.bytes@.len() - offset,
{
    match valid_record_at(file.bytes@, offset) {
        Ok(Some(img)) => {
            let key = image_key(img);
            let entry = L::of_record(img, offset, file.file_id, serialized_tombstone);
            let next = put(acc, key, entry);
            assert(is_record_of(file, serialized_tombstone, key, entry, offset));
            assert forall|i: int| 0 <= i < next.len() implies in_file(
                file,
                serialized_tombstone,
                (#[trigger] next[i]).0,
                next[i].1,
            ) by {
                if next[i] == (key, entry) {
                    assert(is_record_of(file, serialized_tombstone, next[i].0, next[i].1, offset));
                } else {
                    assert(next[i] == acc[i]);
                }
            }
            lemma_scan_came_from::<L>(
                file,
                offset + record_size_at(file.bytes@, offset as int),
                serialized_tombstone,
                next,
            );
        },
        _ => {},
    }
}

/// Folding keeps entries of the two sides only.
proof fn lemma_fold_latest_members<L: Loadable>(
    acc: Seq<(Seq<u8>, L)>,
    entries: Seq<(Seq<u8>, L)>,
)
    ensures
        forall|i: int|
            0 <= i < fold_latest(acc, entries).len() ==> acc.contains(
                #[trigger] fold_latest(acc, entries)[i],
            ) || entries.contains(fold_latest(acc, entries)[i]),
    decreases entries.len(),
{
    let folded = fold_latest(acc, entries);
    if entries.len() == 0 {
        assert forall|i: int| 0 <= i < folded.len() implies acc.contains(#[trigger] folded[i]) by {
            assert(acc[i] == folded[i]);
        }
    } else {
        let front = entries.drop_last();
        lemma_fold_latest_members(acc, front);
        let mid = fold_latest(acc, front);
        assert forall|i: int| 0 <= i < folded.len() implies acc.contains(#[trigger] folded[i])
            || entries.contains(folded[i]) by {
            if folded[i] == entries.last() {
                assert(entries[entries.len() - 1] == folded[i]);
            } else {
                assert(folded[i] == mid[i]);
                if front.contains(mid[i]) {
                    let w = choose|w: int| 0 <= w < front.len() && front[w] == mid[i];
                    assert(entries[w] == mid[i]);
                }
            }
        }
    }
}

/// Every entry that is read from files stands for a whole record of its key
/// in one of the files, with a checksum that holds.
pub proof fn lemma_latest_entries_came_from<L: Loadable>(
    files: Seq<DataFile>,
    serialized_tombstone: Seq<u8>,
)
    requires
        latest_entries::<L>(files, serialized_tombstone) is Ok,
    ensures
        ({
            let read = latest_entries::<L>(files, serialized_tombstone)->Ok_0;
            forall|i: int|
                0 <= i < read.len() ==> came_from(
                    files,
                    serialized_tombstone,
                    (#[trigger] read[i]).0,
                    read[i].1,
                )
        }),
    decreases files.len(),
{
    let read = latest_entries::<L>(files, serialized_tombstone)->Ok_0;
    if files.len() > 0 {
        let front = files.drop_last();
        let last = files.last();
        let at_last = files.len() - 1;
        lemma_latest_entries_came_from::<L>(front, serialized_tombstone);
        let acc = latest_entries::<L>(front, serialized_tombstone)->Ok_0;
        let entries = file_entries::<L>(last.bytes@, last.file_id, serialized_tombstone)->Ok_0;
        lemma_scan_came_from::<L>(last, 0, serialized_tombstone, Seq::empty());
        lemma_fold_latest_members(acc, entries);
        assert forall|i: int| 0 <= i < read.len() implies came_from(
            files,
            serialized_tombstone,
            (#[trigger] read[i]).0,
            read[i].1,
        ) by {
            if acc.contains(read[i]) {
                let w = choose|w: int| 0 <= w < acc.len() && acc[w] == read[i];
                assert(came_from(front, serialized_tombstone, acc[w].0, acc[w].1));
                let (f, offset) = choose|f: int, offset: nat|
                    0 <= f < front.len() && #[trigger] is_record_of(
                        front[f],
                        serialized_tombstone,
                        acc[w].0,
                        acc[w].1,
                        offset,
                    );
                assert(files[f] == front[f]);
                assert(is_record_of(files[f], serialized_tombstone, read[i].0, read[i].1, offset));
            } else {
                let w = choose|w: int| 0 <= w < entries.len() && entries[w] == read[i];
                assert(in_file(last, serialized_tombstone, entries[w].0, entries[w].1));
                let offset = choose|offset: nat| #[trigger]
                    is_record_of(last, serialized_tombstone, entries[w].0, entries[w].1, offset);
                assert(is_record_of(
                    files[at_last],
                    serialized_tombstone,
                    read[i].0,
                    read[i].1,
                    offset,
                ));
            }
        }
    }
}

/// `pointer` points at the value of the record `img` for `key` in `file`:
/// a whole record with a checksum that holds, whose transaction id the
/// pointer carries.
pub open spec fn points_at_value(
    pointer: EntryPointer,
    file: DataFile,
    img: Seq<u8>,
    key: Seq<u8>,
) -> bool {
    &&& file.file_id == pointer.file_id
    &&& well_formed(img)
    &&& image_valid(img)
    &&& image_key(img) == key
    &&& image_tx_id(img) == pointer.tx_id@
    &&& pointer.value_position + pointer.value_size.0 <= file.bytes@.len()
    &&& file.bytes@.subrange(
        pointer.value_position as int,
        pointer.value_position + pointer.value_size.0,
    ) == image_value(img)
}

/// After a start-up every key of the index points at the value of a whole
/// record for that key in one of the files read, with that record's
/// transaction id and a checksum that holds.
pub proof fn lemma_start_points_at_values(
    base: Base,
    files: Seq<DataFile>,
    options: Options,
    key: Seq<u8>,
)
    requires
        latest_entries::<EntryWithLiveness>(sorted_by_id(files), base.serialized_tombstone@) is Ok,
        base.starts_from(
            files,
            options,
            base.serialized_tombstone@,
            latest_entries::<EntryWithLiveness>(
                sorted_by_id(files),
                base.serialized_tombstone@,
            )->Ok_0,
        ),
        base.keydir@.contains_key(key),
    ensures
        exists|file: DataFile, img: Seq<u8>|
            files.contains(file) && #[trigger] points_at_value(base.keydir@[key], file, img, key),
{
    let tombstone = base.serialized_tombstone@;
    let sorted = sorted_by_id(files);
    let read = latest_entries::<EntryWithLiveness>(sorted, tombstone)->Ok_0;
    lemma_latest_entries_distinct::<EntryWithLiveness>(sorted, tombstone);
    lemma_latest_entries_came_from::<EntryWithLiveness>(sorted, tombstone);
    lemma_live_entries(read);
    assert(has_key(live_entries(read), key));
    let at = position(read, key);
    assert(came_from(sorted, tombstone, read[at].0, read[at].1));
    let (f, offset) = choose|f: int, offset: nat|
        0 <= f < sorted.len() && #[trigger] is_record_of(
            sorted[f],
            tombstone,
            read[at].0,
            read[at].1,
            offset,
        );
    let file = sorted[f];
    let img = valid_record_at(file.bytes@, offset)->Ok_0->Some_0;
    lemma_member_of_sorted(files, f);
    lemma_record_at_well_formed(file.bytes@, offset as int);
    lemma_be_value_bound(img.subrange(4, 20));
    lemma_be_value_bound(img.subrange(20, 22));
    lemma_be_value_bound(img.subrange(22, 26));
    lemma_pow256_values();
    let pointer = base.keydir@[key];
    assert(pointer == read[at].1.entry);
    let start = offset + HEADER_SIZE + image_key_size(img);
    assert(file.bytes@.subrange(start as int, start + image_value_size(img)) =~= image_value(img));
    assert(file.bytes@.len() <= usize::MAX) by {
        assert(file.bytes.len() <= usize::MAX);
    }
    assert(points_at_value(pointer, file, img, key));
}

/// `file` reads to its end, and what it holds for `key` is `entry`: the
/// entry of the file's last record for the key.
pub open spec fn holds<L: Loadable>(
    file: DataFile,
    serialized_tombstone: Seq<u8>,
    key: Seq<u8>,
    entry: L,
) -> bool {
    file_entries::<L>(file.bytes@, file.file_id, serialized_tombstone) matches Ok(entries)
        && has_key(entries, key) && value_of(entries, key) == entry
}

/// What is read from files holds, for every key that a file holds, an entry
/// at least as late as that file's, and it is the entry of one of the files:
/// the latest that any file holds for the key.
pub proof fn lemma_latest_is_highest<L: Loadable>(
    files: Seq<DataFile>,
    serialized_tombstone: Seq<u8>,
    key: Seq<u8>,
)
    requires
        latest_entries::<L>(files, serialized_tombstone) is Ok,
    ensures
        ({
            let read = latest_entries::<L>(files, serialized_tombstone)->Ok_0;
            &&& distinct_keys(read)
            &&& forall|f: int, entry: L|
                0 <= f < files.len() && #[trigger] holds(
                    files[f],
                    serialized_tombstone,
                    key,
                    entry,
                ) ==> has_key(read, key) && value_of(read, key).order() >= entry.order()
            &&& has_key(read, key) ==> exists|f: int|
                0 <= f < files.len() && #[trigger] holds(
                    files[f],
                    serialized_tombstone,
                    key,
                    value_of(read, key),
                )
        }),
    decreases files.len(),
{
    let read = latest_entries::<L>(files, serialized_tombstone)->Ok_0;
    lemma_latest_entries_distinct::<L>(files, serialized_tombstone);
    if files.len() > 0 {
        let front = files.drop_last();
        let last = files.len() - 1;
        lemma_latest_is_highest::<L>(front, serialized_tombstone, key);
        lemma_latest_entries_distinct::<L>(front, serialized_tombstone);
        let acc = latest_entries::<L>(front, serialized_tombstone)->Ok_0;
        let entries = file_entries::<L>(
            files[last].bytes@,
            files[last].file_id,
            serialized_tombstone,
        )->Ok_0;
        lemma_scan_distinct::<L>(
            files[last].bytes@,
            0,
            files[last].file_id,
            serialized_tombstone,
            Seq::empty(),
        );
        lemma_fold_latest_map(acc, entries);
        assert(to_map(read) == later_of(to_map(acc), to_map(entries)));
        assert(to_map(read).contains_key(key) == has_key(read, key));
        assert(to_map(acc).contains_key(key) == has_key(acc, key));
        assert(to_map(entries).contains_key(key) == has_key(entries, key));
        assert forall|f: int, entry: L|
            0 <= f < files.len() && #[trigger] holds(
                files[f],
                serialized_tombstone,
                key,
                entry,
            ) implies has_key(read, key) && value_of(read, key).order() >= entry.order() by {
            if f < last {
                assert(files[f] == front[f]);
                assert(holds(front[f], serialized_tombstone, key, entry));
                assert(to_map(acc)[key] == value_of(acc, key));
            }
            assert(to_map(read)[key] == value_of(read, key));
        }
        if has_key(read, key) {
            assert(to_map(read)[key] == value_of(read, key));
            if has_key(entries, key) && to_map(read)[key] == to_map(entries)[key] {
                assert(holds(files[last], serialized_tombstone, key, value_of(read, key)));
            } else {
                assert(has_key(acc, key));
                assert(to_map(acc)[key] == value_of(acc, key));
                let f = choose|f: int|
                    0 <= f < front.len() && #[trigger] holds(
                        front[f],
                        serialized_tombstone,
                        key,
                        value_of(acc, key),
                    );
                assert(files[f] == front[f]);
                assert(holds(files[f], serialized_tombstone, key, value_of(read, key)));
            }
        }
    }
}

/// The entry and the pointer stand for the same record: the same write, the
/// same liveness, the same file and the same size of the value.
pub open spec fn same_record(entry: EntryWithLiveness, pointer: MergePointer) -> bool {
    &&& entry.liveness == pointer.liveness
    &&& entry.entry.file_id == pointer.file_id
    &&& entry.entry.tx_id == pointer.tx_id
    &&& entry.entry.value_size == pointer.value_size
}

/// The two hold the same keys in the same places, each with the same record.
pub open spec fn same_records(
    entries: Seq<(Seq<u8>, EntryWithLiveness)>,
    pointers: Seq<(Seq<u8>, MergePointer)>,
) -> bool {
    &&& entries.len() == pointers.len()
    &&& forall|i: int|
        0 <= i < entries.len() ==> (#[trigger] entries[i]).0 == pointers[i].0 && same_record(
            entries[i].1,
            pointers[i].1,
        )
}

/// Where two hold the same keys in the same places, a key stands in both or
/// in neither, and at the same place.
proof fn lemma_same_keys(
    entries: Seq<(Seq<u8>, EntryWithLiveness)>,
    pointers: Seq<(Seq<u8>, MergePointer)>,
    key: Seq<u8>,
)
    requires
        same_records(entries, pointers),
        distinct_keys(entries),
    ensures
        distinct_keys(pointers),
        has_key(entries, key) == has_key(pointers, key),
        has_key(entries, key) ==> position(entries, key) == position(pointers, key),
{
    assert forall|i: int, j: int| 0 <= i < j < pointers.len() implies (#[trigger] pointers[i]).0
        != (#[trigger] pointers[j]).0 by {
        assert(entries[i].0 != entries[j].0);
    }
    if has_key(entries, key) {
        let at = position(entries, key);
        assert(pointers[at].0 == key);
        lemma_position(pointers, at);
    }
    if has_key(pointers, key) {
        let at = position(pointers, key);
        assert(entries[at].0 == key);
    }
}

/// Putting the same record in for the same key keeps the two alike.
proof fn lemma_same_put(
    entries: Seq<(Seq<u8>, EntryWithLiveness)>,
    pointers: Seq<(Seq<u8>, MergePointer)>,
    key: Seq<u8>,
    entry: EntryWithLiveness,
    pointer: MergePointer,
)
    requires
        same_records(entries, pointers),
        distinct_keys(entries),
        same_record(entry, pointer),
    ensures
        same_records(put(entries, key, entry), put(pointers, key, pointer)),
        distinct_keys(put(entries, key, entry)),
{
    lemma_same_keys(entries, pointers, key);
    lemma_put(entries, key, entry);
    let a = put(entries, key, entry);
    let b = put(pointers, key, pointer);
    assert forall|i: int| 0 <= i < a.len() implies (#[trigger] a[i]).0 == b[i].0 && same_record(
        a[i].1,
        b[i].1,
    ) by {
        if i < entries.len() && !(has_key(entries, key) && i == position(entries, key)) {
            assert(a[i] == entries[i]);
            assert(b[i] == pointers[i]);
        }
    }
}

/// Reading a file as entries and as pointers gives the same records.
proof fn lemma_same_scan(
    data: Seq<u8>,
    offset: nat,
    file_id: FileId,
    serialized_tombstone: Seq<u8>,
    entries: Seq<(Seq<u8>, EntryWithLiveness)>,
    pointers: Seq<(Seq<u8>, MergePointer)>,
)
    requires
        same_records(entries, pointers),
        distinct_keys(entries),
    ensures
        match scan_from::<EntryWithLiveness>(data, offset, file_id, serialized_tombstone, entries) {
            Ok(read) => scan_from::<MergePointer>(
                data,
                offset,
                file_id,
                serialized_tombstone,
                pointers,
            ) matches Ok(pointed) && same_records(read, pointed) && distinct_keys(read),
            Err(e) => scan_from::<MergePointer>(
                data,
                offset,
                file_id,
                serialized_tombstone,
                pointers,
            ) == Err::<Seq<(Seq<u8>, MergePointer)>, Error>(e),
        },
    decreases data.len() - offset,
{
    match valid_record_at(data, offset) {
        Ok(Some(img)) => {
            let entry = EntryWithLiveness::of_record(img, offset, file_id, serialized_tombstone);
            let pointer = MergePointer::of_record(img, offset, file_id, serialized_tombstone);
            lemma_record_at_well_formed(data, offset as int);
            lemma_be_value_bound(img.subrange(4, 20));
            lemma_be_value_bound(img.subrange(22, 26));
            lemma_pow256_values();
            lemma_same_put(entries, pointers, image_key(img), entry, pointer);
            lemma_same_scan(
                data,
                offset + record_size_at(data, offset as int),
                file_id,
                serialized_tombstone,
                put(entries, image_key(img), entry),
                put(pointers, image_key(img), pointer),
            );
        },
        _ => {},
    }
}

/// Folding the same records into the same records gives the same records.
proof fn lemma_same_fold(
    acc_entries: Seq<(Seq<u8>, EntryWithLiveness)>,
    acc_pointers: Seq<(Seq<u8>, MergePointer)>,
    entries: Seq<(Seq<u8>, EntryWithLiveness)>,
    pointers: Seq<(Seq<u8>, MergePointer)>,
)
    requires
        same_records(acc_entries, acc_pointers),
        same_records(entries, pointers),
        distinct_keys(acc_entries),
    ensures
        same_records(fold_latest(acc_entries, entries), fold_latest(acc_pointers, pointers)),
        distinct_keys(fold_latest(acc_entries, entries)),
    decreases entries.len(),
{
    if entries.len() > 0 {
        let last = entries.len() - 1;
        assert(same_records(entries.drop_last(), pointers.drop_last())) by {
            assert forall|i: int| 0 <= i < entries.drop_last().len() implies (
            #[trigger] entries.drop_last()[i]).0 == pointers.drop_last()[i].0 && same_record(
                entries.drop_last()[i].1,
                pointers.drop_last()[i].1,
            ) by {
                assert(entries[i].0 == pointers[i].0);
            }
        }
        lemma_same_fold(acc_entries, acc_pointers, entries.drop_last(), pointers.drop_last());
        let mid_entries = fold_latest(acc_entries, entries.drop_last());
        let mid_pointers = fold_latest(acc_pointers, pointers.drop_last());
        assert(entries[last].0 == pointers[last].0);
        let key = entries[last].0;
        lemma_same_keys(mid_entries, mid_pointers, key);
        lemma_same_put(mid_entries, mid_pointers, key, entries[last].1, pointers[last].1);
        if has_key(mid_entries, key) {
            let at = position(mid_entries, key);
            assert(mid_entries[at].0 == mid_pointers[at].0);
        }
    }
}

/// What is read from files as entries and what is read from them as pointers
/// are the same records for the same keys; and where one reading fails, the
/// other fails alike.
pub proof fn lemma_same_latest(files: Seq<DataFile>, serialized_tombstone: Seq<u8>)
    ensures
        match latest_entries::<EntryWithLiveness>(files, serialized_tombstone) {
            Ok(read) => latest_entries::<MergePointer>(files, serialized_tombstone) matches Ok(
                pointed,
            ) && same_records(read, pointed) && distinct_keys(read),
            Err(e) => latest_entries::<MergePointer>(files, serialized_tombstone) == Err::<
                Seq<(Seq<u8>, MergePointer)>,
                Error,
            >(e),
        },
    decreases files.len(),
{
    if files.len() > 0 {
        let front = files.drop_last();
        let last = files.last();
        lemma_same_latest(front, serialized_tombstone);
        lemma_same_scan(
            last.bytes@,
            0,
            last.file_id,
            serialized_tombstone,
            Seq::empty(),
            Seq::empty(),
        );
        match latest_entries::<EntryWithLiveness>(front, serialized_tombstone) {
            Ok(acc) => {
                match file_entries::<EntryWithLiveness>(
                    last.bytes@,
                    last.file_id,
                    serialized_tombstone,
                ) {
                    Ok(entries) => {
                        lemma_same_fold(
                            acc,
                            latest_entries::<MergePointer>(front, serialized_tombstone)->Ok_0,
                            entries,
                            file_entries::<MergePointer>(
                                last.bytes@,
                                last.file_id,
                                serialized_tombstone,
                            )->Ok_0,
                        );
                    },
                    Err(_) => {},
                }
            },
            Err(_) => {},
        }
    }
}

/// A compaction of the inactive files leaves the index as it was, as long
/// as the files lead back to the index: the index keeps its keys, and every
/// key keeps the write it had. At most a key's pointer moves, to the copy of
/// the record it pointed at.
pub proof fn lemma_merge_keeps_index(base: Base, disk: Seq<DataFile>, key: Seq<u8>)
    requires
        consistent(base, disk),
    ensures
        latest_entries::<MergePointer>(disk.drop_last(), base.serialized_tombstone@) is Ok,
        ({
            let end = merge_fold(
                merge_start(base.keydir.entries(), disk.drop_last()),
                latest_entries::<MergePointer>(disk.drop_last(), base.serialized_tombstone@)->Ok_0,
                base.options.max_file_size_bytes,
            );
            &&& to_map(end.keydir).dom() == base.keydir@.dom()
            &&& base.keydir@.contains_key(key) ==> to_map(end.keydir)[key].tx_id
                == base.keydir@[key].tx_id
        }),
{
    let tombstone = base.serialized_tombstone@;
    let max = base.options.max_file_size_bytes;
    lemma_sorted_ascending(disk);
    let front = disk.drop_last();
    let last = disk.last();
    let read = latest_entries::<EntryWithLiveness>(disk, tombstone)->Ok_0;
    let acc = latest_entries::<EntryWithLiveness>(front, tombstone)->Ok_0;
    let active = file_entries::<EntryWithLiveness>(last.bytes@, last.file_id, tombstone)->Ok_0;
    lemma_same_latest(front, tombstone);
    let pointers = latest_entries::<MergePointer>(front, tombstone)->Ok_0;
    let start = merge_start(base.keydir.entries(), front);
    lemma_merge_keeps_keys(start, pointers, max);
    if base.keydir@.contains_key(key) {
        lemma_scan_distinct::<EntryWithLiveness>(
            last.bytes@,
            0,
            last.file_id,
            tombstone,
            Seq::empty(),
        );
        lemma_fold_latest_map(acc, active);
        lemma_latest_entries_distinct::<EntryWithLiveness>(disk, tombstone);
        lemma_live_map(read);
        assert(to_map(read).contains_key(key));
        assert(base.keydir@[key] == to_map(read)[key].entry);
        assert forall|i: int|
            0 <= i < pointers.len() && (#[trigger] pointers[i]).0 == key implies value_of(
            base.keydir.entries(),
            key,
        ).tx_id@ >= pointers[i].1.tx_id@ by {
            assert(acc[i].0 == key);
            lemma_position(acc, i);
            assert(to_map(acc)[key] == acc[i].1);
            assert(to_map(read)[key].order() >= to_map(acc)[key].order());
        }
        lemma_merge_keeps_writes(start, pointers, max, key);
    }
}

} // verus!
