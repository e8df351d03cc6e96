//! Compaction: which records are copied, and where to.
//!
//! The latest record of each live key is copied into a new file that takes
//! the name of one of the old files. The new files are filled one after the
//! other; a file that has grown beyond the full size is followed by the next
//! as long as a name is left.

use crate::keydir::{EntryPointer, FileId, Liveness};
use crate::endian::{lemma_be_value_bound, lemma_pow256_values};
use crate::error::Error;
use crate::keymap::{distinct_keys, has_key, lemma_put, position, put, to_map, value_of};
use crate::loadable::{
    file_entries, fold_latest, latest_entries, scan_from, valid_record_at, DataFile, Loadable,
};
use crate::merge_pointer::MergePointer;
use crate::record::{
    image_key, image_value, lemma_record_at_well_formed, record_size_at, HEADER_SIZE,
};
use crate::recovery::{
    came_from, is_record_of, lemma_latest_entries_came_from, lemma_latest_entries_distinct,
};
use vstd::prelude::*;

verus! {

/// One record to copy: `record_size` bytes from `record_offset` of the file
/// `source`, to `target_offset` of the new file that will take the name
/// `target`.
#[derive(Clone, Copy, Debug, PartialEq, Eq, Structural)]
pub struct MergeCopy {
    pub source: FileId,
    pub record_offset: u64,
    pub record_size: u64,
    pub target: FileId,
    pub target_offset: u64,
}

/// How far a compaction has come.
pub struct MergeState {
    /// The index, with the keys that were copied pointing to their copies.
    pub keydir: Seq<(Seq<u8>, EntryPointer)>,
    /// The names that no new file has taken yet; the last is taken first.
    pub targets: Seq<FileId>,
    /// The new file that is being filled.
    pub current: Option<FileId>,
    /// The size of the new file that is being filled.
    pub offset: nat,
    pub copies: Seq<MergeCopy>,
}

/// Whether the record behind `pointer` is copied: it stores a value, and the
/// index holds its key with nothing later. A key that the index lacks was
/// deleted, so its record is left behind.
pub open spec fn survives(
    keydir: Seq<(Seq<u8>, EntryPointer)>,
    key: Seq<u8>,
    pointer: MergePointer,
) -> bool {
    &&& pointer.liveness == Liveness::Live
    &&& has_key(keydir, key)
    &&& value_of(keydir, key).tx_id@ <= pointer.tx_id@
}

/// The state after the record behind `pointer` has been dealt with.
pub open spec fn merge_step(
    state: MergeState,
    key: Seq<u8>,
    pointer: MergePointer,
    max_file_size_bytes: u64,
) -> MergeState {
    if !survives(state.keydir, key, pointer) || (state.current is None && state.targets.len()
        == 0) {
        state
    } else {
        let next_file = state.current is None || (state.offset > max_file_size_bytes
            && state.targets.len() > 0);
        let target = if next_file {
            state.targets.last()
        } else {
            state.current->Some_0
        };
        let offset: nat = if next_file {
            0
        } else {
            state.offset
        };
        MergeState {
            keydir: put(
                state.keydir,
                key,
                EntryPointer {
                    file_id: target,
                    value_position: (offset + HEADER_SIZE + pointer.key_size.0) as u64,
                    value_size: pointer.value_size,
                    tx_id: pointer.tx_id,
                },
            ),
            targets: if next_file {
                state.targets.drop_last()
            } else {
                state.targets
            },
            current: Some(target),
            offset: offset + pointer.record_size as nat,
            copies: state.copies.push(
                MergeCopy {
                    source: pointer.file_id,
                    record_offset: pointer.record_offset,
                    record_size: pointer.record_size,
                    target,
                    target_offset: offset as u64,
                },
            ),
        }
    }
}

/// The state after the records behind `pointers` have been dealt with, one
/// after the other.
pub open spec fn merge_fold(
    state: MergeState,
    pointers: Seq<(Seq<u8>, MergePointer)>,
    max_file_size_bytes: u64,
) -> MergeState
    decreases pointers.len(),
{
    if pointers.len() == 0 {
        state
    } else {
        merge_step(
            merge_fold(state, pointers.drop_last(), max_file_size_bytes),
            pointers.last().0,
            pointers.last().1,
            max_file_size_bytes,
        )
    }
}

/// The ids of `files`, in their order.
pub open spec fn file_ids(files: Seq<DataFile>) -> Seq<FileId> {
    Seq::new(files.len(), |i: int| files[i].file_id)
}

/// The state in which a compaction of `files` begins.
pub open spec fn merge_start(keydir: Seq<(Seq<u8>, EntryPointer)>, files: Seq<DataFile>) -> MergeState {
    MergeState {
        keydir,
        targets: file_ids(files),
        current: None,
        offset: 0,
        copies: Seq::empty(),
    }
}

/// The size of all the files together.
pub open spec fn total_bytes(files: Seq<DataFile>) -> nat
    decreases files.len(),
{
    if files.len() == 0 {
        0
    } else {
        total_bytes(files.drop_last()) + files.last().bytes@.len()
    }
}

/// A part of the files is no larger than all of them.
pub proof fn lemma_total_bytes_prefix(files: Seq<DataFile>, n: int)
    requires
        0 <= n <= files.len(),
    ensures
        total_bytes(files.subrange(0, n)) <= total_bytes(files),
    decreases files.len(),
{
    if n == files.len() {
        assert(files.subrange(0, n) =~= files);
    } else {
        lemma_total_bytes_prefix(files.drop_last(), n);
        assert(files.drop_last().subrange(0, n) =~= files.subrange(0, n));
    }
}

/// The size of all the records together that `pointers` point to.
pub open spec fn pointed_bytes(pointers: Seq<(Seq<u8>, MergePointer)>) -> nat
    decreases pointers.len(),
{
    if pointers.len() == 0 {
        0
    } else {
        pointed_bytes(pointers.drop_last()) + pointers.last().1.record_size as nat
    }
}

/// The size of all the records together that `copies` copy.
pub open spec fn copied_bytes(copies: Seq<MergeCopy>) -> nat
    decreases copies.len(),
{
    if copies.len() == 0 {
        0
    } else {
        copied_bytes(copies.drop_last()) + copies.last().record_size as nat
    }
}

/// The pointer's size is that of a header, a key and a value of the sizes
/// that it names.
pub open spec fn sized(pointer: MergePointer) -> bool {
    pointer.record_size == HEADER_SIZE + pointer.key_size.0 + pointer.value_size.0
}

/// Every pointer's size is right.
pub open spec fn all_sized(pointers: Seq<(Seq<u8>, MergePointer)>) -> bool {
    forall|i: int| 0 <= i < pointers.len() ==> sized((#[trigger] pointers[i]).1)
}

/// A new pointer adds at most its own record's size, and keeps the sizes
/// right.
pub proof fn lemma_put_pointer(
    pointers: Seq<(Seq<u8>, MergePointer)>,
    key: Seq<u8>,
    pointer: MergePointer,
)
    ensures
        pointed_bytes(put(pointers, key, pointer)) <= pointed_bytes(pointers)
            + pointer.record_size,
        all_sized(pointers) && sized(pointer) ==> all_sized(put(pointers, key, pointer)),
{
    if has_key(pointers, key) {
        lemma_update_pointer(pointers, position(pointers, key), (key, pointer));
    } else {
        assert(put(pointers, key, pointer).drop_last() =~= pointers);
    }
}

/// A pointer put in the place of another changes the sum by the difference
/// of the two sizes.
proof fn lemma_update_pointer(
    pointers: Seq<(Seq<u8>, MergePointer)>,
    at: int,
    pair: (Seq<u8>, MergePointer),
)
    requires
        0 <= at < pointers.len(),
    ensures
        pointed_bytes(pointers.update(at, pair)) + pointers[at].1.record_size == pointed_bytes(
            pointers,
        ) + pair.1.record_size,
    decreases pointers.len(),
{
    let updated = pointers.update(at, pair);
    if at == pointers.len() - 1 {
        assert(updated.drop_last() =~= pointers.drop_last());
    } else {
        lemma_update_pointer(pointers.drop_last(), at, pair);
        assert(updated.drop_last() =~= pointers.drop_last().update(at, pair));
    }
}

/// What a file adds to the pointers is at most what is left of the file, and
/// each pointer's size is right.
pub proof fn lemma_scan_pointers(
    data: Seq<u8>,
    offset: nat,
    file_id: FileId,
    serialized_tombstone: Seq<u8>,
    acc: Seq<(Seq<u8>, MergePointer)>,
)
    requires
        offset <= data.len() <= u64::MAX,
        scan_from(data, offset, file_id, serialized_tombstone, acc) is Ok,
    ensures
        pointed_bytes(scan_from(data, offset, file_id, serialized_tombstone, acc)->Ok_0) + offset
            <= pointed_bytes(acc) + data.len(),
        all_sized(acc) ==> all_sized(
            scan_from(data, offset, file_id, serialized_tombstone, acc)->Ok_0,
        ),
    decreases data.len() - offset,
{
    match valid_record_at(data, offset) {
        Ok(Some(img)) => {
            let pointer = MergePointer::of_record(img, offset, file_id, serialized_tombstone);
            lemma_record_at_well_formed(data, offset as int);
            lemma_be_value_bound(img.subrange(20, 22));
            lemma_be_value_bound(img.subrange(22, 26));
            lemma_pow256_values();
            assert(sized(pointer));
            lemma_put_pointer(acc, image_key(img), pointer);
            lemma_scan_pointers(
                data,
                offset + record_size_at(data, offset as int),
                file_id,
                serialized_tombstone,
                put(acc, image_key(img), pointer),
            );
        },
        _ => {},
    }
}

/// Folding pointers in adds at most their records' sizes, and keeps the
/// sizes right.
pub proof fn lemma_fold_pointers(
    acc: Seq<(Seq<u8>, MergePointer)>,
    entries: Seq<(Seq<u8>, MergePointer)>,
)
    ensures
        pointed_bytes(fold_latest(acc, entries)) <= pointed_bytes(acc) + pointed_bytes(entries),
        all_sized(acc) && all_sized(entries) ==> all_sized(fold_latest(acc, entries)),
    decreases entries.len(),
{
    if entries.len() > 0 {
        let front = entries.drop_last();
        lemma_fold_pointers(acc, front);
        lemma_put_pointer(fold_latest(acc, front), entries.last().0, entries.last().1);
        if all_sized(acc) && all_sized(entries) {
            assert forall|i: int| 0 <= i < front.len() implies sized((#[trigger] front[i]).1) by {
                assert(front[i] == entries[i]);
            }
            assert(sized(entries[entries.len() - 1].1));
        }
    }
}

/// The latest records of all keys together are no larger than the files that
/// hold them, and each pointer's size is right.
pub proof fn lemma_latest_pointers(files: Seq<DataFile>, serialized_tombstone: Seq<u8>)
    requires
        latest_entries::<MergePointer>(files, serialized_tombstone) is Ok,
        total_bytes(files) <= u64::MAX,
    ensures
        pointed_bytes(latest_entries::<MergePointer>(files, serialized_tombstone)->Ok_0)
            <= total_bytes(files),
        all_sized(latest_entries::<MergePointer>(files, serialized_tombstone)->Ok_0),
        files.len() == 0 ==> latest_entries::<MergePointer>(files, serialized_tombstone)->Ok_0.len()
            == 0,
    decreases files.len(),
{
    if files.len() > 0 {
        let front = files.drop_last();
        let last = files.last();
        lemma_latest_pointers(front, serialized_tombstone);
        let acc = latest_entries::<MergePointer>(front, serialized_tombstone)->Ok_0;
        let entries = file_entries::<MergePointer>(
            last.bytes@,
            last.file_id,
            serialized_tombstone,
        )->Ok_0;
        lemma_scan_pointers(last.bytes@, 0, last.file_id, serialized_tombstone, Seq::empty());
        lemma_fold_pointers(acc, entries);
    }
}

/// A part of the pointers points to no more bytes than all of them.
pub proof fn lemma_pointed_bytes_prefix(pointers: Seq<(Seq<u8>, MergePointer)>, n: int)
    requires
        0 <= n <= pointers.len(),
    ensures
        pointed_bytes(pointers.subrange(0, n)) <= pointed_bytes(pointers),
    decreases pointers.len(),
{
    if n == pointers.len() {
        assert(pointers.subrange(0, n) =~= pointers);
    } else {
        lemma_pointed_bytes_prefix(pointers.drop_last(), n);
        assert(pointers.drop_last().subrange(0, n) =~= pointers.subrange(0, n));
    }
}

/// A compaction copies no more bytes than the pointers point to, into files
/// that are no larger than that, and every record it copies holds a header
/// at least.
pub proof fn lemma_merge_fold(
    state: MergeState,
    pointers: Seq<(Seq<u8>, MergePointer)>,
    max_file_size_bytes: u64,
)
    requires
        all_sized(pointers),
    ensures
        ({
            let end = merge_fold(state, pointers, max_file_size_bytes);
            &&& copied_bytes(end.copies) <= copied_bytes(state.copies) + pointed_bytes(pointers)
            &&& end.offset <= state.offset + pointed_bytes(pointers)
            &&& end.copies.len() <= state.copies.len() + pointers.len()
            &&& end.targets.len() <= state.targets.len()
            &&& state.current is Some ==> end.current is Some
            &&& end.copies.len() > state.copies.len() ==> end.current is Some
        }),
    decreases pointers.len(),
{
    if pointers.len() > 0 {
        let front = pointers.drop_last();
        assert forall|i: int| 0 <= i < front.len() implies sized((#[trigger] front[i]).1) by {
            assert(front[i] == pointers[i]);
        }
        lemma_merge_fold(state, front, max_file_size_bytes);
        let mid = merge_fold(state, front, max_file_size_bytes);
        let end = merge_step(mid, pointers.last().0, pointers.last().1, max_file_size_bytes);
        if end.copies.len() > mid.copies.len() {
            assert(end.copies.drop_last() =~= mid.copies);
        }
    }
}

/// The places in `pointers` of the records that a compaction copies, in the
/// order of the copies.
pub open spec fn copied_from(
    state: MergeState,
    pointers: Seq<(Seq<u8>, MergePointer)>,
    max_file_size_bytes: u64,
) -> Seq<int>
    decreases pointers.len(),
{
    if pointers.len() == 0 {
        Seq::empty()
    } else {
        let front = copied_from(state, pointers.drop_last(), max_file_size_bytes);
        let mid = merge_fold(state, pointers.drop_last(), max_file_size_bytes);
        let end = merge_step(mid, pointers.last().0, pointers.last().1, max_file_size_bytes);
        if end.copies.len() > mid.copies.len() {
            front.push(pointers.len() - 1)
        } else {
            front
        }
    }
}

/// `copy` copies the record behind `pointer`, the whole of it.
pub open spec fn copies_record(copy: MergeCopy, pointer: MergePointer) -> bool {
    &&& copy.source == pointer.file_id
    &&& copy.record_offset == pointer.record_offset
    &&& copy.record_size == pointer.record_size
    &&& copy.record_size >= HEADER_SIZE
}

/// A compaction copies each key's record once at most, and only records that
/// store a value for a key that the index holds: copy by copy it takes a
/// later pointer, whose record is live and is copied whole, into a file that
/// takes the name of one of the files given. A key that was deleted has no
/// record among the copies. No new file stays empty, since each is named by a
/// copy into it, and no copy is empty.
pub proof fn lemma_merge_copies_each_key_once(
    keydir: Seq<(Seq<u8>, EntryPointer)>,
    files: Seq<DataFile>,
    pointers: Seq<(Seq<u8>, MergePointer)>,
    max_file_size_bytes: u64,
)
    requires
        all_sized(pointers),
        distinct_keys(pointers),
        distinct_keys(keydir),
    ensures
        ({
            let end = merge_fold(merge_start(keydir, files), pointers, max_file_size_bytes);
            let from = copied_from(merge_start(keydir, files), pointers, max_file_size_bytes);
            &&& end.copies.len() == from.len()
            &&& forall|j: int|
                0 <= j < from.len() ==> 0 <= #[trigger] from[j] < pointers.len()
                    && pointers[from[j]].1.liveness == Liveness::Live && has_key(
                    keydir,
                    pointers[from[j]].0,
                ) && copies_record(end.copies[j], pointers[from[j]].1) && file_ids(
                    files,
                ).contains(end.copies[j].target)
            &&& forall|i: int, j: int|
                0 <= i < j < from.len() ==> #[trigger] from[i] < #[trigger] from[j]
            &&& forall|i: int, j: int|
                0 <= i < j < from.len() ==> pointers[#[trigger] from[i]].0 != pointers[
                #[trigger] from[j]].0
        }),
{
    lemma_copied_from(merge_start(keydir, files), pointers, max_file_size_bytes);
    lemma_copied_keys_in_index(merge_start(keydir, files), pointers, max_file_size_bytes);
    let end = merge_fold(merge_start(keydir, files), pointers, max_file_size_bytes);
    let from = copied_from(merge_start(keydir, files), pointers, max_file_size_bytes);
    assert forall|i: int, j: int| 0 <= i < j < from.len() implies pointers[#[trigger] from[i]].0
        != pointers[#[trigger] from[j]].0 by {
        assert(from[i] < from[j]);
    }
    assert forall|j: int| 0 <= j < from.len() implies file_ids(files).contains(
        end.copies[j].target,
    ) by {
        let at = from[j];
        assert(0 <= at < pointers.len());
        assert(end.copies[0 + j] == end.copies[j]);
        assert(merge_start(keydir, files).targets.contains(end.copies[j].target));
    }
}

/// What `lemma_merge_copies_each_key_once` says, from any state on.
pub proof fn lemma_copied_from(
    state: MergeState,
    pointers: Seq<(Seq<u8>, MergePointer)>,
    max_file_size_bytes: u64,
)
    requires
        all_sized(pointers),
    ensures
        ({
            let end = merge_fold(state, pointers, max_file_size_bytes);
            let from = copied_from(state, pointers, max_file_size_bytes);
            &&& end.copies.len() == state.copies.len() + from.len()
            &&& end.copies.subrange(0, state.copies.len() as int) == state.copies
            &&& forall|j: int|
                0 <= j < from.len() ==> 0 <= #[trigger] from[j] < pointers.len()
                    && pointers[from[j]].1.liveness == Liveness::Live && copies_record(
                    end.copies[state.copies.len() + j],
                    pointers[from[j]].1,
                ) && (state.targets.contains(end.copies[state.copies.len() + j].target)
                    || state.current == Some(end.copies[state.copies.len() + j].target))
            &&& forall|i: int, j: int|
                0 <= i < j < from.len() ==> #[trigger] from[i] < #[trigger] from[j]
            &&& forall|id: FileId| end.targets.contains(id) ==> state.targets.contains(id)
            &&& end.current is Some ==> state.targets.contains(end.current->Some_0)
                || state.current == end.current
        }),
    decreases pointers.len(),
{
    let end = merge_fold(state, pointers, max_file_size_bytes);
    let from = copied_from(state, pointers, max_file_size_bytes);
    let base = state.copies.len() as int;
    if pointers.len() == 0 {
        assert(end.copies.subrange(0, base) =~= state.copies);
    } else {
        let front = pointers.drop_last();
        let last = pointers.len() - 1;
        assert forall|i: int| 0 <= i < front.len() implies sized((#[trigger] front[i]).1) by {
            assert(front[i] == pointers[i]);
        }
        lemma_copied_from(state, front, max_file_size_bytes);
        let mid = merge_fold(state, front, max_file_size_bytes);
        let mid_from = copied_from(state, front, max_file_size_bytes);
        assert(sized(pointers[last].1));
        assert forall|id: FileId| end.targets.contains(id) implies state.targets.contains(id) by {
            let w = choose|w: int| 0 <= w < end.targets.len() && end.targets[w] == id;
            assert(mid.targets[w] == id);
            assert(mid.targets.contains(id));
        }
        if end.current is Some && end.current != mid.current {
            assert(mid.targets[mid.targets.len() - 1] == end.current->Some_0);
            assert(mid.targets.contains(end.current->Some_0));
        }
        if end.copies.len() > mid.copies.len() {
            assert(end.copies.drop_last() =~= mid.copies);
            assert(end.copies.subrange(0, base) =~= mid.copies.subrange(0, base));
            assert forall|j: int| 0 <= j < from.len() implies 0 <= #[trigger] from[j]
                < pointers.len() && pointers[from[j]].1.liveness == Liveness::Live
                && copies_record(end.copies[base + j], pointers[from[j]].1) && (
            state.targets.contains(end.copies[base + j].target) || state.current == Some(
                end.copies[base + j].target,
            )) by {
                if j < mid_from.len() {
                    assert(from[j] == mid_from[j]);
                    assert(pointers[from[j]] == front[mid_from[j]]);
                    assert(end.copies[base + j] == mid.copies[base + j]);
                } else {
                    assert(from[j] == last);
                    assert(end.copies[base + j].target == end.current->Some_0);
                }
            }
            assert forall|i: int, j: int| 0 <= i < j < from.len() implies #[trigger] from[i]
                < #[trigger] from[j] by {
                if j < mid_from.len() {
                    assert(mid_from[i] < mid_from[j]);
                } else {
                    assert(from[i] == mid_from[i]);
                }
            }
        } else {
            assert(end.copies =~= mid.copies);
            assert forall|j: int| 0 <= j < from.len() implies 0 <= #[trigger] from[j]
                < pointers.len() && pointers[from[j]].1.liveness == Liveness::Live
                && copies_record(end.copies[base + j], pointers[from[j]].1) && (
            state.targets.contains(end.copies[base + j].target) || state.current == Some(
                end.copies[base + j].target,
            )) by {
                assert(from[j] == mid_from[j]);
                assert(pointers[from[j]] == front[mid_from[j]]);
            }
        }
    }
}

/// What a compaction does to the index: a key whose record is copied points
/// at the copy, with the record's transaction id and the value's size, and
/// the value stands in the copy where it stood in the record; every other
/// key is in the index as it was, or out of it as it was.
pub proof fn lemma_merge_index(
    state: MergeState,
    pointers: Seq<(Seq<u8>, MergePointer)>,
    max_file_size_bytes: u64,
    key: Seq<u8>,
)
    requires
        all_sized(pointers),
        distinct_keys(pointers),
        distinct_keys(state.keydir),
        state.offset + pointed_bytes(pointers) <= u64::MAX,
    ensures
        ({
            let end = merge_fold(state, pointers, max_file_size_bytes);
            let from = copied_from(state, pointers, max_file_size_bytes);
            &&& distinct_keys(end.keydir)
            &&& end.copies.len() == state.copies.len() + from.len()
            &&& forall|j: int|
                0 <= j < from.len() && pointers[#[trigger] from[j]].0 == key ==> {
                    let copy = end.copies[state.copies.len() + j];
                    let pointer = pointers[from[j]].1;
                    &&& has_key(end.keydir, key)
                    &&& value_of(end.keydir, key) == EntryPointer {
                        file_id: copy.target,
                        value_position: (copy.target_offset + HEADER_SIZE
                            + pointer.key_size.0) as u64,
                        value_size: pointer.value_size,
                        tx_id: pointer.tx_id,
                    }
                }
            &&& (forall|j: int| 0 <= j < from.len() ==> pointers[#[trigger] from[j]].0 != key) ==> {
                &&& has_key(end.keydir, key) == has_key(state.keydir, key)
                &&& has_key(state.keydir, key) ==> value_of(end.keydir, key) == value_of(
                    state.keydir,
                    key,
                )
            }
        }),
    decreases pointers.len(),
{
    let end = merge_fold(state, pointers, max_file_size_bytes);
    let from = copied_from(state, pointers, max_file_size_bytes);
    let base = state.copies.len() as int;
    lemma_copied_from(state, pointers, max_file_size_bytes);
    if pointers.len() > 0 {
        let front = pointers.drop_last();
        let last = pointers.len() - 1;
        let last_key = pointers.last().0;
        let pointer = pointers.last().1;
        assert forall|i: int| 0 <= i < front.len() implies #[trigger] front[i] == pointers[i] by {}
        assert(all_sized(front)) by {
            assert forall|i: int| 0 <= i < front.len() implies sized((#[trigger] front[i]).1) by {
                assert(front[i] == pointers[i]);
            }
        }
        assert(distinct_keys(front)) by {
            assert forall|i: int, j: int| 0 <= i < j < front.len() implies (#[trigger] front[i]).0
                != (#[trigger] front[j]).0 by {
                assert(pointers[i].0 != pointers[j].0);
            }
        }
        lemma_merge_index(state, front, max_file_size_bytes, key);
        lemma_copied_from(state, front, max_file_size_bytes);
        lemma_merge_fold(state, front, max_file_size_bytes);
        let mid = merge_fold(state, front, max_file_size_bytes);
        let mid_from = copied_from(state, front, max_file_size_bytes);
        if end.copies.len() > mid.copies.len() {
            let copy = end.copies[end.copies.len() - 1];
            let entry = value_of(end.keydir, last_key);
            assert(end.copies.drop_last() =~= mid.copies);
            lemma_put(
                mid.keydir,
                last_key,
                EntryPointer {
                    file_id: copy.target,
                    value_position: (copy.target_offset + HEADER_SIZE + pointer.key_size.0) as u64,
                    value_size: pointer.value_size,
                    tx_id: pointer.tx_id,
                },
            );
            assert forall|j: int|
                0 <= j < from.len() && pointers[#[trigger] from[j]].0 == key implies {
                let copy = end.copies[base + j];
                let pointer = pointers[from[j]].1;
                &&& has_key(end.keydir, key)
                &&& value_of(end.keydir, key) == EntryPointer {
                    file_id: copy.target,
                    value_position: (copy.target_offset + HEADER_SIZE + pointer.key_size.0) as u64,
                    value_size: pointer.value_size,
                    tx_id: pointer.tx_id,
                }
            } by {
                if j < mid_from.len() {
                    assert(from[j] == mid_from[j]);
                    assert(pointers[from[j]] == front[mid_from[j]]);
                    assert(pointers[from[j]].0 != pointers[last].0);
                    assert(end.copies[base + j] == mid.copies[base + j]);
                } else {
                    assert(from[j] == last);
                }
            }
            if forall|j: int| 0 <= j < from.len() ==> pointers[#[trigger] from[j]].0 != key {
                assert(from[from.len() - 1] == last);
                assert(key != last_key);
                assert forall|j: int| 0 <= j < mid_from.len() implies pointers[
                #[trigger] mid_from[j]].0 != key by {
                    assert(from[j] == mid_from[j]);
                }
                assert forall|j: int| 0 <= j < mid_from.len() implies front[
                #[trigger] mid_from[j]].0 != key by {
                    assert(front[mid_from[j]] == pointers[mid_from[j]]);
                }
            }
        } else {
            assert(end == mid);
            assert(from == mid_from);
            assert forall|j: int|
                0 <= j < from.len() && pointers[#[trigger] from[j]].0 == key implies {
                let copy = end.copies[base + j];
                let pointer = pointers[from[j]].1;
                &&& has_key(end.keydir, key)
                &&& value_of(end.keydir, key) == EntryPointer {
                    file_id: copy.target,
                    value_position: (copy.target_offset + HEADER_SIZE + pointer.key_size.0) as u64,
                    value_size: pointer.value_size,
                    tx_id: pointer.tx_id,
                }
            } by {
                assert(pointers[from[j]] == front[mid_from[j]]);
            }
            if forall|j: int| 0 <= j < from.len() ==> pointers[#[trigger] from[j]].0 != key {
                assert forall|j: int| 0 <= j < mid_from.len() implies front[
                #[trigger] mid_from[j]].0 != key by {
                    assert(front[mid_from[j]] == pointers[from[j]]);
                }
            }
        }
    }
}

/// A compaction takes no key out of the index, and leaves each key with the
/// write it had, as long as the index holds for the key nothing earlier than
/// the files do: at most the key's pointer moves to the copy of its record.
pub proof fn lemma_merge_keeps_writes(
    state: MergeState,
    pointers: Seq<(Seq<u8>, MergePointer)>,
    max_file_size_bytes: u64,
    key: Seq<u8>,
)
    requires
        distinct_keys(state.keydir),
        has_key(state.keydir, key),
        forall|i: int|
            0 <= i < pointers.len() && (#[trigger] pointers[i]).0 == key ==> value_of(
                state.keydir,
                key,
            ).tx_id@ >= pointers[i].1.tx_id@,
    ensures
        distinct_keys(merge_fold(state, pointers, max_file_size_bytes).keydir),
        has_key(merge_fold(state, pointers, max_file_size_bytes).keydir, key),
        value_of(merge_fold(state, pointers, max_file_size_bytes).keydir, key).tx_id == value_of(
            state.keydir,
            key,
        ).tx_id,
    decreases pointers.len(),
{
    if pointers.len() > 0 {
        let front = pointers.drop_last();
        let last = pointers.len() - 1;
        assert forall|i: int| 0 <= i < front.len() && (#[trigger] front[i]).0 == key implies value_of(
            state.keydir,
            key,
        ).tx_id@ >= front[i].1.tx_id@ by {
            assert(front[i] == pointers[i]);
        }
        lemma_merge_keeps_writes(state, front, max_file_size_bytes, key);
        let mid = merge_fold(state, front, max_file_size_bytes);
        let end = merge_fold(state, pointers, max_file_size_bytes);
        let pointer = pointers[last].1;
        if end.copies.len() > mid.copies.len() {
            let next_file = mid.current is None || (mid.offset > max_file_size_bytes
                && mid.targets.len() > 0);
            let target = if next_file {
                mid.targets.last()
            } else {
                mid.current->Some_0
            };
            let offset: nat = if next_file {
                0
            } else {
                mid.offset
            };
            lemma_put(
                mid.keydir,
                pointers[last].0,
                EntryPointer {
                    file_id: target,
                    value_position: (offset + HEADER_SIZE + pointer.key_size.0) as u64,
                    value_size: pointer.value_size,
                    tx_id: pointer.tx_id,
                },
            );
        }
    }
}

/// `copy` copies the record `img`, which stands whole in `file`, with a
/// checksum that holds.
pub open spec fn copies_whole_record(copy: MergeCopy, file: DataFile, img: Seq<u8>) -> bool {
    &&& file.file_id == copy.source
    &&& valid_record_at(file.bytes@, copy.record_offset as nat) == Ok::<
        Option<Seq<u8>>,
        Error,
    >(Some(img))
    &&& img.len() == copy.record_size
}

/// Every copy of a compaction copies a whole record from one of the files
/// given, byte for byte: a record with a checksum that holds, which stores a
/// value.
pub proof fn lemma_merge_copies_records(
    keydir: Seq<(Seq<u8>, EntryPointer)>,
    files: Seq<DataFile>,
    serialized_tombstone: Seq<u8>,
    max_file_size_bytes: u64,
    j: int,
)
    requires
        distinct_keys(keydir),
        latest_entries::<MergePointer>(files, serialized_tombstone) is Ok,
        total_bytes(files) <= u64::MAX,
        0 <= j < merge_fold(
            merge_start(keydir, files),
            latest_entries::<MergePointer>(files, serialized_tombstone)->Ok_0,
            max_file_size_bytes,
        ).copies.len(),
    ensures
        exists|file: DataFile, img: Seq<u8>|
            files.contains(file) && #[trigger] copies_whole_record(
                merge_fold(
                    merge_start(keydir, files),
                    latest_entries::<MergePointer>(files, serialized_tombstone)->Ok_0,
                    max_file_size_bytes,
                ).copies[j],
                file,
                img,
            ) && image_value(img) != serialized_tombstone,
{
    let pointers = latest_entries::<MergePointer>(files, serialized_tombstone)->Ok_0;
    let end = merge_fold(merge_start(keydir, files), pointers, max_file_size_bytes);
    let from = copied_from(merge_start(keydir, files), pointers, max_file_size_bytes);
    lemma_latest_pointers(files, serialized_tombstone);
    lemma_latest_entries_distinct::<MergePointer>(files, serialized_tombstone);
    lemma_latest_entries_came_from::<MergePointer>(files, serialized_tombstone);
    lemma_merge_copies_each_key_once(keydir, files, pointers, max_file_size_bytes);
    let at = from[j];
    let key = pointers[at].0;
    let pointer = pointers[at].1;
    assert(came_from(files, serialized_tombstone, key, pointer));
    let (f, offset) = choose|f: int, offset: nat|
        0 <= f < files.len() && #[trigger] is_record_of(
            files[f],
            serialized_tombstone,
            key,
            pointer,
            offset,
        );
    let file = files[f];
    let img = valid_record_at(file.bytes@, offset)->Ok_0->Some_0;
    lemma_record_at_well_formed(file.bytes@, offset as int);
    assert(file.bytes@.len() <= usize::MAX) by {
        assert(file.bytes.len() <= usize::MAX);
    }
    assert(copies_whole_record(end.copies[j], file, img));
}

/// A compaction leaves the keys of the index as they were, each in its
/// place: it puts no key in and takes none out, and no key comes to point at
/// an earlier write.
pub proof fn lemma_merge_keeps_keys(
    state: MergeState,
    pointers: Seq<(Seq<u8>, MergePointer)>,
    max_file_size_bytes: u64,
)
    requires
        distinct_keys(state.keydir),
    ensures
        ({
            let end = merge_fold(state, pointers, max_file_size_bytes);
            &&& distinct_keys(end.keydir)
            &&& end.keydir.len() == state.keydir.len()
            &&& forall|i: int|
                0 <= i < end.keydir.len() ==> (#[trigger] end.keydir[i]).0 == state.keydir[i].0
                    && end.keydir[i].1.tx_id@ >= state.keydir[i].1.tx_id@
            &&& forall|key: Seq<u8>| #[trigger]
                has_key(end.keydir, key) == has_key(state.keydir, key)
            &&& to_map(end.keydir).dom() == to_map(
                state.keydir,
            ).dom()
        }),
    decreases pointers.len(),
{
    let end = merge_fold(state, pointers, max_file_size_bytes);
    if pointers.len() > 0 {
        let front = pointers.drop_last();
        let key = pointers.last().0;
        let pointer = pointers.last().1;
        lemma_merge_keeps_keys(state, front, max_file_size_bytes);
        let mid = merge_fold(state, front, max_file_size_bytes);
        if end.copies.len() > mid.copies.len() {
            let at = position(mid.keydir, key);
            assert(end.keydir == mid.keydir.update(at, end.keydir[at]));
            assert(end.keydir[at].0 == key);
            assert(mid.keydir[at].1.tx_id@ <= pointer.tx_id@);
            assert forall|i: int, j: int| 0 <= i < j < end.keydir.len() implies (
            #[trigger] end.keydir[i]).0 != (#[trigger] end.keydir[j]).0 by {
                assert(mid.keydir[i].0 != mid.keydir[j].0);
            }
            assert forall|other: Seq<u8>| #[trigger]
                has_key(end.keydir, other) == has_key(state.keydir, other) by {
                if has_key(end.keydir, other) {
                    let w = position(end.keydir, other);
                    assert(mid.keydir[w].0 == other);
                }
                if has_key(mid.keydir, other) {
                    let w = position(mid.keydir, other);
                    assert(end.keydir[w].0 == other);
                }
            }
        }
    }
    assert(to_map(end.keydir).dom() =~= to_map(state.keydir).dom());
}

/// A compaction copies records of keys that the index holds, and of no
/// others.
pub proof fn lemma_copied_keys_in_index(
    state: MergeState,
    pointers: Seq<(Seq<u8>, MergePointer)>,
    max_file_size_bytes: u64,
)
    requires
        distinct_keys(state.keydir),
    ensures
        forall|j: int|
            0 <= j < copied_from(state, pointers, max_file_size_bytes).len() ==> 0
                <= #[trigger] copied_from(state, pointers, max_file_size_bytes)[j]
                < pointers.len() && has_key(
                state.keydir,
                pointers[copied_from(state, pointers, max_file_size_bytes)[j]].0,
            ),
    decreases pointers.len(),
{
    let from = copied_from(state, pointers, max_file_size_bytes);
    if pointers.len() > 0 {
        let front = pointers.drop_last();
        let last = pointers.len() - 1;
        lemma_copied_keys_in_index(state, front, max_file_size_bytes);
        lemma_merge_keeps_keys(state, front, max_file_size_bytes);
        let mid = merge_fold(state, front, max_file_size_bytes);
        let mid_from = copied_from(state, front, max_file_size_bytes);
        assert forall|j: int| 0 <= j < from.len() implies 0 <= #[trigger] from[j] < pointers.len()
            && has_key(state.keydir, pointers[from[j]].0) by {
            if j < mid_from.len() {
                assert(from[j] == mid_from[j]);
                assert(0 <= mid_from[j] < front.len());
                assert(pointers[from[j]] == front[mid_from[j]]);
            } else {
                assert(from[j] == last);
                assert(has_key(mid.keydir, pointers[last].0));
            }
        }
    }
}

/// A compaction that has a file to write to keeps having one.
proof fn lemma_merge_has_target(
    state: MergeState,
    pointers: Seq<(Seq<u8>, MergePointer)>,
    max_file_size_bytes: u64,
)
    requires
        state.current is Some || state.targets.len() > 0,
    ensures
        merge_fold(state, pointers, max_file_size_bytes).current is Some || merge_fold(
            state,
            pointers,
            max_file_size_bytes,
        ).targets.len() > 0,
    decreases pointers.len(),
{
    if pointers.len() > 0 {
        lemma_merge_has_target(state, pointers.drop_last(), max_file_size_bytes);
    }
}

/// A compaction leaves alone what the index holds for a key that none of the
/// pointers is for.
proof fn lemma_merge_untouched(
    state: MergeState,
    pointers: Seq<(Seq<u8>, MergePointer)>,
    max_file_size_bytes: u64,
    key: Seq<u8>,
)
    requires
        distinct_keys(state.keydir),
        forall|i: int| 0 <= i < pointers.len() ==> (#[trigger] pointers[i]).0 != key,
    ensures
        distinct_keys(merge_fold(state, pointers, max_file_size_bytes).keydir),
        has_key(merge_fold(state, pointers, max_file_size_bytes).keydir, key) == has_key(
            state.keydir,
            key,
        ),
        has_key(state.keydir, key) ==> value_of(
            merge_fold(state, pointers, max_file_size_bytes).keydir,
            key,
        ) == value_of(state.keydir, key),
    decreases pointers.len(),
{
    if pointers.len() > 0 {
        let front = pointers.drop_last();
        let last = pointers.len() - 1;
        assert forall|i: int| 0 <= i < front.len() implies (#[trigger] front[i]).0 != key by {
            assert(front[i] == pointers[i]);
        }
        lemma_merge_untouched(state, front, max_file_size_bytes, key);
        let mid = merge_fold(state, front, max_file_size_bytes);
        let end = merge_fold(state, pointers, max_file_size_bytes);
        let pointer = pointers[last].1;
        assert(pointers[last].0 != key);
        if end.copies.len() > mid.copies.len() {
            let next_file = mid.current is None || (mid.offset > max_file_size_bytes
                && mid.targets.len() > 0);
            let target = if next_file {
                mid.targets.last()
            } else {
                mid.current->Some_0
            };
            let offset: nat = if next_file {
                0
            } else {
                mid.offset
            };
            lemma_put(
                mid.keydir,
                pointers[last].0,
                EntryPointer {
                    file_id: target,
                    value_position: (offset + HEADER_SIZE + pointer.key_size.0) as u64,
                    value_size: pointer.value_size,
                    tx_id: pointer.tx_id,
                },
            );
        }
    }
}

/// A compaction copies every record that is to be copied: each pointer to a
/// record that stores a value, for a key that the index holds with nothing
/// later, has its record among the copies.
pub proof fn lemma_merge_copies_all_latest(
    keydir: Seq<(Seq<u8>, EntryPointer)>,
    files: Seq<DataFile>,
    pointers: Seq<(Seq<u8>, MergePointer)>,
    max_file_size_bytes: u64,
    i: int,
)
    requires
        distinct_keys(keydir),
        distinct_keys(pointers),
        files.len() > 0,
        0 <= i < pointers.len(),
        survives(keydir, pointers[i].0, pointers[i].1),
    ensures
        copied_from(merge_start(keydir, files), pointers, max_file_size_bytes).contains(i),
{
    lemma_copies_all(merge_start(keydir, files), pointers, max_file_size_bytes, i);
}

/// What `lemma_merge_copies_all_latest` says, from any state on that has a
/// file to write to.
proof fn lemma_copies_all(
    state: MergeState,
    pointers: Seq<(Seq<u8>, MergePointer)>,
    max_file_size_bytes: u64,
    i: int,
)
    requires
        distinct_keys(state.keydir),
        distinct_keys(pointers),
        state.current is Some || state.targets.len() > 0,
        0 <= i < pointers.len(),
        survives(state.keydir, pointers[i].0, pointers[i].1),
    ensures
        copied_from(state, pointers, max_file_size_bytes).contains(i),
    decreases pointers.len(),
{
    let from = copied_from(state, pointers, max_file_size_bytes);
    let front = pointers.drop_last();
    let last = pointers.len() - 1;
    let mid_from = copied_from(state, front, max_file_size_bytes);
    let mid = merge_fold(state, front, max_file_size_bytes);
    assert forall|a: int, b: int| 0 <= a < b < front.len() implies (#[trigger] front[a]).0 != (
    #[trigger] front[b]).0 by {
        assert(pointers[a].0 != pointers[b].0);
    }
    if i < last {
        assert(front[i] == pointers[i]);
        lemma_copies_all(state, front, max_file_size_bytes, i);
        let w = choose|w: int| 0 <= w < mid_from.len() && mid_from[w] == i;
        assert(from[w] == i);
    } else {
        let key = pointers[last].0;
        assert forall|a: int| 0 <= a < front.len() implies (#[trigger] front[a]).0 != key by {
            assert(pointers[a].0 != pointers[last].0);
        }
        lemma_merge_untouched(state, front, max_file_size_bytes, key);
        lemma_merge_has_target(state, front, max_file_size_bytes);
        assert(survives(mid.keydir, key, pointers[last].1));
        assert(from == mid_from.push(last));
        assert(from[from.len() - 1] == last);
    }
}

} // verus!
