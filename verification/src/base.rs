//! The engine: start-up from the data files, the write path, and compaction.
//!
//! The engine touches no file. It is handed the bytes of the data files, and
//! it answers each write with the record to append and with what else is to
//! be done to the files.

use crate::codec::{encoded, serialize_bytes};
use crate::error::{Error, SerializeError};
use crate::keydir::{EntryPointer, EntryWithLiveness, FileId, Keydir, Liveness};
use crate::keymap::{
    delete, distinct_keys, has_key, lemma_position, lemma_put, position, put, value_of, KeyMap,
};
use crate::loadable::{latest_entries, load_latest_entries, DataFile};
use crate::merge::{
    all_sized, copied_bytes, copied_from, copies_record, file_ids, lemma_latest_pointers,
    lemma_merge_copies_each_key_once, lemma_merge_fold, lemma_merge_keeps_keys,
    lemma_pointed_bytes_prefix,
    lemma_total_bytes_prefix, merge_fold,
    merge_start, pointed_bytes, sized, total_bytes, MergeCopy, MergeState,
};
use crate::merge_pointer::MergePointer;
use crate::record::{
    image_of, image_tx_id, lemma_image_of, Record, TxId, ValueSize, HEADER_SIZE, TOMBSTONE_BYTES,
};
use crate::FlushBehavior;
use crate::Options;
use vstd::prelude::*;
use vstd::slice::slice_to_vec;

verus! {

/// `s` with `file` put in behind the last file whose id is not higher.
pub open spec fn insert_by_id(s: Seq<DataFile>, file: DataFile) -> Seq<DataFile>
    decreases s.len(),
{
    if s.len() == 0 || s.last().file_id@ <= file.file_id@ {
        s.push(file)
    } else {
        insert_by_id(s.drop_last(), file).push(s.last())
    }
}

/// The files of `s` by ascending id; files with one id keep their order.
pub open spec fn sorted_by_id(s: Seq<DataFile>) -> Seq<DataFile>
    decreases s.len(),
{
    if s.len() == 0 {
        s
    } else {
        insert_by_id(sorted_by_id(s.drop_last()), s.last())
    }
}

/// The files stand in the order of their ids.
pub open spec fn ascending(s: Seq<DataFile>) -> bool {
    forall|i: int, j: int| 0 <= i <= j < s.len() ==> s[i].file_id@ <= s[j].file_id@
}

/// Putting a file in by its id keeps the order, and adds that file alone.
pub proof fn lemma_insert_by_id(s: Seq<DataFile>, file: DataFile)
    requires
        ascending(s),
    ensures
        ascending(insert_by_id(s, file)),
        insert_by_id(s, file).to_multiset() == s.to_multiset().insert(file),
        insert_by_id(s, file).len() == s.len() + 1,
    decreases s.len(),
{
    broadcast use vstd::seq_lib::group_to_multiset_ensures;

    let t = insert_by_id(s, file);
    if s.len() == 0 || s.last().file_id@ <= file.file_id@ {
        assert forall|i: int, j: int| 0 <= i <= j < t.len() implies t[i].file_id@
            <= t[j].file_id@ by {
            if j == s.len() && i < s.len() {
                assert(s[i].file_id@ <= s[s.len() - 1].file_id@);
            }
        }
    } else {
        let front = s.drop_last();
        assert(ascending(front));
        lemma_insert_by_id(front, file);
        let u = insert_by_id(front, file);
        assert(s =~= front.push(s.last()));
        assert forall|k: int| 0 <= k < u.len() implies (#[trigger] u[k]).file_id@
            <= s.last().file_id@ by {
            assert(u.to_multiset().count(u[k]) > 0) by {
                u.to_multiset_ensures();
            }
            if u[k] != file {
                assert(front.to_multiset().count(u[k]) > 0);
                front.to_multiset_ensures();
                assert(front.contains(u[k]));
                let w = choose|w: int| 0 <= w < front.len() && front[w] == u[k];
                assert(s[w].file_id@ <= s[s.len() - 1].file_id@);
            }
        }
        assert forall|i: int, j: int| 0 <= i <= j < t.len() implies t[i].file_id@
            <= t[j].file_id@ by {
            if j < u.len() {
                assert(u[i].file_id@ <= u[j].file_id@);
            } else if i < u.len() {
                assert(u[i].file_id@ <= s.last().file_id@);
            }
        }
    }
}

/// Sorting gives the same files, by ascending id.
pub proof fn lemma_sorted_by_id(s: Seq<DataFile>)
    ensures
        ascending(sorted_by_id(s)),
        sorted_by_id(s).to_multiset() == s.to_multiset(),
        sorted_by_id(s).len() == s.len(),
    decreases s.len(),
{
    broadcast use vstd::seq_lib::group_to_multiset_ensures;

    if s.len() > 0 {
        lemma_sorted_by_id(s.drop_last());
        lemma_insert_by_id(sorted_by_id(s.drop_last()), s.last());
        assert(s =~= s.drop_last().push(s.last()));
    }
}

/// Where a file goes that is put in by its id: behind the files before `at`,
/// whose ids are not higher, and before the others, whose ids are.
pub proof fn lemma_insert_by_id_at(s: Seq<DataFile>, file: DataFile, at: int)
    requires
        0 <= at <= s.len(),
        at > 0 ==> s[at - 1].file_id@ <= file.file_id@,
        forall|k: int| at <= k < s.len() ==> (#[trigger] s[k]).file_id@ > file.file_id@,
    ensures
        insert_by_id(s, file) == s.insert(at, file),
    decreases s.len(),
{
    if at == s.len() {
        assert(s.insert(at, file) =~= s.push(file));
    } else {
        assert(s[s.len() - 1].file_id@ > file.file_id@);
        lemma_insert_by_id_at(s.drop_last(), file, at);
        assert(s.insert(at, file) =~= s.drop_last().insert(at, file).push(s.last()));
    }
}

/// Sorts the files by ascending id. Files with one id keep their order.
pub fn sort_files(files: &mut Vec<DataFile>)
    ensures
        final(files)@ == sorted_by_id(old(files)@),
{
    let n: usize = files.len();
    let mut i: usize = 0;
    proof {
        assert(files@.subrange(0, 0) =~= sorted_by_id(old(files)@.subrange(0, 0)));
    }
    while i < n
        invariant
            i <= n,
            n == old(files)@.len(),
            files@.len() == n,
            files@.subrange(0, i as int) == sorted_by_id(old(files)@.subrange(0, i as int)),
            files@.subrange(i as int, n as int) == old(files)@.subrange(i as int, n as int),
        decreases n - i,
    {
        let ghost before = files@;
        let ghost done = files@.subrange(0, i as int);
        let file = files.remove(i);
        let mut at: usize = i;
        while at > 0 && files[at - 1].file_id.0 > file.file_id.0
            invariant
                at <= i < n,
                files@ == before.remove(i as int),
                before.len() == n,
                forall|k: int| at <= k < i ==> (#[trigger] files@[k]).file_id@ > file.file_id@,
            decreases at,
        {
            at = at - 1;
        }
        proof {
            assert(files@.subrange(0, i as int) =~= done);
            assert forall|k: int| at <= k < done.len() implies (#[trigger] done[k]).file_id@
                > file.file_id@ by {
                assert(done[k] == files@[k]);
            }
            if at > 0 {
                assert(done[at - 1] == files@[at - 1]);
            }
            lemma_insert_by_id_at(done, file, at as int);
            let seen = old(files)@.subrange(0, i + 1);
            assert(seen.drop_last() =~= old(files)@.subrange(0, i as int));
            assert(seen.last() == file) by {
                assert(before.subrange(i as int, n as int)[0] == old(files)@.subrange(
                    i as int,
                    n as int,
                )[0]);
            }
        }
        files.insert(at, file);
        proof {
            assert(files@.subrange(0, i + 1) =~= done.insert(at as int, file));
            assert(files@.subrange(i + 1, n as int) =~= old(files)@.subrange(i + 1, n as int)) by {
                assert forall|k: int| i + 1 <= k < n implies files@[k] == old(files)@[k] by {
                    assert(before.subrange(i as int, n as int)[k - i] == old(files)@.subrange(
                        i as int,
                        n as int,
                    )[k - i]);
                }
            }
        }
        i = i + 1;
    }
    proof {
        assert(files@.subrange(0, n as int) =~= files@);
        assert(old(files)@.subrange(0, n as int) =~= old(files)@);
    }
}

/// The pointers of the keys whose latest record stores a value, in the order
/// of `s`.
pub open spec fn live_entries(s: Seq<(Seq<u8>, EntryWithLiveness)>) -> Seq<(Seq<u8>, EntryPointer)>
    decreases s.len(),
{
    if s.len() == 0 {
        Seq::empty()
    } else if s.last().1.liveness == Liveness::Live {
        live_entries(s.drop_last()).push((s.last().0, s.last().1.entry))
    } else {
        live_entries(s.drop_last())
    }
}

/// A key is live where it stands in `s` with a record that stores a value,
/// and then its pointer is that record's.
pub proof fn lemma_live_entries(s: Seq<(Seq<u8>, EntryWithLiveness)>)
    requires
        distinct_keys(s),
    ensures
        distinct_keys(live_entries(s)),
        forall|key: Seq<u8>| #[trigger]
            has_key(live_entries(s), key) <==> has_key(s, key)
                && value_of(s, key).liveness == Liveness::Live,
        forall|key: Seq<u8>| #[trigger]
            has_key(live_entries(s), key) ==> value_of(
                live_entries(s),
                key,
            ) == value_of(s, key).entry,
    decreases s.len(),
{
    let t = live_entries(s);
    if s.len() > 0 {
        let front = s.drop_last();
        let last = s.len() - 1;
        lemma_live_entries(front);
        let u = live_entries(front);
        assert forall|i: int| 0 <= i < front.len() implies #[trigger] front[i] == s[i] by {}
        assert(!has_key(front, s.last().0)) by {
            if has_key(front, s.last().0) {
                let w = position(front, s.last().0);
                assert(s[w].0 != s[last].0);
            }
        }
        assert forall|key: Seq<u8>| has_key(s, key) <==> (key == s.last().0
            || has_key(front, key)) by {
            if has_key(s, key) {
                let w = position(s, key);
                if w < last {
                    assert(front[w].0 == key);
                }
            }
            if has_key(front, key) {
                let w = position(front, key);
                assert(s[w].0 == key);
            }
            if key == s.last().0 {
                assert(s[last].0 == key);
            }
        }
        assert forall|key: Seq<u8>| has_key(front, key) implies value_of(
            s,
            key,
        ) == value_of(front, key) by {
            let w = position(front, key);
            assert(s[w] == front[w]);
            lemma_position(s, w);
        }
        lemma_position(s, last);
        let key_last = s.last().0;
        if s.last().1.liveness == Liveness::Live {
            assert(t == put(u, key_last, s.last().1.entry));
            lemma_put(u, key_last, s.last().1.entry);
        }
        assert forall|key: Seq<u8>| #[trigger]
            has_key(t, key) <==> has_key(s, key)
                && value_of(s, key).liveness == Liveness::Live by {
            if key != key_last {
                assert(has_key(t, key) == has_key(u, key));
                assert(has_key(s, key) == has_key(front, key));
            }
        }
        assert forall|key: Seq<u8>| #[trigger]
            has_key(t, key) implies value_of(t, key)
            == value_of(s, key).entry by {
            if key != key_last {
                assert(has_key(u, key));
                assert(has_key(front, key));
            }
        }
    } else {
        assert forall|key: Seq<u8>| !#[trigger] has_key(t, key) by {}
        assert forall|key: Seq<u8>| !#[trigger] has_key(s, key) by {}
    }
}

/// The engine's state.
pub struct Base {
    pub options: Options,
    pub keydir: Keydir,
    /// The file that writes are appended to.
    pub active_file_id: FileId,
    /// The size of the active file, with what is still in the write buffer.
    pub offset: u64,
    /// The transaction id of the latest write.
    pub tx_id: TxId,
    /// The encoded tombstone: the value of a record that deletes its key.
    pub serialized_tombstone: Vec<u8>,
}

/// The highest transaction id among the entries of `s`, whether they store a
/// value or delete their key.
pub open spec fn latest_read(s: Seq<(Seq<u8>, EntryWithLiveness)>) -> Option<u128>
    decreases s.len(),
{
    if s.len() == 0 {
        None
    } else {
        match latest_read(s.drop_last()) {
            Some(t) if t >= s.last().1.entry.tx_id@ => Some(t),
            _ => Some(s.last().1.entry.tx_id@),
        }
    }
}

/// The highest transaction id is that of one of the entries, and none has a
/// higher one.
pub proof fn lemma_latest_read(s: Seq<(Seq<u8>, EntryWithLiveness)>)
    ensures
        s.len() == 0 <==> latest_read(s) is None,
        s.len() > 0 ==> exists|i: int|
            0 <= i < s.len() && (#[trigger] s[i]).1.entry.tx_id@ == latest_read(s)->Some_0,
        forall|i: int|
            0 <= i < s.len() ==> (#[trigger] s[i]).1.entry.tx_id@ <= latest_read(s)->Some_0,
    decreases s.len(),
{
    if s.len() > 0 {
        let front = s.drop_last();
        lemma_latest_read(front);
        let last = s.len() - 1;
        if front.len() > 0 {
            let w = choose|i: int|
                0 <= i < front.len() && (#[trigger] front[i]).1.entry.tx_id@ == latest_read(
                    front,
                )->Some_0;
            assert(s[w] == front[w]);
        }
        assert(s[last] == s.last());
        assert forall|i: int| 0 <= i < s.len() implies (#[trigger] s[i]).1.entry.tx_id@
            <= latest_read(s)->Some_0 by {
            if i < last {
                assert(s[i] == front[i]);
            }
        }
    }
}

/// The transaction id that the engine starts from: one past the highest that
/// the files hold in any entry read from them, a deletion as well as a value,
/// as far as the ids reach.
pub open spec fn first_tx_id(entries: Seq<(Seq<u8>, EntryWithLiveness)>) -> u128 {
    match latest_read(entries) {
        Some(latest) => if latest < u128::MAX {
            (latest + 1) as u128
        } else {
            u128::MAX
        },
        None => 1,
    }
}

/// The id of the file that the engine starts to write: one past the highest
/// id among `files`.
pub open spec fn first_active_file_id(files: Seq<DataFile>) -> int {
    if files.len() == 0 {
        1
    } else {
        sorted_by_id(files).last().file_id@ + 1
    }
}

impl Base {
    /// The index holds no key twice, and the active file is still below the
    /// size at which it is closed.
    pub open spec fn wf(&self) -> bool {
        &&& self.keydir.wf()
        &&& self.offset < self.options.max_file_size_bytes
    }

    /// `self` is the engine as it starts on `files`, whose latest entries are
    /// `entries`.
    pub open spec fn starts_from(
        &self,
        files: Seq<DataFile>,
        options: Options,
        serialized_tombstone: Seq<u8>,
        entries: Seq<(Seq<u8>, EntryWithLiveness)>,
    ) -> bool {
        &&& self.wf()
        &&& self.options == options
        &&& self.keydir.entries() == live_entries(entries)
        &&& self.active_file_id@ == first_active_file_id(files)
        &&& forall|i: int| 0 <= i < files.len() ==> (#[trigger] files[i]).file_id@ < self.active_file_id@
        &&& self.offset == 0
        &&& self.tx_id@ == first_tx_id(entries)
        &&& forall|i: int|
            0 <= i < entries.len() ==> (#[trigger] entries[i]).1.entry.tx_id@ <= self.tx_id@
        &&& self.serialized_tombstone@ == serialized_tombstone
    }

    /// Starts the engine on the data files of a directory. The caller then
    /// creates the file `active_file_id`, which must not exist yet.
    ///
    /// Fails where a file holds a record that is cut short or whose checksum
    /// does not hold.
    pub fn new(files: Vec<DataFile>, options: Options) -> (opened: Result<Base, Error>)
        requires
            options.max_file_size_bytes > 0,
            forall|i: int| 0 <= i < files@.len() ==> (#[trigger] files@[i]).file_id@ < u32::MAX,
        ensures
            match latest_entries::<EntryWithLiveness>(
                sorted_by_id(files@),
                encoded(TOMBSTONE_BYTES@),
            ) {
                Ok(entries) => opened matches Ok(base) && base.starts_from(
                    files@,
                    options,
                    encoded(TOMBSTONE_BYTES@),
                    entries,
                ),
                Err(e) => opened matches Err(err) && err == e,
            },
    {
        let tombstone = Record::tombstone();
        match serialize_bytes(tombstone.as_slice()) {
            Ok(serialized_tombstone) => Base::with_tombstone(files, options, serialized_tombstone),
            Err(e) => Err(
                Error::SerializeError(
                    SerializeError { msg: "unable to serialize to bincode".to_string(), source: e },
                ),
            ),
        }
    }

    /// Starts the engine on the data files of a directory, with
    /// `serialized_tombstone` as the value that marks a deletion.
    pub fn with_tombstone(
        files: Vec<DataFile>,
        options: Options,
        serialized_tombstone: Vec<u8>,
    ) -> (opened: Result<Base, Error>)
        requires
            options.max_file_size_bytes > 0,
            forall|i: int| 0 <= i < files@.len() ==> (#[trigger] files@[i]).file_id@ < u32::MAX,
        ensures
            match latest_entries::<EntryWithLiveness>(
                sorted_by_id(files@),
                serialized_tombstone@,
            ) {
                Ok(entries) => opened matches Ok(base) && base.starts_from(
                    files@,
                    options,
                    serialized_tombstone@,
                    entries,
                ),
                Err(e) => opened matches Err(err) && err == e,
            },
    {
        let mut db_files = files;
        sort_files(&mut db_files);
        proof {
            lemma_sorted_by_id(files@);
            lemma_ids_below_last(files@);
        }

        let latest_file_id: FileId = if db_files.len() == 0 {
            FileId(0)
        } else {
            proof {
                let w = choose|w: int| 0 <= w < files@.len() && files@[w] == db_files@.last();
                assert(files@[w].file_id@ < u32::MAX);
            }
            db_files[db_files.len() - 1].file_id
        };

        let active_file_id = latest_file_id.add(1);

        let all_entries_with_livenesses: KeyMap<EntryWithLiveness> = match load_latest_entries::<
            EntryWithLiveness,
        >(&db_files, serialized_tombstone.as_slice()) {
            Ok(entries) => entries,
            Err(e) => {
                return Err(e);
            },
        };

        let mut all_entries: KeyMap<EntryPointer> = KeyMap::new();
        let mut latest_tx_id: Option<TxId> = None;
        let mut i: usize = 0;
        let ghost loaded = all_entries_with_livenesses.entries();
        while i < all_entries_with_livenesses.len()
            invariant
                i <= loaded.len(),
                loaded == all_entries_with_livenesses.entries(),
                distinct_keys(loaded),
                all_entries.wf(),
                all_entries.entries() == live_entries(loaded.subrange(0, i as int)),
                match latest_tx_id {
                    Some(id) => latest_read(loaded.subrange(0, i as int)) == Some(id@),
                    None => latest_read(loaded.subrange(0, i as int)) is None,
                },
            decreases loaded.len() - i,
        {
            let entry_with_liveness: EntryWithLiveness = *all_entries_with_livenesses.value_at(i);
            // a deletion counts as well: the next write has to be later than it
            latest_tx_id = match latest_tx_id {
                Some(id) => if id.0 >= entry_with_liveness.entry.tx_id.0 {
                    Some(id)
                } else {
                    Some(entry_with_liveness.entry.tx_id)
                },
                None => Some(entry_with_liveness.entry.tx_id),
            };
            proof {
                let seen = loaded.subrange(0, i + 1);
                assert(seen.drop_last() =~= loaded.subrange(0, i as int));
                assert(seen.last() == loaded[i as int]);
                lemma_live_entries(loaded.subrange(0, i as int));
                assert(!has_key(loaded.subrange(0, i as int), loaded[i as int].0))
                    by {
                    if has_key(loaded.subrange(0, i as int), loaded[i as int].0) {
                        let w = position(
                            loaded.subrange(0, i as int),
                            loaded[i as int].0,
                        );
                        assert(loaded[w].0 != loaded[i as int].0);
                    }
                }
            }
            if entry_with_liveness.liveness == Liveness::Live {
                let key = slice_to_vec(all_entries_with_livenesses.key_at(i));
                all_entries.insert(key, entry_with_liveness.entry);
            }
            i = i + 1;
        }
        proof {
            assert(loaded.subrange(0, i as int) =~= loaded);
        }

        let keydir = Keydir::new(all_entries);

        let tx_id: TxId = match latest_tx_id {
            Some(latest) => if latest.0 < u128::MAX {
                latest.add(1)
            } else {
                latest
            },
            None => TxId(1),
        };
        proof {
            lemma_latest_read(loaded);
        }

        Ok(Base { options, keydir, active_file_id, offset: 0, tx_id, serialized_tombstone })
    }

    /// Whether the engine can be started on `files` with `options`: the full
    /// size is not zero, and an id is left for the active file.
    pub fn can_start(files: &Vec<DataFile>, options: &Options) -> (ok: bool)
        ensures
            ok == (options.max_file_size_bytes > 0 && forall|i: int|
                0 <= i < files@.len() ==> (#[trigger] files@[i]).file_id@ < u32::MAX),
    {
        if options.max_file_size_bytes == 0 {
            return false;
        }
        let mut i: usize = 0;
        while i < files.len()
            invariant
                i <= files@.len(),
                forall|j: int| 0 <= j < i ==> (#[trigger] files@[j]).file_id@ < u32::MAX,
            decreases files@.len() - i,
        {
            if files[i].file_id.0 == u32::MAX {
                return false;
            }
            i = i + 1;
        }
        true
    }

    /// Whether a record with a key of `key_size` bytes and a value of
    /// `value_size` bytes can be written.
    pub fn has_room(&self, key_size: usize, value_size: usize) -> (ok: bool)
        requires
            self.wf(),
        ensures
            ok == self.can_write(key_size as nat, value_size as nat),
    {
        if key_size > 0xffff || value_size > 0xffff_ffff || self.tx_id.0 == u128::MAX {
            return false;
        }
        let record_size: u64 = HEADER_SIZE as u64 + key_size as u64 + value_size as u64;
        if self.offset > u64::MAX - record_size {
            return false;
        }
        self.offset + record_size < self.options.max_file_size_bytes || self.active_file_id.0
            < u32::MAX
    }

    /// Whether `files` can be compacted: none is the active file, and their
    /// sizes together fit a file offset.
    pub fn can_merge(&self, files: &Vec<DataFile>) -> (ok: bool)
        ensures
            ok == ((forall|i: int|
                0 <= i < files@.len() ==> (#[trigger] files@[i]).file_id != self.active_file_id)
                && total_bytes(files@) <= u64::MAX),
    {
        let mut total: u64 = 0;
        let mut i: usize = 0;
        proof {
            assert(files@.subrange(0, 0) =~= Seq::<DataFile>::empty());
        }
        while i < files.len()
            invariant
                i <= files@.len(),
                total == total_bytes(files@.subrange(0, i as int)),
                forall|j: int| 0 <= j < i ==> (#[trigger] files@[j]).file_id != self.active_file_id,
            decreases files@.len() - i,
        {
            let size: usize = files[i].bytes.len();
            proof {
                let seen = files@.subrange(0, i + 1);
                assert(seen.drop_last() =~= files@.subrange(0, i as int));
                assert(seen.last() == files@[i as int]);
                lemma_total_bytes_prefix(files@, i + 1);
            }
            if files[i].file_id.0 == self.active_file_id.0 || size as u64 > u64::MAX - total {
                return false;
            }
            total = total + size as u64;
            i = i + 1;
        }
        proof {
            assert(files@.subrange(0, i as int) =~= files@);
        }
        true
    }

    /// Where the value of `k` stands, if `k` is live. The caller reads
    /// `value_size` bytes at `value_position` of the file `file_id`.
    pub fn get(&self, k: &[u8]) -> (entry: Option<EntryPointer>)
        requires
            self.wf(),
        ensures
            entry == self.keydir@.get(k@),
    {
        match self.keydir.get(k) {
            Some(entry) => Some(*entry),
            None => None,
        }
    }

    /// Stores `v` for `k`.
    pub fn insert(&mut self, k: Vec<u8>, v: &[u8]) -> (write: Write)
        requires
            old(self).can_write(k@.len(), v@.len()),
        ensures
            final(self).wrote(*old(self), write, k@, v@),
            final(self).keydir.entries() == put(
                old(self).keydir.entries(),
                k@,
                old(self).next_entry(k@.len(), v@.len()),
            ),
            final(self).keydir@ == old(self).keydir@.insert(
                k@,
                old(self).next_entry(k@.len(), v@.len()),
            ),
    {
        self.write_insert(k, v)
    }

    /// Deletes `k`. Where `k` is not live, nothing is written.
    pub fn remove(&mut self, k: Vec<u8>) -> (write: Option<Write>)
        requires
            old(self).wf(),
            old(self).keydir@.contains_key(k@) ==> old(self).can_write(
                k@.len(),
                old(self).serialized_tombstone@.len(),
            ),
        ensures
            final(self).wf(),
            final(self).keydir@ == old(self).keydir@.remove(k@),
            match write {
                Some(w) => old(self).keydir@.contains_key(k@) && final(self).wrote(
                    *old(self),
                    w,
                    k@,
                    old(self).serialized_tombstone@,
                ) && final(self).keydir.entries() == delete(old(self).keydir.entries(), k@),
                None => !old(self).keydir@.contains_key(k@) && *final(self) == *old(self),
            },
    {
        if self.keydir.contains_key(k.as_slice()) {
            Some(self.write_delete(k))
        } else {
            None
        }
    }

    pub fn contains_key(&self, k: &[u8]) -> (found: bool)
        requires
            self.wf(),
        ensures
            found == self.keydir@.contains_key(k@),
    {
        self.keydir.contains_key(k)
    }

    /// The live keys, in the order in which the index came to hold them.
    pub fn keys(&self) -> (keys: Vec<Vec<u8>>)
        ensures
            keys@.len() == self.keydir.entries().len(),
            forall|i: int|
                0 <= i < keys@.len() ==> (#[trigger] keys@[i])@ == self.keydir.entries()[i].0,
    {
        self.keydir.keys()
    }

    /// A record with a key of `key_size` bytes and a value of `value_size`
    /// bytes can be written: the sizes fit the header, and the counters have
    /// room.
    pub open spec fn can_write(&self, key_size: nat, value_size: nat) -> bool {
        &&& self.wf()
        &&& key_size <= u16::MAX
        &&& value_size <= u32::MAX
        &&& self.tx_id@ < u128::MAX
        &&& self.offset + HEADER_SIZE + key_size + value_size <= u64::MAX
        &&& self.rolls_over(HEADER_SIZE as nat + key_size + value_size) ==> self.active_file_id@
            < u32::MAX
    }

    /// A record of `record_size` bytes takes the active file to the size at
    /// which it is closed.
    pub open spec fn rolls_over(&self, record_size: nat) -> bool {
        self.offset + record_size >= self.options.max_file_size_bytes
    }

    /// The pointer to the value of the next record, for a key of `key_size`
    /// bytes and a value of `value_size` bytes.
    pub open spec fn next_entry(&self, key_size: nat, value_size: nat) -> EntryPointer {
        EntryPointer {
            file_id: self.active_file_id,
            value_position: (self.offset + HEADER_SIZE + key_size) as u64,
            value_size: ValueSize(value_size as u32),
            tx_id: TxId((self.tx_id@ + 1) as u128),
        }
    }

    /// `self` is the engine after it wrote `value` for `key` from the state
    /// `before`, and `write` is what is to be done to the files: the index
    /// apart, which differs between a value and a tombstone.
    pub open spec fn wrote(
        &self,
        before: Base,
        write: Write,
        key: Seq<u8>,
        value: Seq<u8>,
    ) -> bool {
        &&& self.wf()
        &&& self.options == before.options
        &&& self.serialized_tombstone == before.serialized_tombstone
        &&& self.tx_id@ == before.tx_id@ + 1
        &&& write.record@ == image_of(key, value, self.tx_id@)
        &&& write.file_id == before.active_file_id
        &&& write.offset == before.offset
        &&& if before.rolls_over(write.record@.len()) {
            &&& write.rollover == Some(self.active_file_id)
            &&& self.active_file_id@ == before.active_file_id@ + 1
            &&& self.offset == 0
        } else {
            &&& write.rollover is None
            &&& self.active_file_id == before.active_file_id
            &&& self.offset == before.offset + write.record@.len()
        }
        &&& write.flush == (self.options.flush_behavior == FlushBehavior::AfterEveryWrite)
    }

    /// Builds the record that stores `v` for `k`, points the index at it, and
    /// moves the write position behind it.
    pub fn write_insert(&mut self, k: Vec<u8>, v: &[u8]) -> (write: Write)
        requires
            old(self).can_write(k@.len(), v@.len()),
        ensures
            final(self).wrote(*old(self), write, k@, v@),
            final(self).keydir.entries() == put(
                old(self).keydir.entries(),
                k@,
                old(self).next_entry(k@.len(), v@.len()),
            ),
            final(self).keydir@ == old(self).keydir@.insert(
                k@,
                old(self).next_entry(k@.len(), v@.len()),
            ),
    {
        self.tx_id.add_assign(1);

        let record = Record::new(k.as_slice(), v, self.tx_id);
        proof {
            lemma_image_of(k@, v@, self.tx_id@);
        }

        let value_position = self.offset + HEADER_SIZE as u64 + record.key_size().0 as u64;

        let entry = EntryPointer {
            file_id: self.active_file_id,
            value_position,
            value_size: record.value_size(),
            tx_id: self.tx_id,
        };

        self.keydir.insert(k, entry);

        self.advance(record)
    }

    /// Builds the record that deletes `k`, takes `k` out of the index, and
    /// moves the write position behind the record.
    pub fn write_delete(&mut self, k: Vec<u8>) -> (write: Write)
        requires
            old(self).can_write(k@.len(), old(self).serialized_tombstone@.len()),
        ensures
            final(self).wrote(*old(self), write, k@, old(self).serialized_tombstone@),
            final(self).keydir.entries() == delete(old(self).keydir.entries(), k@),
            final(self).keydir@ == old(self).keydir@.remove(k@),
    {
        self.tx_id.add_assign(1);

        let record = Record::new(k.as_slice(), self.serialized_tombstone.as_slice(), self.tx_id);
        proof {
            lemma_image_of(k@, self.serialized_tombstone@, self.tx_id@);
        }

        self.keydir.remove(k.as_slice());

        self.advance(record)
    }

    /// Moves the write position behind `record`, and closes the active file
    /// where that takes it to its full size.
    fn advance(&mut self, record: Record) -> (write: Write)
        requires
            old(self).keydir.wf(),
            old(self).offset < old(self).options.max_file_size_bytes,
            old(self).offset + record@.len() <= u64::MAX,
            old(self).rolls_over(record@.len()) ==> old(self).active_file_id@ < u32::MAX,
            record@.len() > 0,
        ensures
            final(self).wf(),
            final(self).options == old(self).options,
            final(self).serialized_tombstone == old(self).serialized_tombstone,
            final(self).tx_id == old(self).tx_id,
            final(self).keydir == old(self).keydir,
            write.record == record,
            write.file_id == old(self).active_file_id,
            write.offset == old(self).offset,
            if old(self).rolls_over(record@.len()) {
                &&& write.rollover == Some(final(self).active_file_id)
                &&& final(self).active_file_id@ == old(self).active_file_id@ + 1
                &&& final(self).offset == 0
            } else {
                &&& write.rollover is None
                &&& final(self).active_file_id == old(self).active_file_id
                &&& final(self).offset == old(self).offset + record@.len()
            },
            write.flush == (final(self).options.flush_behavior == FlushBehavior::AfterEveryWrite),
    {
        let file_id = self.active_file_id;
        let offset = self.offset;
        let entry_size: u64 = record.len() as u64;

        self.offset = self.offset + entry_size;

        let rollover = if self.offset >= self.options.max_file_size_bytes {
            self.active_file_id.add_assign(1);
            self.offset = 0;
            Some(self.active_file_id)
        } else {
            None
        };

        let flush = match self.options.flush_behavior {
            FlushBehavior::AfterEveryWrite => true,
            FlushBehavior::WhenFull => false,
        };

        Write { record, file_id, offset, rollover, flush }
    }

    /// Plans the compaction of the inactive files `files`, and points the
    /// index at the copies. A record is copied where it stores a value and
    /// the index holds its key with nothing later; the index keeps its keys. The caller then copies the records in the order
    /// of the plan, each new file named by its target's id with `.merge`
    /// behind it; flushes; removes the inactive files; and gives each new file
    /// that is not empty the name of its target, removing the empty ones.
    ///
    /// Fails, with the engine unchanged, where a file holds a record that is
    /// cut short or whose checksum does not hold.
    pub fn merge(&mut self, files: &Vec<DataFile>) -> (merged: Result<Vec<MergeCopy>, Error>)
        requires
            old(self).wf(),
            forall|i: int|
                0 <= i < files@.len() ==> (#[trigger] files@[i]).file_id != old(self).active_file_id,
            total_bytes(files@) <= u64::MAX,
        ensures
            final(self).wf(),
            final(self).options == old(self).options,
            final(self).active_file_id == old(self).active_file_id,
            final(self).offset == old(self).offset,
            final(self).tx_id == old(self).tx_id,
            final(self).serialized_tombstone == old(self).serialized_tombstone,
            final(self).keydir@.dom() == old(self).keydir@.dom(),
            match latest_entries::<MergePointer>(files@, old(self).serialized_tombstone@) {
                Ok(pointers) => {
                    let end = merge_fold(
                        merge_start(old(self).keydir.entries(), files@),
                        pointers,
                        old(self).options.max_file_size_bytes,
                    );
                    &&& merged matches Ok(copies)
                    &&& copies@ == end.copies
                    &&& final(self).keydir.entries() == end.keydir
                    &&& copied_bytes(copies@) <= total_bytes(files@)
                    &&& forall|j: int|
                        0 <= j < copies@.len() ==> (#[trigger] copies@[j]).record_size
                            >= HEADER_SIZE && file_ids(files@).contains(copies@[j].target)
                            && copies@[j].target != old(self).active_file_id
                },
                Err(e) => merged matches Err(err) && err == e && final(self).keydir == old(
                    self,
                ).keydir,
            },
    {
        let merge_pointers = match load_latest_entries::<MergePointer>(
            files,
            self.serialized_tombstone.as_slice(),
        ) {
            Ok(pointers) => pointers,
            Err(e) => {
                return Err(e);
            },
        };
        let ghost pointers = merge_pointers.entries();
        let ghost start = merge_start(old(self).keydir.entries(), files@);
        let ghost max = self.options.max_file_size_bytes;
        proof {
            lemma_latest_pointers(files@, self.serialized_tombstone@);
            lemma_merge_fold(start, pointers, max);
            lemma_merge_copies_each_key_once(old(self).keydir.entries(), files@, pointers, max);
            lemma_merge_keeps_keys(start, pointers, max);
            let end = merge_fold(start, pointers, max);
            let from = copied_from(start, pointers, max);
            assert forall|j: int| 0 <= j < end.copies.len() implies (
            #[trigger] end.copies[j]).record_size >= HEADER_SIZE && file_ids(files@).contains(
                end.copies[j].target,
            ) && end.copies[j].target != old(self).active_file_id by {
                let at = from[j];
                assert(copies_record(end.copies[j], pointers[at].1));
                let w = choose|w: int|
                    0 <= w < file_ids(files@).len() && file_ids(files@)[w]
                        == end.copies[j].target;
                assert(files@[w].file_id != old(self).active_file_id);
            }
        }

        let mut inactive_db_files: Vec<FileId> = Vec::new();
        let mut f: usize = 0;
        while f < files.len()
            invariant
                f <= files@.len(),
                inactive_db_files@ == file_ids(files@).subrange(0, f as int),
            decreases files@.len() - f,
        {
            inactive_db_files.push(files[f].file_id);
            proof {
                assert(inactive_db_files@ =~= file_ids(files@).subrange(0, f + 1));
            }
            f = f + 1;
        }
        proof {
            assert(inactive_db_files@ =~= file_ids(files@));
        }

        let mut copies: Vec<MergeCopy> = Vec::new();
        let mut current_write_file_id: Option<FileId> = None;
        let mut offset: u64 = 0;
        let mut i: usize = 0;
        while i < merge_pointers.len()
            invariant
                i <= pointers.len(),
                pointers == merge_pointers.entries(),
                merge_pointers.wf(),
                all_sized(pointers),
                pointed_bytes(pointers) <= u64::MAX,
                max == self.options.max_file_size_bytes,
                self.keydir.wf(),
                self.options == old(self).options,
                self.active_file_id == old(self).active_file_id,
                self.offset == old(self).offset,
                self.tx_id == old(self).tx_id,
                self.serialized_tombstone == old(self).serialized_tombstone,
                current_write_file_id is Some || inactive_db_files@.len() > 0 || pointers.len()
                    == 0,
                offset <= pointed_bytes(pointers.subrange(0, i as int)),
                merge_fold(start, pointers.subrange(0, i as int), max) == (MergeState {
                    keydir: self.keydir.entries(),
                    targets: inactive_db_files@,
                    current: current_write_file_id,
                    offset: offset as nat,
                    copies: copies@,
                }),
            decreases pointers.len() - i,
        {
            let merge_pointer: MergePointer = *merge_pointers.value_at(i);
            proof {
                let seen = pointers.subrange(0, i + 1);
                assert(seen.drop_last() =~= pointers.subrange(0, i as int));
                assert(seen.last() == pointers[i as int]);
                lemma_pointed_bytes_prefix(pointers, i + 1);
                assert(sized(pointers[i as int].1));
            }
            // a key that the index lacks was deleted, and what the index holds
            // later than the record stays as it is
            let latest: bool = match self.keydir.get(merge_pointers.key_at(i)) {
                Some(entry) => entry.tx_id.0 <= merge_pointer.tx_id.0,
                None => false,
            };
            if merge_pointer.liveness == Liveness::Live && latest {
                let next_file: bool = match current_write_file_id {
                    Some(_) => offset > self.options.max_file_size_bytes && inactive_db_files.len()
                        > 0,
                    None => true,
                };
                if next_file {
                    let ghost targets = inactive_db_files@;
                    current_write_file_id = inactive_db_files.pop();
                    offset = 0;
                    proof {
                        assert(inactive_db_files@ =~= targets.drop_last());
                    }
                }
                let target: FileId = match current_write_file_id {
                    Some(id) => id,
                    None => FileId(0),
                };

                copies.push(
                    MergeCopy {
                        source: merge_pointer.file_id,
                        record_offset: merge_pointer.record_offset,
                        record_size: merge_pointer.record_size,
                        target,
                        target_offset: offset,
                    },
                );

                let value_position = offset + HEADER_SIZE as u64 + merge_pointer.key_size.0 as u64;

                offset = offset + merge_pointer.record_size;

                let new_entry = EntryPointer {
                    file_id: target,
                    value_position,
                    value_size: merge_pointer.value_size,
                    tx_id: merge_pointer.tx_id,
                };

                let key = slice_to_vec(merge_pointers.key_at(i));
                self.keydir.insert(key, new_entry);
            }
            i = i + 1;
        }
        proof {
            assert(pointers.subrange(0, i as int) =~= pointers);
        }

        Ok(copies)
    }
}

/// What a write asks of the caller, in this order: append `record` to the
/// file `file_id`, where it then begins at `offset`; where `rollover` names a
/// file, flush the write buffer and create that file, which is the active file
/// from now on; where `flush` is set, flush the write buffer.
pub struct Write {
    pub record: Record,
    pub file_id: FileId,
    pub offset: u64,
    pub rollover: Option<FileId>,
    pub flush: bool,
}

/// After a value was stored for a key, the index points at that value: in
/// the file written to, with the record appended, the bytes at the pointer
/// are the value's.
pub proof fn lemma_insert_then_get(
    before: Base,
    after: Base,
    write: Write,
    key: Seq<u8>,
    value: Seq<u8>,
    file: Seq<u8>,
)
    requires
        before.can_write(key.len(), value.len()),
        after.wrote(before, write, key, value),
        after.keydir.entries() == put(
            before.keydir.entries(),
            key,
            before.next_entry(key.len(), value.len()),
        ),
        file.len() == before.offset,
    ensures
        after.keydir@.contains_key(key),
        after.keydir@[key].file_id == write.file_id,
        after.keydir@[key].tx_id == after.tx_id,
        (file + write.record@).subrange(
            after.keydir@[key].value_position as int,
            after.keydir@[key].value_position + after.keydir@[key].value_size.0,
        ) == value,
{
    lemma_put(before.keydir.entries(), key, before.next_entry(key.len(), value.len()));
    lemma_image_of(key, value, after.tx_id@);
    let img = write.record@;
    let at = before.offset + HEADER_SIZE + key.len();
    assert((file + img).subrange(at, at + value.len()) =~= img.subrange(
        HEADER_SIZE + key.len(),
        img.len() as int,
    ));
}

/// Of two writes, one after the other, the second carries the higher
/// transaction id, and its record stands behind the first's: in the same
/// file, or at the start of the next.
pub proof fn lemma_writes_rise(
    first: Base,
    second: Base,
    third: Base,
    write1: Write,
    write2: Write,
    key1: Seq<u8>,
    value1: Seq<u8>,
    key2: Seq<u8>,
    value2: Seq<u8>,
)
    requires
        first.can_write(key1.len(), value1.len()),
        second.wrote(first, write1, key1, value1),
        second.can_write(key2.len(), value2.len()),
        third.wrote(second, write2, key2, value2),
    ensures
        image_tx_id(write1.record@) < image_tx_id(write2.record@),
        (write2.file_id == write1.file_id && write2.offset == write1.offset + write1.record@.len())
            || (write2.file_id@ == write1.file_id@ + 1 && write2.offset == 0),
{
    lemma_image_of(key1, value1, second.tx_id@);
    lemma_image_of(key2, value2, third.tx_id@);
}

/// A data file is closed by the record that takes it to its full size: a
/// closed file holds the full size at least, and less than the full size and
/// its last record together.
pub proof fn lemma_closed_file_size(
    before: Base,
    after: Base,
    write: Write,
    key: Seq<u8>,
    value: Seq<u8>,
)
    requires
        before.wf(),
        after.wrote(before, write, key, value),
        write.rollover is Some,
    ensures
        before.options.max_file_size_bytes <= write.offset + write.record@.len(),
        write.offset + write.record@.len() < before.options.max_file_size_bytes
            + write.record@.len(),
        after.offset == 0,
{
}

/// Every file's id is at most the id of the last file in the sorted order.
pub proof fn lemma_ids_below_last(files: Seq<DataFile>)
    ensures
        forall|i: int|
            0 <= i < files.len() ==> (#[trigger] files[i]).file_id@ <= sorted_by_id(
                files,
            ).last().file_id@,
        files.len() > 0 ==> files.contains(sorted_by_id(files).last()),
{
    broadcast use vstd::seq_lib::group_to_multiset_ensures;

    lemma_sorted_by_id(files);
    let sorted = sorted_by_id(files);
    assert forall|i: int| 0 <= i < files.len() implies (#[trigger] files[i]).file_id@
        <= sorted.last().file_id@ by {
        files.to_multiset_ensures();
        sorted.to_multiset_ensures();
        assert(files.contains(files[i]));
        assert(sorted.to_multiset().count(files[i]) > 0);
        assert(sorted.contains(files[i]));
        let w = choose|w: int| 0 <= w < sorted.len() && sorted[w] == files[i];
        assert(sorted[w].file_id@ <= sorted[sorted.len() - 1].file_id@);
    }
    if files.len() > 0 {
        files.to_multiset_ensures();
        sorted.to_multiset_ensures();
        assert(sorted.contains(sorted[sorted.len() - 1]));
        assert(files.to_multiset().count(sorted.last()) > 0);
    }
}

} // verus!
