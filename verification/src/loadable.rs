//! Reading the records of a data file one after the other, and keeping for
//! each key what the latest record says of it.

use crate::error::Error;
use crate::keydir::FileId;
use crate::keymap::{distinct_keys, has_key, lemma_put, put, value_of, KeyMap};
use crate::record::{
    image_key, image_valid, lemma_record_at_well_formed, record_at, record_size_at, Record, TxId,
};
use vstd::prelude::*;
use vstd::slice::slice_to_vec;

verus! {

/// A data file: its number and its bytes.
pub struct DataFile {
    pub file_id: FileId,
    pub bytes: Vec<u8>,
}

/// The record that stands at `offset` in `data`, if it is whole and its
/// checksum holds.
pub open spec fn valid_record_at(data: Seq<u8>, offset: nat) -> Result<Option<Seq<u8>>, Error> {
    match record_at(data, offset as int) {
        Err(kind) => Err(Error::IoError(kind)),
        Ok(None) => Ok(None),
        Ok(Some(img)) => if image_valid(img) {
            Ok(Some(img))
        } else {
            Err(Error::CorruptRecord)
        },
    }
}

/// Reads the record at `offset` and checks its checksum.
pub fn read_valid_record(data: &[u8], offset: u64) -> (read: Result<Option<Record>, Error>)
    ensures
        match valid_record_at(data@, offset as nat) {
            Ok(Some(img)) => read matches Ok(Some(record)) && record@ == img && record.wf()
                && image_valid(img) && img.len() == record_size_at(data@, offset as int)
                && offset + img.len() <= data@.len() <= usize::MAX,
            Ok(None) => read matches Ok(None),
            Err(e) => read matches Err(err) && err == e,
        },
{
    let total: usize = data.len();
    if offset >= total as u64 {
        return Ok(None);
    }
    let record = match Record::read_from(data, offset as usize) {
        Ok(Some(record)) => record,
        Ok(None) => {
            return Ok(None);
        },
        Err(kind) => {
            return Err(Error::IoError(kind));
        },
    };
    proof {
        lemma_record_at_well_formed(data@, offset as int);
    }
    if !record.is_valid() {
        return Err(Error::CorruptRecord);
    }
    Ok(Some(record))
}

/// What can be read from a data file record by record: a value that stands
/// for one record, ordered by the record's transaction id.
pub trait Loadable: Sized + Copy {
    /// The transaction id of the record that `self` stands for.
    spec fn order(&self) -> u128;

    /// The value that stands for the record `img`, which begins at `offset` in
    /// the file `file_id`.
    spec fn of_record(
        img: Seq<u8>,
        offset: nat,
        file_id: FileId,
        serialized_tombstone: Seq<u8>,
    ) -> Self;

    fn tx_id(&self) -> (tx_id: TxId)
        ensures
            tx_id@ == self.order(),
    ;

    /// Reads the record at `offset` in `data`, and moves `offset` behind it.
    /// Returns `None` where `data` ends at `offset`.
    fn read_one(data: &[u8], offset: &mut u64, file_id: FileId, serialized_tombstone: &[u8]) -> (read:
        Result<Option<(Vec<u8>, Self)>, Error>)
        ensures
            match valid_record_at(data@, *old(offset) as nat) {
                Ok(Some(img)) => read matches Ok(Some(pair)) && pair.0@ == image_key(img) && pair.1
                    == Self::of_record(img, *old(offset) as nat, file_id, serialized_tombstone@)
                    && *final(offset) == *old(offset) + img.len(),
                Ok(None) => read matches Ok(None) && *final(offset) == *old(offset),
                Err(e) => read matches Err(err) && err == e && *final(offset) == *old(offset),
            },
    ;
}

/// The entries that the records of `data` from `offset` on add to `acc`, each
/// record after the one before it. A later record for a key takes the place
/// of an earlier one.
pub open spec fn scan_from<L: Loadable>(
    data: Seq<u8>,
    offset: nat,
    file_id: FileId,
    serialized_tombstone: Seq<u8>,
    acc: Seq<(Seq<u8>, L)>,
) -> Result<Seq<(Seq<u8>, L)>, Error>
    decreases data.len() - offset,
{
    match valid_record_at(data, offset) {
        Err(e) => Err(e),
        Ok(None) => Ok(acc),
        Ok(Some(img)) => scan_from(
            data,
            offset + record_size_at(data, offset as int),
            file_id,
            serialized_tombstone,
            put(acc, image_key(img), L::of_record(img, offset, file_id, serialized_tombstone)),
        ),
    }
}

/// The entries of one file: for each key, what the last record for it says.
pub open spec fn file_entries<L: Loadable>(
    data: Seq<u8>,
    file_id: FileId,
    serialized_tombstone: Seq<u8>,
) -> Result<Seq<(Seq<u8>, L)>, Error> {
    scan_from(data, 0, file_id, serialized_tombstone, Seq::empty())
}

/// Reads all the records of one file.
pub fn load_all_entries_from_file<L: Loadable>(
    data: &[u8],
    file_id: FileId,
    serialized_tombstone: &[u8],
) -> (loaded: Result<KeyMap<L>, Error>)
    ensures
        match file_entries::<L>(data@, file_id, serialized_tombstone@) {
            Ok(entries) => loaded matches Ok(map) && map.entries() == entries && map.wf(),
            Err(e) => loaded matches Err(err) && err == e,
        },
{
    let mut entries: KeyMap<L> = KeyMap::new();
    let mut offset: u64 = 0;
    let total: usize = data.len();
    loop
        invariant
            entries.wf(),
            total == data@.len(),
            file_entries::<L>(data@, file_id, serialized_tombstone@) == scan_from(
                data@,
                offset as nat,
                file_id,
                serialized_tombstone@,
                entries.entries(),
            ),
        decreases data@.len() - offset,
    {
        let ghost before = offset;
        match L::read_one(data, &mut offset, file_id, serialized_tombstone) {
            Ok(Some((k, entry))) => {
                proof {
                    lemma_record_at_well_formed(data@, before as int);
                }
                entries.insert(k, entry);
            },
            Ok(None) => {
                return Ok(entries);
            },
            Err(e) => {
                return Err(e);
            },
        }
    }
}

/// `acc` after it has seen `entry` for `key`: the entry takes the key's place
/// where the key is new or the entry is later than what `acc` holds for it.
pub open spec fn keep_latest<L: Loadable>(acc: Seq<(Seq<u8>, L)>, key: Seq<u8>, entry: L) -> Seq<
    (Seq<u8>, L),
> {
    if has_key(acc, key) && entry.order() <= value_of(acc, key).order() {
        acc
    } else {
        put(acc, key, entry)
    }
}

/// `acc` after it has seen the entries of `entries`, one after the other.
pub open spec fn fold_latest<L: Loadable>(
    acc: Seq<(Seq<u8>, L)>,
    entries: Seq<(Seq<u8>, L)>,
) -> Seq<(Seq<u8>, L)>
    decreases entries.len(),
{
    if entries.len() == 0 {
        acc
    } else {
        keep_latest(fold_latest(acc, entries.drop_last()), entries.last().0, entries.last().1)
    }
}

/// For each key of `files`, the entry with the highest transaction id among
/// the entries that the files hold for it; of two files with the same id for
/// a key, the earlier in `files`. The first file that cannot be read decides
/// the error.
pub open spec fn latest_entries<L: Loadable>(
    files: Seq<DataFile>,
    serialized_tombstone: Seq<u8>,
) -> Result<Seq<(Seq<u8>, L)>, Error>
    decreases files.len(),
{
    if files.len() == 0 {
        Ok(Seq::empty())
    } else {
        match latest_entries::<L>(files.drop_last(), serialized_tombstone) {
            Err(e) => Err(e),
            Ok(acc) => match file_entries::<L>(
                files.last().bytes@,
                files.last().file_id,
                serialized_tombstone,
            ) {
                Err(e) => Err(e),
                Ok(entries) => Ok(fold_latest(acc, entries)),
            },
        }
    }
}

/// Folding keeps the keys distinct.
pub proof fn lemma_fold_latest_distinct<L: Loadable>(
    acc: Seq<(Seq<u8>, L)>,
    entries: Seq<(Seq<u8>, L)>,
)
    requires
        distinct_keys(acc),
    ensures
        distinct_keys(fold_latest(acc, entries)),
    decreases entries.len(),
{
    if entries.len() > 0 {
        lemma_fold_latest_distinct(acc, entries.drop_last());
        lemma_put(fold_latest(acc, entries.drop_last()), entries.last().0, entries.last().1);
    }
}

/// Reads all the files, and keeps for each key the entry with the highest
/// transaction id.
pub fn load_latest_entries<L: Loadable>(files: &Vec<DataFile>, serialized_tombstone: &[u8]) -> (loaded:
    Result<KeyMap<L>, Error>)
    ensures
        match latest_entries::<L>(files@, serialized_tombstone@) {
            Ok(entries) => loaded matches Ok(map) && map.entries() == entries && map.wf(),
            Err(e) => loaded matches Err(err) && err == e,
        },
{
    let mut all_entries: KeyMap<L> = KeyMap::new();
    let mut f: usize = 0;
    while f < files.len()
        invariant
            f <= files@.len(),
            all_entries.wf(),
            latest_entries::<L>(files@.subrange(0, f as int), serialized_tombstone@) == Ok::<
                Seq<(Seq<u8>, L)>,
                Error,
            >(all_entries.entries()),
        decreases files@.len() - f,
    {
        let ghost seen = files@.subrange(0, f + 1);
        proof {
            assert(seen.drop_last() =~= files@.subrange(0, f as int));
            assert(seen.last() == files@[f as int]);
        }
        let file_entries = match load_all_entries_from_file::<L>(
            files[f].bytes.as_slice(),
            files[f].file_id,
            serialized_tombstone,
        ) {
            Ok(entries) => entries,
            Err(e) => {
                proof {
                    lemma_latest_entries_error::<L>(files@, f + 1, serialized_tombstone@);
                }
                return Err(e);
            },
        };
        let ghost acc = all_entries.entries();
        let mut i: usize = 0;
        while i < file_entries.len()
            invariant
                i <= file_entries.entries().len(),
                all_entries.wf(),
                file_entries.wf(),
                all_entries.entries() == fold_latest(
                    acc,
                    file_entries.entries().subrange(0, i as int),
                ),
            decreases file_entries.entries().len() - i,
        {
            let new_entry: L = *file_entries.value_at(i);
            let key: Vec<u8> = slice_to_vec(file_entries.key_at(i));
            proof {
                let next = file_entries.entries().subrange(0, i + 1);
                assert(next.drop_last() =~= file_entries.entries().subrange(0, i as int));
                assert(next.last() == file_entries.entries()[i as int]);
            }
            let newer: bool = match all_entries.get(key.as_slice()) {
                Some(existing_entry) => new_entry.tx_id().0 > existing_entry.tx_id().0,
                None => true,
            };
            if newer {
                all_entries.insert(key, new_entry);
            }
            i = i + 1;
        }
        proof {
            assert(file_entries.entries().subrange(0, i as int) =~= file_entries.entries());
        }
        f = f + 1;
    }
    proof {
        assert(files@.subrange(0, f as int) =~= files@);
    }
    Ok(all_entries)
}

/// Where the first `n` files cannot be read, all the files cannot, for the
/// same reason.
pub proof fn lemma_latest_entries_error<L: Loadable>(
    files: Seq<DataFile>,
    n: int,
    serialized_tombstone: Seq<u8>,
)
    requires
        0 <= n <= files.len(),
        latest_entries::<L>(files.subrange(0, n), serialized_tombstone) is Err,
    ensures
        latest_entries::<L>(files, serialized_tombstone) == latest_entries::<L>(
            files.subrange(0, n),
            serialized_tombstone,
        ),
    decreases files.len() - n,
{
    if n < files.len() {
        let next = files.subrange(0, n + 1);
        assert(next.drop_last() =~= files.subrange(0, n));
        lemma_latest_entries_error::<L>(files, n + 1, serialized_tombstone);
    } else {
        assert(files.subrange(0, n) =~= files);
    }
}

/// The keys of the records of `data` from `offset` on, behind those of
/// `acc`, and what ends the reading: nothing where `data` reads to its end,
/// or what is wrong with the first record that cannot be read.
pub open spec fn keys_from(data: Seq<u8>, offset: nat, acc: Seq<Seq<u8>>) -> (
    Seq<Seq<u8>>,
    Option<Error>,
)
    decreases data.len() - offset,
{
    match valid_record_at(data, offset) {
        Err(e) => (acc, Some(e)),
        Ok(None) => (acc, None),
        Ok(Some(img)) => keys_from(
            data,
            offset + record_size_at(data, offset as int),
            acc.push(image_key(img)),
        ),
    }
}

/// The key of every record of a file, in the file's order, up to the first
/// record that cannot be read, and what is wrong with that record. A key
/// stands as often as the file holds a record for it.
pub fn record_keys(data: &[u8]) -> (read: (Vec<Vec<u8>>, Option<Error>))
    ensures
        read.0@.len() == keys_from(data@, 0, Seq::empty()).0.len(),
        forall|i: int|
            0 <= i < read.0@.len() ==> (#[trigger] read.0@[i])@ == keys_from(
                data@,
                0,
                Seq::empty(),
            ).0[i],
        read.1 == keys_from(data@, 0, Seq::empty()).1,
{
    let mut keys: Vec<Vec<u8>> = Vec::new();
    let mut offset: u64 = 0;
    let ghost mut seen: Seq<Seq<u8>> = Seq::empty();
    loop
        invariant
            seen.len() == keys@.len(),
            forall|i: int| 0 <= i < keys@.len() ==> (#[trigger] keys@[i])@ == seen[i],
            keys_from(data@, 0, Seq::empty()) == keys_from(data@, offset as nat, seen),
        decreases data@.len() - offset,
    {
        match read_valid_record(data, offset) {
            Ok(Some(record)) => {
                let key = slice_to_vec(record.key_bytes());
                proof {
                    seen = seen.push(key@);
                }
                keys.push(key);
                offset = offset + record.len() as u64;
            },
            Ok(None) => {
                return (keys, None);
            },
            Err(e) => {
                return (keys, Some(e));
            },
        }
    }
}

} // verus!
