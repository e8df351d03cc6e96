//! The names of the files in the store's directory. A data file is named by
//! its id in decimal; while a compaction runs, the new file that will take
//! the place of a data file has that name with `.merge` behind it.

use crate::base::Base;
use crate::error::ParseIntError;
use crate::keydir::{decimal, lemma_parse_decimal, parse_file_id, FileId};
use vstd::prelude::*;
use vstd::string::StrSliceExecFns;
use vstd::string::StringExecFns;

verus! {

/// What stands behind the name of a file that a compaction writes.
pub open spec fn merge_suffix() -> Seq<char> {
    seq!['.', 'm', 'e', 'r', 'g', 'e']
}

/// The name ends in `.merge`, with something before it.
pub open spec fn is_merge_name(name: Seq<char>) -> bool {
    &&& name.len() > merge_suffix().len()
    &&& name.subrange(name.len() - merge_suffix().len(), name.len() as int) == merge_suffix()
}

/// The ids that the names spell, in the order of the names. A name that
/// spells none is passed over.
pub open spec fn db_file_ids(names: Seq<String>) -> Seq<FileId>
    decreases names.len(),
{
    if names.len() == 0 {
        Seq::empty()
    } else {
        match parse_file_id(names.last()@) {
            Ok(id) => db_file_ids(names.drop_last()).push(FileId(id as u32)),
            Err(_) => db_file_ids(names.drop_last()),
        }
    }
}

/// The ids of `ids` but `active`, in their order.
pub open spec fn inactive_ids(ids: Seq<FileId>, active: FileId) -> Seq<FileId>
    decreases ids.len(),
{
    if ids.len() == 0 {
        Seq::empty()
    } else if ids.last() == active {
        inactive_ids(ids.drop_last(), active)
    } else {
        inactive_ids(ids.drop_last(), active).push(ids.last())
    }
}

/// The names among `names` that end in `.merge`, in their order.
pub open spec fn merge_names(names: Seq<String>) -> Seq<Seq<char>>
    decreases names.len(),
{
    if names.len() == 0 {
        Seq::empty()
    } else if is_merge_name(names.last()@) {
        merge_names(names.drop_last()).push(names.last()@)
    } else {
        merge_names(names.drop_last())
    }
}

/// None of the inactive ids is the active one, and every other id stays.
pub proof fn lemma_inactive_ids(ids: Seq<FileId>, active: FileId)
    ensures
        !inactive_ids(ids, active).contains(active),
        forall|id: FileId|
            #![trigger inactive_ids(ids, active).contains(id)]
            #![trigger ids.contains(id)]
            id != active ==> (inactive_ids(ids, active).contains(id) <==> ids.contains(id)),
    decreases ids.len(),
{
    let out = inactive_ids(ids, active);
    if ids.len() > 0 {
        let front = ids.drop_last();
        lemma_inactive_ids(front, active);
        let prev = inactive_ids(front, active);
        assert forall|id: FileId| id != active implies (out.contains(id) <==> ids.contains(id)) by {
            if out.contains(id) {
                let w = choose|w: int| 0 <= w < out.len() && out[w] == id;
                if w < prev.len() {
                    assert(prev[w] == id);
                    assert(prev.contains(id));
                    assert(front.contains(id));
                    let v = choose|v: int| 0 <= v < front.len() && front[v] == id;
                    assert(ids[v] == id);
                } else {
                    assert(ids[ids.len() - 1] == id);
                }
            }
            if ids.contains(id) {
                let v = choose|v: int| 0 <= v < ids.len() && ids[v] == id;
                if v < front.len() {
                    assert(front[v] == id);
                    assert(front.contains(id));
                    assert(prev.contains(id));
                    let w = choose|w: int| 0 <= w < prev.len() && prev[w] == id;
                    assert(out[w] == id);
                } else {
                    assert(out[out.len() - 1] == id);
                }
            }
        }
        if out.contains(active) {
            let w = choose|w: int| 0 <= w < out.len() && out[w] == active;
            if w < prev.len() {
                assert(prev[w] == active);
            }
        }
    }
}

/// The name of a data file spells the file's id, and the name of the new file
/// that a compaction writes for it leads back to that name.
pub proof fn lemma_file_names(id: FileId)
    ensures
        parse_file_id(decimal(id@ as nat)) == Ok::<nat, ParseIntError>(id@ as nat),
        is_merge_name(decimal(id@ as nat) + merge_suffix()),
        (decimal(id@ as nat) + merge_suffix()).subrange(0, decimal(id@ as nat).len() as int)
            == decimal(id@ as nat),
{
    lemma_parse_decimal(id@ as nat);
    let name = decimal(id@ as nat) + merge_suffix();
    assert(name.subrange(name.len() - merge_suffix().len(), name.len() as int) =~= merge_suffix());
    assert(name.subrange(0, decimal(id@ as nat).len() as int) =~= decimal(id@ as nat));
}

/// Whether `name` ends in `.merge`, with something before it.
pub fn has_merge_extension(name: &str) -> (merge: bool)
    ensures
        merge == is_merge_name(name@),
{
    let n: usize = name.unicode_len();
    if n <= 6 {
        return false;
    }
    let start: usize = n - 6;
    let merge = name.get_char(start) == '.' && name.get_char(start + 1) == 'm' && name.get_char(
        start + 2,
    ) == 'e' && name.get_char(start + 3) == 'r' && name.get_char(start + 4) == 'g'
        && name.get_char(start + 5) == 'e';
    proof {
        let tail = name@.subrange(n - 6, n as int);
        if merge {
            assert(tail =~= merge_suffix());
        } else {
            assert(tail[0] == name@[start as int]);
            assert(tail[1] == name@[start + 1]);
            assert(tail[2] == name@[start + 2]);
            assert(tail[3] == name@[start + 3]);
            assert(tail[4] == name@[start + 4]);
            assert(tail[5] == name@[start + 5]);
        }
    }
    merge
}

/// The name of the new file that a compaction writes in place of the data
/// file `id`.
pub fn merge_file_name(id: FileId) -> (name: String)
    ensures
        name@ == decimal(id@ as nat) + merge_suffix(),
{
    let mut name = id.to_string();
    proof {
        reveal_strlit(".merge");
        assert(".merge"@ =~= merge_suffix());
    }
    name.append(".merge");
    name
}

/// The name that a file written by a compaction takes in the end: its own
/// without the `.merge`.
pub fn merge_file_stem(name: &str) -> (stem: Option<String>)
    ensures
        match stem {
            Some(s) => is_merge_name(name@) && s@ == name@.subrange(
                0,
                name@.len() - merge_suffix().len(),
            ),
            None => !is_merge_name(name@),
        },
{
    if has_merge_extension(name) {
        let n: usize = name.unicode_len();
        Some(String::from_str(name.substring_char(0, n - 6)))
    } else {
        None
    }
}

impl Base {
    /// The ids of the data files among the files named `names`, which are the
    /// regular files of the directory.
    pub fn all_db_file_ids(names: &Vec<String>) -> (file_ids: Vec<FileId>)
        ensures
            file_ids@ == db_file_ids(names@),
    {
        let mut file_ids: Vec<FileId> = Vec::new();
        let mut i: usize = 0;
        proof {
            assert(names@.subrange(0, 0) =~= Seq::<String>::empty());
        }
        while i < names.len()
            invariant
                i <= names@.len(),
                file_ids@ == db_file_ids(names@.subrange(0, i as int)),
            decreases names@.len() - i,
        {
            proof {
                let seen = names@.subrange(0, i + 1);
                assert(seen.drop_last() =~= names@.subrange(0, i as int));
                assert(seen.last() == names@[i as int]);
            }
            if let Ok(file_id) = FileId::from_str(names[i].as_str()) {
                file_ids.push(file_id);
            }
            i = i + 1;
        }
        proof {
            assert(names@.subrange(0, i as int) =~= names@);
        }
        file_ids
    }

    /// The ids among `db_file_ids` of the files that are not written to any
    /// more: all but the active file's.
    pub fn inactive_db_file_ids(&self, db_file_ids: Vec<FileId>) -> (file_ids: Vec<FileId>)
        ensures
            file_ids@ == inactive_ids(db_file_ids@, self.active_file_id),
    {
        let mut file_ids: Vec<FileId> = Vec::new();
        let mut i: usize = 0;
        proof {
            assert(db_file_ids@.subrange(0, 0) =~= Seq::<FileId>::empty());
        }
        while i < db_file_ids.len()
            invariant
                i <= db_file_ids@.len(),
                file_ids@ == inactive_ids(db_file_ids@.subrange(0, i as int), self.active_file_id),
            decreases db_file_ids@.len() - i,
        {
            proof {
                let seen = db_file_ids@.subrange(0, i + 1);
                assert(seen.drop_last() =~= db_file_ids@.subrange(0, i as int));
                assert(seen.last() == db_file_ids@[i as int]);
            }
            if db_file_ids[i].0 != self.active_file_id.0 {
                file_ids.push(db_file_ids[i]);
            }
            i = i + 1;
        }
        proof {
            assert(db_file_ids@.subrange(0, i as int) =~= db_file_ids@);
        }
        file_ids
    }

    /// The names among `names` of the files that a compaction has written.
    pub fn merge_files(names: &Vec<String>) -> (files: Vec<String>)
        ensures
            files@.len() == merge_names(names@).len(),
            forall|i: int|
                0 <= i < files@.len() ==> (#[trigger] files@[i])@ == merge_names(names@)[i],
    {
        let mut found: Vec<String> = Vec::new();
        let mut i: usize = 0;
        proof {
            assert(names@.subrange(0, 0) =~= Seq::<String>::empty());
        }
        while i < names.len()
            invariant
                i <= names@.len(),
                found@.len() == merge_names(names@.subrange(0, i as int)).len(),
                forall|j: int|
                    0 <= j < found@.len() ==> (#[trigger] found@[j])@ == merge_names(
                        names@.subrange(0, i as int),
                    )[j],
            decreases names@.len() - i,
        {
            proof {
                let seen = names@.subrange(0, i + 1);
                assert(seen.drop_last() =~= names@.subrange(0, i as int));
                assert(seen.last() == names@[i as int]);
            }
            if has_merge_extension(names[i].as_str()) {
                found.push(names[i].clone());
            }
            i = i + 1;
        }
        proof {
            assert(names@.subrange(0, i as int) =~= names@);
        }
        found
    }
}

} // verus!
