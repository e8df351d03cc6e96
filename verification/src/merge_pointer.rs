//! What compaction keeps of a record: where the whole record stands.

use crate::error::Error;
use crate::keydir::{FileId, Liveness};
use crate::loadable::{read_valid_record, Loadable};
use crate::record::{
    image_key_size, image_liveness, image_tx_id, image_value_size, KeySize, TxId, ValueSize,
};
use std::cmp::Ordering;
use vstd::prelude::*;
use vstd::slice::slice_to_vec;
use vstd::std_specs::cmp::PartialOrdSpecImpl;

verus! {

/// Points to a whole record in a data file.
#[derive(Clone, Copy, Debug, PartialEq, Eq, Structural)]
pub struct MergePointer {
    /// whether the record stores a value or deletes its key
    pub liveness: Liveness,
    pub file_id: FileId,
    pub tx_id: TxId,
    /// where the record begins, in bytes from the start of its file
    pub record_offset: u64,
    /// the size of the whole record in bytes
    pub record_size: u64,
    pub key_size: KeySize,
    pub value_size: ValueSize,
}

/// Pointers are ordered by their transaction ids alone.
impl PartialOrd for MergePointer {
    fn partial_cmp(&self, other: &MergePointer) -> (order: Option<Ordering>) {
        if self.tx_id.0 < other.tx_id.0 {
            Some(Ordering::Less)
        } else if self.tx_id.0 > other.tx_id.0 {
            Some(Ordering::Greater)
        } else {
            Some(Ordering::Equal)
        }
    }
}

impl PartialOrdSpecImpl for MergePointer {
    open spec fn obeys_partial_cmp_spec() -> bool {
        true
    }

    open spec fn partial_cmp_spec(&self, other: &MergePointer) -> Option<Ordering> {
        if self.tx_id@ < other.tx_id@ {
            Some(Ordering::Less)
        } else if self.tx_id@ > other.tx_id@ {
            Some(Ordering::Greater)
        } else {
            Some(Ordering::Equal)
        }
    }
}

impl Loadable for MergePointer {
    open spec fn order(&self) -> u128 {
        self.tx_id@
    }

    /// The pointer to the record, with the sizes that its header announces.
    open spec fn of_record(
        img: Seq<u8>,
        offset: nat,
        file_id: FileId,
        serialized_tombstone: Seq<u8>,
    ) -> MergePointer {
        MergePointer {
            liveness: image_liveness(img, serialized_tombstone),
            file_id,
            tx_id: TxId(image_tx_id(img) as u128),
            record_offset: offset as u64,
            record_size: img.len() as u64,
            key_size: KeySize(image_key_size(img) as u16),
            value_size: ValueSize(image_value_size(img) as u32),
        }
    }

    fn tx_id(&self) -> (tx_id: TxId) {
        self.tx_id
    }

    fn read_one(data: &[u8], offset: &mut u64, file_id: FileId, serialized_tombstone: &[u8]) -> (read:
        Result<Option<(Vec<u8>, MergePointer)>, Error>) {
        let record = match read_valid_record(data, *offset) {
            Ok(Some(record)) => record,
            Ok(None) => {
                return Ok(None);
            },
            Err(e) => {
                return Err(e);
            },
        };
        let key = slice_to_vec(record.key_bytes());

        let liveness = record.liveness(serialized_tombstone);

        let out = MergePointer {
            liveness,
            file_id,
            tx_id: record.tx_id(),
            record_offset: *offset,
            record_size: record.len() as u64,
            key_size: record.key_size(),
            value_size: record.value_size(),
        };

        *offset = *offset + record.len() as u64;

        Ok(Some((key, out)))
    }
}

} // verus!
