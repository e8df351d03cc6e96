//! One record of a data file: a header of 26 bytes, then the key's bytes,
//! then the value's bytes.
//!
//! | offset | size | field                                         |
//! |--------|------|-----------------------------------------------|
//! | 0      | 4    | CRC-32 of all the bytes behind it, big-endian |
//! | 4      | 16   | transaction id, big-endian                    |
//! | 20     | 2    | size of the key, big-endian                   |
//! | 22     | 4    | size of the value, big-endian                 |
//! | 26     | k    | key                                           |
//! | 26 + k | v    | value                                         |

use crate::checksum::crc32;
use crate::endian::{
    be_bytes, be_value, lemma_be_bytes_len, lemma_be_value_bound, lemma_be_value_of_bytes,
    lemma_pow256_values, push_be, read_be,
};
use crate::error::IoErrorKind;
use crate::keydir::Liveness;
use vstd::prelude::*;
use vstd::slice::slice_subrange;

verus! {

/// The size in bytes of a record's header.
pub const HEADER_SIZE: usize = 26;

/// The size in bytes of the checksum that opens the header.
pub const HASH_SIZE: usize = 4;

/// The size in bytes of the transaction id in the header.
pub const TX_ID_SIZE: usize = 16;

/// The size in bytes of the key's size in the header.
pub const KEY_SIZE_SIZE: usize = 2;

/// The size in bytes of the value's size in the header.
pub const VALUE_SIZE_SIZE: usize = 4;

/// The transaction id that the record image `img` carries.
pub open spec fn image_tx_id(img: Seq<u8>) -> nat {
    be_value(img.subrange(4, 20))
}

/// The size of the key that the header of `img` announces.
pub open spec fn image_key_size(img: Seq<u8>) -> nat {
    be_value(img.subrange(20, 22))
}

/// The size of the value that the header of `img` announces.
pub open spec fn image_value_size(img: Seq<u8>) -> nat {
    be_value(img.subrange(22, 26))
}

/// `img` is a whole record: a header, and a body of the size that the header
/// announces.
pub open spec fn well_formed(img: Seq<u8>) -> bool {
    &&& img.len() >= HEADER_SIZE
    &&& img.len() == HEADER_SIZE + image_key_size(img) + image_value_size(img)
}

/// The key's bytes in `img`.
pub open spec fn image_key(img: Seq<u8>) -> Seq<u8> {
    img.subrange(HEADER_SIZE as int, HEADER_SIZE + image_key_size(img))
}

/// The value's bytes in `img`.
pub open spec fn image_value(img: Seq<u8>) -> Seq<u8> {
    img.subrange(HEADER_SIZE + image_key_size(img), img.len() as int)
}

/// The checksum that `img` stores in its first four bytes.
pub open spec fn image_stored_hash(img: Seq<u8>) -> nat {
    be_value(img.subrange(0, HASH_SIZE as int))
}

/// The checksum of everything that follows the stored checksum.
pub open spec fn image_computed_hash(img: Seq<u8>) -> u32 {
    crc32(img.subrange(HASH_SIZE as int, img.len() as int))
}

/// The stored checksum is the checksum of the rest.
pub open spec fn image_valid(img: Seq<u8>) -> bool {
    image_stored_hash(img) == image_computed_hash(img)
}

/// `Deleted` where the value of `img` is, byte for byte, the encoded
/// tombstone.
pub open spec fn image_liveness(img: Seq<u8>, serialized_tombstone: Seq<u8>) -> Liveness {
    if image_value(img) == serialized_tombstone {
        Liveness::Deleted
    } else {
        Liveness::Live
    }
}

/// What follows the checksum in the record for `key`, `value` and `tx_id`.
pub open spec fn image_tail(key: Seq<u8>, value: Seq<u8>, tx_id: u128) -> Seq<u8> {
    be_bytes(tx_id as nat, 16) + be_bytes(key.len(), 2) + be_bytes(value.len(), 4) + key + value
}

/// The bytes of the record for `key`, `value` and `tx_id`, as they stand on
/// disk.
pub open spec fn image_of(key: Seq<u8>, value: Seq<u8>, tx_id: u128) -> Seq<u8> {
    be_bytes(crc32(image_tail(key, value, tx_id)) as nat, 4) + image_tail(key, value, tx_id)
}

/// The size of the record whose header stands at `pos` in `data`.
pub open spec fn record_size_at(data: Seq<u8>, pos: int) -> nat {
    HEADER_SIZE as nat + be_value(data.subrange(pos + 20, pos + 22)) + be_value(
        data.subrange(pos + 22, pos + 26),
    )
}

/// What stands at `pos` in `data`: nothing more (`Ok(None)`), a whole record
/// (`Ok(Some(..))` with its bytes), or a record that `data` cuts short.
pub open spec fn record_at(data: Seq<u8>, pos: int) -> Result<Option<Seq<u8>>, IoErrorKind> {
    if pos >= data.len() {
        Ok(None)
    } else if pos + HEADER_SIZE > data.len() {
        Err(IoErrorKind::UnexpectedEof)
    } else if pos + record_size_at(data, pos) > data.len() {
        Err(IoErrorKind::UnexpectedEof)
    } else {
        Ok(Some(data.subrange(pos, pos + record_size_at(data, pos))))
    }
}

/// A record that `record_at` finds is a whole record.
pub proof fn lemma_record_at_well_formed(data: Seq<u8>, pos: int)
    requires
        0 <= pos,
        record_at(data, pos) matches Ok(Some(_)),
    ensures
        well_formed(record_at(data, pos)->Ok_0->Some_0),
        record_at(data, pos)->Ok_0->Some_0.len() == record_size_at(data, pos),
{
    let img = record_at(data, pos)->Ok_0->Some_0;
    assert(img.subrange(20, 22) =~= data.subrange(pos + 20, pos + 22));
    assert(img.subrange(22, 26) =~= data.subrange(pos + 22, pos + 26));
}

/// The record for a key and a value of admissible sizes is a whole record
/// that carries them, with a checksum that holds.
pub proof fn lemma_image_of(key: Seq<u8>, value: Seq<u8>, tx_id: u128)
    requires
        key.len() <= u16::MAX,
        value.len() <= u32::MAX,
    ensures
        well_formed(image_of(key, value, tx_id)),
        image_valid(image_of(key, value, tx_id)),
        image_tx_id(image_of(key, value, tx_id)) == tx_id,
        image_key_size(image_of(key, value, tx_id)) == key.len(),
        image_value_size(image_of(key, value, tx_id)) == value.len(),
        image_key(image_of(key, value, tx_id)) == key,
        image_value(image_of(key, value, tx_id)) == value,
        image_of(key, value, tx_id).len() == HEADER_SIZE + key.len() + value.len(),
{
    let tail = image_tail(key, value, tx_id);
    let sum = crc32(tail);
    let img = image_of(key, value, tx_id);
    lemma_pow256_values();
    lemma_be_bytes_len(sum as nat, 4);
    lemma_be_bytes_len(tx_id as nat, 16);
    lemma_be_bytes_len(key.len(), 2);
    lemma_be_bytes_len(value.len(), 4);
    lemma_be_value_of_bytes(sum as nat, 4);
    lemma_be_value_of_bytes(tx_id as nat, 16);
    lemma_be_value_of_bytes(key.len(), 2);
    lemma_be_value_of_bytes(value.len(), 4);
    assert(img.subrange(0, 4) =~= be_bytes(sum as nat, 4));
    assert(img.subrange(4, img.len() as int) =~= tail);
    assert(img.subrange(4, 20) =~= be_bytes(tx_id as nat, 16));
    assert(img.subrange(20, 22) =~= be_bytes(key.len(), 2));
    assert(img.subrange(22, 26) =~= be_bytes(value.len(), 4));
    assert(img.subrange(26, 26 + key.len() as int) =~= key);
    assert(img.subrange(26 + key.len() as int, img.len() as int) =~= value);
}

/// A record that was built reads back whole and with a checksum that holds,
/// whatever stands before and behind it.
pub proof fn lemma_record_reads_back(
    before: Seq<u8>,
    behind: Seq<u8>,
    key: Seq<u8>,
    value: Seq<u8>,
    tx_id: u128,
)
    requires
        key.len() <= u16::MAX,
        value.len() <= u32::MAX,
    ensures
        record_at(before + image_of(key, value, tx_id) + behind, before.len() as int) == Ok::<
            Option<Seq<u8>>,
            IoErrorKind,
        >(Some(image_of(key, value, tx_id))),
        image_valid(image_of(key, value, tx_id)),
{
    let img = image_of(key, value, tx_id);
    let data = before + img + behind;
    let pos = before.len() as int;
    lemma_image_of(key, value, tx_id);
    assert(data.subrange(pos + 20, pos + 22) =~= img.subrange(20, 22));
    assert(data.subrange(pos + 22, pos + 26) =~= img.subrange(22, 26));
    assert(record_size_at(data, pos) == img.len());
    assert(data.subrange(pos, pos + img.len()) =~= img);
}

/// The number of one write. Of two records for one key, the one with the
/// higher transaction id is the later.
#[derive(Clone, Copy, Debug, PartialEq, Eq, PartialOrd, Ord, Structural)]
pub struct TxId(pub u128);

/// The size of a key in bytes.
#[derive(Clone, Copy, Debug, PartialEq, Eq, Structural)]
pub struct KeySize(pub u16);

/// The size of a value in bytes.
#[derive(Clone, Copy, Debug, PartialEq, Eq, Structural)]
pub struct ValueSize(pub u32);

impl View for TxId {
    type V = u128;

    open spec fn view(&self) -> u128 {
        self.0
    }
}

impl TxId {
    /// The sixteen bytes of the id, most significant first.
    pub fn to_be_bytes(self) -> (bytes: [u8; 16])
        ensures
            bytes@ == be_bytes(self@ as nat, 16),
    {
        let mut out: Vec<u8> = Vec::new();
        push_be(&mut out, self.0, 16);
        proof {
            lemma_be_bytes_len(self@ as nat, 16);
        }
        let mut bytes: [u8; 16] = [0u8; 16];
        let mut i: usize = 0;
        while i < 16
            invariant
                i <= 16,
                out@.len() == 16,
                forall|j: int| 0 <= j < i ==> bytes@[j] == out@[j],
            decreases 16 - i,
        {
            bytes[i] = out[i];
            i = i + 1;
        }
        proof {
            assert(bytes@ =~= out@);
        }
        bytes
    }

    /// The id that follows `self` by `rhs`.
    pub fn add(self, rhs: u128) -> (sum: TxId)
        requires
            self@ + rhs <= u128::MAX,
        ensures
            sum@ == self@ + rhs,
    {
        TxId(self.0 + rhs)
    }

    pub fn add_assign(&mut self, rhs: u128)
        requires
            old(self)@ + rhs <= u128::MAX,
        ensures
            final(self)@ == old(self)@ + rhs,
    {
        self.0 = self.0 + rhs;
    }
}

impl From<u128> for TxId {
    fn from(value: u128) -> (id: TxId) {
        TxId(value)
    }
}

impl vstd::std_specs::convert::FromSpecImpl<u128> for TxId {
    open spec fn obeys_from_spec() -> bool {
        true
    }

    open spec fn from_spec(value: u128) -> TxId {
        TxId(value)
    }
}

/// The bytes that mark a deletion, before they are encoded as a value.
pub const TOMBSTONE_BYTES: [u8; 17] = [
    98, 105, 116, 99, 97, 115, 107, 95, 116, 111, 109, 98, 115, 116, 111, 110, 101,
];

/// Whether the two slices hold the same bytes.
pub fn bytes_equal(a: &[u8], b: &[u8]) -> (same: bool)
    ensures
        same == (a@ == b@),
{
    if a.len() != b.len() {
        return false;
    }
    let mut i: usize = 0;
    while i < a.len()
        invariant
            i <= a@.len(),
            a@.len() == b@.len(),
            a@.subrange(0, i as int) == b@.subrange(0, i as int),
        decreases a@.len() - i,
    {
        if a[i] != b[i] {
            return false;
        }
        proof {
            assert(a@.subrange(0, i + 1) =~= a@.subrange(0, i as int).push(a@[i as int]));
            assert(b@.subrange(0, i + 1) =~= b@.subrange(0, i as int).push(b@[i as int]));
        }
        i = i + 1;
    }
    proof {
        assert(a@ =~= a@.subrange(0, i as int));
        assert(b@ =~= b@.subrange(0, i as int));
    }
    true
}

/// A whole record, held as the bytes that stand on disk.
pub struct Record {
    buf: Vec<u8>,
}

impl View for Record {
    type V = Seq<u8>;

    closed spec fn view(&self) -> Seq<u8> {
        self.buf@
    }
}

impl Record {
    /// The record holds a header, and a body of the size that the header
    /// announces.
    pub open spec fn wf(&self) -> bool {
        well_formed(self@)
    }

    /// Builds the record for `key`, `value` and `tx_id`: the header with its
    /// checksum, then the key, then the value.
    pub fn new(key: &[u8], value: &[u8], tx_id: TxId) -> (record: Record)
        requires
            key@.len() <= u16::MAX,
            value@.len() <= u32::MAX,
        ensures
            record@ == image_of(key@, value@, tx_id@),
            record.wf(),
            image_valid(record@),
    {
        let encoded_tx_id = tx_id.to_be_bytes();
        let key_size: usize = key.len();
        let value_size: usize = value.len();

        let mut buf: Vec<u8> = Vec::new();
        // the checksum's place, filled in at the end
        push_be(&mut buf, 0, HASH_SIZE);
        buf.extend_from_slice(encoded_tx_id.as_slice());
        push_be(&mut buf, key_size as u128, KEY_SIZE_SIZE);
        push_be(&mut buf, value_size as u128, VALUE_SIZE_SIZE);
        buf.extend_from_slice(key);
        buf.extend_from_slice(value);

        proof {
            lemma_be_bytes_len(0, 4);
            lemma_be_bytes_len(tx_id@ as nat, 16);
            lemma_be_bytes_len(key@.len(), 2);
            lemma_be_bytes_len(value@.len(), 4);
            assert(buf@ =~= be_bytes(0, 4) + image_tail(key@, value@, tx_id@));
            assert(buf@.subrange(4, buf@.len() as int) =~= image_tail(key@, value@, tx_id@));
        }
        let hash: u32 = crc32fast::hash(slice_subrange(buf.as_slice(), HASH_SIZE, buf.len()));
        let mut hash_bytes: Vec<u8> = Vec::new();
        push_be(&mut hash_bytes, hash as u128, HASH_SIZE);
        proof {
            lemma_be_bytes_len(hash as nat, 4);
        }
        let mut i: usize = 0;
        while i < HASH_SIZE
            invariant
                i <= HASH_SIZE,
                hash_bytes@ == be_bytes(hash as nat, 4),
                hash_bytes@.len() == 4,
                buf@.len() >= 4,
                buf@.subrange(4, buf@.len() as int) == image_tail(key@, value@, tx_id@),
                forall|j: int| 0 <= j < i ==> buf@[j] == hash_bytes@[j],
            decreases HASH_SIZE - i,
        {
            let ghost before = buf@;
            buf[i] = hash_bytes[i];
            proof {
                assert(buf@.subrange(4, buf@.len() as int) =~= before.subrange(
                    4,
                    before.len() as int,
                ));
            }
            i = i + 1;
        }
        proof {
            assert(buf@ =~= image_of(key@, value@, tx_id@));
            lemma_image_of(key@, value@, tx_id@);
        }
        Record { buf }
    }

    /// Reads the record that stands at `pos` in `data`. Where `data` ends at
    /// `pos` there is none; where it ends inside the record, the read fails.
    pub fn read_from(data: &[u8], pos: usize) -> (read: Result<Option<Record>, IoErrorKind>)
        ensures
            match record_at(data@, pos as int) {
                Ok(Some(img)) => read matches Ok(Some(record)) && record@ == img && record.wf(),
                Ok(None) => read matches Ok(None),
                Err(e) => read == Err::<Option<Record>, IoErrorKind>(e),
            },
    {
        let total: usize = data.len();
        if pos >= total {
            return Ok(None);
        }
        if total - pos < HEADER_SIZE {
            return Err(IoErrorKind::UnexpectedEof);
        }
        let key_size: u128 = read_be(data, pos + 20, KEY_SIZE_SIZE);
        let value_size: u128 = read_be(data, pos + 22, VALUE_SIZE_SIZE);
        proof {
            lemma_be_value_bound(data@.subrange(pos + 20, pos + 22));
            lemma_be_value_bound(data@.subrange(pos + 22, pos + 26));
            lemma_pow256_values();
        }
        let body_size: u128 = key_size + value_size;
        if ((total - pos - HEADER_SIZE) as u128) < body_size {
            return Err(IoErrorKind::UnexpectedEof);
        }
        let end: usize = pos + HEADER_SIZE + body_size as usize;
        let buf = vstd::slice::slice_to_vec(slice_subrange(data, pos, end));
        proof {
            lemma_record_at_well_formed(data@, pos as int);
        }
        Ok(Some(Record { buf }))
    }

    /// Whether the stored checksum is the checksum of the record's bytes.
    pub fn is_valid(&self) -> (valid: bool)
        requires
            self.wf(),
        ensures
            valid == image_valid(self@),
    {
        self.hash_read_from_disk() == self.computed_hash()
    }

    /// `Deleted` where the value is, byte for byte, the encoded tombstone.
    pub fn liveness(&self, serialized_tombstone: &[u8]) -> (liveness: Liveness)
        requires
            self.wf(),
        ensures
            liveness == image_liveness(self@, serialized_tombstone@),
    {
        if bytes_equal(self.value_bytes(), serialized_tombstone) {
            Liveness::Deleted
        } else {
            Liveness::Live
        }
    }

    /// The bytes that mark a deletion, before they are encoded as a value.
    pub fn tombstone() -> (bytes: [u8; 17])
        ensures
            bytes == TOMBSTONE_BYTES,
    {
        TOMBSTONE_BYTES
    }

    pub fn key_bytes(&self) -> (key: &[u8])
        requires
            self.wf(),
        ensures
            key@ == image_key(self@),
    {
        let start: usize = 0;
        let end: usize = self.key_size().0 as usize;
        let body = self.body();
        proof {
            assert(body@.subrange(start as int, end as int) =~= image_key(self@));
        }
        slice_subrange(body, start, end)
    }

    pub fn value_bytes(&self) -> (value: &[u8])
        requires
            self.wf(),
        ensures
            value@ == image_value(self@),
    {
        let start: usize = self.key_size().0 as usize;
        let body = self.body();
        let end: usize = body.len();
        proof {
            assert(body@.subrange(start as int, end as int) =~= image_value(self@));
        }
        slice_subrange(body, start, end)
    }

    /// The size of the whole record in bytes.
    pub fn len(&self) -> (len: usize)
        ensures
            len == self@.len(),
    {
        self.buf.len()
    }

    /// The record's bytes, as they stand on disk.
    pub fn deref(&self) -> (bytes: &Vec<u8>)
        ensures
            bytes@ == self@,
    {
        &self.buf
    }

    pub fn tx_id(&self) -> (tx_id: TxId)
        requires
            self.wf(),
        ensures
            tx_id@ == image_tx_id(self@),
    {
        let bytes = self.tx_id_bytes();
        proof {
            assert(bytes@.subrange(0, 16) =~= bytes@);
        }
        TxId(read_be(bytes, 0, TX_ID_SIZE))
    }

    pub fn key_size(&self) -> (size: KeySize)
        requires
            self.wf(),
        ensures
            size.0 == image_key_size(self@),
    {
        let bytes = self.key_size_bytes();
        proof {
            assert(bytes@.subrange(0, 2) =~= bytes@);
            lemma_be_value_bound(bytes@);
            lemma_pow256_values();
        }
        KeySize(read_be(bytes, 0, KEY_SIZE_SIZE) as u16)
    }

    pub fn value_size(&self) -> (size: ValueSize)
        requires
            self.wf(),
        ensures
            size.0 == image_value_size(self@),
    {
        let bytes = self.value_size_bytes();
        proof {
            assert(bytes@.subrange(0, 4) =~= bytes@);
            lemma_be_value_bound(bytes@);
            lemma_pow256_values();
        }
        ValueSize(read_be(bytes, 0, VALUE_SIZE_SIZE) as u32)
    }

    /// The first 26 bytes.
    pub fn header(&self) -> (header: &[u8])
        requires
            self.wf(),
        ensures
            header@ == self@.subrange(0, HEADER_SIZE as int),
    {
        slice_subrange(self.buf.as_slice(), 0, HEADER_SIZE)
    }

    /// The key's bytes and the value's bytes.
    pub fn body(&self) -> (body: &[u8])
        requires
            self.wf(),
        ensures
            body@ == self@.subrange(HEADER_SIZE as int, self@.len() as int),
    {
        slice_subrange(self.buf.as_slice(), HEADER_SIZE, self.buf.len())
    }

    /// The checksum that the record stores.
    pub fn hash_read_from_disk(&self) -> (hash: u32)
        requires
            self.wf(),
        ensures
            hash == image_stored_hash(self@),
    {
        let header = self.header();
        proof {
            assert(header@.subrange(0, 4) =~= self@.subrange(0, 4));
            lemma_be_value_bound(self@.subrange(0, 4));
            lemma_pow256_values();
        }
        read_be(header, 0, HASH_SIZE) as u32
    }

    /// The checksum of the record's bytes behind the stored checksum.
    pub fn computed_hash(&self) -> (hash: u32)
        requires
            self.wf(),
        ensures
            hash == image_computed_hash(self@),
    {
        crc32fast::hash(slice_subrange(self.buf.as_slice(), HASH_SIZE, self.buf.len()))
    }

    pub fn tx_id_bytes(&self) -> (bytes: &[u8])
        requires
            self.wf(),
        ensures
            bytes@ == self@.subrange(4, 20),
    {
        let start: usize = HASH_SIZE;
        let end: usize = start + TX_ID_SIZE;
        let header = self.header();
        proof {
            assert(header@.subrange(start as int, end as int) =~= self@.subrange(4, 20));
        }
        slice_subrange(header, start, end)
    }

    pub fn key_size_bytes(&self) -> (bytes: &[u8])
        requires
            self.wf(),
        ensures
            bytes@ == self@.subrange(20, 22),
    {
        let start: usize = HASH_SIZE + TX_ID_SIZE;
        let end: usize = start + KEY_SIZE_SIZE;
        let header = self.header();
        proof {
            assert(header@.subrange(start as int, end as int) =~= self@.subrange(20, 22));
        }
        slice_subrange(header, start, end)
    }

    pub fn value_size_bytes(&self) -> (bytes: &[u8])
        requires
            self.wf(),
        ensures
            bytes@ == self@.subrange(22, 26),
    {
        let start: usize = HASH_SIZE + TX_ID_SIZE + KEY_SIZE_SIZE;
        let end: usize = start + VALUE_SIZE_SIZE;
        let header = self.header();
        proof {
            assert(header@.subrange(start as int, end as int) =~= self@.subrange(22, 26));
        }
        slice_subrange(header, start, end)
    }
}

} // verus!
