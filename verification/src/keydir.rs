//! The in-memory index, and the values it holds.

use crate::error::ParseIntError;
use crate::error::Error;
use crate::keymap::{delete, put, KeyMap};
use crate::loadable::{read_valid_record, Loadable};
use crate::record::{
    image_key_size, image_liveness, image_tx_id, image_value_size, TxId, ValueSize, HEADER_SIZE,
};
use vstd::slice::slice_to_vec;
use std::cmp::Ordering;
use vstd::prelude::*;
use vstd::std_specs::cmp::PartialOrdSpecImpl;
use vstd::string::StrSliceExecFns;
use vstd::string::StringExecFns;

verus! {

/// Whether a record carries a value or marks its key as deleted.
#[derive(Clone, Copy, Debug, PartialEq, Eq, Structural)]
pub enum Liveness {
    Live,
    Deleted,
}

/// The number of a data file. The file's name is the number in decimal.
#[derive(Clone, Copy, Debug, PartialEq, Eq, PartialOrd, Ord, Hash, Structural)]
pub struct FileId(pub u32);

impl View for FileId {
    type V = u32;

    open spec fn view(&self) -> u32 {
        self.0
    }
}

/// `c` is one of the ten decimal digits.
pub open spec fn is_digit(c: char) -> bool {
    '0' <= c <= '9'
}

/// The number that the digit `c` stands for.
pub open spec fn digit_value(c: char) -> nat {
    (c as u32 - '0' as u32) as nat
}

/// The character for the digit `d`.
pub open spec fn digit_char(d: nat) -> char {
    if d == 0 {
        '0'
    } else if d == 1 {
        '1'
    } else if d == 2 {
        '2'
    } else if d == 3 {
        '3'
    } else if d == 4 {
        '4'
    } else if d == 5 {
        '5'
    } else if d == 6 {
        '6'
    } else if d == 7 {
        '7'
    } else if d == 8 {
        '8'
    } else {
        '9'
    }
}

/// The decimal digits of `n`, without leading zeros.
pub open spec fn decimal(n: nat) -> Seq<char>
    decreases n,
{
    if n < 10 {
        seq![digit_char(n)]
    } else {
        decimal(n / 10).push(digit_char(n % 10))
    }
}

/// Reads `s` as decimal digits that continue the number `acc`, from left to
/// right, and stops at the first character that is no digit or that takes the
/// number past the largest file id.
pub open spec fn digits_value(s: Seq<char>, acc: nat) -> Result<nat, ParseIntError>
    decreases s.len(),
{
    if s.len() == 0 {
        Ok(acc)
    } else if !is_digit(s[0]) {
        Err(ParseIntError::InvalidDigit)
    } else if acc * 10 + digit_value(s[0]) > u32::MAX {
        Err(ParseIntError::PosOverflow)
    } else {
        digits_value(s.skip(1), acc * 10 + digit_value(s[0]))
    }
}

/// The file id that the name `s` spells: decimal digits, which a `+` may
/// precede.
pub open spec fn parse_file_id(s: Seq<char>) -> Result<nat, ParseIntError> {
    if s.len() == 0 {
        Err(ParseIntError::Empty)
    } else {
        let digits = if s[0] == '+' {
            s.skip(1)
        } else {
            s
        };
        if digits.len() == 0 {
            Err(ParseIntError::InvalidDigit)
        } else {
            digits_value(digits, 0)
        }
    }
}

/// Reading digits, then one digit more, is reading them all.
pub proof fn lemma_digits_value_push(s: Seq<char>, c: char, acc: nat)
    requires
        is_digit(c),
        digits_value(s, acc) is Ok,
    ensures
        digits_value(s.push(c), acc) == if digits_value(s, acc)->Ok_0 * 10 + digit_value(c)
            > u32::MAX {
            Err::<nat, ParseIntError>(ParseIntError::PosOverflow)
        } else {
            Ok::<nat, ParseIntError>(digits_value(s, acc)->Ok_0 * 10 + digit_value(c))
        },
    decreases s.len(),
{
    let t = s.push(c);
    if s.len() == 0 {
        assert(t.skip(1) =~= Seq::<char>::empty());
        assert(t[0] == c);
        assert(digits_value(s, acc) == Ok::<nat, ParseIntError>(acc));
        let next = acc * 10 + digit_value(c);
        assert(digits_value(t.skip(1), next) == Ok::<nat, ParseIntError>(next));
    } else {
        let next = acc * 10 + digit_value(s[0]);
        assert(t[0] == s[0]);
        assert(t.skip(1) =~= s.skip(1).push(c));
        assert(digits_value(s, acc) == digits_value(s.skip(1), next));
        lemma_digits_value_push(s.skip(1), c, next);
        assert(digits_value(t, acc) == digits_value(t.skip(1), next));
    }
}

/// A file id's name reads back as the file id.
pub proof fn lemma_parse_decimal(n: nat)
    requires
        n <= u32::MAX,
    ensures
        decimal(n).len() > 0,
        decimal(n)[0] != '+',
        digits_value(decimal(n), 0) == Ok::<nat, ParseIntError>(n),
        parse_file_id(decimal(n)) == Ok::<nat, ParseIntError>(n),
    decreases n,
{
    if n < 10 {
        let s = decimal(n);
        assert(s.skip(1) =~= Seq::<char>::empty());
        assert(digit_value(digit_char(n)) == n);
        assert(digits_value(s.skip(1), n) == Ok::<nat, ParseIntError>(n));
    } else {
        lemma_parse_decimal(n / 10);
        let c = digit_char(n % 10);
        assert(is_digit(c) && digit_value(c) == n % 10);
        lemma_digits_value_push(decimal(n / 10), c, 0);
        assert(decimal(n)[0] == decimal(n / 10)[0]);
    }
}

impl FileId {
    /// Reads a file's name as a file id.
    pub fn from_str(s: &str) -> (parsed: Result<FileId, ParseIntError>)
        ensures
            match parse_file_id(s@) {
                Ok(n) => parsed matches Ok(id) && id@ == n,
                Err(e) => parsed == Err::<FileId, ParseIntError>(e),
            },
    {
        let n: usize = s.unicode_len();
        if n == 0 {
            return Err(ParseIntError::Empty);
        }
        let start: usize = if s.get_char(0) == '+' {
            1
        } else {
            0
        };
        if start == n {
            return Err(ParseIntError::InvalidDigit);
        }
        let mut acc: u32 = 0;
        let mut i: usize = start;
        let ghost digits = s@.skip(start as int);
        proof {
            assert(s@.skip(0) =~= s@);
        }
        while i < n
            invariant
                start <= i <= n,
                n == s@.len(),
                digits == s@.skip(start as int),
                parse_file_id(s@) == digits_value(digits, 0),
                digits_value(digits, 0) == digits_value(s@.skip(i as int), acc as nat),
            decreases n - i,
        {
            let c: char = s.get_char(i);
            proof {
                assert(s@.skip(i as int)[0] == c);
                assert(s@.skip(i as int).skip(1) =~= s@.skip(i + 1));
            }
            if !(c >= '0' && c <= '9') {
                return Err(ParseIntError::InvalidDigit);
            }
            let d: u32 = c as u32 - '0' as u32;
            if acc > (u32::MAX - d) / 10 {
                return Err(ParseIntError::PosOverflow);
            }
            acc = acc * 10 + d;
            i = i + 1;
        }
        proof {
            assert(s@.skip(n as int) =~= Seq::<char>::empty());
        }
        Ok(FileId(acc))
    }

    /// The file's name: the id in decimal.
    pub fn to_string(&self) -> (name: String)
        ensures
            name@ == decimal(self@ as nat),
    {
        let mut digits: Vec<u8> = Vec::new();
        let mut rest: u32 = self.0;
        proof {
            assert(pow10(0) == 1);
            assert(decimal(rest as nat) + low_digits(digits@) =~= decimal(rest as nat));
        }
        while rest >= 10
            invariant
                digits@.len() <= 10,
                forall|j: int| 0 <= j < digits@.len() ==> (#[trigger] digits@[j]) < 10,
                decimal(self@ as nat) == decimal(rest as nat) + low_digits(digits@),
                rest as nat * pow10(digits@.len()) <= u32::MAX,
            decreases rest,
        {
            let ghost before = digits@;
            digits.push((rest % 10) as u8);
            proof {
                let d = (rest % 10) as u8;
                assert(digits@.drop_last() =~= before);
                assert(low_digits(digits@) == seq![digit_char(d as nat)] + low_digits(before));
                assert(decimal(rest as nat) == decimal(rest as nat / 10).push(
                    digit_char(d as nat),
                ));
                assert(decimal(rest as nat / 10).push(digit_char(d as nat)) + low_digits(before)
                    =~= decimal(rest as nat / 10) + (seq![digit_char(d as nat)] + low_digits(
                    before,
                )));
                assert((rest as nat / 10) * pow10(digits@.len()) <= rest as nat * pow10(
                    before.len(),
                )) by (nonlinear_arith)
                    requires
                        pow10(digits@.len()) == 10 * pow10(before.len()),
                ;
                lemma_pow10_bound(digits@.len(), rest as nat / 10);
            }
            rest = rest / 10;
        }
        let mut name: String = String::from_str(digit_str(rest as u8));
        let mut k: usize = digits.len();
        proof {
            assert(name@ =~= decimal(rest as nat));
            assert(low_digits(digits@.subrange(0, k as int)) == low_digits(digits@)) by {
                assert(digits@.subrange(0, k as int) =~= digits@);
            }
        }
        while k > 0
            invariant
                k <= digits@.len(),
                forall|j: int| 0 <= j < digits@.len() ==> (#[trigger] digits@[j]) < 10,
                decimal(self@ as nat) == name@ + low_digits(digits@.subrange(0, k as int)),
            decreases k,
        {
            let ghost before = name@;
            let ghost lows = digits@.subrange(0, k as int);
            k = k - 1;
            name.append(digit_str(digits[k]));
            proof {
                assert(lows.drop_last() =~= digits@.subrange(0, k as int));
                assert(lows.last() == digits@[k as int]);
                assert(before + (seq![digit_char(digits@[k as int] as nat)] + low_digits(
                    digits@.subrange(0, k as int),
                )) =~= name@ + low_digits(digits@.subrange(0, k as int)));
            }
        }
        proof {
            assert(digits@.subrange(0, 0) =~= Seq::<u8>::empty());
            assert(name@ + low_digits(Seq::<u8>::empty()) =~= name@);
        }
        name
    }

    /// The id that follows `self` by `rhs`.
    pub fn add(&self, rhs: u32) -> (sum: FileId)
        requires
            self@ + rhs <= u32::MAX,
        ensures
            sum@ == self@ + rhs,
    {
        FileId(self.0 + rhs)
    }

    pub fn add_assign(&mut self, rhs: u32)
        requires
            old(self)@ + rhs <= u32::MAX,
        ensures
            final(self)@ == old(self)@ + rhs,
    {
        self.0 = self.0 + rhs;
    }

    /// The id as a number.
    pub fn deref(&self) -> (number: &u32)
        ensures
            *number == self@,
    {
        &self.0
    }
}

impl From<u32> for FileId {
    fn from(value: u32) -> (id: FileId) {
        FileId(value)
    }
}

impl vstd::std_specs::convert::FromSpecImpl<u32> for FileId {
    open spec fn obeys_from_spec() -> bool {
        true
    }

    open spec fn from_spec(value: u32) -> FileId {
        FileId(value)
    }
}

/// 10 to the power `n`.
pub open spec fn pow10(n: nat) -> nat
    decreases n,
{
    if n == 0 {
        1
    } else {
        10 * pow10((n - 1) as nat)
    }
}

/// The characters of the digits in `lows`, which holds the least significant
/// digit first, written most significant first.
pub open spec fn low_digits(lows: Seq<u8>) -> Seq<char>
    decreases lows.len(),
{
    if lows.len() == 0 {
        Seq::empty()
    } else {
        seq![digit_char(lows.last() as nat)] + low_digits(lows.drop_last())
    }
}

/// A number with a digit before `n` more digits needs `n` below ten to fit
/// a file id.
proof fn lemma_pow10_bound(n: nat, x: nat)
    requires
        x >= 1,
        x * pow10(n) <= u32::MAX,
    ensures
        n <= 9,
{
    reveal_with_fuel(pow10, 11);
    if n >= 10 {
        lemma_pow10_grows(10, n);
        assert(x * pow10(n) >= pow10(n)) by (nonlinear_arith)
            requires
                x >= 1,
        ;
    }
}

/// The powers of ten do not fall.
proof fn lemma_pow10_grows(a: nat, b: nat)
    requires
        a <= b,
    ensures
        pow10(a) <= pow10(b),
    decreases b,
{
    if a < b {
        lemma_pow10_grows(a, (b - 1) as nat);
    }
}

/// The one-character string for the digit `d`.
fn digit_str(d: u8) -> (s: &'static str)
    requires
        d < 10,
    ensures
        s@ == seq![digit_char(d as nat)],
{
    proof {
        reveal_strlit("0");
        reveal_strlit("1");
        reveal_strlit("2");
        reveal_strlit("3");
        reveal_strlit("4");
        reveal_strlit("5");
        reveal_strlit("6");
        reveal_strlit("7");
        reveal_strlit("8");
        reveal_strlit("9");
    }
    let s = if d == 0 {
        "0"
    } else if d == 1 {
        "1"
    } else if d == 2 {
        "2"
    } else if d == 3 {
        "3"
    } else if d == 4 {
        "4"
    } else if d == 5 {
        "5"
    } else if d == 6 {
        "6"
    } else if d == 7 {
        "7"
    } else if d == 8 {
        "8"
    } else {
        "9"
    };
    assert(s@ =~= seq![digit_char(d as nat)]);
    s
}

/// Where the latest value of a key stands on disk.
#[derive(Clone, Copy, Debug, PartialEq, Eq, Structural)]
pub struct EntryPointer {
    /// the file that holds the value
    pub file_id: FileId,
    /// the place in that file, in bytes from its start, where the value begins
    pub value_position: u64,
    /// the size of the value in bytes
    pub value_size: ValueSize,
    /// the number of the write that stored the value
    pub tx_id: TxId,
}

/// What a record read at start-up says of its key.
#[derive(Clone, Copy, Debug, PartialEq, Eq, Structural)]
pub struct EntryWithLiveness {
    pub liveness: Liveness,
    pub entry: EntryPointer,
}

/// Entries are ordered by their transaction ids alone.
impl PartialOrd for EntryWithLiveness {
    fn partial_cmp(&self, other: &EntryWithLiveness) -> (order: Option<Ordering>) {
        if self.entry.tx_id.0 < other.entry.tx_id.0 {
            Some(Ordering::Less)
        } else if self.entry.tx_id.0 > other.entry.tx_id.0 {
            Some(Ordering::Greater)
        } else {
            Some(Ordering::Equal)
        }
    }
}

impl PartialOrdSpecImpl for EntryWithLiveness {
    open spec fn obeys_partial_cmp_spec() -> bool {
        true
    }

    open spec fn partial_cmp_spec(&self, other: &EntryWithLiveness) -> Option<Ordering> {
        if self.entry.tx_id@ < other.entry.tx_id@ {
            Some(Ordering::Less)
        } else if self.entry.tx_id@ > other.entry.tx_id@ {
            Some(Ordering::Greater)
        } else {
            Some(Ordering::Equal)
        }
    }
}

impl Loadable for EntryWithLiveness {
    open spec fn order(&self) -> u128 {
        self.entry.tx_id@
    }

    /// The pointer to the value of the record, with the record's liveness.
    open spec fn of_record(
        img: Seq<u8>,
        offset: nat,
        file_id: FileId,
        serialized_tombstone: Seq<u8>,
    ) -> EntryWithLiveness {
        EntryWithLiveness {
            liveness: image_liveness(img, serialized_tombstone),
            entry: EntryPointer {
                file_id,
                value_position: (offset + HEADER_SIZE + image_key_size(img)) as u64,
                value_size: ValueSize(image_value_size(img) as u32),
                tx_id: TxId(image_tx_id(img) as u128),
            },
        }
    }

    fn tx_id(&self) -> (tx_id: TxId) {
        self.entry.tx_id
    }

    fn read_one(data: &[u8], offset: &mut u64, file_id: FileId, serialized_tombstone: &[u8]) -> (read:
        Result<Option<(Vec<u8>, EntryWithLiveness)>, Error>) {
        let record = match read_valid_record(data, *offset) {
            Ok(Some(record)) => record,
            Ok(None) => {
                return Ok(None);
            },
            Err(e) => {
                return Err(e);
            },
        };
        let key = slice_to_vec(record.key_bytes());

        let liveness = record.liveness(serialized_tombstone);

        let value_position = *offset + HEADER_SIZE as u64 + record.key_size().0 as u64;

        // the record has been read: the offset moves behind it
        *offset = *offset + record.len() as u64;

        Ok(
            Some(
                (
                    key,
                    EntryWithLiveness {
                        liveness,
                        entry: EntryPointer {
                            file_id,
                            value_size: record.value_size(),
                            value_position,
                            tx_id: record.tx_id(),
                        },
                    },
                ),
            ),
        )
    }
}

/// The highest transaction id among the entries of `s`.
pub open spec fn latest_tx(s: Seq<(Seq<u8>, EntryPointer)>) -> Option<u128>
    decreases s.len(),
{
    if s.len() == 0 {
        None
    } else {
        match latest_tx(s.drop_last()) {
            Some(t) if t >= s.last().1.tx_id@ => Some(t),
            _ => Some(s.last().1.tx_id@),
        }
    }
}

/// The highest transaction id is the id of one of the entries, and none has a
/// higher one.
pub proof fn lemma_latest_tx(s: Seq<(Seq<u8>, EntryPointer)>)
    ensures
        s.len() == 0 <==> latest_tx(s) is None,
        s.len() > 0 ==> exists|i: int|
            0 <= i < s.len() && (#[trigger] s[i]).1.tx_id@ == latest_tx(s)->Some_0,
        forall|i: int| 0 <= i < s.len() ==> (#[trigger] s[i]).1.tx_id@ <= latest_tx(s)->Some_0,
    decreases s.len(),
{
    if s.len() > 0 {
        let front = s.drop_last();
        lemma_latest_tx(front);
        let last = s.len() - 1;
        if front.len() > 0 {
            let w = choose|i: int|
                0 <= i < front.len() && (#[trigger] front[i]).1.tx_id@ == latest_tx(front)->Some_0;
            assert(s[w] == front[w]);
        }
        assert(s[last] == s.last());
        assert forall|i: int| 0 <= i < s.len() implies (#[trigger] s[i]).1.tx_id@ <= latest_tx(
            s,
        )->Some_0 by {
            if i < last {
                assert(s[i] == front[i]);
            }
        }
    }
}

/// The index: for each live key, where its latest value stands.
pub struct Keydir(pub KeyMap<EntryPointer>);

impl View for Keydir {
    type V = Map<Seq<u8>, EntryPointer>;

    open spec fn view(&self) -> Map<Seq<u8>, EntryPointer> {
        self.0@
    }
}

impl Keydir {
    /// The keys with their pointers, in the order in which the keys came.
    pub open spec fn entries(&self) -> Seq<(Seq<u8>, EntryPointer)> {
        self.0.entries()
    }

    /// No key stands twice.
    pub open spec fn wf(&self) -> bool {
        self.0.wf()
    }

    /// The index that holds the entries of `map`.
    pub fn new(map: KeyMap<EntryPointer>) -> (keydir: Keydir)
        ensures
            keydir.0 == map,
    {
        Keydir(map)
    }

    /// Points `k` at `entry`, and returns the pointer that it had.
    pub fn insert(&mut self, k: Vec<u8>, entry: EntryPointer) -> (previous: Option<EntryPointer>)
        requires
            old(self).wf(),
        ensures
            final(self).wf(),
            final(self).entries() == put(old(self).entries(), k@, entry),
            final(self)@ == old(self)@.insert(k@, entry),
            previous == old(self)@.get(k@),
    {
        self.0.insert(k, entry)
    }

    pub fn get(&self, k: &[u8]) -> (entry: Option<&EntryPointer>)
        requires
            self.wf(),
        ensures
            match entry {
                Some(e) => self@.contains_key(k@) && *e == self@[k@],
                None => !self@.contains_key(k@),
            },
    {
        self.0.get(k)
    }

    /// Takes `k` out, and returns the pointer that it had.
    pub fn remove(&mut self, k: &[u8]) -> (previous: Option<EntryPointer>)
        requires
            old(self).wf(),
        ensures
            final(self).wf(),
            final(self).entries() == delete(old(self).entries(), k@),
            final(self)@ == old(self)@.remove(k@),
            previous == old(self)@.get(k@),
    {
        self.0.remove(k)
    }

    pub fn contains_key(&self, k: &[u8]) -> (found: bool)
        requires
            self.wf(),
        ensures
            found == self@.contains_key(k@),
    {
        self.0.contains_key(k)
    }

    /// The keys, in the order in which they came.
    pub fn keys(&self) -> (keys: Vec<Vec<u8>>)
        ensures
            keys@.len() == self.entries().len(),
            forall|i: int| 0 <= i < keys@.len() ==> (#[trigger] keys@[i])@ == self.entries()[i].0,
    {
        self.0.keys()
    }

    /// The highest transaction id that the index holds, if it holds any.
    pub fn latest_tx_id(&self) -> (latest: Option<TxId>)
        ensures
            match latest {
                Some(id) => latest_tx(self.entries()) == Some(id@),
                None => latest_tx(self.entries()) is None,
            },
    {
        let mut latest: Option<TxId> = None;
        let mut i: usize = 0;
        let n: usize = self.0.len();
        while i < n
            invariant
                i <= n,
                n == self.entries().len(),
                match latest {
                    Some(id) => latest_tx(self.entries().subrange(0, i as int)) == Some(id@),
                    None => latest_tx(self.entries().subrange(0, i as int)) is None,
                },
            decreases n - i,
        {
            let tx_id: TxId = self.0.value_at(i).tx_id;
            proof {
                let next = self.entries().subrange(0, i + 1);
                assert(next.drop_last() =~= self.entries().subrange(0, i as int));
                assert(next.last() == self.entries()[i as int]);
            }
            latest = match latest {
                Some(id) => if id.0 >= tx_id.0 {
                    Some(id)
                } else {
                    Some(tx_id)
                },
                None => Some(tx_id),
            };
            i = i + 1;
        }
        proof {
            assert(self.entries().subrange(0, n as int) =~= self.entries());
        }
        latest
    }
}

} // verus!
