//! A map from keys, which are byte strings, to values, kept in the order in
//! which the keys first came.

use crate::record::bytes_equal;
use vstd::prelude::*;
use vstd::slice::slice_to_vec;

verus! {

/// No key stands twice in `s`.
pub open spec fn distinct_keys<V>(s: Seq<(Seq<u8>, V)>) -> bool {
    forall|i: int, j: int| 0 <= i < j < s.len() ==> (#[trigger] s[i]).0 != (#[trigger] s[j]).0
}

/// `key` stands in `s`.
pub open spec fn has_key<V>(s: Seq<(Seq<u8>, V)>, key: Seq<u8>) -> bool {
    exists|i: int| 0 <= i < s.len() && (#[trigger] s[i]).0 == key
}

/// Where `key` stands in `s`, if it stands there.
pub open spec fn position<V>(s: Seq<(Seq<u8>, V)>, key: Seq<u8>) -> int {
    choose|i: int| 0 <= i < s.len() && (#[trigger] s[i]).0 == key
}

/// The value that `s` holds for `key`, if `key` stands in it.
pub open spec fn value_of<V>(s: Seq<(Seq<u8>, V)>, key: Seq<u8>) -> V {
    s[position(s, key)].1
}

/// `s` with `value` for `key`: in the key's place where it stands in `s`, at
/// the end where it does not.
pub open spec fn put<V>(s: Seq<(Seq<u8>, V)>, key: Seq<u8>, value: V) -> Seq<(Seq<u8>, V)> {
    if has_key(s, key) {
        s.update(position(s, key), (key, value))
    } else {
        s.push((key, value))
    }
}

/// `s` without `key`; the others keep their order.
pub open spec fn delete<V>(s: Seq<(Seq<u8>, V)>, key: Seq<u8>) -> Seq<(Seq<u8>, V)> {
    if has_key(s, key) {
        s.remove(position(s, key))
    } else {
        s
    }
}

/// The map that the pairs of `s` spell.
pub open spec fn to_map<V>(s: Seq<(Seq<u8>, V)>) -> Map<Seq<u8>, V> {
    Map::new(|key: Seq<u8>| has_key(s, key), |key: Seq<u8>| value_of(s, key))
}

/// With distinct keys, a key stands at one place only.
pub proof fn lemma_position<V>(s: Seq<(Seq<u8>, V)>, i: int)
    requires
        distinct_keys(s),
        0 <= i < s.len(),
    ensures
        has_key(s, s[i].0),
        position(s, s[i].0) == i,
        value_of(s, s[i].0) == s[i].1,
{
    let p = position(s, s[i].0);
    assert(0 <= p < s.len() && s[p].0 == s[i].0);
    if p < i {
        assert(s[p].0 != s[i].0);
    } else if i < p {
        assert(s[i].0 != s[p].0);
    }
}

/// `put` keeps the keys distinct, and on the map it is an insertion.
pub proof fn lemma_put<V>(s: Seq<(Seq<u8>, V)>, key: Seq<u8>, value: V)
    requires
        distinct_keys(s),
    ensures
        distinct_keys(put(s, key, value)),
        to_map(put(s, key, value)) == to_map(s).insert(key, value),
        has_key(put(s, key, value), key),
        value_of(put(s, key, value), key) == value,
        forall|other: Seq<u8>|
            other != key ==> has_key(put(s, key, value), other) == has_key(s, other),
        forall|other: Seq<u8>|
            other != key && has_key(s, other) ==> value_of(put(s, key, value), other) == value_of(
                s,
                other,
            ),
{
    let t = put(s, key, value);
    if has_key(s, key) {
        let p = position(s, key);
        assert(t[p] == (key, value));
        assert forall|i: int, j: int| 0 <= i < j < t.len() implies (#[trigger] t[i]).0 != (
        #[trigger] t[j]).0 by {
            assert(s[i].0 != s[j].0);
        }
        assert forall|other: Seq<u8>| other != key implies has_key(t, other) == has_key(
            s,
            other,
        ) by {
            if has_key(s, other) {
                let q = position(s, other);
                assert(t[q].0 == other);
            }
            if has_key(t, other) {
                let q = position(t, other);
                assert(s[q].0 == other);
            }
        }
    } else {
        let p = s.len() as int;
        assert(t[p] == (key, value));
        assert forall|i: int, j: int| 0 <= i < j < t.len() implies (#[trigger] t[i]).0 != (
        #[trigger] t[j]).0 by {
            if j < s.len() {
                assert(s[i].0 != s[j].0);
            } else {
                assert(s[i].0 != key);
            }
        }
        assert forall|other: Seq<u8>| other != key implies has_key(t, other) == has_key(
            s,
            other,
        ) by {
            if has_key(s, other) {
                let q = position(s, other);
                assert(t[q].0 == other);
            }
            if has_key(t, other) {
                let q = position(t, other);
                assert(s[q].0 == other);
            }
        }
    }
    assert(has_key(t, key));
    let at = position(t, key);
    assert(t[at].0 == key);
    lemma_position(t, at);
    assert forall|other: Seq<u8>| other != key && has_key(s, other) implies value_of(t, other)
        == value_of(s, other) by {
        let q = position(s, other);
        assert(t[q] == s[q]);
        lemma_position(t, q);
    }
    assert(to_map(t) =~= to_map(s).insert(key, value));
}

/// `delete` keeps the keys distinct, and on the map it is a removal.
pub proof fn lemma_delete<V>(s: Seq<(Seq<u8>, V)>, key: Seq<u8>)
    requires
        distinct_keys(s),
    ensures
        distinct_keys(delete(s, key)),
        to_map(delete(s, key)) == to_map(s).remove(key),
        !has_key(delete(s, key), key),
        forall|other: Seq<u8>| other != key ==> has_key(delete(s, key), other) == has_key(s, other),
        forall|other: Seq<u8>|
            other != key && has_key(s, other) ==> value_of(delete(s, key), other) == value_of(
                s,
                other,
            ),
{
    let t = delete(s, key);
    if has_key(s, key) {
        let p = position(s, key);
        assert forall|i: int| 0 <= i < t.len() implies #[trigger] t[i] == s[if i < p {
            i
        } else {
            i + 1
        }] by {}
        assert forall|i: int, j: int| 0 <= i < j < t.len() implies (#[trigger] t[i]).0 != (
        #[trigger] t[j]).0 by {
            let si = if i < p { i } else { i + 1 };
            let sj = if j < p { j } else { j + 1 };
            assert(s[si].0 != s[sj].0);
        }
        if has_key(t, key) {
            let q = position(t, key);
            let sq = if q < p { q } else { q + 1 };
            assert(t[q] == s[sq]);
            lemma_position(s, sq);
        }
        assert forall|other: Seq<u8>| other != key implies has_key(t, other) == has_key(
            s,
            other,
        ) by {
            if has_key(s, other) {
                let q = position(s, other);
                let tq = if q < p { q } else { q - 1 };
                assert(t[tq] == s[q]);
            }
            if has_key(t, other) {
                let q = position(t, other);
                let sq = if q < p { q } else { q + 1 };
                assert(t[q] == s[sq]);
            }
        }
        assert forall|other: Seq<u8>| other != key && has_key(s, other) implies value_of(
            t,
            other,
        ) == value_of(s, other) by {
            let q = position(s, other);
            let tq = if q < p { q } else { q - 1 };
            assert(t[tq] == s[q]);
            lemma_position(t, tq);
        }
    }
    assert(to_map(t) =~= to_map(s).remove(key));
}

/// One key with its value.
struct Slot<V> {
    key: Vec<u8>,
    value: V,
}

/// A map from byte strings to values of `V`. It keeps its keys in the order in
/// which they were first inserted.
pub struct KeyMap<V> {
    slots: Vec<Slot<V>>,
}

impl<V> View for KeyMap<V> {
    type V = Map<Seq<u8>, V>;

    open spec fn view(&self) -> Map<Seq<u8>, V> {
        to_map(self.entries())
    }
}

impl<V> KeyMap<V> {
    /// The keys with their values, in the map's order.
    pub closed spec fn entries(&self) -> Seq<(Seq<u8>, V)> {
        Seq::new(self.slots@.len(), |i: int| (self.slots@[i].key@, self.slots@[i].value))
    }

    /// No key stands twice.
    pub open spec fn wf(&self) -> bool {
        distinct_keys(self.entries())
    }

    pub fn new() -> (map: KeyMap<V>)
        ensures
            map.wf(),
            map.entries() == Seq::<(Seq<u8>, V)>::empty(),
    {
        let map = KeyMap { slots: Vec::new() };
        proof {
            assert(map.entries() =~= Seq::<(Seq<u8>, V)>::empty());
        }
        map
    }

    pub fn len(&self) -> (len: usize)
        ensures
            len == self.entries().len(),
    {
        self.slots.len()
    }

    /// The place of `key` in the map's order.
    pub fn find(&self, key: &[u8]) -> (found: Option<usize>)
        requires
            self.wf(),
        ensures
            match found {
                Some(i) => has_key(self.entries(), key@) && i == position(self.entries(), key@),
                None => !has_key(self.entries(), key@),
            },
    {
        let mut i: usize = 0;
        while i < self.slots.len()
            invariant
                i <= self.slots@.len(),
                self.wf(),
                forall|j: int| 0 <= j < i ==> (#[trigger] self.entries()[j]).0 != key@,
            decreases self.slots@.len() - i,
        {
            if bytes_equal(self.slots[i].key.as_slice(), key) {
                proof {
                    assert(self.entries()[i as int].0 == key@);
                    lemma_position(self.entries(), i as int);
                }
                return Some(i);
            }
            proof {
                assert(self.entries()[i as int].0 != key@);
            }
            i = i + 1;
        }
        None
    }

    /// The key at place `i` of the map's order.
    pub fn key_at(&self, i: usize) -> (key: &[u8])
        requires
            i < self.entries().len(),
        ensures
            key@ == self.entries()[i as int].0,
    {
        self.slots[i].key.as_slice()
    }

    /// The value at place `i` of the map's order.
    pub fn value_at(&self, i: usize) -> (value: &V)
        requires
            i < self.entries().len(),
        ensures
            *value == self.entries()[i as int].1,
    {
        &self.slots[i].value
    }

    /// Sets the value of `key`, and returns the value that it had.
    pub fn insert(&mut self, key: Vec<u8>, value: V) -> (previous: Option<V>)
        requires
            old(self).wf(),
        ensures
            final(self).wf(),
            final(self).entries() == put(old(self).entries(), key@, value),
            final(self)@ == old(self)@.insert(key@, value),
            previous == old(self)@.get(key@),
    {
        proof {
            lemma_put(self.entries(), key@, value);
        }
        let ghost before = self.entries();
        match self.find(key.as_slice()) {
            Some(i) => {
                self.slots.push(Slot { key, value });
                let slot = self.slots.swap_remove(i);
                proof {
                    assert(self.entries() =~= put(before, key@, value));
                }
                Some(slot.value)
            },
            None => {
                self.slots.push(Slot { key, value });
                proof {
                    assert(self.entries() =~= put(before, key@, value));
                }
                None
            },
        }
    }

    pub fn get(&self, key: &[u8]) -> (value: Option<&V>)
        requires
            self.wf(),
        ensures
            match value {
                Some(v) => self@.contains_key(key@) && *v == self@[key@],
                None => !self@.contains_key(key@),
            },
    {
        match self.find(key) {
            Some(i) => Some(&self.slots[i].value),
            None => None,
        }
    }

    /// Takes `key` out, and returns the value that it had.
    pub fn remove(&mut self, key: &[u8]) -> (previous: Option<V>)
        requires
            old(self).wf(),
        ensures
            final(self).wf(),
            final(self).entries() == delete(old(self).entries(), key@),
            final(self)@ == old(self)@.remove(key@),
            previous == old(self)@.get(key@),
    {
        proof {
            lemma_delete(self.entries(), key@);
        }
        let ghost before = self.entries();
        match self.find(key) {
            Some(i) => {
                let slot = self.slots.remove(i);
                proof {
                    assert(self.entries() =~= delete(before, key@));
                }
                Some(slot.value)
            },
            None => None,
        }
    }

    pub fn contains_key(&self, key: &[u8]) -> (found: bool)
        requires
            self.wf(),
        ensures
            found == self@.contains_key(key@),
    {
        self.find(key).is_some()
    }

    /// The keys, in the map's order.
    pub fn keys(&self) -> (keys: Vec<Vec<u8>>)
        ensures
            keys@.len() == self.entries().len(),
            forall|i: int| 0 <= i < keys@.len() ==> (#[trigger] keys@[i])@ == self.entries()[i].0,
    {
        let mut keys: Vec<Vec<u8>> = Vec::new();
        let mut i: usize = 0;
        while i < self.slots.len()
            invariant
                i <= self.slots@.len(),
                keys@.len() == i,
                forall|j: int| 0 <= j < i ==> (#[trigger] keys@[j])@ == self.entries()[j].0,
            decreases self.slots@.len() - i,
        {
            keys.push(slice_to_vec(self.slots[i].key.as_slice()));
            i = i + 1;
        }
        keys
    }
}

} // verus!
