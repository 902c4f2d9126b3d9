//! The in-memory key-value engine backing one key space: an association
//! vector of `(key, record)` entries with unique keys, viewed as a finite map
//! from byte-string keys to record values. Insertion order is preserved, so a
//! scan of the key space is deterministic.
use vstd::prelude::*;

use vstd::pervasive::VecAdditionalExecFns;

use crate::bytestr::{bytes_eq, clone_bytes, seq_views};

verus! {

/// One stored record: an opaque payload and its timestamp.
pub struct Record {
    pub payload: Vec<u8>,
    pub timestamp: i64,
}

/// The mathematical value of a [`Record`].
pub struct RecordView {
    pub payload: Seq<u8>,
    pub timestamp: int,
}

impl View for Record {
    type V = RecordView;

    open spec fn view(&self) -> RecordView {
        RecordView { payload: self.payload@, timestamp: self.timestamp as int }
    }
}

/// A fresh record with the same view.
pub fn clone_record(r: &Record) -> (c: Record)
    ensures
        c@ == r@,
{
    Record { payload: clone_bytes(r.payload.as_slice()), timestamp: r.timestamp }
}

/// No key occurs in two entries.
pub open spec fn unique_keys(s: Seq<(Vec<u8>, Record)>) -> bool {
    forall|i: int, j: int| 0 <= i < j < s.len() ==> s[i].0@ != s[j].0@
}

/// The keys of an entry sequence, in stored order.
pub open spec fn keys_of(s: Seq<(Vec<u8>, Record)>) -> Seq<Seq<u8>> {
    Seq::new(s.len(), |i: int| s[i].0@)
}

/// The scan position of key `k` (meaningful when the key is stored and keys
/// are unique).
pub open spec fn key_pos(keys: Seq<Seq<u8>>, k: Seq<u8>) -> int {
    choose|i: int| 0 <= i < keys.len() && keys[i] == k
}

/// With unique keys, the entry index holding a key is its scan position.
pub proof fn lemma_key_pos(s: Seq<(Vec<u8>, Record)>, i: int)
    requires
        unique_keys(s),
        0 <= i < s.len(),
    ensures
        key_pos(keys_of(s), s[i].0@) == i,
{
    assert(keys_of(s)[i] == s[i].0@);
    let j = choose|j: int| 0 <= j < keys_of(s).len() && keys_of(s)[j] == s[i].0@;
    if j != i {
        assert(s[j].0@ == s[i].0@);
    }
}

/// The finite map held by an entry sequence, later entries shadowing earlier
/// ones (with unique keys nothing is ever shadowed).
pub open spec fn assoc_view(s: Seq<(Vec<u8>, Record)>) -> Map<Seq<u8>, RecordView>
    decreases s.len(),
{
    if s.len() == 0 {
        Map::empty()
    } else {
        assoc_view(s.drop_last()).insert(s.last().0@, s.last().1@)
    }
}

/// A key is in the map iff some entry holds it.
pub proof fn lemma_assoc_view_contains(s: Seq<(Vec<u8>, Record)>, k: Seq<u8>)
    ensures
        assoc_view(s).contains_key(k) <==> (exists|i: int| 0 <= i < s.len() && s[i].0@ == k),
    decreases s.len(),
{
    if s.len() > 0 {
        lemma_assoc_view_contains(s.drop_last(), k);
        if s.last().0@ == k {
            assert(s[s.len() - 1].0@ == k);
        } else {
            if exists|i: int| 0 <= i < s.len() && s[i].0@ == k {
                let i = choose|i: int| 0 <= i < s.len() && s[i].0@ == k;
                assert(s.drop_last()[i].0@ == k);
            }
            if exists|i: int| 0 <= i < s.drop_last().len() && s.drop_last()[i].0@ == k {
                let i = choose|i: int| 0 <= i < s.drop_last().len() && s.drop_last()[i].0@ == k;
                assert(s[i].0@ == k);
            }
        }
    }
}

/// With unique keys, the entry holding a key gives that key's map value.
pub proof fn lemma_assoc_view_get(s: Seq<(Vec<u8>, Record)>, i: int)
    requires
        unique_keys(s),
        0 <= i < s.len(),
    ensures
        assoc_view(s).contains_key(s[i].0@),
        assoc_view(s)[s[i].0@] == s[i].1@,
    decreases s.len(),
{
    if i == s.len() - 1 {
    } else {
        lemma_assoc_view_get(s.drop_last(), i);
        assert(s.drop_last()[i] == s[i]);
        assert(s.last().0@ != s[i].0@);
    }
}

/// Overwriting the entry that holds a key updates the map at that key alone.
pub proof fn lemma_assoc_view_update(s: Seq<(Vec<u8>, Record)>, i: int, e: (Vec<u8>, Record))
    requires
        unique_keys(s),
        0 <= i < s.len(),
        s[i].0@ == e.0@,
    ensures
        assoc_view(s.update(i, e)) == assoc_view(s).insert(e.0@, e.1@),
        unique_keys(s.update(i, e)),
        keys_of(s.update(i, e)) == keys_of(s),
    decreases s.len(),
{
    let s2 = s.update(i, e);
    assert(keys_of(s2) =~= keys_of(s));
    if i == s.len() - 1 {
        assert(s2.drop_last() =~= s.drop_last());
        assert(s2.last() == e);
        let m = assoc_view(s.drop_last());
        assert(m.insert(s.last().0@, s.last().1@).insert(e.0@, e.1@) =~= m.insert(e.0@, e.1@));
    } else {
        assert(s2.drop_last() =~= s.drop_last().update(i, e));
        assert(s.drop_last()[i] == s[i]);
        lemma_assoc_view_update(s.drop_last(), i, e);
        let m = assoc_view(s.drop_last());
        let lk = s.last().0@;
        let lv = s.last().1@;
        assert(s2.last() == s.last());
        assert(lk != e.0@);
        assert(m.insert(e.0@, e.1@).insert(lk, lv) =~= m.insert(lk, lv).insert(e.0@, e.1@));
    }
}

/// Appending an entry with a fresh key inserts that key into the map.
pub proof fn lemma_assoc_view_push(s: Seq<(Vec<u8>, Record)>, e: (Vec<u8>, Record))
    requires
        unique_keys(s),
        forall|i: int| 0 <= i < s.len() ==> s[i].0@ != e.0@,
    ensures
        assoc_view(s.push(e)) == assoc_view(s).insert(e.0@, e.1@),
        unique_keys(s.push(e)),
        keys_of(s.push(e)) == keys_of(s).push(e.0@),
{
    assert(s.push(e).drop_last() =~= s);
    assert(s.push(e).last() == e);
    assert(keys_of(s.push(e)) =~= keys_of(s).push(e.0@));
    assert forall|i: int, j: int| 0 <= i < j < s.push(e).len() implies s.push(e)[i].0@ != s.push(
        e,
    )[j].0@ by {
        if j < s.len() {
            assert(s.push(e)[i] == s[i]);
            assert(s.push(e)[j] == s[j]);
        } else {
            assert(s.push(e)[i] == s[i]);
            assert(s.push(e)[j] == e);
        }
    }
}

/// Removing the entry that holds a key removes that key from the map and
/// keeps the other keys in their order.
pub proof fn lemma_assoc_view_remove(s: Seq<(Vec<u8>, Record)>, i: int)
    requires
        unique_keys(s),
        0 <= i < s.len(),
    ensures
        assoc_view(s.remove(i)) == assoc_view(s).remove(s[i].0@),
        unique_keys(s.remove(i)),
        keys_of(s.remove(i)) == keys_of(s).remove(i),
    decreases s.len(),
{
    let s2 = s.remove(i);
    let k = s[i].0@;
    assert(keys_of(s2) =~= keys_of(s).remove(i));
    assert forall|a: int, b: int| 0 <= a < b < s2.len() implies s2[a].0@ != s2[b].0@ by {
        let a0 = if a < i {
            a
        } else {
            a + 1
        };
        let b0 = if b < i {
            b
        } else {
            b + 1
        };
        assert(s2[a] == s[a0]);
        assert(s2[b] == s[b0]);
    }
    if i == s.len() - 1 {
        assert(s2 =~= s.drop_last());
        lemma_assoc_view_contains(s.drop_last(), k);
        assert forall|j: int| 0 <= j < s.drop_last().len() implies s.drop_last()[j].0@ != k by {
            assert(s.drop_last()[j] == s[j]);
        }
        let m = assoc_view(s.drop_last());
        assert(!m.contains_key(k));
        assert(m.insert(k, s.last().1@).remove(k) =~= m);
    } else {
        assert(s2.drop_last() =~= s.drop_last().remove(i));
        assert(s.drop_last()[i] == s[i]);
        lemma_assoc_view_remove(s.drop_last(), i);
        let m = assoc_view(s.drop_last());
        let lk = s.last().0@;
        let lv = s.last().1@;
        assert(s2.last() == s.last());
        assert(lk != k);
        assert(m.remove(k).insert(lk, lv) =~= m.insert(lk, lv).remove(k));
    }
}

/// Entry sequences with pairwise equal views hold equal maps.
pub proof fn lemma_assoc_view_congruence(a: Seq<(Vec<u8>, Record)>, b: Seq<(Vec<u8>, Record)>)
    requires
        a.len() == b.len(),
        forall|i: int| 0 <= i < a.len() ==> a[i].0@ == b[i].0@ && a[i].1@ == b[i].1@,
    ensures
        assoc_view(a) == assoc_view(b),
        keys_of(a) == keys_of(b),
    decreases a.len(),
{
    assert(keys_of(a) =~= keys_of(b));
    if a.len() > 0 {
        assert forall|i: int| 0 <= i < a.drop_last().len() implies a.drop_last()[i].0@
            == b.drop_last()[i].0@ && a.drop_last()[i].1@ == b.drop_last()[i].1@ by {
            assert(a.drop_last()[i] == a[i]);
            assert(b.drop_last()[i] == b[i]);
        }
        lemma_assoc_view_congruence(a.drop_last(), b.drop_last());
        assert(a.last().0@ == b.last().0@ && a.last().1@ == b.last().1@);
    }
}

/// One key space of the store: records keyed by byte strings, keys unique,
/// insertion order preserved.
pub struct KvMap {
    pub entries: Vec<(Vec<u8>, Record)>,
}

impl View for KvMap {
    type V = Map<Seq<u8>, RecordView>;

    open spec fn view(&self) -> Map<Seq<u8>, RecordView> {
        assoc_view(self.entries@)
    }
}

impl KvMap {
    /// Keys in stored order.
    pub open spec fn keys(self) -> Seq<Seq<u8>> {
        keys_of(self.entries@)
    }

    /// Well-formed: no key stored twice.
    pub open spec fn wf(self) -> bool {
        unique_keys(self.entries@)
    }

    /// An empty key space.
    pub fn new() -> (r: KvMap)
        ensures
            r.wf(),
            r@ == Map::<Seq<u8>, RecordView>::empty(),
            r.keys() == Seq::<Seq<u8>>::empty(),
    {
        let r = KvMap { entries: Vec::new() };
        proof {
            assert(r.keys() =~= Seq::<Seq<u8>>::empty());
        }
        r
    }

    /// Number of stored records.
    pub fn len(&self) -> (n: usize)
        ensures
            n == self.keys().len(),
    {
        self.entries.len()
    }

    /// Index of the entry holding `k`, if any.
    fn find(&self, k: &[u8]) -> (r: Option<usize>)
        ensures
            match r {
                Some(i) => i < self.entries@.len() && self.entries@[i as int].0@ == k@,
                None => forall|i: int| 0 <= i < self.entries@.len() ==> self.entries@[i].0@ != k@,
            },
    {
        let mut i: usize = 0;
        while i < self.entries.len()
            invariant
                0 <= i <= self.entries@.len(),
                forall|j: int| 0 <= j < i ==> self.entries@[j].0@ != k@,
            decreases self.entries@.len() - i,
        {
            if bytes_eq(self.entries[i].0.as_slice(), k) {
                return Some(i);
            }
            i = i + 1;
        }
        None
    }

    /// The record stored under `k`, if any.
    pub fn get(&self, k: &[u8]) -> (r: Option<&Record>)
        requires
            self.wf(),
        ensures
            match r {
                Some(rec) => self@.contains_key(k@) && rec@ == self@[k@],
                None => !self@.contains_key(k@),
            },
    {
        proof {
            lemma_assoc_view_contains(self.entries@, k@);
        }
        match self.find(k) {
            Some(i) => {
                proof {
                    lemma_assoc_view_get(self.entries@, i as int);
                }
                Some(&self.entries[i].1)
            },
            None => None,
        }
    }

    /// Upsert: stores `rec` under `k`, overwriting any previous record, and
    /// reports whether one was there.
    pub fn put(&mut self, k: Vec<u8>, rec: Record) -> (existed: bool)
        requires
            old(self).wf(),
        ensures
            final(self).wf(),
            final(self)@ == old(self)@.insert(k@, rec@),
            existed == old(self)@.contains_key(k@),
            existed ==> final(self).keys() == old(self).keys(),
            !existed ==> final(self).keys() == old(self).keys().push(k@),
    {
        proof {
            lemma_assoc_view_contains(self.entries@, k@);
        }
        match self.find(k.as_slice()) {
            Some(i) => {
                proof {
                    lemma_assoc_view_update(self.entries@, i as int, (k, rec));
                }
                self.entries.set(i, (k, rec));
                true
            },
            None => {
                proof {
                    lemma_assoc_view_push(self.entries@, (k, rec));
                }
                self.entries.push((k, rec));
                false
            },
        }
    }

    /// Removes the record stored under `k`, and reports whether one was
    /// there.
    pub fn delete(&mut self, k: &[u8]) -> (existed: bool)
        requires
            old(self).wf(),
        ensures
            final(self).wf(),
            final(self)@ == old(self)@.remove(k@),
            existed == old(self)@.contains_key(k@),
            !existed ==> *final(self) == *old(self),
            existed ==> exists|i: int|
                0 <= i < old(self).keys().len() && old(self).keys()[i] == k@ && final(self).keys()
                    == old(self).keys().remove(i),
    {
        proof {
            lemma_assoc_view_contains(self.entries@, k@);
        }
        match self.find(k) {
            Some(i) => {
                proof {
                    lemma_assoc_view_remove(self.entries@, i as int);
                }
                self.entries.remove(i);
                proof {
                    assert(old(self).keys()[i as int] == k@);
                    assert(self.keys() == old(self).keys().remove(i as int));
                }
                true
            },
            None => {
                proof {
                    assert(old(self)@.remove(k@) =~= old(self)@);
                }
                false
            },
        }
    }

    /// All keys, in stored order, as fresh vectors.
    pub fn keys_vec(&self) -> (r: Vec<Vec<u8>>)
        ensures
            seq_views(r@) == self.keys(),
    {
        let mut r: Vec<Vec<u8>> = Vec::new();
        let mut i: usize = 0;
        while i < self.entries.len()
            invariant
                0 <= i <= self.entries@.len(),
                r@.len() == i,
                forall|j: int| 0 <= j < i ==> r@[j]@ == self.entries@[j].0@,
            decreases self.entries@.len() - i,
        {
            r.push(clone_bytes(self.entries[i].0.as_slice()));
            i = i + 1;
        }
        proof {
            assert(seq_views(r@) =~= self.keys());
        }
        r
    }

    /// A fresh key space with the same contents.
    pub fn clone_map(&self) -> (r: KvMap)
        ensures
            r@ == self@,
            r.keys() == self.keys(),
            r.wf() == self.wf(),
    {
        let mut entries: Vec<(Vec<u8>, Record)> = Vec::new();
        let mut i: usize = 0;
        while i < self.entries.len()
            invariant
                0 <= i <= self.entries@.len(),
                entries@.len() == i,
                forall|j: int| 0 <= j < i ==> entries@[j].0@ == self.entries@[j].0@
                    && entries@[j].1@ == self.entries@[j].1@,
            decreases self.entries@.len() - i,
        {
            let key = clone_bytes(self.entries[i].0.as_slice());
            let rec = clone_record(&self.entries[i].1);
            entries.push((key, rec));
            i = i + 1;
        }
        let r = KvMap { entries };
        proof {
            lemma_assoc_view_congruence(r.entries@, self.entries@);
            assert(unique_keys(r.entries@) == unique_keys(self.entries@)) by {
                assert(keys_of(r.entries@) == keys_of(self.entries@));
                assert forall|a: int, b: int|
                    0 <= a < b < r.entries@.len() implies (r.entries@[a].0@ != r.entries@[b].0@)
                    == (self.entries@[a].0@ != self.entries@[b].0@) by {
                    assert(r.entries@[a].0@ == self.entries@[a].0@);
                    assert(r.entries@[b].0@ == self.entries@[b].0@);
                }
            }
        }
        r
    }
}

} // verus!
