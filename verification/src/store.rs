//! The node/relation store: two independent key spaces over the in-memory
//! engine, one for nodes keyed by id, one for relations keyed by the codec's
//! composite key. Every mutating call touches exactly one key; reads can be
//! taken from a snapshot that later writes never affect.
use vstd::prelude::*;

use crate::bytestr::{clone_bytes, seq_views};
use crate::codec::{decode, encode, is_decoding, spec_encode, valid_component};
use crate::kv::{KvMap, Record, RecordView};
use crate::RhyzomeError;

verus! {

/// A node: an entity record identified by a unique byte-string id, with an
/// opaque payload and a timestamp.
#[derive(Debug, PartialEq, Eq)]
pub struct Node {
    pub id: Vec<u8>,
    pub payload: Vec<u8>,
    pub timestamp: i64,
}

/// A relation: a named, directed edge between two node ids, identified by the
/// triple `(name, from, to)`, with an opaque payload and a timestamp.
#[derive(Debug, PartialEq, Eq)]
pub struct Relation {
    pub name: Vec<u8>,
    pub from: Vec<u8>,
    pub to: Vec<u8>,
    pub payload: Vec<u8>,
    pub timestamp: i64,
}

/// The mathematical state of a store: the two key spaces as finite maps.
pub struct RhyzomeView {
    pub nodes: Map<Seq<u8>, RecordView>,
    pub relations: Map<Seq<u8>, RecordView>,
}

/// The record under `k`, if any.
pub open spec fn spec_lookup(m: Map<Seq<u8>, RecordView>, k: Seq<u8>) -> Option<RecordView> {
    if m.contains_key(k) {
        Some(m[k])
    } else {
        None
    }
}

/// The state after a node put: an upsert of `id` alone.
pub open spec fn spec_put_node(s: RhyzomeView, id: Seq<u8>, r: RecordView) -> RhyzomeView {
    RhyzomeView { nodes: s.nodes.insert(id, r), relations: s.relations }
}

/// The state after a node delete: `id` removed, relations untouched.
pub open spec fn spec_delete_node(s: RhyzomeView, id: Seq<u8>) -> RhyzomeView {
    RhyzomeView { nodes: s.nodes.remove(id), relations: s.relations }
}

/// What a node get returns.
pub open spec fn spec_get_node(s: RhyzomeView, id: Seq<u8>) -> Option<RecordView> {
    spec_lookup(s.nodes, id)
}

/// The state after a relation put: an upsert of the one composite key.
pub open spec fn spec_put_relation(
    s: RhyzomeView,
    name: Seq<u8>,
    from: Seq<u8>,
    to: Seq<u8>,
    r: RecordView,
) -> RhyzomeView {
    RhyzomeView { nodes: s.nodes, relations: s.relations.insert(spec_encode(name, from, to), r) }
}

/// The state after a relation delete.
pub open spec fn spec_delete_relation(
    s: RhyzomeView,
    name: Seq<u8>,
    from: Seq<u8>,
    to: Seq<u8>,
) -> RhyzomeView {
    RhyzomeView { nodes: s.nodes, relations: s.relations.remove(spec_encode(name, from, to)) }
}

/// What a relation get returns.
pub open spec fn spec_get_relation(
    s: RhyzomeView,
    name: Seq<u8>,
    from: Seq<u8>,
    to: Seq<u8>,
) -> Option<RecordView> {
    spec_lookup(s.relations, spec_encode(name, from, to))
}

/// Some listed triple is a decoding of `k`.
pub open spec fn triple_listed(r: Seq<(Vec<u8>, Vec<u8>, Vec<u8>)>, k: Seq<u8>) -> bool {
    exists|j: int| 0 <= j < r.len() && is_decoding(k, #[trigger] r[j].0@, r[j].1@, r[j].2@)
}

/// The triple `e` is a decoding of some stored key.
pub open spec fn decodes_stored_key(keys: Seq<Seq<u8>>, e: (Vec<u8>, Vec<u8>, Vec<u8>)) -> bool {
    exists|i: int| 0 <= i < keys.len() && is_decoding(#[trigger] keys[i], e.0@, e.1@, e.2@)
}

/// The filter turned down some decoding of `k`.
pub open spec fn filter_rejects<F: Fn(&Vec<u8>, &Vec<u8>, &Vec<u8>) -> bool>(
    filter: F,
    k: Seq<u8>,
) -> bool {
    exists|n: Vec<u8>, f: Vec<u8>, t: Vec<u8>|
        is_decoding(k, n@, f@, t@) && filter.ensures((&n, &f, &t), false)
}

/// A listed decoding stays listed when another triple is appended.
pub proof fn lemma_triple_listed_push(
    r: Seq<(Vec<u8>, Vec<u8>, Vec<u8>)>,
    e: (Vec<u8>, Vec<u8>, Vec<u8>),
    k: Seq<u8>,
)
    requires
        triple_listed(r, k),
    ensures
        triple_listed(r.push(e), k),
{
    let j = choose|j: int| 0 <= j < r.len() && is_decoding(k, #[trigger] r[j].0@, r[j].1@, r[j].2@);
    assert(r.push(e)[j] == r[j]);
    assert(is_decoding(k, r.push(e)[j].0@, r.push(e)[j].1@, r.push(e)[j].2@));
}

/// The store: a node key space and a relation key space.
pub struct Rhyzome {
    pub nodes: KvMap,
    pub relations: KvMap,
}

impl View for Rhyzome {
    type V = RhyzomeView;

    open spec fn view(&self) -> RhyzomeView {
        RhyzomeView { nodes: self.nodes@, relations: self.relations@ }
    }
}

impl Rhyzome {
    /// Node ids in stored order.
    pub open spec fn node_keys(self) -> Seq<Seq<u8>> {
        self.nodes.keys()
    }

    /// Composite relation keys in stored order.
    pub open spec fn rel_keys(self) -> Seq<Seq<u8>> {
        self.relations.keys()
    }

    /// Every stored relation key decodes to a triple of valid components.
    pub open spec fn rel_keys_decodable(self) -> bool {
        forall|i: int|
            0 <= i < self.rel_keys().len() ==> crate::codec::decodable(#[trigger] self.rel_keys()[i])
    }

    /// Well-formed: unique keys in both spaces, and only decodable relation
    /// keys (encode-side validation guarantees this).
    pub open spec fn wf(self) -> bool {
        self.nodes.wf() && self.relations.wf() && self.rel_keys_decodable()
    }

    /// An empty store.
    pub fn new() -> (r: Rhyzome)
        ensures
            r.wf(),
            r@.nodes == Map::<Seq<u8>, RecordView>::empty(),
            r@.relations == Map::<Seq<u8>, RecordView>::empty(),
            r.node_keys() == Seq::<Seq<u8>>::empty(),
            r.rel_keys() == Seq::<Seq<u8>>::empty(),
    {
        Rhyzome { nodes: KvMap::new(), relations: KvMap::new() }
    }

    /// Upsert of a node record under its id; one write to the node key
    /// space, relations untouched. Reports whether a record was overwritten.
    pub fn add_node(&mut self, node: Node) -> (existed: bool)
        requires
            old(self).wf(),
        ensures
            final(self).wf(),
            final(self)@ == spec_put_node(
                old(self)@,
                node.id@,
                RecordView { payload: node.payload@, timestamp: node.timestamp as int },
            ),
            existed == old(self)@.nodes.contains_key(node.id@),
            final(self).rel_keys() == old(self).rel_keys(),
            existed ==> final(self).node_keys() == old(self).node_keys(),
            !existed ==> final(self).node_keys() == old(self).node_keys().push(node.id@),
    {
        let Node { id, payload, timestamp } = node;
        let existed = self.nodes.put(id, Record { payload, timestamp });
        proof {
            assert(self.rel_keys() == old(self).rel_keys());
        }
        existed
    }

    /// Same upsert as [`Self::add_node`]: a put with an existing id replaces
    /// the payload wholesale.
    pub fn update_node(&mut self, node: Node) -> (existed: bool)
        requires
            old(self).wf(),
        ensures
            final(self).wf(),
            final(self)@ == spec_put_node(
                old(self)@,
                node.id@,
                RecordView { payload: node.payload@, timestamp: node.timestamp as int },
            ),
            existed == old(self)@.nodes.contains_key(node.id@),
            final(self).rel_keys() == old(self).rel_keys(),
    {
        self.add_node(node)
    }

    /// The node stored under `id`, if any; absence is not an error.
    pub fn get_node(&self, id: &[u8]) -> (r: Option<Node>)
        requires
            self.wf(),
        ensures
            match r {
                Some(node) => {
                    &&& node.id@ == id@
                    &&& spec_get_node(self@, id@) == Some(
                        RecordView { payload: node.payload@, timestamp: node.timestamp as int },
                    )
                },
                None => spec_get_node(self@, id@) is None,
            },
    {
        match self.nodes.get(id) {
            Some(rec) => Some(
                Node {
                    id: clone_bytes(id),
                    payload: clone_bytes(rec.payload.as_slice()),
                    timestamp: rec.timestamp,
                },
            ),
            None => None,
        }
    }

    /// Removes the node stored under `id`; reports whether one existed.
    /// Relations are left untouched: there is no cascade.
    pub fn delete_node(&mut self, id: &[u8]) -> (existed: bool)
        requires
            old(self).wf(),
        ensures
            final(self).wf(),
            final(self)@ == spec_delete_node(old(self)@, id@),
            existed == old(self)@.nodes.contains_key(id@),
            final(self).rel_keys() == old(self).rel_keys(),
    {
        let existed = self.nodes.delete(id);
        proof {
            assert(self.rel_keys() == old(self).rel_keys());
        }
        existed
    }

    /// All node ids, in stored order: a full forward scan of the node key
    /// space.
    pub fn iter_nodes(&self) -> (r: Vec<Vec<u8>>)
        ensures
            seq_views(r@) == self.node_keys(),
    {
        self.nodes.keys_vec()
    }

    /// Full scan of the node key space, keeping the ids of the records whose
    /// payload the filter accepts. Linear in the node count: there is no
    /// secondary index, by design.
    pub fn query_nodes<F: Fn(&Vec<u8>) -> bool>(&self, filter: F) -> (r: Vec<Vec<u8>>)
        requires
            self.wf(),
            forall|p: &Vec<u8>| #[trigger] filter.requires((p,)),
        ensures
            forall|j: int|
                #![trigger r@[j]]
                0 <= j < r@.len() ==> self@.nodes.contains_key(r@[j]@),
            seq_views(r@).no_duplicates(),
            forall|j1: int, j2: int|
                #![trigger r@[j1], r@[j2]]
                0 <= j1 < j2 < r@.len() ==> crate::kv::key_pos(self.node_keys(), r@[j1]@)
                    < crate::kv::key_pos(self.node_keys(), r@[j2]@),
            forall|i: int|
                0 <= i < self.nodes.entries@.len() && crate::bytestr::contains_view(
                    r@,
                    #[trigger] self.nodes.entries@[i].0@,
                ) ==> filter.ensures((&self.nodes.entries@[i].1.payload,), true),
            forall|i: int|
                0 <= i < self.nodes.entries@.len() && !crate::bytestr::contains_view(
                    r@,
                    #[trigger] self.nodes.entries@[i].0@,
                ) ==> filter.ensures((&self.nodes.entries@[i].1.payload,), false),
    {
        let mut r: Vec<Vec<u8>> = Vec::new();
        let mut i: usize = 0;
        while i < self.nodes.entries.len()
            invariant
                self.wf(),
                0 <= i <= self.nodes.entries@.len(),
                forall|p: &Vec<u8>| #[trigger] filter.requires((p,)),
                forall|j: int|
                    #![trigger r@[j]]
                    0 <= j < r@.len() ==> self@.nodes.contains_key(r@[j]@),
                forall|j: int|
                    #![trigger r@[j]]
                    0 <= j < r@.len() ==> 0 <= crate::kv::key_pos(self.node_keys(), r@[j]@) < i
                        && self.node_keys()[crate::kv::key_pos(self.node_keys(), r@[j]@)] == r@[j]@,
                forall|j1: int, j2: int|
                    #![trigger r@[j1], r@[j2]]
                    0 <= j1 < j2 < r@.len() ==> crate::kv::key_pos(self.node_keys(), r@[j1]@)
                        < crate::kv::key_pos(self.node_keys(), r@[j2]@),
                forall|ii: int|
                    0 <= ii < i && crate::bytestr::contains_view(
                        r@,
                        #[trigger] self.nodes.entries@[ii].0@,
                    ) ==> filter.ensures((&self.nodes.entries@[ii].1.payload,), true),
                forall|ii: int|
                    0 <= ii < i && !crate::bytestr::contains_view(
                        r@,
                        #[trigger] self.nodes.entries@[ii].0@,
                    ) ==> filter.ensures((&self.nodes.entries@[ii].1.payload,), false),
                forall|ii: int|
                    i <= ii < self.nodes.entries@.len() ==> !crate::bytestr::contains_view(
                        r@,
                        #[trigger] self.nodes.entries@[ii].0@,
                    ),
            decreases self.nodes.entries@.len() - i,
        {
            let ghost r_before = r@;
            let keep = filter(&self.nodes.entries[i].1.payload);
            proof {
                assert(filter.ensures((&self.nodes.entries@[i as int].1.payload,), keep));
                crate::kv::lemma_assoc_view_get(self.nodes.entries@, i as int);
            }
            if keep {
                r.push(clone_bytes(self.nodes.entries[i].0.as_slice()));
                proof {
                    assert(r@.drop_last() =~= r_before);
                    assert(r@[r@.len() - 1]@ == self.nodes.entries@[i as int].0@);
                    crate::kv::lemma_key_pos(self.nodes.entries@, i as int);
                    assert(crate::kv::key_pos(self.node_keys(), r@[r@.len() - 1]@) == i);
                    assert forall|j: int|
                        #![trigger r@[j]]
                        0 <= j < r@.len() implies 0 <= crate::kv::key_pos(
                        self.node_keys(),
                        r@[j]@,
                    ) < i + 1 && self.node_keys()[crate::kv::key_pos(self.node_keys(), r@[j]@)]
                        == r@[j]@ by {
                        if j < r@.len() - 1 {
                            assert(r@[j] == r_before[j]);
                        }
                    }
                    assert forall|j1: int, j2: int|
                        #![trigger r@[j1], r@[j2]]
                        0 <= j1 < j2 < r@.len() implies crate::kv::key_pos(
                        self.node_keys(),
                        r@[j1]@,
                    ) < crate::kv::key_pos(self.node_keys(), r@[j2]@) by {
                        if j2 < r@.len() - 1 {
                            assert(r@[j1] == r_before[j1]);
                            assert(r@[j2] == r_before[j2]);
                        } else {
                            assert(r@[j1] == r_before[j1]);
                        }
                    }
                    assert forall|x: Seq<u8>| crate::bytestr::contains_view(r@, x) implies (
                        crate::bytestr::contains_view(r_before, x) || x == self.nodes.entries@[
                            i as int
                        ].0@) by {
                        crate::bytestr::lemma_contains_view_drop_last(r@, x);
                    }
                    assert forall|x: Seq<u8>| crate::bytestr::contains_view(r_before, x) || x
                        == self.nodes.entries@[i as int].0@ implies crate::bytestr::contains_view(
                        r@,
                        x,
                    ) by {
                        crate::bytestr::lemma_contains_view_drop_last(r@, x);
                    }
                    assert forall|ii: int|
                        0 <= ii < self.nodes.entries@.len() && ii != i implies self.nodes.entries@[
                        ii
                    ].0@ != self.nodes.entries@[i as int].0@ by {
                        assert(crate::kv::unique_keys(self.nodes.entries@));
                    }
                }
            }
            i = i + 1;
        }
        proof {
            assert forall|a: int, b: int|
                0 <= a < b < seq_views(r@).len() implies seq_views(r@)[a] != seq_views(
                r@,
            )[b] by {
                assert(crate::kv::key_pos(self.node_keys(), r@[a]@) < crate::kv::key_pos(
                    self.node_keys(),
                    r@[b]@,
                ));
            }
        }
        r
    }

    /// Upsert of a relation record under the composite key of
    /// `(name, from, to)`; rejects components that are empty or contain the
    /// delimiter. One write to the relation key space, nodes untouched.
    pub fn add_relation(
        &mut self,
        name: &[u8],
        from: &[u8],
        to: &[u8],
        payload: Vec<u8>,
        timestamp: i64,
    ) -> (r: Result<bool, RhyzomeError>)
        requires
            old(self).wf(),
        ensures
            final(self).wf(),
            match r {
                Ok(existed) => {
                    &&& valid_component(name@) && valid_component(from@) && valid_component(to@)
                    &&& final(self)@ == spec_put_relation(
                        old(self)@,
                        name@,
                        from@,
                        to@,
                        RecordView { payload: payload@, timestamp: timestamp as int },
                    )
                    &&& existed == old(self)@.relations.contains_key(spec_encode(name@, from@, to@))
                    &&& final(self).node_keys() == old(self).node_keys()
                    &&& (existed ==> final(self).rel_keys() == old(self).rel_keys())
                    &&& (!existed ==> final(self).rel_keys() == old(self).rel_keys().push(
                        spec_encode(name@, from@, to@),
                    ))
                },
                Err(e) => {
                    &&& e == RhyzomeError::KeyEncodingError
                    &&& !(valid_component(name@) && valid_component(from@) && valid_component(to@))
                    &&& *final(self) == *old(self)
                },
            },
    {
        let key = match encode(name, from, to) {
            Ok(k) => k,
            Err(e) => {
                return Err(e);
            },
        };
        let ghost k = key@;
        let existed = self.relations.put(key, Record { payload, timestamp });
        proof {
            if !existed {
                assert forall|i: int| 0 <= i < self.rel_keys().len() implies crate::codec::decodable(
                    #[trigger] self.rel_keys()[i],
                ) by {
                    if i < old(self).rel_keys().len() {
                        assert(self.rel_keys()[i] == old(self).rel_keys()[i]);
                    } else {
                        assert(self.rel_keys()[i] == k);
                    }
                }
            }
        }
        Ok(existed)
    }

    /// Same upsert as [`Self::add_relation`]: a second put to the same triple
    /// overwrites the stored record, it never accumulates.
    pub fn update_relation(
        &mut self,
        name: &[u8],
        from: &[u8],
        to: &[u8],
        payload: Vec<u8>,
        timestamp: i64,
    ) -> (r: Result<bool, RhyzomeError>)
        requires
            old(self).wf(),
        ensures
            final(self).wf(),
            match r {
                Ok(existed) => {
                    &&& valid_component(name@) && valid_component(from@) && valid_component(to@)
                    &&& final(self)@ == spec_put_relation(
                        old(self)@,
                        name@,
                        from@,
                        to@,
                        RecordView { payload: payload@, timestamp: timestamp as int },
                    )
                    &&& existed == old(self)@.relations.contains_key(spec_encode(name@, from@, to@))
                },
                Err(e) => {
                    &&& e == RhyzomeError::KeyEncodingError
                    &&& !(valid_component(name@) && valid_component(from@) && valid_component(to@))
                    &&& *final(self) == *old(self)
                },
            },
    {
        self.add_relation(name, from, to, payload, timestamp)
    }

    /// The relation stored under `(name, from, to)`, if any.
    pub fn get_relation(&self, name: &[u8], from: &[u8], to: &[u8]) -> (r: Result<
        Option<Relation>,
        RhyzomeError,
    >)
        requires
            self.wf(),
        ensures
            match r {
                Ok(found) => {
                    &&& valid_component(name@) && valid_component(from@) && valid_component(to@)
                    &&& match found {
                        Some(rel) => {
                            &&& rel.name@ == name@ && rel.from@ == from@ && rel.to@ == to@
                            &&& spec_get_relation(self@, name@, from@, to@) == Some(
                                RecordView {
                                    payload: rel.payload@,
                                    timestamp: rel.timestamp as int,
                                },
                            )
                        },
                        None => spec_get_relation(self@, name@, from@, to@) is None,
                    }
                },
                Err(e) => {
                    &&& e == RhyzomeError::KeyEncodingError
                    &&& !(valid_component(name@) && valid_component(from@) && valid_component(to@))
                },
            },
    {
        let key = match encode(name, from, to) {
            Ok(k) => k,
            Err(e) => {
                return Err(e);
            },
        };
        match self.relations.get(key.as_slice()) {
            Some(rec) => Ok(
                Some(
                    Relation {
                        name: clone_bytes(name),
                        from: clone_bytes(from),
                        to: clone_bytes(to),
                        payload: clone_bytes(rec.payload.as_slice()),
                        timestamp: rec.timestamp,
                    },
                ),
            ),
            None => Ok(None),
        }
    }

    /// Removes the relation stored under `(name, from, to)`; reports whether
    /// one existed.
    pub fn delete_relation(&mut self, name: &[u8], from: &[u8], to: &[u8]) -> (r: Result<
        bool,
        RhyzomeError,
    >)
        requires
            old(self).wf(),
        ensures
            final(self).wf(),
            match r {
                Ok(existed) => {
                    &&& valid_component(name@) && valid_component(from@) && valid_component(to@)
                    &&& final(self)@ == spec_delete_relation(old(self)@, name@, from@, to@)
                    &&& existed == old(self)@.relations.contains_key(spec_encode(name@, from@, to@))
                    &&& final(self).node_keys() == old(self).node_keys()
                },
                Err(e) => {
                    &&& e == RhyzomeError::KeyEncodingError
                    &&& !(valid_component(name@) && valid_component(from@) && valid_component(to@))
                    &&& *final(self) == *old(self)
                },
            },
    {
        let key = match encode(name, from, to) {
            Ok(k) => k,
            Err(e) => {
                return Err(e);
            },
        };
        let existed = self.relations.delete(key.as_slice());
        proof {
            if existed {
                let i = choose|i: int|
                    0 <= i < old(self).rel_keys().len() && old(self).rel_keys()[i] == key@ && self
                        .rel_keys() == old(self).rel_keys().remove(i);
                assert forall|j: int| 0 <= j < self.rel_keys().len() implies crate::codec::decodable(
                    #[trigger] self.rel_keys()[j],
                ) by {
                    if j < i {
                        assert(self.rel_keys()[j] == old(self).rel_keys()[j]);
                    } else {
                        assert(self.rel_keys()[j] == old(self).rel_keys()[j + 1]);
                    }
                }
            }
        }
        Ok(existed)
    }

    /// All composite relation keys, in stored order: a full forward scan of
    /// the relation key space.
    pub fn iter_relations(&self) -> (r: Vec<Vec<u8>>)
        ensures
            seq_views(r@) == self.rel_keys(),
    {
        self.relations.keys_vec()
    }

    /// All stored relation identities, decoded, in stored order.
    pub fn list_relations(&self) -> (r: Vec<(Vec<u8>, Vec<u8>, Vec<u8>)>)
        requires
            self.wf(),
        ensures
            r@.len() == self.rel_keys().len(),
            forall|i: int|
                0 <= i < r@.len() ==> is_decoding(
                    self.rel_keys()[i],
                    #[trigger] r@[i].0@,
                    r@[i].1@,
                    r@[i].2@,
                ),
    {
        let mut r: Vec<(Vec<u8>, Vec<u8>, Vec<u8>)> = Vec::new();
        let mut i: usize = 0;
        while i < self.relations.entries.len()
            invariant
                self.wf(),
                0 <= i <= self.relations.entries@.len(),
                self.rel_keys().len() == self.relations.entries@.len(),
                r@.len() == i,
                forall|j: int|
                    0 <= j < i ==> is_decoding(
                        self.rel_keys()[j],
                        #[trigger] r@[j].0@,
                        r@[j].1@,
                        r@[j].2@,
                    ),
            decreases self.relations.entries@.len() - i,
        {
            proof {
                assert(self.rel_keys()[i as int] == self.relations.entries@[i as int].0@);
                assert(crate::codec::decodable(self.rel_keys()[i as int]));
            }
            let ghost r_before = r@;
            match decode(self.relations.entries[i].0.as_slice()) {
                Ok(triple) => {
                    r.push(triple);
                    proof {
                        assert(is_decoding(
                            self.rel_keys()[i as int],
                            r@[i as int].0@,
                            r@[i as int].1@,
                            r@[i as int].2@,
                        ));
                        assert forall|j: int| 0 <= j < i implies is_decoding(
                            self.rel_keys()[j],
                            #[trigger] r@[j].0@,
                            r@[j].1@,
                            r@[j].2@,
                        ) by {
                            assert(r@[j] == r_before[j]);
                        }
                    }
                },
                Err(_) => {
                    proof {
                        assert(false);
                    }
                },
            }
            i = i + 1;
        }
        r
    }

    /// Full scan of the relation key space, decoding every stored key and
    /// keeping the triples the filter accepts. Linear in the relation count:
    /// there is no adjacency index, by design.
    pub fn query_relations<F: Fn(&Vec<u8>, &Vec<u8>, &Vec<u8>) -> bool>(&self, filter: F) -> (r:
        Vec<(Vec<u8>, Vec<u8>, Vec<u8>)>)
        requires
            self.wf(),
            forall|n: &Vec<u8>, f: &Vec<u8>, t: &Vec<u8>| #[trigger] filter.requires((n, f, t)),
        ensures
            forall|j: int|
                #![trigger r@[j]]
                0 <= j < r@.len() ==> decodes_stored_key(self.rel_keys(), r@[j]),
            forall|j1: int, j2: int|
                #![trigger r@[j1], r@[j2]]
                0 <= j1 < j2 < r@.len() ==> crate::kv::key_pos(
                    self.rel_keys(),
                    spec_encode(r@[j1].0@, r@[j1].1@, r@[j1].2@),
                ) < crate::kv::key_pos(
                    self.rel_keys(),
                    spec_encode(r@[j2].0@, r@[j2].1@, r@[j2].2@),
                ),
            forall|j: int|
                #![trigger r@[j]]
                0 <= j < r@.len() ==> filter.ensures((&r@[j].0, &r@[j].1, &r@[j].2), true),
            forall|i: int|
                0 <= i < self.rel_keys().len() ==> triple_listed(r@, #[trigger] self.rel_keys()[i])
                    || filter_rejects(filter, self.rel_keys()[i]),
    {
        let mut r: Vec<(Vec<u8>, Vec<u8>, Vec<u8>)> = Vec::new();
        let mut i: usize = 0;
        while i < self.relations.entries.len()
            invariant
                self.wf(),
                0 <= i <= self.relations.entries@.len(),
                self.rel_keys().len() == self.relations.entries@.len(),
                forall|n: &Vec<u8>, f: &Vec<u8>, t: &Vec<u8>| #[trigger] filter.requires(
                    (n, f, t),
                ),
                forall|j: int|
                    #![trigger r@[j]]
                    0 <= j < r@.len() ==> decodes_stored_key(self.rel_keys(), r@[j]),
                forall|j: int|
                    #![trigger r@[j]]
                    0 <= j < r@.len() ==> 0 <= crate::kv::key_pos(
                        self.rel_keys(),
                        spec_encode(r@[j].0@, r@[j].1@, r@[j].2@),
                    ) < i,
                forall|j1: int, j2: int|
                    #![trigger r@[j1], r@[j2]]
                    0 <= j1 < j2 < r@.len() ==> crate::kv::key_pos(
                        self.rel_keys(),
                        spec_encode(r@[j1].0@, r@[j1].1@, r@[j1].2@),
                    ) < crate::kv::key_pos(
                        self.rel_keys(),
                        spec_encode(r@[j2].0@, r@[j2].1@, r@[j2].2@),
                    ),
                forall|j: int|
                    #![trigger r@[j]]
                    0 <= j < r@.len() ==> filter.ensures((&r@[j].0, &r@[j].1, &r@[j].2), true),
                forall|ii: int|
                    0 <= ii < i ==> triple_listed(r@, #[trigger] self.rel_keys()[ii])
                        || filter_rejects(filter, self.rel_keys()[ii]),
            decreases self.relations.entries@.len() - i,
        {
            let ghost k = self.rel_keys()[i as int];
            proof {
                assert(k == self.relations.entries@[i as int].0@);
                assert(crate::codec::decodable(k));
            }
            let ghost r_before = r@;
            match decode(self.relations.entries[i].0.as_slice()) {
                Ok((tn, tf, tt)) => {
                    let keep = filter(&tn, &tf, &tt);
                    proof {
                        assert(is_decoding(k, tn@, tf@, tt@));
                        assert(filter.ensures((&tn, &tf, &tt), keep));
                    }
                    if keep {
                        r.push((tn, tf, tt));
                        proof {
                            assert(r@.drop_last() =~= r_before);
                            assert(decodes_stored_key(self.rel_keys(), r@[r@.len() - 1]));
                            crate::kv::lemma_key_pos(self.relations.entries@, i as int);
                            assert(spec_encode(
                                r@[r@.len() - 1].0@,
                                r@[r@.len() - 1].1@,
                                r@[r@.len() - 1].2@,
                            ) == k);
                            assert(crate::kv::key_pos(
                                self.rel_keys(),
                                spec_encode(
                                    r@[r@.len() - 1].0@,
                                    r@[r@.len() - 1].1@,
                                    r@[r@.len() - 1].2@,
                                ),
                            ) == i);
                            assert forall|j: int|
                                #![trigger r@[j]]
                                0 <= j < r@.len() implies 0 <= crate::kv::key_pos(
                                self.rel_keys(),
                                spec_encode(r@[j].0@, r@[j].1@, r@[j].2@),
                            ) < i + 1 by {
                                if j < r@.len() - 1 {
                                    assert(r@[j] == r_before[j]);
                                }
                            }
                            assert forall|j1: int, j2: int|
                                #![trigger r@[j1], r@[j2]]
                                0 <= j1 < j2 < r@.len() implies crate::kv::key_pos(
                                self.rel_keys(),
                                spec_encode(r@[j1].0@, r@[j1].1@, r@[j1].2@),
                            ) < crate::kv::key_pos(
                                self.rel_keys(),
                                spec_encode(r@[j2].0@, r@[j2].1@, r@[j2].2@),
                            ) by {
                                assert(r@[j1] == r_before[j1]);
                                if j2 < r@.len() - 1 {
                                    assert(r@[j2] == r_before[j2]);
                                }
                            }
                            assert(triple_listed(r@, k)) by {
                                assert(is_decoding(
                                    k,
                                    r@[r@.len() - 1].0@,
                                    r@[r@.len() - 1].1@,
                                    r@[r@.len() - 1].2@,
                                ));
                            }
                            assert forall|j: int|
                                #![trigger r@[j]]
                                0 <= j < r@.len() implies decodes_stored_key(
                                self.rel_keys(),
                                r@[j],
                            ) && filter.ensures((&r@[j].0, &r@[j].1, &r@[j].2), true) by {
                                if j < r@.len() - 1 {
                                    assert(r@[j] == r_before[j]);
                                }
                            }
                            assert forall|ii: int| 0 <= ii < i implies triple_listed(
                                r@,
                                #[trigger] self.rel_keys()[ii],
                            ) || filter_rejects(filter, self.rel_keys()[ii]) by {
                                if triple_listed(r_before, self.rel_keys()[ii]) {
                                    assert(r@ =~= r_before.push(r@[r@.len() - 1]));
                                    lemma_triple_listed_push(
                                        r_before,
                                        r@[r@.len() - 1],
                                        self.rel_keys()[ii],
                                    );
                                }
                            }
                        }
                    } else {
                        proof {
                            assert(filter_rejects(filter, k)) by {
                                assert(is_decoding(k, tn@, tf@, tt@) && filter.ensures(
                                    (&tn, &tf, &tt),
                                    false,
                                ));
                            }
                        }
                    }
                },
                Err(_) => {
                    proof {
                        assert(false);
                    }
                },
            }
            i = i + 1;
        }
        r
    }

    /// A read snapshot: an independent copy of the store's state as of this
    /// call. Writes that commit to the live store afterwards never show
    /// through it.
    pub fn snapshot(&self) -> (s: Rhyzome)
        requires
            self.wf(),
        ensures
            s.wf(),
            s@ == self@,
            s.node_keys() == self.node_keys(),
            s.rel_keys() == self.rel_keys(),
    {
        let s = Rhyzome { nodes: self.nodes.clone_map(), relations: self.relations.clone_map() };
        proof {
            assert(s.rel_keys() == self.rel_keys());
            assert forall|i: int|
                0 <= i < s.rel_keys().len() implies crate::codec::decodable(
                #[trigger] s.rel_keys()[i],
            ) by {
                assert(s.rel_keys()[i] == self.rel_keys()[i]);
            }
        }
        s
    }
}

/// Round trip: a get right after a put of the same id returns exactly the
/// record that was put, for every prior state and every payload.
pub proof fn lemma_node_round_trip(s: RhyzomeView, id: Seq<u8>, r: RecordView)
    ensures
        spec_get_node(spec_put_node(s, id, r), id) == Some(r),
{
}

/// Deletion: after deleting an id its get reports not-found; deleting an id
/// that holds no record leaves the store exactly as it was.
pub proof fn lemma_node_delete(s: RhyzomeView, id: Seq<u8>, r: RecordView)
    ensures
        spec_get_node(spec_delete_node(spec_put_node(s, id, r), id), id) is None,
        spec_get_node(s, id) is None ==> spec_delete_node(s, id) == s,
{
    if spec_get_node(s, id) is None {
        assert(s.nodes.remove(id) =~= s.nodes);
    }
}

/// Relation identity: a second put to the same `(name, from, to)` triple
/// overwrites the first; the state is the same as after the second put alone,
/// and the stored payload is the second one, never an accumulation.
pub proof fn lemma_relation_overwrite(
    s: RhyzomeView,
    name: Seq<u8>,
    from: Seq<u8>,
    to: Seq<u8>,
    r1: RecordView,
    r2: RecordView,
)
    ensures
        spec_put_relation(spec_put_relation(s, name, from, to, r1), name, from, to, r2)
            == spec_put_relation(s, name, from, to, r2),
        spec_get_relation(
            spec_put_relation(spec_put_relation(s, name, from, to, r1), name, from, to, r2),
            name,
            from,
            to,
        ) == Some(r2),
{
    let k = spec_encode(name, from, to);
    assert(s.relations.insert(k, r1).insert(k, r2) =~= s.relations.insert(k, r2));
}

/// No cascade: deleting a node changes no relation lookup, so a relation
/// whose endpoint was just deleted stays retrievable (dangling by design).
pub proof fn lemma_dangling_relation(
    s: RhyzomeView,
    id: Seq<u8>,
    name: Seq<u8>,
    from: Seq<u8>,
    to: Seq<u8>,
)
    ensures
        spec_get_relation(spec_delete_node(s, id), name, from, to) == spec_get_relation(
            s,
            name,
            from,
            to,
        ),
{
}

/// Snapshot isolation: a snapshot equals the live state when taken; a write
/// that commits afterwards changes the live store at the written id alone and
/// never the snapshot, so a reader holding the snapshot sees the pre-write
/// state for as long as it reads.
pub proof fn lemma_snapshot_isolation(
    snap: RhyzomeView,
    live: RhyzomeView,
    id: Seq<u8>,
    r: RecordView,
    q: Seq<u8>,
)
    requires
        snap == live,
    ensures
        spec_get_node(spec_put_node(live, id, r), id) == Some(r),
        q != id ==> spec_get_node(spec_put_node(live, id, r), q) == spec_get_node(snap, q),
        spec_get_node(snap, q) == spec_get_node(live, q),
{
}

} // verus!
