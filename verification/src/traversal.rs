//! Graph traversal over the stored relations. The graph is the one implied
//! by the relation key space: a key naming `(name, from, to)` is a directed
//! edge `from -> to`. Edge lookup for a node is a full scan of the relation
//! key space (there is no adjacency index), so both walks cost
//! O(nodes * relations) and suit small graphs only.
use vstd::prelude::*;

use std::collections::VecDeque;

use crate::bytestr::{bytes_eq, clone_bytes, contains_bytes, contains_view, lemma_contains_view_drop_first, lemma_contains_view_drop_last, lemma_no_duplicates_push, seq_views};
use crate::codec::{decodable, decode, is_decoding, lemma_decoding_unique};
use crate::store::Rhyzome;

verus! {

/// `k` names an edge `from -> to`, under some relation name.
pub open spec fn key_edge(k: Seq<u8>, from: Seq<u8>, to: Seq<u8>) -> bool {
    exists|n: Seq<u8>| is_decoding(k, n, from, to)
}

/// The stored keys imply a directed edge `a -> b`.
pub open spec fn edge(keys: Seq<Seq<u8>>, a: Seq<u8>, b: Seq<u8>) -> bool {
    exists|i: int| 0 <= i < keys.len() && key_edge(#[trigger] keys[i], a, b)
}

/// `b` is reachable from `a` in at most `n` hops along stored edges.
pub open spec fn reach_n(keys: Seq<Seq<u8>>, a: Seq<u8>, b: Seq<u8>, n: nat) -> bool
    decreases n,
{
    a == b || (n > 0 && exists|m: Seq<u8>|
        reach_n(keys, a, m, (n - 1) as nat) && edge(keys, m, b))
}

/// `b` is reachable from `a` along stored edges; every node reaches itself.
pub open spec fn reachable(keys: Seq<Seq<u8>>, a: Seq<u8>, b: Seq<u8>) -> bool {
    exists|n: nat| reach_n(keys, a, b, n)
}

/// Reachability is reflexive.
pub proof fn lemma_reachable_refl(keys: Seq<Seq<u8>>, a: Seq<u8>)
    ensures
        reachable(keys, a, a),
{
    assert(reach_n(keys, a, a, 0));
}

/// Reachability extends along one more edge.
pub proof fn lemma_reachable_step(keys: Seq<Seq<u8>>, a: Seq<u8>, m: Seq<u8>, b: Seq<u8>)
    requires
        reachable(keys, a, m),
        edge(keys, m, b),
    ensures
        reachable(keys, a, b),
{
    let n = choose|n: nat| reach_n(keys, a, m, n);
    assert(reach_n(keys, a, b, n + 1));
}

/// A set that contains `a` and is closed under stored edges contains
/// everything reachable from `a`.
pub proof fn lemma_closed_set_covers(
    keys: Seq<Seq<u8>>,
    s: Set<Seq<u8>>,
    a: Seq<u8>,
    b: Seq<u8>,
    n: nat,
)
    requires
        s.contains(a),
        forall|x: Seq<u8>, y: Seq<u8>| s.contains(x) && #[trigger] edge(keys, x, y) ==> s.contains(
            y,
        ),
        reach_n(keys, a, b, n),
    ensures
        s.contains(b),
    decreases n,
{
    if a != b {
        let m = choose|m: Seq<u8>| reach_n(keys, a, m, (n - 1) as nat) && edge(keys, m, b);
        lemma_closed_set_covers(keys, s, a, m, (n - 1) as nat);
    }
}

/// The decoded triple of a decodable key (arbitrary for any other key).
pub open spec fn decoding_of(k: Seq<u8>) -> (Seq<u8>, Seq<u8>, Seq<u8>) {
    choose|n: Seq<u8>, f: Seq<u8>, t: Seq<u8>| is_decoding(k, n, f, t)
}

/// `decoding_of` picks the one decoding a decodable key has.
pub proof fn lemma_decoding_of(k: Seq<u8>, n: Seq<u8>, f: Seq<u8>, t: Seq<u8>)
    requires
        is_decoding(k, n, f, t),
    ensures
        decoding_of(k) == (n, f, t),
{
    let (cn, cf, ct) = choose|cn: Seq<u8>, cf: Seq<u8>, ct: Seq<u8>| is_decoding(k, cn, cf, ct);
    lemma_decoding_unique(k, cn, cf, ct, n, f, t);
    assert(decoding_of(k) == (cn, cf, ct));
}

/// The target node named by a decodable key (arbitrary for any other key).
pub open spec fn target_of(k: Seq<u8>) -> Seq<u8> {
    decoding_of(k).2
}

/// The targets of the stored edges leaving `from`, one per edge, in scan
/// order over the relation key space.
pub open spec fn spec_outgoing(keys: Seq<Seq<u8>>, from: Seq<u8>) -> Seq<Seq<u8>>
    decreases keys.len(),
{
    if keys.len() == 0 {
        Seq::empty()
    } else {
        let rest = spec_outgoing(keys.drop_last(), from);
        if decodable(keys.last()) && decoding_of(keys.last()).1 == from {
            rest.push(target_of(keys.last()))
        } else {
            rest
        }
    }
}

/// The targets of the stored edges named `name` leaving `from`, one per
/// edge, in scan order over the relation key space.
pub open spec fn spec_related(keys: Seq<Seq<u8>>, name: Seq<u8>, from: Seq<u8>) -> Seq<Seq<u8>>
    decreases keys.len(),
{
    if keys.len() == 0 {
        Seq::empty()
    } else {
        let rest = spec_related(keys.drop_last(), name, from);
        if decodable(keys.last()) && decoding_of(keys.last()).0 == name && decoding_of(
            keys.last(),
        ).1 == from {
            rest.push(target_of(keys.last()))
        } else {
            rest
        }
    }
}

/// There is at most one outgoing-edge target per stored key.
pub proof fn lemma_spec_outgoing_len(keys: Seq<Seq<u8>>, from: Seq<u8>)
    ensures
        spec_outgoing(keys, from).len() <= keys.len(),
    decreases keys.len(),
{
    if keys.len() > 0 {
        lemma_spec_outgoing_len(keys.drop_last(), from);
    }
}

/// Fuel that provably outlasts any traversal from `start`: one frontier
/// entry to begin with, at most `keys.len() + 1` visits, each putting at
/// most `keys.len()` entries on the frontier.
pub open spec fn traversal_fuel(keys: Seq<Seq<u8>>) -> nat {
    (keys.len() + 1) * (keys.len() + 1) + 1
}

/// The depth-first walk, step by step: take the frontier's top, visit it if
/// new, lay its successors (in scan order) on top. `fuel` only bounds the
/// recursion; `traversal_fuel` is enough for the walk to run dry.
pub open spec fn spec_dfs_walk(
    keys: Seq<Seq<u8>>,
    stack: Seq<Seq<u8>>,
    visited: Seq<Seq<u8>>,
    fuel: nat,
) -> Seq<Seq<u8>>
    decreases fuel,
{
    if fuel == 0 || stack.len() == 0 {
        visited
    } else {
        let node = stack.last();
        let rest = stack.drop_last();
        if visited.contains(node) {
            spec_dfs_walk(keys, rest, visited, (fuel - 1) as nat)
        } else {
            spec_dfs_walk(
                keys,
                rest + spec_outgoing(keys, node),
                visited.push(node),
                (fuel - 1) as nat,
            )
        }
    }
}

/// What a depth-first traversal returns, as a function of the stored keys
/// and the start alone.
pub open spec fn spec_dfs(keys: Seq<Seq<u8>>, start: Seq<u8>) -> Seq<Seq<u8>> {
    spec_dfs_walk(keys, seq![start], Seq::empty(), traversal_fuel(keys))
}

/// The breadth-first walk: the same step as [`spec_dfs_walk`] with the
/// frontier read from the front and extended at the back (strict FIFO).
pub open spec fn spec_bfs_walk(
    keys: Seq<Seq<u8>>,
    queue: Seq<Seq<u8>>,
    visited: Seq<Seq<u8>>,
    fuel: nat,
) -> Seq<Seq<u8>>
    decreases fuel,
{
    if fuel == 0 || queue.len() == 0 {
        visited
    } else {
        let node = queue[0];
        let rest = queue.subrange(1, queue.len() as int);
        if visited.contains(node) {
            spec_bfs_walk(keys, rest, visited, (fuel - 1) as nat)
        } else {
            spec_bfs_walk(
                keys,
                rest + spec_outgoing(keys, node),
                visited.push(node),
                (fuel - 1) as nat,
            )
        }
    }
}

/// What a breadth-first traversal returns, as a function of the stored keys
/// and the start alone.
pub open spec fn spec_bfs(keys: Seq<Seq<u8>>, start: Seq<u8>) -> Seq<Seq<u8>> {
    spec_bfs_walk(keys, seq![start], Seq::empty(), traversal_fuel(keys))
}

/// Everything a traversal from `start` can ever put on its agenda: the start
/// itself and each stored key's edge target.
pub open spec fn candidate_seq(keys: Seq<Seq<u8>>, start: Seq<u8>) -> Seq<Seq<u8>> {
    seq![start] + keys.map_values(|k: Seq<u8>| target_of(k))
}

/// The candidate nodes as a set.
pub open spec fn candidates(keys: Seq<Seq<u8>>, start: Seq<u8>) -> Set<Seq<u8>> {
    candidate_seq(keys, start).to_set()
}

/// The start node is a candidate.
pub proof fn lemma_start_is_candidate(keys: Seq<Seq<u8>>, start: Seq<u8>)
    ensures
        candidates(keys, start).contains(start),
{
    assert(candidate_seq(keys, start)[0] == start);
    assert(candidate_seq(keys, start).contains(start));
}

/// Every edge target is a candidate.
pub proof fn lemma_edge_target_is_candidate(
    keys: Seq<Seq<u8>>,
    start: Seq<u8>,
    a: Seq<u8>,
    b: Seq<u8>,
)
    requires
        edge(keys, a, b),
    ensures
        candidates(keys, start).contains(b),
{
    let i = choose|i: int| 0 <= i < keys.len() && key_edge(#[trigger] keys[i], a, b);
    let n = choose|n: Seq<u8>| is_decoding(keys[i], n, a, b);
    lemma_decoding_of(keys[i], n, a, b);
    assert(target_of(keys[i]) == b);
    assert(candidate_seq(keys, start)[i + 1] == target_of(keys[i]));
    assert(candidate_seq(keys, start).contains(b));
}

/// A duplicate-free sequence of candidate nodes has at most one entry per
/// candidate, so it is no longer than the key count plus one.
pub proof fn lemma_visited_bounded(keys: Seq<Seq<u8>>, start: Seq<u8>, vs: Seq<Vec<u8>>)
    requires
        seq_views(vs).no_duplicates(),
        forall|x: Seq<u8>| contains_view(vs, x) ==> candidates(keys, start).contains(x),
    ensures
        vs.len() <= keys.len() + 1,
{
    broadcast use vstd::seq_lib::seq_to_set_is_finite;

    let sv = seq_views(vs);
    assert forall|x: Seq<u8>| sv.contains(x) implies candidates(keys, start).contains(x) by {
        crate::bytestr::lemma_contains_view_is_seq_views_contains(vs, x);
    }
    sv.unique_seq_to_set();
    assert(sv.to_set().subset_of(candidates(keys, start)));
    vstd::set_lib::lemma_len_subset(sv.to_set(), candidates(keys, start));
    candidate_seq(keys, start).lemma_cardinality_of_set();
    assert(candidate_seq(keys, start).len() == keys.len() + 1);
}

/// After a new node is appended to the visited list, the list is still
/// duplicate-free, its members are exactly the old ones plus the node, all
/// of them reachable candidates, and it still fits the candidate bound.
proof fn lemma_visited_after_push(
    keys: Seq<Seq<u8>>,
    start: Seq<u8>,
    visited: Seq<Vec<u8>>,
    pre: Seq<Vec<u8>>,
    nodev: Seq<u8>,
)
    requires
        visited.len() == pre.len() + 1,
        visited.drop_last() == pre,
        visited.last()@ == nodev,
        seq_views(pre).no_duplicates(),
        !contains_view(pre, nodev),
        forall|x: Seq<u8>|
            contains_view(pre, x) ==> reachable(keys, start, x) && candidates(keys, start).contains(
                x,
            ),
        reachable(keys, start, nodev),
        candidates(keys, start).contains(nodev),
    ensures
        seq_views(visited).no_duplicates(),
        forall|x: Seq<u8>| contains_view(visited, x) <==> (contains_view(pre, x) || x == nodev),
        forall|x: Seq<u8>|
            contains_view(visited, x) ==> reachable(keys, start, x) && candidates(
                keys,
                start,
            ).contains(x),
        visited.len() <= keys.len() + 1,
{
    lemma_no_duplicates_push(visited);
    assert forall|x: Seq<u8>| contains_view(visited, x) implies (contains_view(pre, x) || x
        == nodev) by {
        lemma_contains_view_drop_last(visited, x);
    }
    assert forall|x: Seq<u8>| contains_view(pre, x) || x == nodev implies contains_view(
        visited,
        x,
    ) by {
        lemma_contains_view_drop_last(visited, x);
    }
    lemma_visited_bounded(keys, start, visited);
}

/// After the successors of a just-visited node are laid on the frontier,
/// every edge leaving that node is covered, and the frontier still holds
/// only reachable candidates.
proof fn lemma_frontier_after_extend(
    keys: Seq<Seq<u8>>,
    start: Seq<u8>,
    frontier: Seq<Vec<u8>>,
    frontier_mid: Seq<Vec<u8>>,
    outs: Seq<Vec<u8>>,
    nodev: Seq<u8>,
)
    requires
        forall|x: Seq<u8>| contains_view(frontier, x) ==> contains_view(frontier_mid, x)
            || contains_view(outs, x),
        forall|jj: int| 0 <= jj < outs.len() ==> contains_view(frontier, #[trigger] outs[jj]@),
        forall|t: Seq<u8>| contains_view(outs, t) <==> edge(keys, nodev, t),
        reachable(keys, start, nodev),
        forall|x: Seq<u8>|
            contains_view(frontier_mid, x) ==> reachable(keys, start, x) && candidates(
                keys,
                start,
            ).contains(x),
    ensures
        forall|y: Seq<u8>| #[trigger] edge(keys, nodev, y) ==> contains_view(frontier, y),
        forall|x: Seq<u8>|
            contains_view(frontier, x) ==> reachable(keys, start, x) && candidates(
                keys,
                start,
            ).contains(x),
{
    assert forall|y: Seq<u8>| #[trigger] edge(keys, nodev, y) implies contains_view(
        frontier,
        y,
    ) by {
        assert(contains_view(outs, y));
        let jj = choose|jj: int| 0 <= jj < outs.len() && outs[jj]@ == y;
        assert(contains_view(frontier, outs[jj]@));
    }
    assert forall|x: Seq<u8>| contains_view(frontier, x) implies reachable(keys, start, x)
        && candidates(keys, start).contains(x) by {
        if !contains_view(frontier_mid, x) {
            assert(contains_view(outs, x));
            assert(edge(keys, nodev, x));
            lemma_reachable_step(keys, start, nodev, x);
            lemma_edge_target_is_candidate(keys, start, nodev, x);
        }
    }
}

/// A visited list that holds the start and is closed under stored edges
/// holds everything reachable from the start.
proof fn lemma_visited_complete(keys: Seq<Seq<u8>>, start: Seq<u8>, visited: Seq<Vec<u8>>)
    requires
        contains_view(visited, start),
        forall|x: Seq<u8>, y: Seq<u8>|
            contains_view(visited, x) && #[trigger] edge(keys, x, y) ==> contains_view(visited, y),
    ensures
        forall|x: Seq<u8>| reachable(keys, start, x) ==> contains_view(visited, x),
{
    let s = Set::new(|x: Seq<u8>| contains_view(visited, x));
    assert(s.contains(start));
    assert forall|x: Seq<u8>, y: Seq<u8>| s.contains(x) && #[trigger] edge(keys, x, y) implies
        s.contains(y) by {
        assert(contains_view(visited, x));
    }
    assert forall|x: Seq<u8>| reachable(keys, start, x) implies contains_view(visited, x) by {
        let n = choose|n: nat| reach_n(keys, start, x, n);
        lemma_closed_set_covers(keys, s, start, x, n);
    }
}

impl Rhyzome {
    /// The targets of every stored relation leaving `id`: a full scan of the
    /// relation key space, decoding each key and keeping the targets of those
    /// whose from-component is `id`. The result lists exactly the edge
    /// targets of `id`, in stored key order.
    pub fn get_related_nodes(&self, id: &[u8]) -> (r: Vec<Vec<u8>>)
        requires
            self.wf(),
        ensures
            seq_views(r@) == spec_outgoing(self.rel_keys(), id@),
            forall|t: Seq<u8>| contains_view(r@, t) <==> edge(self.rel_keys(), id@, t),
    {
        let mut r: Vec<Vec<u8>> = Vec::new();
        let mut i: usize = 0;
        while i < self.relations.entries.len()
            invariant
                self.wf(),
                0 <= i <= self.relations.entries@.len(),
                self.rel_keys().len() == self.relations.entries@.len(),
                seq_views(r@) == spec_outgoing(self.rel_keys().take(i as int), id@),
                forall|t: Seq<u8>|
                    contains_view(r@, t) <==> exists|j: int|
                        0 <= j < i && key_edge(#[trigger] self.rel_keys()[j], id@, t),
            decreases self.relations.entries@.len() - i,
        {
            let ghost k = self.rel_keys()[i as int];
            proof {
                assert(k == self.relations.entries@[i as int].0@);
            }
            let ghost r_before = r@;
            match decode(self.relations.entries[i].0.as_slice()) {
                Ok(triple) => {
                    let (tn, tf, tt) = triple;
                    if bytes_eq(tf.as_slice(), id) {
                        proof {
                            assert(is_decoding(k, tn@, id@, tt@));
                            assert(key_edge(k, id@, tt@));
                            lemma_decoding_of(k, tn@, id@, tt@);
                        }
                        r.push(tt);
                        proof {
                            let pfx = self.rel_keys().take(i + 1);
                            assert(pfx.drop_last() =~= self.rel_keys().take(i as int));
                            assert(pfx.last() == k);
                            assert(seq_views(r@) =~= seq_views(r_before).push(
                                r@[r@.len() - 1]@,
                            ));
                            assert(seq_views(r@) == spec_outgoing(pfx, id@));
                            assert forall|t: Seq<u8>| key_edge(k, id@, t) implies t == r@[
                                r@.len() - 1
                            ]@ by {
                                let n2 = choose|n2: Seq<u8>| is_decoding(k, n2, id@, t);
                                lemma_decoding_unique(k, n2, id@, t, tn@, id@, r@[r@.len() - 1]@);
                            }
                            assert forall|t: Seq<u8>| contains_view(r@, t) implies exists|j: int|
                                0 <= j < i + 1 && key_edge(
                                    #[trigger] self.rel_keys()[j],
                                    id@,
                                    t,
                                ) by {
                                let ix = choose|ix: int| 0 <= ix < r@.len() && r@[ix]@ == t;
                                if ix < r_before.len() {
                                    assert(contains_view(r_before, t));
                                } else {
                                    assert(self.rel_keys()[i as int] == k);
                                    assert(key_edge(self.rel_keys()[i as int], id@, t));
                                }
                            }
                            assert forall|t: Seq<u8>|
                                (exists|j: int|
                                    0 <= j < i + 1 && key_edge(
                                        #[trigger] self.rel_keys()[j],
                                        id@,
                                        t,
                                    )) implies contains_view(r@, t) by {
                                let j = choose|j: int|
                                    0 <= j < i + 1 && key_edge(
                                        #[trigger] self.rel_keys()[j],
                                        id@,
                                        t,
                                    );
                                if j < i {
                                    assert(contains_view(r_before, t));
                                    let ix = choose|ix: int|
                                        0 <= ix < r_before.len() && r_before[ix]@ == t;
                                    assert(r@[ix]@ == t);
                                } else {
                                    assert(t == r@[r@.len() - 1]@);
                                }
                            }
                        }
                    } else {
                        proof {
                            lemma_decoding_of(k, tn@, tf@, tt@);
                            let pfx = self.rel_keys().take(i + 1);
                            assert(pfx.drop_last() =~= self.rel_keys().take(i as int));
                            assert(pfx.last() == k);
                            assert(decoding_of(k).1 != id@);
                            assert(seq_views(r@) == spec_outgoing(pfx, id@));
                            assert forall|t: Seq<u8>| !key_edge(k, id@, t) by {
                                if key_edge(k, id@, t) {
                                    let n2 = choose|n2: Seq<u8>| is_decoding(k, n2, id@, t);
                                    lemma_decoding_unique(k, n2, id@, t, tn@, tf@, tt@);
                                }
                            }
                        }
                    }
                },
                Err(_) => {
                    proof {
                        let pfx = self.rel_keys().take(i + 1);
                        assert(pfx.drop_last() =~= self.rel_keys().take(i as int));
                        assert(pfx.last() == k);
                        assert(!decodable(k));
                        assert(seq_views(r@) == spec_outgoing(pfx, id@));
                        assert forall|t: Seq<u8>| !key_edge(k, id@, t) by {
                            if key_edge(k, id@, t) {
                                let n2 = choose|n2: Seq<u8>| is_decoding(k, n2, id@, t);
                                assert(decodable(k));
                            }
                        }
                    }
                },
            }
            i = i + 1;
        }
        proof {
            assert(self.rel_keys().take(self.rel_keys().len() as int) =~= self.rel_keys());
        }
        r
    }

    /// The targets of every stored relation named `relation_name` that
    /// leaves `id`, in scan order: the name-filtered neighbour lookup, one
    /// element per matching relation. Absence of matches is an empty result,
    /// not an error.
    pub fn get_related(&self, id: &[u8], relation_name: &[u8]) -> (r: Vec<Vec<u8>>)
        requires
            self.wf(),
        ensures
            seq_views(r@) == spec_related(self.rel_keys(), relation_name@, id@),
    {
        let mut r: Vec<Vec<u8>> = Vec::new();
        let mut i: usize = 0;
        while i < self.relations.entries.len()
            invariant
                self.wf(),
                0 <= i <= self.relations.entries@.len(),
                self.rel_keys().len() == self.relations.entries@.len(),
                seq_views(r@) == spec_related(
                    self.rel_keys().take(i as int),
                    relation_name@,
                    id@,
                ),
            decreases self.relations.entries@.len() - i,
        {
            let ghost k = self.rel_keys()[i as int];
            proof {
                assert(k == self.relations.entries@[i as int].0@);
                assert(decodable(k));
            }
            let ghost r_before = r@;
            match decode(self.relations.entries[i].0.as_slice()) {
                Ok((tn, tf, tt)) => {
                    proof {
                        lemma_decoding_of(k, tn@, tf@, tt@);
                    }
                    if bytes_eq(tn.as_slice(), relation_name) && bytes_eq(tf.as_slice(), id) {
                        r.push(tt);
                        proof {
                            let pfx = self.rel_keys().take(i + 1);
                            assert(pfx.drop_last() =~= self.rel_keys().take(i as int));
                            assert(pfx.last() == k);
                            assert(seq_views(r@) =~= seq_views(r_before).push(
                                r@[r@.len() - 1]@,
                            ));
                            assert(seq_views(r@) == spec_related(pfx, relation_name@, id@));
                        }
                    } else {
                        proof {
                            let pfx = self.rel_keys().take(i + 1);
                            assert(pfx.drop_last() =~= self.rel_keys().take(i as int));
                            assert(pfx.last() == k);
                            assert(seq_views(r@) == spec_related(pfx, relation_name@, id@));
                        }
                    }
                },
                Err(_) => {
                    proof {
                        assert(false);
                    }
                },
            }
            i = i + 1;
        }
        proof {
            assert(self.rel_keys().take(self.rel_keys().len() as int) =~= self.rel_keys());
        }
        r
    }

    /// Depth-first traversal from `start`: an iterative, explicit-stack walk
    /// that pops a node, visits it if unvisited, and pushes every target of a
    /// stored relation leaving it in scan order. The contract pins the exact
    /// result: [`spec_dfs`], the walk as a function of the stored keys and
    /// the start, so the order is deterministic given the scan order; on top
    /// of it, the visited set is exactly what is reachable from `start`,
    /// each node once, the start first; cycles are safe and unreachable
    /// nodes are never visited.
    pub fn dfs(&self, start: &[u8]) -> (r: Vec<Vec<u8>>)
        requires
            self.wf(),
        ensures
            seq_views(r@) == spec_dfs(self.rel_keys(), start@),
            forall|x: Seq<u8>| contains_view(r@, x) <==> reachable(self.rel_keys(), start@, x),
            seq_views(r@).no_duplicates(),
            r@.len() > 0 && r@[0]@ == start@,
    {
        let ghost keys = self.rel_keys();
        let ghost mut fuel: nat = traversal_fuel(keys);
        let mut visited: Vec<Vec<u8>> = Vec::new();
        let mut stack: Vec<Vec<u8>> = Vec::new();
        stack.push(clone_bytes(start));
        proof {
            lemma_reachable_refl(keys, start@);
            lemma_start_is_candidate(keys, start@);
            assert(stack@[0]@ == start@);
            assert(contains_view(stack@, start@));
            assert(seq_views(stack@) =~= seq![start@]);
            assert(seq_views(visited@) =~= Seq::<Seq<u8>>::empty());
            assert(spec_dfs_walk(keys, seq_views(stack@), seq_views(visited@), fuel)
                == spec_dfs(keys, start@));
            assert(fuel >= stack@.len() + (keys.len() + 1 - visited@.len()) * (keys.len() + 1));
        }
        while stack.len() > 0
            invariant
                self.wf(),
                keys == self.rel_keys(),
                spec_dfs_walk(keys, seq_views(stack@), seq_views(visited@), fuel) == spec_dfs(
                    keys,
                    start@,
                ),
                fuel >= stack@.len() + (keys.len() + 1 - visited@.len()) * (keys.len() + 1),
                forall|x: Seq<u8>| contains_view(visited@, x) ==> reachable(keys, start@, x),
                forall|x: Seq<u8>| contains_view(stack@, x) ==> reachable(keys, start@, x),
                forall|x: Seq<u8>| contains_view(visited@, x) ==> candidates(keys, start@).contains(
                    x,
                ),
                forall|x: Seq<u8>| contains_view(stack@, x) ==> candidates(keys, start@).contains(
                    x,
                ),
                forall|x: Seq<u8>, y: Seq<u8>|
                    contains_view(visited@, x) && #[trigger] edge(keys, x, y) ==> contains_view(
                        visited@,
                        y,
                    ) || contains_view(stack@, y),
                contains_view(visited@, start@) || contains_view(stack@, start@),
                visited@.len() > 0 ==> visited@[0]@ == start@,
                visited@.len() == 0 ==> stack@.len() == 1 && stack@[0]@ == start@,
                seq_views(visited@).no_duplicates(),
                visited@.len() <= keys.len() + 1,
            decreases keys.len() + 1 - visited@.len(), stack@.len(),
        {
            let ghost stack_pre = stack@;
            let node = match stack.pop() {
                Some(n) => n,
                None => {
                    proof {
                        assert(false);
                    }
                    Vec::new()
                },
            };
            let ghost nodev = node@;
            proof {
                assert(stack@ =~= stack_pre.drop_last());
                assert(stack_pre.last()@ == nodev);
                assert(contains_view(stack_pre, nodev)) by {
                    assert(stack_pre[stack_pre.len() - 1]@ == nodev);
                }
                assert(seq_views(stack_pre).last() == nodev);
                assert(seq_views(stack@) =~= seq_views(stack_pre).drop_last());
                assert((keys.len() + 1 - visited@.len()) * (keys.len() + 1) >= 0) by (nonlinear_arith)
                    requires
                        visited@.len() <= keys.len() + 1,
                ;
                assert(fuel > 0);
            }
            if !contains_bytes(&visited, node.as_slice()) {
                let outs = self.get_related_nodes(node.as_slice());
                let ghost visited_pre = visited@;
                visited.push(node);
                proof {
                    assert(visited@.drop_last() =~= visited_pre);
                    assert(visited@.last()@ == nodev);
                    lemma_visited_after_push(keys, start@, visited@, visited_pre, nodev);
                }
                let ghost stack_mid = stack@;
                let mut j: usize = 0;
                while j < outs.len()
                    invariant
                        0 <= j <= outs@.len(),
                        forall|t: Seq<u8>| contains_view(outs@, t) <==> edge(keys, nodev, t),
                        forall|x: Seq<u8>| contains_view(stack_mid, x) ==> contains_view(stack@, x),
                        forall|x: Seq<u8>|
                            contains_view(stack@, x) ==> contains_view(stack_mid, x)
                                || contains_view(outs@, x),
                        forall|jj: int| 0 <= jj < j ==> contains_view(stack@, #[trigger] outs@[jj]@),
                        seq_views(stack@) == seq_views(stack_mid) + seq_views(outs@).take(j as int),
                    decreases outs@.len() - j,
                {
                    let ghost stack_before = stack@;
                    stack.push(clone_bytes(outs[j].as_slice()));
                    proof {
                        assert(stack@.drop_last() =~= stack_before);
                        assert(stack@.last()@ == outs@[j as int]@);
                        assert(seq_views(outs@).take(j + 1) =~= seq_views(outs@).take(
                            j as int,
                        ).push(outs@[j as int]@));
                        assert(seq_views(stack@) =~= seq_views(stack_before).push(
                            outs@[j as int]@,
                        ));
                        assert(seq_views(stack@) =~= seq_views(stack_mid) + seq_views(outs@).take(
                            j + 1,
                        ));
                        assert forall|x: Seq<u8>| contains_view(stack_before, x) implies
                            contains_view(stack@, x) by {
                            lemma_contains_view_drop_last(stack@, x);
                        }
                        assert forall|x: Seq<u8>| contains_view(stack@, x) implies (contains_view(
                            stack_before,
                            x,
                        ) || x == outs@[j as int]@) by {
                            lemma_contains_view_drop_last(stack@, x);
                        }
                        assert(contains_view(stack@, outs@[j as int]@)) by {
                            lemma_contains_view_drop_last(stack@, outs@[j as int]@);
                        }
                        assert(contains_view(outs@, outs@[j as int]@)) by {
                            assert(outs@[j as int]@ == outs@[j as int]@);
                        }
                    }
                    j = j + 1;
                }
                proof {
                    assert forall|x: Seq<u8>| contains_view(stack_mid, x) implies reachable(
                        keys,
                        start@,
                        x,
                    ) && candidates(keys, start@).contains(x) by {
                        lemma_contains_view_drop_last(stack_pre, x);
                    }
                    lemma_frontier_after_extend(keys, start@, stack@, stack_mid, outs@, nodev);
                    // the closure invariant
                    assert forall|x: Seq<u8>, y: Seq<u8>|
                        contains_view(visited@, x) && #[trigger] edge(keys, x, y) implies
                        contains_view(visited@, y) || contains_view(stack@, y) by {
                        if x == nodev {
                        } else {
                            assert(contains_view(visited_pre, x));
                            if contains_view(stack_pre, y) {
                                lemma_contains_view_drop_last(stack_pre, y);
                                if y == nodev {
                                    assert(contains_view(visited@, y));
                                } else {
                                    assert(contains_view(stack_mid, y));
                                }
                            }
                        }
                    }
                    // start stays covered
                    if contains_view(stack_pre, start@) {
                        lemma_contains_view_drop_last(stack_pre, start@);
                    }
                    // the start is visited first
                    if visited_pre.len() == 0 {
                        assert(stack_pre.last() == stack_pre[0]);
                        assert(visited@[0]@ == start@);
                    }
                    // the walk takes the same visiting step
                    crate::bytestr::lemma_contains_view_is_seq_views_contains(visited_pre, nodev);
                    assert(!seq_views(visited_pre).contains(nodev));
                    assert(seq_views(outs@).take(outs@.len() as int) =~= seq_views(outs@));
                    assert(seq_views(outs@) == spec_outgoing(keys, nodev));
                    assert(seq_views(stack_mid) =~= seq_views(stack_pre).drop_last());
                    assert(seq_views(stack@) =~= seq_views(stack_pre).drop_last()
                        + spec_outgoing(keys, nodev));
                    assert(seq_views(visited@) =~= seq_views(visited_pre).push(nodev));
                    assert(spec_dfs_walk(keys, seq_views(stack_pre), seq_views(visited_pre), fuel)
                        == spec_dfs_walk(
                        keys,
                        seq_views(stack@),
                        seq_views(visited@),
                        (fuel - 1) as nat,
                    ));
                    lemma_spec_outgoing_len(keys, nodev);
                    assert(outs@.len() <= keys.len());
                    assert((keys.len() + 1 - visited_pre.len()) * (keys.len() + 1) == (keys.len()
                        + 1 - visited@.len()) * (keys.len() + 1) + (keys.len()
                        + 1)) by (nonlinear_arith)
                        requires
                            visited@.len() == visited_pre.len() + 1,
                    ;
                    fuel = (fuel - 1) as nat;
                    assert(fuel >= stack@.len() + (keys.len() + 1 - visited@.len()) * (keys.len()
                        + 1));
                }
            } else {
                proof {
                    assert(contains_view(visited@, nodev));
                    assert forall|x: Seq<u8>| contains_view(stack@, x) implies reachable(
                        keys,
                        start@,
                        x,
                    ) && candidates(keys, start@).contains(x) by {
                        lemma_contains_view_drop_last(stack_pre, x);
                    }
                    assert forall|x: Seq<u8>, y: Seq<u8>|
                        contains_view(visited@, x) && #[trigger] edge(keys, x, y) implies
                        contains_view(visited@, y) || contains_view(stack@, y) by {
                        if contains_view(stack_pre, y) {
                            lemma_contains_view_drop_last(stack_pre, y);
                        }
                    }
                    if contains_view(stack_pre, start@) {
                        lemma_contains_view_drop_last(stack_pre, start@);
                    }
                    // the walk takes the same skipping step
                    crate::bytestr::lemma_contains_view_is_seq_views_contains(visited@, nodev);
                    assert(seq_views(visited@).contains(nodev));
                    assert(spec_dfs_walk(keys, seq_views(stack_pre), seq_views(visited@), fuel)
                        == spec_dfs_walk(
                        keys,
                        seq_views(stack@),
                        seq_views(visited@),
                        (fuel - 1) as nat,
                    ));
                    fuel = (fuel - 1) as nat;
                }
            }
        }
        proof {
            assert(seq_views(stack@).len() == 0);
            assert(spec_dfs_walk(keys, seq_views(stack@), seq_views(visited@), fuel)
                == seq_views(visited@));
            assert(contains_view(visited@, start@));
            assert forall|x: Seq<u8>, y: Seq<u8>|
                contains_view(visited@, x) && #[trigger] edge(keys, x, y) implies contains_view(
                visited@,
                y,
            ) by {
                assert(stack@.len() == 0);
            }
            lemma_visited_complete(keys, start@, visited@);
        }
        visited
    }

    /// Breadth-first traversal from `start`: the same walk as
    /// [`Self::dfs`] with the frontier held in a FIFO queue (push-back,
    /// pop-front) instead of a stack, so that nodes come out in
    /// non-decreasing hop distance. The contract pins the exact result:
    /// [`spec_bfs`], the strict-FIFO walk as a function of the stored keys
    /// and the start, from which the layer ordering follows; on top of it,
    /// the visited set is exactly what is reachable from `start`, each node
    /// once, the start first.
    pub fn bfs(&self, start: &[u8]) -> (r: Vec<Vec<u8>>)
        requires
            self.wf(),
        ensures
            seq_views(r@) == spec_bfs(self.rel_keys(), start@),
            forall|x: Seq<u8>| contains_view(r@, x) <==> reachable(self.rel_keys(), start@, x),
            seq_views(r@).no_duplicates(),
            r@.len() > 0 && r@[0]@ == start@,
    {
        let ghost keys = self.rel_keys();
        let ghost mut fuel: nat = traversal_fuel(keys);
        let mut visited: Vec<Vec<u8>> = Vec::new();
        let mut queue: VecDeque<Vec<u8>> = VecDeque::new();
        queue.push_back(clone_bytes(start));
        proof {
            lemma_reachable_refl(keys, start@);
            lemma_start_is_candidate(keys, start@);
            assert(queue@[0]@ == start@);
            assert(contains_view(queue@, start@));
            assert(seq_views(queue@) =~= seq![start@]);
            assert(seq_views(visited@) =~= Seq::<Seq<u8>>::empty());
            assert(spec_bfs_walk(keys, seq_views(queue@), seq_views(visited@), fuel)
                == spec_bfs(keys, start@));
            assert(fuel >= queue@.len() + (keys.len() + 1 - visited@.len()) * (keys.len() + 1));
        }
        while queue.len() > 0
            invariant
                self.wf(),
                keys == self.rel_keys(),
                spec_bfs_walk(keys, seq_views(queue@), seq_views(visited@), fuel) == spec_bfs(
                    keys,
                    start@,
                ),
                fuel >= queue@.len() + (keys.len() + 1 - visited@.len()) * (keys.len() + 1),
                forall|x: Seq<u8>| contains_view(visited@, x) ==> reachable(keys, start@, x),
                forall|x: Seq<u8>| contains_view(queue@, x) ==> reachable(keys, start@, x),
                forall|x: Seq<u8>| contains_view(visited@, x) ==> candidates(keys, start@).contains(
                    x,
                ),
                forall|x: Seq<u8>| contains_view(queue@, x) ==> candidates(keys, start@).contains(
                    x,
                ),
                forall|x: Seq<u8>, y: Seq<u8>|
                    contains_view(visited@, x) && #[trigger] edge(keys, x, y) ==> contains_view(
                        visited@,
                        y,
                    ) || contains_view(queue@, y),
                contains_view(visited@, start@) || contains_view(queue@, start@),
                visited@.len() > 0 ==> visited@[0]@ == start@,
                visited@.len() == 0 ==> queue@.len() == 1 && queue@[0]@ == start@,
                seq_views(visited@).no_duplicates(),
                visited@.len() <= keys.len() + 1,
            decreases keys.len() + 1 - visited@.len(), queue@.len(),
        {
            let ghost queue_pre = queue@;
            let node = match queue.pop_front() {
                Some(n) => n,
                None => {
                    proof {
                        assert(false);
                    }
                    Vec::new()
                },
            };
            let ghost nodev = node@;
            proof {
                assert(queue@ =~= queue_pre.subrange(1, queue_pre.len() as int));
                assert(queue_pre[0]@ == nodev);
                assert(contains_view(queue_pre, nodev));
                assert(seq_views(queue_pre)[0] == nodev);
                assert(seq_views(queue@) =~= seq_views(queue_pre).subrange(
                    1,
                    seq_views(queue_pre).len() as int,
                ));
                assert((keys.len() + 1 - visited@.len()) * (keys.len() + 1) >= 0) by (nonlinear_arith)
                    requires
                        visited@.len() <= keys.len() + 1,
                ;
                assert(fuel > 0);
            }
            if !contains_bytes(&visited, node.as_slice()) {
                let outs = self.get_related_nodes(node.as_slice());
                let ghost visited_pre = visited@;
                visited.push(node);
                proof {
                    assert(visited@.drop_last() =~= visited_pre);
                    assert(visited@.last()@ == nodev);
                    lemma_visited_after_push(keys, start@, visited@, visited_pre, nodev);
                }
                let ghost queue_mid = queue@;
                let mut j: usize = 0;
                while j < outs.len()
                    invariant
                        0 <= j <= outs@.len(),
                        forall|t: Seq<u8>| contains_view(outs@, t) <==> edge(keys, nodev, t),
                        forall|x: Seq<u8>| contains_view(queue_mid, x) ==> contains_view(queue@, x),
                        forall|x: Seq<u8>|
                            contains_view(queue@, x) ==> contains_view(queue_mid, x)
                                || contains_view(outs@, x),
                        forall|jj: int| 0 <= jj < j ==> contains_view(queue@, #[trigger] outs@[jj]@),
                        seq_views(queue@) == seq_views(queue_mid) + seq_views(outs@).take(j as int),
                    decreases outs@.len() - j,
                {
                    let ghost queue_before = queue@;
                    queue.push_back(clone_bytes(outs[j].as_slice()));
                    proof {
                        assert(queue@.drop_last() =~= queue_before);
                        assert(queue@.last()@ == outs@[j as int]@);
                        assert(seq_views(outs@).take(j + 1) =~= seq_views(outs@).take(
                            j as int,
                        ).push(outs@[j as int]@));
                        assert(seq_views(queue@) =~= seq_views(queue_before).push(
                            outs@[j as int]@,
                        ));
                        assert(seq_views(queue@) =~= seq_views(queue_mid) + seq_views(outs@).take(
                            j + 1,
                        ));
                        assert forall|x: Seq<u8>| contains_view(queue_before, x) implies
                            contains_view(queue@, x) by {
                            lemma_contains_view_drop_last(queue@, x);
                        }
                        assert forall|x: Seq<u8>| contains_view(queue@, x) implies (contains_view(
                            queue_before,
                            x,
                        ) || x == outs@[j as int]@) by {
                            lemma_contains_view_drop_last(queue@, x);
                        }
                        assert(contains_view(queue@, outs@[j as int]@)) by {
                            lemma_contains_view_drop_last(queue@, outs@[j as int]@);
                        }
                        assert(contains_view(outs@, outs@[j as int]@)) by {
                            assert(outs@[j as int]@ == outs@[j as int]@);
                        }
                    }
                    j = j + 1;
                }
                proof {
                    assert forall|x: Seq<u8>| contains_view(queue_mid, x) implies reachable(
                        keys,
                        start@,
                        x,
                    ) && candidates(keys, start@).contains(x) by {
                        lemma_contains_view_drop_first(queue_pre, x);
                    }
                    lemma_frontier_after_extend(keys, start@, queue@, queue_mid, outs@, nodev);
                    assert forall|x: Seq<u8>, y: Seq<u8>|
                        contains_view(visited@, x) && #[trigger] edge(keys, x, y) implies
                        contains_view(visited@, y) || contains_view(queue@, y) by {
                        if x == nodev {
                        } else {
                            assert(contains_view(visited_pre, x));
                            if contains_view(queue_pre, y) {
                                lemma_contains_view_drop_first(queue_pre, y);
                                if y == nodev {
                                    assert(contains_view(visited@, y));
                                } else {
                                    assert(contains_view(queue_mid, y));
                                }
                            }
                        }
                    }
                    if contains_view(queue_pre, start@) {
                        lemma_contains_view_drop_first(queue_pre, start@);
                    }
                    if visited_pre.len() == 0 {
                        assert(visited@[0]@ == start@);
                    }
                    // the walk takes the same visiting step
                    crate::bytestr::lemma_contains_view_is_seq_views_contains(visited_pre, nodev);
                    assert(!seq_views(visited_pre).contains(nodev));
                    assert(seq_views(outs@).take(outs@.len() as int) =~= seq_views(outs@));
                    assert(seq_views(outs@) == spec_outgoing(keys, nodev));
                    assert(seq_views(queue_mid) =~= seq_views(queue_pre).subrange(
                        1,
                        seq_views(queue_pre).len() as int,
                    ));
                    assert(seq_views(queue@) =~= seq_views(queue_pre).subrange(
                        1,
                        seq_views(queue_pre).len() as int,
                    ) + spec_outgoing(keys, nodev));
                    assert(seq_views(visited@) =~= seq_views(visited_pre).push(nodev));
                    assert(spec_bfs_walk(keys, seq_views(queue_pre), seq_views(visited_pre), fuel)
                        == spec_bfs_walk(
                        keys,
                        seq_views(queue@),
                        seq_views(visited@),
                        (fuel - 1) as nat,
                    ));
                    lemma_spec_outgoing_len(keys, nodev);
                    assert(outs@.len() <= keys.len());
                    assert((keys.len() + 1 - visited_pre.len()) * (keys.len() + 1) == (keys.len()
                        + 1 - visited@.len()) * (keys.len() + 1) + (keys.len()
                        + 1)) by (nonlinear_arith)
                        requires
                            visited@.len() == visited_pre.len() + 1,
                    ;
                    fuel = (fuel - 1) as nat;
                    assert(fuel >= queue@.len() + (keys.len() + 1 - visited@.len()) * (keys.len()
                        + 1));
                }
            } else {
                proof {
                    assert(contains_view(visited@, nodev));
                    assert forall|x: Seq<u8>| contains_view(queue@, x) implies reachable(
                        keys,
                        start@,
                        x,
                    ) && candidates(keys, start@).contains(x) by {
                        lemma_contains_view_drop_first(queue_pre, x);
                    }
                    assert forall|x: Seq<u8>, y: Seq<u8>|
                        contains_view(visited@, x) && #[trigger] edge(keys, x, y) implies
                        contains_view(visited@, y) || contains_view(queue@, y) by {
                        if contains_view(queue_pre, y) {
                            lemma_contains_view_drop_first(queue_pre, y);
                        }
                    }
                    if contains_view(queue_pre, start@) {
                        lemma_contains_view_drop_first(queue_pre, start@);
                    }
                    // the walk takes the same skipping step
                    crate::bytestr::lemma_contains_view_is_seq_views_contains(visited@, nodev);
                    assert(seq_views(visited@).contains(nodev));
                    assert(spec_bfs_walk(keys, seq_views(queue_pre), seq_views(visited@), fuel)
                        == spec_bfs_walk(
                        keys,
                        seq_views(queue@),
                        seq_views(visited@),
                        (fuel - 1) as nat,
                    ));
                    fuel = (fuel - 1) as nat;
                }
            }
        }
        proof {
            assert(seq_views(queue@).len() == 0);
            assert(spec_bfs_walk(keys, seq_views(queue@), seq_views(visited@), fuel)
                == seq_views(visited@));
            assert(contains_view(visited@, start@));
            assert forall|x: Seq<u8>, y: Seq<u8>|
                contains_view(visited@, x) && #[trigger] edge(keys, x, y) implies contains_view(
                visited@,
                y,
            ) by {
                assert(queue@.len() == 0);
            }
            lemma_visited_complete(keys, start@, visited@);
        }
        visited
    }
}

/// Depth-first and breadth-first traversal visit the same set of nodes: for
/// any stored graph and any start, a walk that visits exactly the reachable
/// nodes is determined as a set, the two algorithms differ only in order.
pub proof fn lemma_traversals_visit_same_set(
    keys: Seq<Seq<u8>>,
    start: Seq<u8>,
    d: Seq<Vec<u8>>,
    b: Seq<Vec<u8>>,
)
    requires
        forall|x: Seq<u8>| contains_view(d, x) <==> reachable(keys, start, x),
        forall|x: Seq<u8>| contains_view(b, x) <==> reachable(keys, start, x),
    ensures
        forall|x: Seq<u8>| contains_view(d, x) <==> contains_view(b, x),
{
}

} // verus!
