//! The replicated neighbour map: node id to the list of its neighbours, held
//! in an `ahash::AHashMap` and built once from the edge relation.

use vstd::prelude::*;
use ahash::AHashMap;
use crate::graph::{edges_in_range, has_edge};

verus! {

#[verifier::external_type_specification]
#[verifier::external_body]
#[verifier::reject_recursive_types(K)]
#[verifier::reject_recursive_types(V)]
#[verifier::reject_recursive_types(S)]
pub struct ExAHashMap<K, V, S>(AHashMap<K, V, S>);

#[verifier::external_type_specification]
#[verifier::external_body]
pub struct ExAHashRandomState(ahash::RandomState);

/// What an `AHashMap` from node ids to neighbour lists holds.
pub uninterp spec fn neighbour_lists(m: AHashMap<u64, Vec<u64>>) -> Map<u64, Seq<u64>>;

/// Relies on `AHashMap::new`: a fresh map holds no entries. (It seeds its
/// hasher from the operating system's random source and panics only if that
/// source fails.)
#[verifier::external_body]
fn map_new() -> (r: AHashMap<u64, Vec<u64>>)
    ensures
        neighbour_lists(r).dom() == Set::<u64>::empty(),
{
    AHashMap::new()
}

/// Relies on `AHashMap::get`: the list stored under `k`, if any.
#[verifier::external_body]
fn map_get<'a>(m: &'a AHashMap<u64, Vec<u64>>, k: u64) -> (r: Option<&'a Vec<u64>>)
    ensures
        match r {
            Some(v) => neighbour_lists(*m).contains_key(k) && v@ == neighbour_lists(*m)[k],
            None => !neighbour_lists(*m).contains_key(k),
        },
{
    m.get(&k)
}

/// Relies on `AHashMap::remove`: takes the list stored under `k` out of the map.
#[verifier::external_body]
fn map_remove(m: &mut AHashMap<u64, Vec<u64>>, k: u64) -> (r: Option<Vec<u64>>)
    ensures
        neighbour_lists(*final(m)) == neighbour_lists(*old(m)).remove(k),
        match r {
            Some(v) => neighbour_lists(*old(m)).contains_key(k) && v@ == neighbour_lists(*old(m))[k],
            None => !neighbour_lists(*old(m)).contains_key(k),
        },
{
    m.remove(&k)
}

/// Relies on `AHashMap::insert`: stores `v` under `k`, replacing what was there.
#[verifier::external_body]
fn map_insert(m: &mut AHashMap<u64, Vec<u64>>, k: u64, v: Vec<u64>)
    ensures
        neighbour_lists(*final(m)) == neighbour_lists(*old(m)).insert(k, v@),
{
    m.insert(k, v);
}

/// The targets of the edges in `edges` that leave `x`, in the order of `edges`.
pub open spec fn out_neighbours(edges: Seq<(u64, u64)>, x: u64) -> Seq<u64>
    decreases edges.len(),
{
    if edges.len() == 0 {
        Seq::empty()
    } else {
        let rest = out_neighbours(edges.drop_last(), x);
        if edges.last().0 == x {
            rest.push(edges.last().1)
        } else {
            rest
        }
    }
}

/// The neighbour map of an edge relation: every source node maps to its
/// targets, in the order in which the edges list them.
pub open spec fn adjacency_of(edges: Seq<(u64, u64)>) -> Map<u64, Seq<u64>> {
    Map::new(
        |x: u64| exists|j: int| 0 <= j < edges.len() && #[trigger] edges[j].0 == x,
        |x: u64| out_neighbours(edges, x),
    )
}

proof fn lemma_no_out_neighbours(edges: Seq<(u64, u64)>, x: u64)
    requires
        forall|j: int| 0 <= j < edges.len() ==> #[trigger] edges[j].0 != x,
    ensures
        out_neighbours(edges, x) == Seq::<u64>::empty(),
    decreases edges.len(),
{
    if edges.len() > 0 {
        let rest = edges.drop_last();
        assert forall|j: int| 0 <= j < rest.len() implies #[trigger] rest[j].0 != x by {
            assert(rest[j] == edges[j]);
        }
        lemma_no_out_neighbours(rest, x);
    }
}

/// `y` is among the listed neighbours of `x` exactly when the edge `(x, y)`
/// is in the relation.
pub proof fn lemma_out_neighbours(edges: Seq<(u64, u64)>, x: u64, y: u64)
    ensures
        out_neighbours(edges, x).contains(y) <==> has_edge(edges, x, y),
    decreases edges.len(),
{
    if edges.len() > 0 {
        let rest = edges.drop_last();
        lemma_out_neighbours(rest, x, y);
        let last = edges.len() - 1;
        assert(edges[last] == edges.last());
        let ns = out_neighbours(edges, x);
        let rs = out_neighbours(rest, x);
        if has_edge(rest, x, y) {
            let j = choose|j: int| 0 <= j < rest.len() && #[trigger] rest[j] == (x, y);
            assert(edges[j] == rest[j]);
        }
        if has_edge(edges, x, y) && !has_edge(rest, x, y) {
            let j = choose|j: int| 0 <= j < edges.len() && #[trigger] edges[j] == (x, y);
            if j < last {
                assert(rest[j] == edges[j]);
            }
            assert(ns == rs.push(y));
            assert(ns[ns.len() - 1] == y);
        }
        if rs.contains(y) {
            let k = choose|k: int| 0 <= k < rs.len() && rs[k] == y;
            if edges.last().0 == x {
                assert(ns[k] == rs[k]);
            }
        }
        if ns.contains(y) && !rs.contains(y) {
            let k = choose|k: int| 0 <= k < ns.len() && ns[k] == y;
            if edges.last().0 == x {
                if k < rs.len() {
                    assert(rs[k] == ns[k]);
                }
                assert(edges[last] == (x, y));
            }
        }
    }
}

/// Every listed neighbour is a node of `[0, n)`.
pub open spec fn neighbours_in_range(adj: Map<u64, Seq<u64>>, n: nat) -> bool {
    forall|x: u64, i: int| adj.contains_key(x) && 0 <= i < adj[x].len() ==> #[trigger] adj[x][i] < n
}

/// The neighbour map of an in-range edge relation lists only nodes.
pub proof fn lemma_adjacency_in_range(edges: Seq<(u64, u64)>, n: nat)
    requires
        edges_in_range(edges, n),
    ensures
        neighbours_in_range(adjacency_of(edges), n),
{
    let adj = adjacency_of(edges);
    assert forall|x: u64, i: int| adj.contains_key(x) && 0 <= i < adj[x].len() implies #[trigger] adj[x][i] < n by {
        let y = adj[x][i];
        assert(adj[x].contains(y));
        lemma_out_neighbours(edges, x, y);
        let j = choose|j: int| 0 <= j < edges.len() && #[trigger] edges[j] == (x, y);
    }
}

/// Node id to neighbour list, shared read-only once built.
pub struct Adjacency {
    lists: AHashMap<u64, Vec<u64>>,
    relation: Ghost<Seq<(u64, u64)>>,
}

impl View for Adjacency {
    type V = Map<u64, Seq<u64>>;

    closed spec fn view(&self) -> Map<u64, Seq<u64>> {
        neighbour_lists(self.lists)
    }
}

impl Adjacency {
    /// The edge relation the map was built from.
    pub closed spec fn relation(&self) -> Seq<(u64, u64)> {
        self.relation@
    }

    /// The map is the neighbour map of its relation.
    pub open spec fn wf(&self) -> bool {
        self@ == adjacency_of(self.relation())
    }

    /// Groups the edge relation by source: the list of `x` holds the target
    /// of every edge `(x, y)`, in the order of `edges`.
    pub fn from_edges(edges: &Vec<(u64, u64)>) -> (r: Adjacency)
        ensures
            r.wf(),
            r.relation() == edges@,
            r@ == adjacency_of(edges@),
    {
        let mut lists = map_new();
        let mut i: usize = 0;
        while i < edges.len()
            invariant
                i <= edges.len(),
                neighbour_lists(lists) == adjacency_of(edges@.subrange(0, i as int)),
            decreases edges.len() - i,
        {
            let (x, y) = edges[i];
            let ghost pre = edges@.subrange(0, i as int);
            let ghost post = edges@.subrange(0, i + 1);
            assert(post.drop_last() == pre);
            let mut list = match map_remove(&mut lists, x) {
                Some(v) => v,
                None => Vec::new(),
            };
            list.push(y);
            map_insert(&mut lists, x, list);
            proof {
                assert(post.last() == (x, y));
                if !adjacency_of(pre).contains_key(x) {
                    lemma_no_out_neighbours(pre, x);
                }
                assert forall|k: u64|
                    adjacency_of(post).contains_key(k) == #[trigger] neighbour_lists(lists).contains_key(k) by {
                    if exists|j: int| 0 <= j < pre.len() && #[trigger] pre[j].0 == k {
                        let j = choose|j: int| 0 <= j < pre.len() && #[trigger] pre[j].0 == k;
                        assert(post[j] == pre[j]);
                    }
                    if exists|j: int| 0 <= j < post.len() && #[trigger] post[j].0 == k {
                        let j = choose|j: int| 0 <= j < post.len() && #[trigger] post[j].0 == k;
                        if j < pre.len() {
                            assert(pre[j] == post[j]);
                        }
                    }
                }
                assert forall|k: u64| #[trigger] neighbour_lists(lists).contains_key(k) implies
                    neighbour_lists(lists)[k] == out_neighbours(post, k) by {
                    assert(out_neighbours(post, k) == if k == x {
                        out_neighbours(pre, k).push(y)
                    } else {
                        out_neighbours(pre, k)
                    });
                }
                assert(neighbour_lists(lists) =~= adjacency_of(post));
            }
            i = i + 1;
        }
        assert(edges@.subrange(0, edges.len() as int) == edges@);
        Adjacency { lists, relation: Ghost(edges@) }
    }

    /// The neighbour list of `x`; `None` for a node that no edge leaves.
    pub fn neighbours(&self, x: u64) -> (r: Option<&Vec<u64>>)
        ensures
            match r {
                Some(v) => self@.contains_key(x) && v@ == self@[x],
                None => !self@.contains_key(x),
            },
    {
        map_get(&self.lists, x)
    }

    /// The number of edges that leave `x`.
    pub fn out_degree(&self, x: u64) -> (r: usize)
        ensures
            r == (if self@.contains_key(x) { self@[x].len() } else { 0 }),
    {
        match self.neighbours(x) {
            Some(v) => v.len(),
            None => 0,
        }
    }
}

} // verus!
