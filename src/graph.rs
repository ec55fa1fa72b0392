//! The input graph: validation of the node and edge listings against the
//! declared node count, the undirected edge relation, and walks over it.

use vstd::prelude::*;

verus! {

/// A configuration error: the run stops before any iteration starts.
#[derive(Debug, Clone, Copy, PartialEq, Eq, Structural)]
pub enum GraphError {
    /// The node listing does not hold as many records as the declared count.
    NodeCountMismatch { expected: usize, found: usize },
    /// A node record lies outside `[0, N)`.
    NodeOutOfRange { node: u64 },
    /// A node record repeats an earlier one.
    DuplicateNode { node: u64 },
    /// An edge has an endpoint outside `[0, N)`.
    EdgeOutOfRange { source: u64, target: u64 },
}

/// The first bad record of the node listing, reading it front to back: one
/// outside `[0, n)` or one that repeats an earlier record.
pub open spec fn node_listing_error(nodes: Seq<u64>, n: nat) -> Option<GraphError>
    decreases nodes.len(),
{
    if nodes.len() == 0 {
        None
    } else {
        let before = nodes.drop_last();
        match node_listing_error(before, n) {
            Some(e) => Some(e),
            None => {
                let v = nodes.last();
                if v >= n {
                    Some(GraphError::NodeOutOfRange { node: v })
                } else if before.contains(v) {
                    Some(GraphError::DuplicateNode { node: v })
                } else {
                    None
                }
            },
        }
    }
}

/// The first edge with an endpoint outside `[0, n)`.
pub open spec fn edge_listing_error(edges: Seq<(u64, u64)>, n: nat) -> Option<GraphError>
    decreases edges.len(),
{
    if edges.len() == 0 {
        None
    } else {
        match edge_listing_error(edges.drop_last(), n) {
            Some(e) => Some(e),
            None => {
                let (x, y) = edges.last();
                if x >= n || y >= n {
                    Some(GraphError::EdgeOutOfRange { source: x, target: y })
                } else {
                    None
                }
            },
        }
    }
}

/// What is wrong with a graph of `n` nodes given by these listings, if
/// anything: the record count first, then the node records, then the edges.
pub open spec fn graph_error(nodes: Seq<u64>, edges: Seq<(u64, u64)>, n: nat) -> Option<GraphError> {
    if nodes.len() != n {
        Some(GraphError::NodeCountMismatch { expected: n as usize, found: nodes.len() as usize })
    } else if node_listing_error(nodes, n).is_some() {
        node_listing_error(nodes, n)
    } else {
        edge_listing_error(edges, n)
    }
}

/// Every endpoint lies in `[0, n)`.
pub open spec fn edges_in_range(edges: Seq<(u64, u64)>, n: nat) -> bool {
    forall|j: int| 0 <= j < edges.len() ==> (#[trigger] edges[j]).0 < n && edges[j].1 < n
}

/// `edges` holds the pair `(a, b)`.
pub open spec fn has_edge(edges: Seq<(u64, u64)>, a: u64, b: u64) -> bool {
    exists|j: int| 0 <= j < edges.len() && #[trigger] edges[j] == (a, b)
}

/// The undirected reading of an edge listing: each pair `(u, v)` is followed
/// by its reverse `(v, u)`.
pub open spec fn undirected(raw: Seq<(u64, u64)>) -> Seq<(u64, u64)>
    decreases raw.len(),
{
    if raw.len() == 0 {
        Seq::empty()
    } else {
        let (u, v) = raw.last();
        undirected(raw.drop_last()).push((u, v)).push((v, u))
    }
}

/// `p` is a walk: a non-empty node sequence whose consecutive nodes are
/// joined by edges.
pub open spec fn is_walk(edges: Seq<(u64, u64)>, p: Seq<u64>) -> bool {
    &&& p.len() >= 1
    &&& forall|i: int| 0 <= i < p.len() - 1 ==> has_edge(edges, #[trigger] p[i], p[i + 1])
}

/// A walk of at most `k` edges leads from `u` to `v`.
pub open spec fn within(edges: Seq<(u64, u64)>, u: u64, v: u64, k: nat) -> bool {
    exists|p: Seq<u64>|
        #[trigger] is_walk(edges, p) && p[0] == u && p.last() == v && p.len() <= k + 1
}

/// Some walk leads from `u` to `v`.
pub open spec fn connected(edges: Seq<(u64, u64)>, u: u64, v: u64) -> bool {
    exists|p: Seq<u64>| #[trigger] is_walk(edges, p) && p[0] == u && p.last() == v
}

/// A bad record of a prefix of the node listing is the listing's first one.
proof fn lemma_node_error_extends(nodes: Seq<u64>, i: int, n: nat)
    requires
        0 <= i <= nodes.len(),
        node_listing_error(nodes.subrange(0, i), n) is Some,
    ensures
        node_listing_error(nodes, n) == node_listing_error(nodes.subrange(0, i), n),
    decreases nodes.len() - i,
{
    if i < nodes.len() {
        assert(nodes.subrange(0, i + 1).drop_last() == nodes.subrange(0, i));
        assert(node_listing_error(nodes.subrange(0, i + 1), n) == node_listing_error(nodes.subrange(0, i), n));
        lemma_node_error_extends(nodes, i + 1, n);
    } else {
        assert(nodes.subrange(0, i) == nodes);
    }
}

/// A bad edge of a prefix of the edge listing is the listing's first one.
proof fn lemma_edge_error_extends(edges: Seq<(u64, u64)>, i: int, n: nat)
    requires
        0 <= i <= edges.len(),
        edge_listing_error(edges.subrange(0, i), n) is Some,
    ensures
        edge_listing_error(edges, n) == edge_listing_error(edges.subrange(0, i), n),
    decreases edges.len() - i,
{
    if i < edges.len() {
        assert(edges.subrange(0, i + 1).drop_last() == edges.subrange(0, i));
        assert(edge_listing_error(edges.subrange(0, i + 1), n) == edge_listing_error(edges.subrange(0, i), n));
        lemma_edge_error_extends(edges, i + 1, n);
    } else {
        assert(edges.subrange(0, i) == edges);
    }
}

/// Checks the listings of a graph of `num_nodes` nodes: the node listing
/// must name each id of `[0, num_nodes)` exactly once, and every edge must
/// join two such ids.
pub fn validate(nodes: &Vec<u64>, edges: &Vec<(u64, u64)>, num_nodes: usize) -> (r: Result<(), GraphError>)
    ensures
        match graph_error(nodes@, edges@, num_nodes as nat) {
            Some(e) => r == Err::<(), GraphError>(e),
            None => r is Ok,
        },
{
    if nodes.len() != num_nodes {
        return Err(GraphError::NodeCountMismatch { expected: num_nodes, found: nodes.len() });
    }
    let mut seen: Vec<bool> = Vec::new();
    while seen.len() < num_nodes
        invariant
            seen.len() <= num_nodes,
            forall|v: int| 0 <= v < seen.len() ==> !seen@[v],
        decreases num_nodes - seen.len(),
    {
        seen.push(false);
    }
    let mut i: usize = 0;
    while i < nodes.len()
        invariant
            i <= nodes.len(),
            nodes.len() == num_nodes,
            seen.len() == num_nodes,
            node_listing_error(nodes@.subrange(0, i as int), num_nodes as nat) is None,
            forall|v: int| 0 <= v < num_nodes ==>
                (seen@[v] <==> nodes@.subrange(0, i as int).contains(v as u64)),
        decreases nodes.len() - i,
    {
        let v = nodes[i];
        let ghost before = nodes@.subrange(0, i as int);
        let ghost upto = nodes@.subrange(0, i + 1);
        assert(upto.drop_last() == before);
        assert(upto.last() == v);
        if v >= num_nodes as u64 {
            proof { lemma_node_error_extends(nodes@, i + 1, num_nodes as nat); }
            return Err(GraphError::NodeOutOfRange { node: v });
        }
        if seen[v as usize] {
            proof { lemma_node_error_extends(nodes@, i + 1, num_nodes as nat); }
            return Err(GraphError::DuplicateNode { node: v });
        }
        seen.set(v as usize, true);
        assert forall|w: int| 0 <= w < num_nodes implies
            (seen@[w] <==> upto.contains(w as u64)) by {
            if upto.contains(w as u64) && w as u64 != v {
                let k = choose|k: int| 0 <= k < upto.len() && upto[k] == w as u64;
                assert(before[k] == upto[k]);
            }
            if before.contains(w as u64) {
                let k = choose|k: int| 0 <= k < before.len() && before[k] == w as u64;
                assert(upto[k] == before[k]);
            }
            if w as u64 == v {
                assert(upto[i as int] == v);
            }
        }
        i = i + 1;
    }
    assert(nodes@.subrange(0, nodes.len() as int) == nodes@);
    let mut j: usize = 0;
    while j < edges.len()
        invariant
            j <= edges.len(),
            nodes.len() == num_nodes,
            node_listing_error(nodes@, num_nodes as nat) is None,
            edge_listing_error(edges@.subrange(0, j as int), num_nodes as nat) is None,
        decreases edges.len() - j,
    {
        let (x, y) = edges[j];
        assert(edges@.subrange(0, j + 1).drop_last() == edges@.subrange(0, j as int));
        assert(edges@.subrange(0, j + 1).last() == (x, y));
        if x >= num_nodes as u64 || y >= num_nodes as u64 {
            proof { lemma_edge_error_extends(edges@, j + 1, num_nodes as nat); }
            return Err(GraphError::EdgeOutOfRange { source: x, target: y });
        }
        j = j + 1;
    }
    assert(edges@.subrange(0, edges.len() as int) == edges@);
    Ok(())
}

/// Both directions of every input pair, each pair followed by its reverse.
pub fn symmetric_edges(raw: &Vec<(u64, u64)>) -> (r: Vec<(u64, u64)>)
    ensures
        r@ == undirected(raw@),
{
    let mut r: Vec<(u64, u64)> = Vec::new();
    let mut i: usize = 0;
    while i < raw.len()
        invariant
            i <= raw.len(),
            r@ == undirected(raw@.subrange(0, i as int)),
        decreases raw.len() - i,
    {
        let (u, v) = raw[i];
        assert(raw@.subrange(0, i + 1).drop_last() == raw@.subrange(0, i as int));
        assert(raw@.subrange(0, i + 1).last() == (u, v));
        r.push((u, v));
        r.push((v, u));
        i = i + 1;
    }
    assert(raw@.subrange(0, raw.len() as int) == raw@);
    r
}

/// An edge listing with no bad edge has every endpoint in range.
pub proof fn lemma_no_edge_error(edges: Seq<(u64, u64)>, n: nat)
    requires
        edge_listing_error(edges, n) is None,
    ensures
        edges_in_range(edges, n),
    decreases edges.len(),
{
    if edges.len() > 0 {
        let rest = edges.drop_last();
        lemma_no_edge_error(rest, n);
        let last = edges.len() - 1;
        assert(edges[last] == edges.last());
        assert forall|j: int| 0 <= j < edges.len() implies (#[trigger] edges[j]).0 < n && edges[j].1 < n by {
            if j < last {
                assert(rest[j] == edges[j]);
            }
        }
    }
}

/// Both directions of in-range pairs are in range.
pub proof fn lemma_undirected_in_range(raw: Seq<(u64, u64)>, n: nat)
    requires
        edges_in_range(raw, n),
    ensures
        edges_in_range(undirected(raw), n),
        undirected(raw).len() == 2 * raw.len(),
    decreases raw.len(),
{
    if raw.len() > 0 {
        let rest = raw.drop_last();
        assert forall|j: int| 0 <= j < rest.len() implies (#[trigger] rest[j]).0 < n && rest[j].1 < n by {
            assert(rest[j] == raw[j]);
        }
        lemma_undirected_in_range(rest, n);
        let last = raw.len() - 1;
        assert(raw[last] == raw.last());
        let u = undirected(rest);
        let (a, b) = raw.last();
        assert forall|j: int| 0 <= j < undirected(raw).len() implies
            (#[trigger] undirected(raw)[j]).0 < n && undirected(raw)[j].1 < n by {
            if j < u.len() {
                assert(undirected(raw)[j] == u[j]);
            }
        }
    }
}

/// Every edge of the relation also runs the other way.
pub open spec fn symmetric(edges: Seq<(u64, u64)>) -> bool {
    forall|a: u64, b: u64| #[trigger] has_edge(edges, a, b) ==> has_edge(edges, b, a)
}

/// The undirected reading holds `(a, b)` exactly when the listing holds
/// `(a, b)` or `(b, a)`.
pub proof fn lemma_undirected_has_edge(raw: Seq<(u64, u64)>, a: u64, b: u64)
    ensures
        has_edge(undirected(raw), a, b) <==> has_edge(raw, a, b) || has_edge(raw, b, a),
    decreases raw.len(),
{
    if raw.len() > 0 {
        let rest = raw.drop_last();
        lemma_undirected_has_edge(rest, a, b);
        let last = raw.len() - 1;
        assert(raw[last] == raw.last());
        let u = undirected(rest);
        let (x, y) = raw.last();
        let w = undirected(raw);
        assert(w == u.push((x, y)).push((y, x)));
        assert(w[u.len() as int] == (x, y));
        assert(w[u.len() as int + 1] == (y, x));
        if has_edge(u, a, b) {
            let j = choose|j: int| 0 <= j < u.len() && #[trigger] u[j] == (a, b);
            assert(w[j] == u[j]);
        }
        if has_edge(w, a, b) && !has_edge(u, a, b) {
            let j = choose|j: int| 0 <= j < w.len() && #[trigger] w[j] == (a, b);
            if j < u.len() {
                assert(u[j] == w[j]);
            }
        }
        if has_edge(rest, a, b) {
            let j = choose|j: int| 0 <= j < rest.len() && #[trigger] rest[j] == (a, b);
            assert(raw[j] == rest[j]);
        }
        if has_edge(rest, b, a) {
            let j = choose|j: int| 0 <= j < rest.len() && #[trigger] rest[j] == (b, a);
            assert(raw[j] == rest[j]);
        }
        if has_edge(raw, a, b) && !has_edge(rest, a, b) {
            let j = choose|j: int| 0 <= j < raw.len() && #[trigger] raw[j] == (a, b);
            if j < last {
                assert(rest[j] == raw[j]);
            }
        }
        if has_edge(raw, b, a) && !has_edge(rest, b, a) {
            let j = choose|j: int| 0 <= j < raw.len() && #[trigger] raw[j] == (b, a);
            if j < last {
                assert(rest[j] == raw[j]);
            }
        }
    }
}

/// The undirected reading of a listing is symmetric.
pub proof fn lemma_undirected_symmetric(raw: Seq<(u64, u64)>)
    ensures
        symmetric(undirected(raw)),
{
    assert forall|a: u64, b: u64| #[trigger] has_edge(undirected(raw), a, b) implies has_edge(undirected(raw), b, a) by {
        lemma_undirected_has_edge(raw, a, b);
        lemma_undirected_has_edge(raw, b, a);
    }
}

/// A walk that starts with the edge `(u, x)` and goes on along a walk from `x`.
pub proof fn lemma_walk_cons(edges: Seq<(u64, u64)>, u: u64, p: Seq<u64>)
    requires
        is_walk(edges, p),
        has_edge(edges, u, p[0]),
    ensures
        is_walk(edges, seq![u] + p),
        (seq![u] + p)[0] == u,
        (seq![u] + p).last() == p.last(),
        (seq![u] + p).len() == p.len() + 1,
{
    let q = seq![u] + p;
    assert forall|i: int| 0 <= i < q.len() - 1 implies has_edge(edges, #[trigger] q[i], q[i + 1]) by {
        if i > 0 {
            assert(q[i] == p[i - 1]);
            assert(q[i + 1] == p[i]);
        }
    }
}

/// A walk from `u` to `w` followed by a walk from `w` to `v`.
pub proof fn lemma_walk_concat(edges: Seq<(u64, u64)>, p: Seq<u64>, q: Seq<u64>)
    requires
        is_walk(edges, p),
        is_walk(edges, q),
        p.last() == q[0],
    ensures
        is_walk(edges, p + q.drop_first()),
        (p + q.drop_first())[0] == p[0],
        (p + q.drop_first()).last() == q.last(),
{
    let r = p + q.drop_first();
    assert forall|i: int| 0 <= i < r.len() - 1 implies has_edge(edges, #[trigger] r[i], r[i + 1]) by {
        if i < p.len() - 1 {
            assert(r[i] == p[i] && r[i + 1] == p[i + 1]);
        } else if i == p.len() - 1 {
            assert(r[i] == q[0] && r[i + 1] == q[1]);
        } else {
            let t = i - p.len() + 1;
            assert(r[i] == q[t] && r[i + 1] == q[t + 1]);
        }
    }
}

/// A walk read backwards, over a symmetric relation.
pub proof fn lemma_walk_reverse(edges: Seq<(u64, u64)>, p: Seq<u64>)
    requires
        symmetric(edges),
        is_walk(edges, p),
    ensures
        is_walk(edges, Seq::new(p.len(), |i: int| p[p.len() - 1 - i])),
        Seq::new(p.len(), |i: int| p[p.len() - 1 - i])[0] == p.last(),
        Seq::new(p.len(), |i: int| p[p.len() - 1 - i]).last() == p[0],
{
    let r = Seq::new(p.len(), |i: int| p[p.len() - 1 - i]);
    assert forall|i: int| 0 <= i < r.len() - 1 implies has_edge(edges, #[trigger] r[i], r[i + 1]) by {
        let t = p.len() - 2 - i;
        assert(r[i] == p[t + 1] && r[i + 1] == p[t]);
        assert(has_edge(edges, p[t], p[t + 1]));
    }
}

/// Connection is symmetric and transitive over a symmetric relation.
pub proof fn lemma_connected_join(edges: Seq<(u64, u64)>, u: u64, w: u64, v: u64)
    requires
        symmetric(edges),
        connected(edges, w, u),
        connected(edges, w, v),
    ensures
        connected(edges, u, v),
{
    let p = choose|p: Seq<u64>| #[trigger] is_walk(edges, p) && p[0] == w && p.last() == u;
    let q = choose|q: Seq<u64>| #[trigger] is_walk(edges, q) && q[0] == w && q.last() == v;
    lemma_walk_reverse(edges, p);
    let r = Seq::new(p.len(), |i: int| p[p.len() - 1 - i]);
    lemma_walk_concat(edges, r, q);
    assert(is_walk(edges, r + q.drop_first()));
}

} // verus!
