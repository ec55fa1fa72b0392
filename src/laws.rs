//! What holds of every labelling run: labels never rise, both strategies
//! agree, a stopped run is stable and its labels are the connected
//! components, and the number of rounds is bounded by the graph's diameter.

use vstd::prelude::*;
use crate::adjacency::adjacency_of;
use crate::graph::{
    connected, edges_in_range, has_edge, is_walk, lemma_connected_join, lemma_undirected_in_range,
    lemma_undirected_symmetric, lemma_walk_cons, symmetric, undirected, within,
};
use crate::labels::{is_outcome, State};
use crate::relax::{
    broadcast_offers, join_offers, labels_after, lemma_broadcast_round, lemma_join_round,
    lemma_labels_after_bounded, lemma_neighbour_min, next_labels, round_changed, round_changes,
};

verus! {

/// After `k` rounds a node carries the id of a node at most `k` edges away.
proof fn lemma_label_within(edges: Seq<(u64, u64)>, n: nat, k: nat, u: u64)
    requires
        symmetric(edges),
        edges_in_range(edges, n),
        n <= u64::MAX,
        u < n,
    ensures
        within(edges, u, labels_after(edges, n, k)[u as int], k),
    decreases k,
{
    lemma_labels_after_bounded(edges, n, k);
    if k == 0 {
        let p = seq![u];
        assert(is_walk(edges, p));
    } else {
        let prev = labels_after(edges, n, (k - 1) as nat);
        lemma_labels_after_bounded(edges, n, (k - 1) as nat);
        lemma_neighbour_min(prev, edges, u);
        let m = labels_after(edges, n, k)[u as int];
        assert(m == next_labels(prev, edges)[u as int]);
        if m == prev[u as int] {
            lemma_label_within(edges, n, (k - 1) as nat, u);
            let p = choose|p: Seq<u64>|
                #[trigger] is_walk(edges, p) && p[0] == u && p.last() == m && p.len() <= k;
        } else {
            let j = choose|j: int|
                0 <= j < edges.len() && (#[trigger] edges[j]).1 == u && m == prev[edges[j].0 as int];
            let x = edges[j].0;
            assert(edges[j] == (x, u));
            assert(has_edge(edges, x, u));
            assert(has_edge(edges, u, x));
            lemma_label_within(edges, n, (k - 1) as nat, x);
            let p = choose|p: Seq<u64>|
                #[trigger] is_walk(edges, p) && p[0] == x && p.last() == m && p.len() <= k;
            lemma_walk_cons(edges, u, p);
            assert(is_walk(edges, seq![u] + p));
        }
    }
}

/// After `k` rounds no node at most `k` edges away has an id below the label.
proof fn lemma_label_least_within(edges: Seq<(u64, u64)>, n: nat, k: nat, u: u64, v: u64)
    requires
        symmetric(edges),
        edges_in_range(edges, n),
        n <= u64::MAX,
        u < n,
        within(edges, u, v, k),
    ensures
        labels_after(edges, n, k)[u as int] <= v,
    decreases k,
{
    let p = choose|p: Seq<u64>| #[trigger] is_walk(edges, p) && p[0] == u && p.last() == v && p.len() <= k + 1;
    if k == 0 {
        assert(p.len() == 1);
    } else {
        let prev = labels_after(edges, n, (k - 1) as nat);
        lemma_labels_after_bounded(edges, n, (k - 1) as nat);
        lemma_neighbour_min(prev, edges, u);
        assert(labels_after(edges, n, k)[u as int] == next_labels(prev, edges)[u as int]);
        if p.len() <= k {
            lemma_label_least_within(edges, n, (k - 1) as nat, u, v);
        } else {
            let x = p[1];
            assert(has_edge(edges, p[0], p[1]));
            assert(has_edge(edges, x, u));
            let j = choose|j: int| 0 <= j < edges.len() && #[trigger] edges[j] == (x, u);
            assert(edges[j].1 == u);
            let hj = choose|h: int| 0 <= h < edges.len() && #[trigger] edges[h] == (u, x);
            assert(edges[hj].1 < n);
            let q = p.drop_first();
            assert forall|i: int| 0 <= i < q.len() - 1 implies has_edge(edges, #[trigger] q[i], q[i + 1]) by {
                assert(q[i] == p[i + 1] && q[i + 1] == p[i + 2]);
            }
            assert(is_walk(edges, q));
            lemma_label_least_within(edges, n, (k - 1) as nat, x, v);
        }
    }
}

/// At a fixpoint the two ends of every edge carry one label.
proof fn lemma_fixpoint_edges(labels: Seq<u64>, edges: Seq<(u64, u64)>, a: u64, b: u64)
    requires
        next_labels(labels, edges) == labels,
        symmetric(edges),
        edges_in_range(edges, labels.len()),
        has_edge(edges, a, b),
    ensures
        labels[a as int] == labels[b as int],
{
    let j = choose|j: int| 0 <= j < edges.len() && #[trigger] edges[j] == (a, b);
    assert(edges[j].1 == b && b < labels.len() && a < labels.len());
    lemma_neighbour_min(labels, edges, b);
    assert(next_labels(labels, edges)[b as int] == labels[b as int]);
    assert(has_edge(edges, b, a));
    let h = choose|h: int| 0 <= h < edges.len() && #[trigger] edges[h] == (b, a);
    assert(edges[h].1 == a);
    lemma_neighbour_min(labels, edges, a);
    assert(next_labels(labels, edges)[a as int] == labels[a as int]);
}

/// At a fixpoint every node of a walk carries the label of its first node.
proof fn lemma_fixpoint_walk(labels: Seq<u64>, edges: Seq<(u64, u64)>, p: Seq<u64>)
    requires
        next_labels(labels, edges) == labels,
        symmetric(edges),
        edges_in_range(edges, labels.len()),
        is_walk(edges, p),
    ensures
        labels[p.last() as int] == labels[p[0] as int],
    decreases p.len(),
{
    if p.len() > 1 {
        let q = p.drop_last();
        assert forall|i: int| 0 <= i < q.len() - 1 implies has_edge(edges, #[trigger] q[i], q[i + 1]) by {
            assert(q[i] == p[i] && q[i + 1] == p[i + 1]);
        }
        lemma_fixpoint_walk(labels, edges, q);
        let t = p.len() - 2;
        assert(has_edge(edges, p[t], p[t + 1]));
        lemma_fixpoint_edges(labels, edges, p[t], p[t + 1]);
    }
}

/// A stopped run with budget left is at a fixpoint of the rounds.
proof fn lemma_outcome_fixpoint(s: State, raw: Seq<(u64, u64)>, n: nat, budget: usize)
    requires
        edges_in_range(raw, n),
        n <= u64::MAX,
        budget > 0,
        is_outcome(s, undirected(raw), n, budget),
        !s.progress.changed,
    ensures
        next_labels(s.component@, undirected(raw)) == s.component@,
        s.component@.len() == n,
{
    let edges = undirected(raw);
    let k = s.progress.iteration_count as nat;
    let prev = labels_after(edges, n, (k - 1) as nat);
    lemma_labels_after_bounded(edges, n, k);
    assert(labels_after(edges, n, k) == next_labels(prev, edges));
    assert(labels_after(edges, n, k) == prev);
}

/// Idempotence: once a run over a graph has stopped on a fixpoint (its flag
/// clear), one more iteration changes nothing under either strategy: the
/// round's change set is empty, so the flag stays clear, and the labels stay.
pub proof fn lemma_stopped_run_is_stable(s: State, raw: Seq<(u64, u64)>, n: nat, budget: usize)
    requires
        edges_in_range(raw, n),
        n <= u64::MAX,
        budget > 0,
        is_outcome(s, undirected(raw), n, budget),
        !s.progress.changed,
    ensures
        round_changes(join_offers(s.component@, undirected(raw)), s.component@).len() == 0,
        round_changes(broadcast_offers(s.component@, adjacency_of(undirected(raw)), n), s.component@).len() == 0,
        next_labels(s.component@, undirected(raw)) == s.component@,
{
    let edges = undirected(raw);
    lemma_outcome_fixpoint(s, raw, n, budget);
    lemma_undirected_in_range(raw, n);
    lemma_labels_after_bounded(edges, n, s.progress.iteration_count as nat);
    lemma_join_round(s.component@, edges);
    lemma_broadcast_round(s.component@, edges);
}

/// Monotonicity: from one round to the next no label rises.
pub proof fn lemma_labels_never_rise(raw: Seq<(u64, u64)>, n: nat, k: nat)
    requires
        n <= u64::MAX,
    ensures
        forall|i: int| 0 <= i < n ==>
            #[trigger] labels_after(undirected(raw), n, k + 1)[i] <= labels_after(undirected(raw), n, k)[i],
{
    let edges = undirected(raw);
    lemma_labels_after_bounded(edges, n, k);
    assert(labels_after(edges, n, k + 1) == next_labels(labels_after(edges, n, k), edges));
    assert forall|i: int| 0 <= i < n implies
        #[trigger] labels_after(edges, n, k + 1)[i] <= labels_after(edges, n, k)[i] by {
        lemma_neighbour_min(labels_after(edges, n, k), edges, i as u64);
    }
}

/// Equivalence classes: once a run has stopped on a fixpoint, two nodes
/// carry the same label exactly when a walk over the input edges, each
/// taken in either direction, joins them.
pub proof fn lemma_stopped_labels_are_components(
    s: State,
    raw: Seq<(u64, u64)>,
    n: nat,
    budget: usize,
    u: u64,
    v: u64,
)
    requires
        edges_in_range(raw, n),
        n <= u64::MAX,
        budget > 0,
        is_outcome(s, undirected(raw), n, budget),
        !s.progress.changed,
        u < n,
        v < n,
    ensures
        s.component@[u as int] == s.component@[v as int] <==> connected(undirected(raw), u, v),
{
    let edges = undirected(raw);
    let labels = s.component@;
    let k = s.progress.iteration_count as nat;
    lemma_outcome_fixpoint(s, raw, n, budget);
    lemma_undirected_in_range(raw, n);
    lemma_undirected_symmetric(raw);
    if connected(edges, u, v) {
        let p = choose|p: Seq<u64>| #[trigger] is_walk(edges, p) && p[0] == u && p.last() == v;
        lemma_fixpoint_walk(labels, edges, p);
    }
    if labels[u as int] == labels[v as int] {
        let c = labels[u as int];
        lemma_label_within(edges, n, k, u);
        lemma_label_within(edges, n, k, v);
        let p = choose|p: Seq<u64>| #[trigger] is_walk(edges, p) && p[0] == u && p.last() == c && p.len() <= k + 1;
        let q = choose|q: Seq<u64>| #[trigger] is_walk(edges, q) && q[0] == v && q.last() == c && q.len() <= k + 1;
        assert(connected(edges, u, c));
        assert(connected(edges, v, c));
        crate::graph::lemma_walk_reverse(edges, p);
        let r = Seq::new(p.len(), |i: int| p[p.len() - 1 - i]);
        assert(is_walk(edges, r) && r[0] == c && r.last() == u);
        assert(connected(edges, c, u));
        crate::graph::lemma_walk_reverse(edges, q);
        let t = Seq::new(q.len(), |i: int| q[q.len() - 1 - i]);
        assert(is_walk(edges, t) && t[0] == c && t.last() == v);
        assert(connected(edges, c, v));
        lemma_connected_join(edges, u, c, v);
    }
}

/// Strategy equivalence, round by round: on the labels of any round of a run
/// over any graph, the broadcast strategy makes exactly the changes of the
/// join strategy.
pub proof fn lemma_strategies_agree_on_rounds(raw: Seq<(u64, u64)>, n: nat, k: nat)
    requires
        edges_in_range(raw, n),
        n <= u64::MAX,
    ensures
        round_changes(
            broadcast_offers(labels_after(undirected(raw), n, k), adjacency_of(undirected(raw)), n),
            labels_after(undirected(raw), n, k),
        ) == round_changes(
            join_offers(labels_after(undirected(raw), n, k), undirected(raw)),
            labels_after(undirected(raw), n, k),
        ),
{
    let edges = undirected(raw);
    lemma_undirected_in_range(raw, n);
    lemma_labels_after_bounded(edges, n, k);
    lemma_broadcast_round(labels_after(edges, n, k), edges);
}

/// Strategy equivalence, for whole runs: two runs over one graph with one
/// budget end in the same state, labels, flag and counter alike; the runs of
/// both strategies end as `is_outcome` describes.
pub proof fn lemma_outcome_is_unique(a: State, b: State, raw: Seq<(u64, u64)>, n: nat, budget: usize)
    requires
        is_outcome(a, undirected(raw), n, budget),
        is_outcome(b, undirected(raw), n, budget),
    ensures
        a.component@ == b.component@,
        a.progress == b.progress,
{
    let edges = undirected(raw);
    let ka = a.progress.iteration_count as nat;
    let kb = b.progress.iteration_count as nat;
    if budget > 0 {
        if ka < kb {
            assert(round_changed(edges, n, ka));
        }
        if kb < ka {
            assert(round_changed(edges, n, kb));
        }
    }
}

/// Convergence bound: where every two connected nodes are joined by a walk
/// of at most `d` edges, the labels after `d` rounds are a fixpoint.
pub proof fn lemma_fixpoint_by_diameter(raw: Seq<(u64, u64)>, n: nat, d: nat)
    requires
        edges_in_range(raw, n),
        n <= u64::MAX,
        forall|u: u64, v: u64| u < n && v < n && #[trigger] connected(undirected(raw), u, v) ==>
            within(undirected(raw), u, v, d),
    ensures
        next_labels(labels_after(undirected(raw), n, d), undirected(raw)) == labels_after(undirected(raw), n, d),
        labels_after(undirected(raw), n, d + 1) == labels_after(undirected(raw), n, d),
{
    let edges = undirected(raw);
    lemma_undirected_in_range(raw, n);
    lemma_undirected_symmetric(raw);
    lemma_labels_after_bounded(edges, n, d);
    lemma_labels_after_bounded(edges, n, d + 1);
    lemma_labels_never_rise(raw, n, d);
    let now = labels_after(edges, n, d);
    let next = labels_after(edges, n, d + 1);
    assert(next == next_labels(now, edges));
    assert forall|i: int| 0 <= i < n implies #[trigger] next[i] == now[i] by {
        let u = i as u64;
        let m = next[i];
        lemma_label_within(edges, n, d + 1, u);
        let p = choose|p: Seq<u64>| #[trigger] is_walk(edges, p) && p[0] == u && p.last() == m && p.len() <= d + 2;
        assert(connected(edges, u, m));
        assert(m < n);
        lemma_label_least_within(edges, n, d, u, m);
    }
    assert(next =~= now);
}

/// Convergence bound for a run: with a budget above `d`, a run stops on a
/// fixpoint after at most `d + 1` iterations, the last of which only finds
/// that nothing changed.
#[verifier::spinoff_prover]
pub proof fn lemma_run_stops_by_diameter(s: State, raw: Seq<(u64, u64)>, n: nat, d: nat, budget: usize)
    requires
        edges_in_range(raw, n),
        n <= u64::MAX,
        forall|u: u64, v: u64| u < n && v < n && #[trigger] connected(undirected(raw), u, v) ==>
            within(undirected(raw), u, v, d),
        budget > d,
        is_outcome(s, undirected(raw), n, budget),
    ensures
        !s.progress.changed,
        s.progress.iteration_count <= d + 1,
{
    let edges = undirected(raw);
    lemma_fixpoint_by_diameter(raw, n, d);
    let k = s.progress.iteration_count as nat;
    let same = labels_after(edges, n, d + 1) == labels_after(edges, n, d);
    assert(same);
    assert(((d + 1) - 1) as nat == d);
    if k > d + 1 {
        assert(round_changed(edges, n, d + 1));
    }
    assert(k <= d + 1);
    if s.progress.changed {
        assert(k == d + 1);
    }
}

} // verus!
