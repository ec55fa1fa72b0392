//! One round of label propagation, stated over sequences: the candidates
//! that each strategy offers, their reduction by minimum, the improvement
//! filter and the fold; and the lemmas that tie them to the round's result.

use vstd::prelude::*;
use crate::adjacency::{adjacency_of, lemma_out_neighbours, neighbours_in_range};
use crate::graph::edges_in_range;

verus! {

/// The label of `y` after one round: the least of its own label and the
/// labels of the sources of the edges into `y`.
pub open spec fn neighbour_min(labels: Seq<u64>, edges: Seq<(u64, u64)>, y: u64) -> u64
    decreases edges.len(),
{
    if edges.len() == 0 {
        labels[y as int]
    } else {
        let m = neighbour_min(labels, edges.drop_last(), y);
        let (x, z) = edges.last();
        if z == y && labels[x as int] < m {
            labels[x as int]
        } else {
            m
        }
    }
}

/// All labels after one round.
pub open spec fn next_labels(labels: Seq<u64>, edges: Seq<(u64, u64)>) -> Seq<u64> {
    Seq::new(labels.len(), |i: int| neighbour_min(labels, edges, i as u64))
}

/// Every node starts in a component of its own, named by its id.
pub open spec fn initial_labels(n: nat) -> Seq<u64> {
    Seq::new(n, |i: int| i as u64)
}

/// The labels after `k` rounds.
pub open spec fn labels_after(edges: Seq<(u64, u64)>, n: nat, k: nat) -> Seq<u64>
    decreases k,
{
    if k == 0 {
        initial_labels(n)
    } else {
        next_labels(labels_after(edges, n, (k - 1) as nat), edges)
    }
}

/// Round `j` changed some label.
pub open spec fn round_changed(edges: Seq<(u64, u64)>, n: nat, j: nat) -> bool {
    labels_after(edges, n, j) != labels_after(edges, n, (j - 1) as nat)
}

/// No label exceeds its node's id.
pub open spec fn labels_bounded(labels: Seq<u64>) -> bool {
    forall|i: int| 0 <= i < labels.len() ==> #[trigger] labels[i] <= i
}

/// The join strategy's candidates: for the `k`-th edge `(x, y)`, the pair
/// `(y, label of x)`.
pub open spec fn join_offers(labels: Seq<u64>, edges: Seq<(u64, u64)>) -> Seq<(u64, u64)> {
    Seq::new(edges.len(), |k: int| (edges[k].1, labels[edges[k].0 as int]))
}

/// The pairs `(y, c)` for the neighbours `y` of a node labelled `c` that
/// `c` could lower, in the order of `ns`.
pub open spec fn offers_from(c: u64, ns: Seq<u64>) -> Seq<(u64, u64)>
    decreases ns.len(),
{
    if ns.len() == 0 {
        Seq::empty()
    } else {
        let rest = offers_from(c, ns.drop_last());
        if c < ns.last() {
            rest.push((ns.last(), c))
        } else {
            rest
        }
    }
}

/// The broadcast strategy's candidates: node by node, the offers of each of
/// the first `n` nodes to its neighbours.
pub open spec fn broadcast_offers(labels: Seq<u64>, adj: Map<u64, Seq<u64>>, n: nat) -> Seq<(u64, u64)>
    decreases n,
{
    if n == 0 {
        Seq::empty()
    } else {
        let rest = broadcast_offers(labels, adj, (n - 1) as nat);
        let x = (n - 1) as u64;
        if adj.contains_key(x) {
            rest + offers_from(labels[n - 1], adj[x])
        } else {
            rest
        }
    }
}

/// The least candidate value offered to `y`, if any.
pub open spec fn least_offer(offers: Seq<(u64, u64)>, y: u64) -> Option<u64>
    decreases offers.len(),
{
    if offers.len() == 0 {
        None
    } else {
        let rest = least_offer(offers.drop_last(), y);
        let (z, c) = offers.last();
        if z != y {
            rest
        } else {
            match rest {
                Some(m) => if c < m { Some(c) } else { Some(m) },
                None => Some(c),
            }
        }
    }
}

/// The reduced batch: one pair `(y, least offer to y)` for each `y < n`
/// that received an offer, in increasing order of `y`.
pub open spec fn reduced(offers: Seq<(u64, u64)>, n: nat) -> Seq<(u64, u64)>
    decreases n,
{
    if n == 0 {
        Seq::empty()
    } else {
        let rest = reduced(offers, (n - 1) as nat);
        match least_offer(offers, (n - 1) as u64) {
            Some(m) => rest.push(((n - 1) as u64, m)),
            None => rest,
        }
    }
}

/// The pairs that strictly lower their node's label, in order.
pub open spec fn improving(pairs: Seq<(u64, u64)>, labels: Seq<u64>) -> Seq<(u64, u64)>
    decreases pairs.len(),
{
    if pairs.len() == 0 {
        Seq::empty()
    } else {
        let rest = improving(pairs.drop_last(), labels);
        let (x, c) = pairs.last();
        if c < labels[x as int] {
            rest.push((x, c))
        } else {
            rest
        }
    }
}

/// The labels after assigning each change in order.
pub open spec fn apply_changes(labels: Seq<u64>, changes: Seq<(u64, u64)>) -> Seq<u64>
    decreases changes.len(),
{
    if changes.len() == 0 {
        labels
    } else {
        apply_changes(labels, changes.drop_last()).update(changes.last().0 as int, changes.last().1)
    }
}

/// The changes of one round, given the round's candidates.
pub open spec fn round_changes(offers: Seq<(u64, u64)>, labels: Seq<u64>) -> Seq<(u64, u64)> {
    improving(reduced(offers, labels.len()), labels)
}

/// The label that `y` ends the round with, given the round's candidates.
pub open spec fn improved_value(offers: Seq<(u64, u64)>, labels: Seq<u64>, y: u64) -> u64 {
    match least_offer(offers, y) {
        Some(m) => if m < labels[y as int] { m } else { labels[y as int] },
        None => labels[y as int],
    }
}

/// `offers` holds the pair `(y, c)`.
pub open spec fn offered(offers: Seq<(u64, u64)>, y: u64, c: u64) -> bool {
    exists|k: int| 0 <= k < offers.len() && #[trigger] offers[k] == (y, c)
}

/// The least offer is offered, and no offer to `y` is smaller; there is none
/// exactly when nothing is offered to `y`.
pub proof fn lemma_least_offer(offers: Seq<(u64, u64)>, y: u64)
    ensures
        least_offer(offers, y) is None <==> forall|k: int| 0 <= k < offers.len() ==> (#[trigger] offers[k]).0 != y,
        least_offer(offers, y) matches Some(m) ==> offered(offers, y, m),
        least_offer(offers, y) matches Some(m) ==> forall|k: int|
            0 <= k < offers.len() && (#[trigger] offers[k]).0 == y ==> m <= offers[k].1,
    decreases offers.len(),
{
    if offers.len() > 0 {
        let rest = offers.drop_last();
        lemma_least_offer(rest, y);
        let last = offers.len() - 1;
        assert forall|k: int| 0 <= k < rest.len() implies rest[k] == offers[k] by {}
        if let Some(m) = least_offer(offers, y) {
            if least_offer(rest, y) == Some(m) {
                let k = choose|k: int| 0 <= k < rest.len() && #[trigger] rest[k] == (y, m);
                assert(offers[k] == (y, m));
            } else {
                assert(offers[last] == (y, m));
            }
        }
    }
}

/// A joined edge list offers `y` what the rounds's neighbour minimum says.
pub proof fn lemma_join_offers(labels: Seq<u64>, edges: Seq<(u64, u64)>, y: u64)
    requires
        edges_in_range(edges, labels.len()),
        y < labels.len(),
    ensures
        improved_value(join_offers(labels, edges), labels, y) == neighbour_min(labels, edges, y),
    decreases edges.len(),
{
    if edges.len() > 0 {
        let rest = edges.drop_last();
        assert(edges_in_range(rest, labels.len())) by {
            assert forall|j: int| 0 <= j < rest.len() implies (#[trigger] rest[j]).0 < labels.len()
                && rest[j].1 < labels.len() by {
                assert(rest[j] == edges[j]);
            }
        }
        lemma_join_offers(labels, rest, y);
        assert(join_offers(labels, edges).drop_last() =~= join_offers(labels, rest));
        let last = edges.len() - 1;
        assert(edges[last] == edges.last());
    }
}

/// Filtering a reduced batch of `k` nodes and folding it in gives each of
/// those nodes its improved value and leaves the others; the batch is empty
/// exactly when no improved value differs from the label.
pub proof fn lemma_fold_reduced(offers: Seq<(u64, u64)>, labels: Seq<u64>, k: nat)
    requires
        k <= labels.len(),
        labels.len() <= u64::MAX,
    ensures
        apply_changes(labels, improving(reduced(offers, k), labels)) == Seq::new(
            labels.len(),
            |y: int| if y < k { improved_value(offers, labels, y as u64) } else { labels[y] },
        ),
        improving(reduced(offers, k), labels).len() == 0 <==> forall|y: int|
            0 <= y < k ==> #[trigger] improved_value(offers, labels, y as u64) == labels[y],
        forall|j: int| 0 <= j < improving(reduced(offers, k), labels).len() ==>
            (#[trigger] improving(reduced(offers, k), labels)[j]).0 < k,
    decreases k,
{
    let f = Seq::new(
        labels.len(),
        |y: int| if y < k { improved_value(offers, labels, y as u64) } else { labels[y] },
    );
    if k == 0 {
        assert(apply_changes(labels, Seq::empty()) =~= f);
    } else {
        let p = (k - 1) as nat;
        lemma_fold_reduced(offers, labels, p);
        let prev = reduced(offers, p);
        let y = p as u64;
        assert(y as int == p);
        match least_offer(offers, y) {
            Some(m) => {
                assert(reduced(offers, k) == prev.push((y, m)));
                assert(prev.push((y, m)).drop_last() == prev);
                if m < labels[p as int] {
                    let imp = improving(prev, labels);
                    assert(improving(reduced(offers, k), labels) == imp.push((y, m)));
                    assert(imp.push((y, m)).drop_last() == imp);
                    assert(apply_changes(labels, imp.push((y, m))) =~= f);
                    assert(improved_value(offers, labels, (p as int) as u64) != labels[p as int]);
                } else {
                    assert(improving(reduced(offers, k), labels) == improving(prev, labels));
                    assert(apply_changes(labels, improving(prev, labels)) =~= f);
                    assert(improved_value(offers, labels, (p as int) as u64) == labels[p as int]);
                }
            },
            None => {
                assert(apply_changes(labels, improving(prev, labels)) =~= f);
                assert(improved_value(offers, labels, (p as int) as u64) == labels[p as int]);
            },
        }
    }
}

/// The round's changes, folded in, give the next labels; there are none
/// exactly at a fixpoint.
pub proof fn lemma_join_round(labels: Seq<u64>, edges: Seq<(u64, u64)>)
    requires
        edges_in_range(edges, labels.len()),
        labels.len() <= u64::MAX,
    ensures
        apply_changes(labels, round_changes(join_offers(labels, edges), labels)) == next_labels(labels, edges),
        round_changes(join_offers(labels, edges), labels).len() == 0 <==> next_labels(labels, edges) == labels,
        forall|j: int| 0 <= j < round_changes(join_offers(labels, edges), labels).len() ==>
            (#[trigger] round_changes(join_offers(labels, edges), labels)[j]).0 < labels.len(),
{
    let offers = join_offers(labels, edges);
    lemma_fold_reduced(offers, labels, labels.len());
    assert forall|y: int| 0 <= y < labels.len() implies
        #[trigger] improved_value(offers, labels, y as u64) == neighbour_min(labels, edges, y as u64) by {
        lemma_join_offers(labels, edges, y as u64);
    }
    assert(apply_changes(labels, round_changes(offers, labels)) =~= next_labels(labels, edges));
    if next_labels(labels, edges) == labels {
        assert forall|y: int| 0 <= y < labels.len() implies
            #[trigger] improved_value(offers, labels, y as u64) == labels[y] by {
            assert(next_labels(labels, edges)[y] == labels[y]);
        }
    }
    if round_changes(offers, labels).len() == 0 {
        assert(next_labels(labels, edges) =~= labels);
    }
}

proof fn lemma_offered_push(a: Seq<(u64, u64)>, p: (u64, u64), y: u64, c: u64)
    ensures
        offered(a.push(p), y, c) <==> offered(a, y, c) || p == (y, c),
{
    let b = a.push(p);
    if offered(a, y, c) {
        let k = choose|k: int| 0 <= k < a.len() && #[trigger] a[k] == (y, c);
        assert(b[k] == a[k]);
    }
    if p == (y, c) {
        assert(b[a.len() as int] == p);
    }
    if offered(b, y, c) && p != (y, c) {
        let k = choose|k: int| 0 <= k < b.len() && #[trigger] b[k] == (y, c);
        assert(a[k] == b[k]);
    }
}

proof fn lemma_offered_concat(a: Seq<(u64, u64)>, b: Seq<(u64, u64)>, y: u64, c: u64)
    ensures
        offered(a + b, y, c) <==> offered(a, y, c) || offered(b, y, c),
{
    let s = a + b;
    if offered(a, y, c) {
        let k = choose|k: int| 0 <= k < a.len() && #[trigger] a[k] == (y, c);
        assert(s[k] == a[k]);
    }
    if offered(b, y, c) {
        let k = choose|k: int| 0 <= k < b.len() && #[trigger] b[k] == (y, c);
        assert(s[a.len() + k] == b[k]);
    }
    if offered(s, y, c) {
        let k = choose|k: int| 0 <= k < s.len() && #[trigger] s[k] == (y, c);
        if k < a.len() {
            assert(a[k] == s[k]);
        } else {
            assert(b[k - a.len()] == s[k]);
        }
    }
}

/// A node labelled `c` offers `c` to exactly those listed neighbours above `c`.
proof fn lemma_offers_from(c: u64, ns: Seq<u64>, y: u64, w: u64)
    ensures
        offered(offers_from(c, ns), y, w) <==> (w == c && c < y && ns.contains(y)),
    decreases ns.len(),
{
    if ns.len() > 0 {
        let rest = ns.drop_last();
        lemma_offers_from(c, rest, y, w);
        let last = ns.len() - 1;
        assert(ns[last] == ns.last());
        if c < ns.last() {
            lemma_offered_push(offers_from(c, rest), (ns.last(), c), y, w);
        }
        if rest.contains(y) {
            let k = choose|k: int| 0 <= k < rest.len() && rest[k] == y;
            assert(ns[k] == rest[k]);
        }
        if ns.contains(y) && !rest.contains(y) {
            let k = choose|k: int| 0 <= k < ns.len() && ns[k] == y;
            if k < last {
                assert(rest[k] == ns[k]);
            }
        }
    }
}

/// What the broadcast strategy offers: the label of some node among the
/// first `n` to a listed neighbour above that label.
proof fn lemma_broadcast_offers(labels: Seq<u64>, adj: Map<u64, Seq<u64>>, n: nat, y: u64, w: u64)
    requires
        n <= labels.len(),
        labels.len() <= u64::MAX,
    ensures
        offered(broadcast_offers(labels, adj, n), y, w) <==> exists|x: int|
            0 <= x < n && adj.contains_key(x as u64) && #[trigger] adj[x as u64].contains(y)
                && w == labels[x] && w < y,
    decreases n,
{
    if n > 0 {
        let p = (n - 1) as nat;
        lemma_broadcast_offers(labels, adj, p, y, w);
        let rest = broadcast_offers(labels, adj, p);
        let x0 = p as u64;
        assert(x0 as int == p);
        if adj.contains_key(x0) {
            lemma_offered_concat(rest, offers_from(labels[p as int], adj[x0]), y, w);
            lemma_offers_from(labels[p as int], adj[x0], y, w);
        }
        if offered(broadcast_offers(labels, adj, n), y, w) && !offered(rest, y, w) {
            assert(adj.contains_key((p as int) as u64) && adj[(p as int) as u64].contains(y));
        }
        if exists|x: int|
            0 <= x < n && adj.contains_key(x as u64) && #[trigger] adj[x as u64].contains(y)
                && w == labels[x] && w < y {
            let x = choose|x: int|
                0 <= x < n && adj.contains_key(x as u64) && #[trigger] adj[x as u64].contains(y)
                    && w == labels[x] && w < y;
            if x < p {
                assert(offered(rest, y, w));
            }
        }
    }
}

/// Both strategies lead every node to the same value in a round, when no
/// label exceeds its node's id.
proof fn lemma_same_improved_value(labels: Seq<u64>, edges: Seq<(u64, u64)>, y: u64)
    requires
        labels_bounded(labels),
        edges_in_range(edges, labels.len()),
        labels.len() <= u64::MAX,
        y < labels.len(),
    ensures
        improved_value(broadcast_offers(labels, adjacency_of(edges), labels.len()), labels, y)
            == improved_value(join_offers(labels, edges), labels, y),
{
    let n = labels.len();
    let adj = adjacency_of(edges);
    let jo = join_offers(labels, edges);
    let bo = broadcast_offers(labels, adj, n);
    lemma_least_offer(jo, y);
    lemma_least_offer(bo, y);
    // every broadcast offer is a joined one
    assert forall|w: u64| offered(bo, y, w) implies offered(jo, y, w) by {
        lemma_broadcast_offers(labels, adj, n, y, w);
        let x = choose|x: int|
            0 <= x < n && adj.contains_key(x as u64) && #[trigger] adj[x as u64].contains(y)
                && w == labels[x] && w < y;
        lemma_out_neighbours(edges, x as u64, y);
        let j = choose|j: int| 0 <= j < edges.len() && #[trigger] edges[j] == (x as u64, y);
        assert(jo[j] == (y, w));
    }
    // a joined offer below `y` is a broadcast one
    assert forall|w: u64| offered(jo, y, w) && w < y implies offered(bo, y, w) by {
        let k = choose|k: int| 0 <= k < jo.len() && #[trigger] jo[k] == (y, w);
        let x = edges[k].0;
        assert(edges[k] == (x, y));
        assert(adj.contains_key(x));
        lemma_out_neighbours(edges, x, y);
        assert(adj[x].contains(y));
        lemma_broadcast_offers(labels, adj, n, y, w);
        assert((x as int) as u64 == x);
    }
    let ly = labels[y as int];
    assert(ly <= y);
    match least_offer(jo, y) {
        Some(m) => {
            if m < ly {
                assert(offered(bo, y, m));
                let k = choose|k: int| 0 <= k < bo.len() && #[trigger] bo[k] == (y, m);
                assert(bo[k].0 == y);
                let b = least_offer(bo, y).unwrap();
                assert(offered(jo, y, b));
                let kb = choose|k: int| 0 <= k < jo.len() && #[trigger] jo[k] == (y, b);
                assert(jo[kb].0 == y);
            } else {
                if let Some(b) = least_offer(bo, y) {
                    assert(offered(jo, y, b));
                    let kb = choose|k: int| 0 <= k < jo.len() && #[trigger] jo[k] == (y, b);
                    assert(jo[kb].0 == y);
                }
            }
        },
        None => {
            if let Some(b) = least_offer(bo, y) {
                assert(offered(jo, y, b));
                let kb = choose|k: int| 0 <= k < jo.len() && #[trigger] jo[k] == (y, b);
                assert(jo[kb].0 == y);
            }
        },
    }
}

/// Reduced batches whose nodes all end on the same value filter to the same
/// changes.
proof fn lemma_reduced_congruent(a: Seq<(u64, u64)>, b: Seq<(u64, u64)>, labels: Seq<u64>, k: nat)
    requires
        k <= labels.len(),
        labels.len() <= u64::MAX,
        forall|y: int| 0 <= y < k ==>
            improved_value(a, labels, y as u64) == #[trigger] improved_value(b, labels, y as u64),
    ensures
        improving(reduced(a, k), labels) == improving(reduced(b, k), labels),
    decreases k,
{
    if k > 0 {
        let p = (k - 1) as nat;
        lemma_reduced_congruent(a, b, labels, p);
        let y = p as u64;
        assert(y as int == p);
        assert(improved_value(a, labels, (p as int) as u64) == improved_value(b, labels, (p as int) as u64));
        let pa = reduced(a, p);
        let pb = reduced(b, p);
        if let Some(m) = least_offer(a, y) {
            assert(pa.push((y, m)).drop_last() == pa);
        }
        if let Some(m) = least_offer(b, y) {
            assert(pb.push((y, m)).drop_last() == pb);
        }
    }
}

/// The broadcast strategy's round makes the same changes as the join
/// strategy's, when no label exceeds its node's id.
pub proof fn lemma_broadcast_round(labels: Seq<u64>, edges: Seq<(u64, u64)>)
    requires
        labels_bounded(labels),
        edges_in_range(edges, labels.len()),
        labels.len() <= u64::MAX,
    ensures
        round_changes(broadcast_offers(labels, adjacency_of(edges), labels.len()), labels)
            == round_changes(join_offers(labels, edges), labels),
{
    let bo = broadcast_offers(labels, adjacency_of(edges), labels.len());
    let jo = join_offers(labels, edges);
    assert forall|y: int| 0 <= y < labels.len() implies
        improved_value(bo, labels, y as u64) == #[trigger] improved_value(jo, labels, y as u64) by {
        lemma_same_improved_value(labels, edges, y as u64);
    }
    lemma_reduced_congruent(bo, jo, labels, labels.len());
}

/// The round's value of `y` is at most its label and at most the label of
/// each source of an edge into `y`, and it is one of those labels.
pub proof fn lemma_neighbour_min(labels: Seq<u64>, edges: Seq<(u64, u64)>, y: u64)
    ensures
        neighbour_min(labels, edges, y) <= labels[y as int],
        forall|j: int| 0 <= j < edges.len() && (#[trigger] edges[j]).1 == y ==>
            neighbour_min(labels, edges, y) <= labels[edges[j].0 as int],
        neighbour_min(labels, edges, y) == labels[y as int] || exists|j: int|
            0 <= j < edges.len() && (#[trigger] edges[j]).1 == y
                && neighbour_min(labels, edges, y) == labels[edges[j].0 as int],
    decreases edges.len(),
{
    if edges.len() > 0 {
        let rest = edges.drop_last();
        lemma_neighbour_min(labels, rest, y);
        let last = edges.len() - 1;
        assert(edges[last] == edges.last());
        assert forall|j: int| 0 <= j < rest.len() implies rest[j] == edges[j] by {}
        if neighbour_min(labels, rest, y) != labels[y as int]
            && neighbour_min(labels, edges, y) == neighbour_min(labels, rest, y) {
            let j = choose|j: int|
                0 <= j < rest.len() && (#[trigger] rest[j]).1 == y
                    && neighbour_min(labels, rest, y) == labels[rest[j].0 as int];
            assert(edges[j] == rest[j]);
        }
    }
}

/// Labels stay within their node's id from round to round.
pub proof fn lemma_next_bounded(labels: Seq<u64>, edges: Seq<(u64, u64)>)
    requires
        labels_bounded(labels),
    ensures
        labels_bounded(next_labels(labels, edges)),
        next_labels(labels, edges).len() == labels.len(),
{
    assert forall|i: int| 0 <= i < labels.len() implies #[trigger] next_labels(labels, edges)[i] <= i by {
        lemma_neighbour_min(labels, edges, i as u64);
    }
}

/// After any number of rounds there are `n` labels, none above its id.
pub proof fn lemma_labels_after_bounded(edges: Seq<(u64, u64)>, n: nat, k: nat)
    requires
        n <= u64::MAX + 1,
    ensures
        labels_after(edges, n, k).len() == n,
        labels_bounded(labels_after(edges, n, k)),
    decreases k,
{
    if k > 0 {
        lemma_labels_after_bounded(edges, n, (k - 1) as nat);
        lemma_next_bounded(labels_after(edges, n, (k - 1) as nat), edges);
    }
}

/// Every broadcast offer goes to a listed neighbour.
pub proof fn lemma_broadcast_targets(labels: Seq<u64>, adj: Map<u64, Seq<u64>>)
    requires
        labels.len() <= u64::MAX,
        neighbours_in_range(adj, labels.len()),
    ensures
        forall|k: int| 0 <= k < broadcast_offers(labels, adj, labels.len()).len() ==>
            (#[trigger] broadcast_offers(labels, adj, labels.len())[k]).0 < labels.len(),
{
    let bo = broadcast_offers(labels, adj, labels.len());
    assert forall|k: int| 0 <= k < bo.len() implies (#[trigger] bo[k]).0 < labels.len() by {
        let (y, w) = bo[k];
        assert(offered(bo, y, w));
        lemma_broadcast_offers(labels, adj, labels.len(), y, w);
        let x = choose|x: int|
            0 <= x < labels.len() && adj.contains_key(x as u64) && #[trigger] adj[x as u64].contains(y)
                && w == labels[x] && w < y;
        let i = choose|i: int| 0 <= i < adj[x as u64].len() && #[trigger] adj[x as u64][i] == y;
    }
}

/// A reduced batch of `k` nodes names only nodes below `k`.
pub proof fn lemma_reduced_targets(offers: Seq<(u64, u64)>, k: nat)
    requires
        k <= u64::MAX + 1,
    ensures
        forall|j: int| 0 <= j < reduced(offers, k).len() ==> (#[trigger] reduced(offers, k)[j]).0 < k,
    decreases k,
{
    if k > 0 {
        let p = (k - 1) as nat;
        lemma_reduced_targets(offers, p);
        let prev = reduced(offers, p);
        if let Some(m) = least_offer(offers, p as u64) {
            assert forall|j: int| 0 <= j < reduced(offers, k).len() implies
                (#[trigger] reduced(offers, k)[j]).0 < k by {
                if j < prev.len() {
                    assert(reduced(offers, k)[j] == prev[j]);
                }
            }
        }
    }
}

} // verus!
