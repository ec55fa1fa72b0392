//! Connected-components labelling: the global label state, the stages of a
//! round under either strategy, and the iteration loop.

use vstd::prelude::*;
use crate::adjacency::{lemma_adjacency_in_range, neighbours_in_range, Adjacency};
use crate::coordinator::{Coordinator, Phase};
use crate::graph::{
    edges_in_range, graph_error, lemma_no_edge_error, lemma_undirected_in_range, symmetric_edges,
    undirected, validate, GraphError,
};
use crate::relax::{
    apply_changes, broadcast_offers, improving, initial_labels, join_offers, labels_after,
    labels_bounded, least_offer, lemma_broadcast_round, lemma_broadcast_targets, lemma_join_round,
    lemma_labels_after_bounded, lemma_reduced_targets, next_labels, offers_from, reduced,
    round_changed, round_changes,
};

verus! {

/// The global state of a labelling run: one label per node and the
/// coordinator's flag and counters.
pub struct State {
    pub component: Vec<u64>,
    pub progress: Coordinator,
}

/// The join strategy's candidates: for each edge `(x, y)`, in order, the
/// pair `(y, label of x)`.
pub fn join_candidates(labels: &Vec<u64>, edges: &Vec<(u64, u64)>) -> (r: Vec<(u64, u64)>)
    requires
        edges_in_range(edges@, labels@.len()),
    ensures
        r@ == join_offers(labels@, edges@),
{
    let mut r: Vec<(u64, u64)> = Vec::new();
    let mut k: usize = 0;
    while k < edges.len()
        invariant
            k <= edges.len(),
            edges_in_range(edges@, labels@.len()),
            r.len() == k,
            forall|i: int| 0 <= i < k ==> #[trigger] r@[i] == (edges@[i].1, labels@[edges@[i].0 as int]),
        decreases edges.len() - k,
    {
        let (x, y) = edges[k];
        assert(edges@[k as int].0 < labels.len());
        r.push((y, labels[x as usize]));
        k = k + 1;
    }
    assert(r@ =~= join_offers(labels@, edges@));
    r
}

/// The broadcast strategy's candidates: node by node, a node labelled `c`
/// offers `c` to each listed neighbour whose id is above `c` (a neighbour
/// with a smaller id already has a label below `c`).
pub fn broadcast_candidates(labels: &Vec<u64>, adj: &Adjacency) -> (r: Vec<(u64, u64)>)
    ensures
        r@ == broadcast_offers(labels@, adj@, labels.len() as nat),
{
    let mut r: Vec<(u64, u64)> = Vec::new();
    let mut x: usize = 0;
    while x < labels.len()
        invariant
            x <= labels.len(),
            r@ == broadcast_offers(labels@, adj@, x as nat),
        decreases labels.len() - x,
    {
        let c = labels[x];
        let ghost base = r@;
        assert((x as u64) as int == x);
        match adj.neighbours(x as u64) {
            Some(ns) => {
                let mut i: usize = 0;
                while i < ns.len()
                    invariant
                        i <= ns.len(),
                        r@ == base + offers_from(c, ns@.subrange(0, i as int)),
                    decreases ns.len() - i,
                {
                    let y = ns[i];
                    let ghost before = ns@.subrange(0, i as int);
                    assert(ns@.subrange(0, i + 1).drop_last() == before);
                    assert(ns@.subrange(0, i + 1).last() == y);
                    if c < y {
                        r.push((y, c));
                        assert(r@ =~= base + offers_from(c, ns@.subrange(0, i + 1)));
                    }
                    i = i + 1;
                }
                assert(ns@.subrange(0, ns.len() as int) == ns@);
            },
            None => {},
        }
        x = x + 1;
    }
    r
}

/// The reducer: one pair `(y, least candidate for y)` for each node `y`
/// that received a candidate, in increasing order of `y`; ties and arrival
/// order do not matter.
pub fn reduce_min(cands: &Vec<(u64, u64)>, n: usize) -> (r: Vec<(u64, u64)>)
    requires
        forall|k: int| 0 <= k < cands.len() ==> (#[trigger] cands@[k]).0 < n,
    ensures
        r@ == reduced(cands@, n as nat),
{
    let mut best: Vec<Option<u64>> = Vec::new();
    while best.len() < n
        invariant
            best.len() <= n,
            forall|y: int| 0 <= y < best.len() ==> best@[y] is None,
        decreases n - best.len(),
    {
        best.push(None);
    }
    let mut k: usize = 0;
    while k < cands.len()
        invariant
            k <= cands.len(),
            best.len() == n,
            forall|j: int| 0 <= j < cands.len() ==> (#[trigger] cands@[j]).0 < n,
            forall|y: int| 0 <= y < n ==>
                #[trigger] best@[y] == least_offer(cands@.subrange(0, k as int), y as u64),
        decreases cands.len() - k,
    {
        let (y, c) = cands[k];
        let ghost before = cands@.subrange(0, k as int);
        let ghost upto = cands@.subrange(0, k + 1);
        assert(upto.drop_last() == before);
        assert(upto.last() == (y, c));
        assert(cands@[k as int].0 < n);
        let yi = y as usize;
        let merged = match best[yi] {
            Some(m) => if c < m { c } else { m },
            None => c,
        };
        best.set(yi, Some(merged));
        assert forall|z: int| 0 <= z < n implies #[trigger] best@[z] == least_offer(upto, z as u64) by {
            assert((z as u64) as int == z);
        }
        k = k + 1;
    }
    assert(cands@.subrange(0, cands.len() as int) == cands@);
    let mut r: Vec<(u64, u64)> = Vec::new();
    let mut y: usize = 0;
    while y < n
        invariant
            y <= n,
            best.len() == n,
            forall|z: int| 0 <= z < n ==> #[trigger] best@[z] == least_offer(cands@, z as u64),
            r@ == reduced(cands@, y as nat),
        decreases n - y,
    {
        assert(((y + 1) - 1) as u64 == y as u64);
        match best[y] {
            Some(m) => {
                r.push((y as u64, m));
            },
            None => {},
        }
        y = y + 1;
    }
    r
}

/// The improvement filter: keeps, in order, the pairs whose value is below
/// the node's current label.
pub fn keep_improvements(pairs: &Vec<(u64, u64)>, labels: &Vec<u64>) -> (r: Vec<(u64, u64)>)
    requires
        forall|k: int| 0 <= k < pairs.len() ==> (#[trigger] pairs@[k]).0 < labels.len(),
    ensures
        r@ == improving(pairs@, labels@),
{
    let mut r: Vec<(u64, u64)> = Vec::new();
    let mut k: usize = 0;
    while k < pairs.len()
        invariant
            k <= pairs.len(),
            forall|j: int| 0 <= j < pairs.len() ==> (#[trigger] pairs@[j]).0 < labels.len(),
            r@ == improving(pairs@.subrange(0, k as int), labels@),
        decreases pairs.len() - k,
    {
        let (x, c) = pairs[k];
        assert(pairs@.subrange(0, k + 1).drop_last() == pairs@.subrange(0, k as int));
        assert(pairs@.subrange(0, k + 1).last() == (x, c));
        assert(pairs@[k as int].0 < labels.len());
        if c < labels[x as usize] {
            r.push((x, c));
        }
        k = k + 1;
    }
    assert(pairs@.subrange(0, pairs.len() as int) == pairs@);
    r
}

/// One round of the join strategy: the changes that lower a label.
pub fn join_round(labels: &Vec<u64>, edges: &Vec<(u64, u64)>) -> (r: Vec<(u64, u64)>)
    requires
        edges_in_range(edges@, labels@.len()),
    ensures
        r@ == round_changes(join_offers(labels@, edges@), labels@),
{
    let cands = join_candidates(labels, edges);
    assert forall|k: int| 0 <= k < cands.len() implies (#[trigger] cands@[k]).0 < labels.len() by {
        assert(cands@[k].0 == edges@[k].1);
    }
    let best = reduce_min(&cands, labels.len());
    proof { lemma_reduced_targets(cands@, labels.len() as nat); }
    keep_improvements(&best, labels)
}

/// One round of the broadcast strategy: the changes that lower a label.
pub fn broadcast_round(labels: &Vec<u64>, adj: &Adjacency) -> (r: Vec<(u64, u64)>)
    requires
        neighbours_in_range(adj@, labels@.len()),
    ensures
        r@ == round_changes(broadcast_offers(labels@, adj@, labels@.len()), labels@),
{
    let cands = broadcast_candidates(labels, adj);
    proof { lemma_broadcast_targets(labels@, adj@); }
    let best = reduce_min(&cands, labels.len());
    proof { lemma_reduced_targets(cands@, labels.len() as nat); }
    keep_improvements(&best, labels)
}

/// How a run over `edges` with `n` nodes and the given budget ends: stopped
/// after `k` rounds with the labels of round `k`, where `k` is the first
/// round that changed nothing, or the budget if every round changed
/// something; the flag tells which.
pub open spec fn is_outcome(s: State, edges: Seq<(u64, u64)>, n: nat, budget: usize) -> bool {
    let k = s.progress.iteration_count as nat;
    &&& s.progress.phase == Phase::Stopped
    &&& s.progress.budget == budget
    &&& k <= budget
    &&& s.component@ == labels_after(edges, n, k)
    &&& budget == 0 ==> k == 0 && !s.progress.changed
    &&& budget > 0 ==> {
        &&& 1 <= k
        &&& s.progress.changed == round_changed(edges, n, k)
        &&& s.progress.changed ==> k == budget
        &&& forall|j: nat| 1 <= j < k ==>
            #[trigger] round_changed(edges, n, j)
    }
}

impl State {
    /// Each node in a component of its own, the coordinator fresh.
    pub fn new(num_nodes: usize, budget: usize) -> (r: State)
        ensures
            r.component@ == initial_labels(num_nodes as nat),
            r.progress.wf(),
            r.progress.budget == budget,
            r.progress.iteration_count == 0,
            !r.progress.changed,
            r.progress.phase == (if budget == 0 { Phase::Stopped } else { Phase::Running }),
    {
        let mut component: Vec<u64> = Vec::new();
        let mut i: usize = 0;
        while i < num_nodes
            invariant
                i <= num_nodes,
                component@ =~= initial_labels(i as nat),
            decreases num_nodes - i,
        {
            component.push(i as u64);
            i = i + 1;
        }
        State { component, progress: Coordinator::new(budget) }
    }

    /// The fold step: assigns each change in order and raises the changed
    /// flag when there was any.
    pub fn apply(&mut self, changes: &Vec<(u64, u64)>)
        requires
            forall|k: int| 0 <= k < changes.len() ==> (#[trigger] changes@[k]).0 < old(self).component.len(),
        ensures
            final(self).component@ == apply_changes(old(self).component@, changes@),
            final(self).progress.changed == (old(self).progress.changed || changes.len() > 0),
            final(self).progress.phase == old(self).progress.phase,
            final(self).progress.iteration_count == old(self).progress.iteration_count,
            final(self).progress.budget == old(self).progress.budget,
    {
        let ghost start = self.component@;
        let ghost progress = self.progress;
        let mut k: usize = 0;
        while k < changes.len()
            invariant
                k <= changes.len(),
                self.component.len() == start.len(),
                self.progress == progress,
                forall|j: int| 0 <= j < changes.len() ==> (#[trigger] changes@[j]).0 < start.len(),
                self.component@ == apply_changes(start, changes@.subrange(0, k as int)),
            decreases changes.len() - k,
        {
            let (x, c) = changes[k];
            assert(changes@.subrange(0, k + 1).drop_last() == changes@.subrange(0, k as int));
            assert(changes@.subrange(0, k + 1).last() == (x, c));
            assert(changes@[k as int].0 < start.len());
            self.component.set(x as usize, c);
            k = k + 1;
        }
        assert(changes@.subrange(0, changes.len() as int) == changes@);
        self.progress.note_changes(changes.len() > 0);
    }

    /// One iteration of the join strategy over symmetric or directed `edges`:
    /// the round's changes are folded in and the coordinator closes the
    /// iteration.
    pub fn step_join(&mut self, edges: &Vec<(u64, u64)>)
        requires
            old(self).progress.wf(),
            old(self).progress.phase == Phase::Running,
            !old(self).progress.changed,
            old(self).component.len() <= u64::MAX,
            edges_in_range(edges@, old(self).component@.len()),
        ensures
            final(self).component@ == next_labels(old(self).component@, edges@),
            final(self).progress == old(self).progress.advanced(final(self).component@ != old(self).component@),
    {
        proof { lemma_join_round(self.component@, edges@); }
        let changes = join_round(&self.component, edges);
        self.apply(&changes);
        self.progress.end_iteration();
    }

    /// One iteration of the broadcast strategy over a neighbour map: the same
    /// changes as the join strategy over the map's relation, when no label
    /// exceeds its node's id.
    pub fn step_shared(&mut self, adj: &Adjacency)
        requires
            old(self).progress.wf(),
            old(self).progress.phase == Phase::Running,
            !old(self).progress.changed,
            old(self).component.len() <= u64::MAX,
            labels_bounded(old(self).component@),
            adj.wf(),
            edges_in_range(adj.relation(), old(self).component@.len()),
        ensures
            final(self).component@ == next_labels(old(self).component@, adj.relation()),
            final(self).progress == old(self).progress.advanced(final(self).component@ != old(self).component@),
    {
        proof {
            lemma_adjacency_in_range(adj.relation(), self.component@.len());
            lemma_join_round(self.component@, adj.relation());
            lemma_broadcast_round(self.component@, adj.relation());
        }
        let changes = broadcast_round(&self.component, adj);
        self.apply(&changes);
        self.progress.end_iteration();
    }

    /// The result: the pair `(node, label)` for every node, in id order.
    pub fn result_pairs(&self) -> (r: Vec<(u64, u64)>)
        ensures
            r.len() == self.component.len(),
            forall|i: int| 0 <= i < r.len() ==> #[trigger] r@[i] == (i as u64, self.component@[i]),
    {
        let mut r: Vec<(u64, u64)> = Vec::new();
        let mut i: usize = 0;
        while i < self.component.len()
            invariant
                i <= self.component.len(),
                r.len() == i,
                forall|j: int| 0 <= j < i ==> #[trigger] r@[j] == (j as u64, self.component@[j]),
            decreases self.component.len() - i,
        {
            r.push((i as u64, self.component[i]));
            i = i + 1;
        }
        r
    }
}

/// The iteration loop over symmetric `edges` with the join strategy.
fn run_join(edges: &Vec<(u64, u64)>, num_nodes: usize, budget: usize) -> (r: State)
    requires
        edges_in_range(edges@, num_nodes as nat),
    ensures
        is_outcome(r, edges@, num_nodes as nat, budget),
{
    let ghost n = num_nodes as nat;
    let mut state = State::new(num_nodes, budget);
    while state.progress.is_running()
        invariant
            edges_in_range(edges@, n),
            n == num_nodes,
            state.running_ok(edges@, n, budget),
        decreases budget - state.progress.iteration_count,
    {
        let ghost before = state;
        proof { lemma_labels_after_bounded(edges@, n, state.progress.iteration_count as nat); }
        state.step_join(edges);
        proof { lemma_iteration_ok(before, state, edges@, n, budget); }
    }
    state
}

/// The iteration loop with the broadcast strategy.
fn run_shared(adj: &Adjacency, num_nodes: usize, budget: usize) -> (r: State)
    requires
        adj.wf(),
        edges_in_range(adj.relation(), num_nodes as nat),
    ensures
        is_outcome(r, adj.relation(), num_nodes as nat, budget),
{
    let ghost n = num_nodes as nat;
    let ghost edges = adj.relation();
    let mut state = State::new(num_nodes, budget);
    while state.progress.is_running()
        invariant
            adj.wf(),
            edges == adj.relation(),
            edges_in_range(edges, n),
            n == num_nodes,
            state.running_ok(edges, n, budget),
        decreases budget - state.progress.iteration_count,
    {
        let ghost before = state;
        proof { lemma_labels_after_bounded(edges, n, state.progress.iteration_count as nat); }
        state.step_shared(adj);
        proof { lemma_iteration_ok(before, state, edges, n, budget); }
    }
    state
}

impl State {
    /// What holds between iterations of a run: the labels of the rounds run
    /// so far, each of which changed something, while running; the final
    /// outcome once stopped.
    pub open spec fn running_ok(&self, edges: Seq<(u64, u64)>, n: nat, budget: usize) -> bool {
        &&& self.progress.wf()
        &&& self.progress.budget == budget
        &&& self.component@ == labels_after(edges, n, self.progress.iteration_count as nat)
        &&& self.progress.phase == Phase::Running ==> !self.progress.changed
        &&& self.progress.phase == Phase::Running ==> forall|j: nat| 1 <= j <= self.progress.iteration_count ==>
            #[trigger] round_changed(edges, n, j)
        &&& self.progress.phase == Phase::Stopped ==> is_outcome(*self, edges, n, budget)
    }
}

#[verifier::spinoff_prover]
proof fn lemma_iteration_ok(before: State, after: State, edges: Seq<(u64, u64)>, n: nat, budget: usize)
    requires
        before.running_ok(edges, n, budget),
        before.progress.phase == Phase::Running,
        after.component@ == next_labels(before.component@, edges),
        after.progress == before.progress.advanced(after.component@ != before.component@),
    ensures
        after.running_ok(edges, n, budget),
{
    let k = before.progress.iteration_count as nat;
    let prev = labels_after(edges, n, k);
    let next = labels_after(edges, n, k + 1);
    assert(next == next_labels(prev, edges));
    assert(((k + 1) - 1) as nat == k);
    let changed = next != prev;
    assert(after.component@ == next);
    assert(after.progress.iteration_count == k + 1);
    assert(after.progress.budget == budget);
    assert(k + 1 <= budget);
    if changed && k + 1 < budget {
        assert(after.progress.phase == Phase::Running);
        assert(!after.progress.changed);
        assert forall|j: nat| 1 <= j <= after.progress.iteration_count implies
            #[trigger] round_changed(edges, n, j) by {
            if j <= k {
                assert(1 <= j <= before.progress.iteration_count);
            }
        }
    } else {
        assert(after.progress.phase == Phase::Stopped);
        assert(after.progress.changed == changed);
        assert forall|j: nat| 1 <= j < k + 1 implies
            #[trigger] round_changed(edges, n, j) by {
            assert(1 <= j <= before.progress.iteration_count);
        }
        assert(is_outcome(after, edges, n, budget));
    }
}

/// Connected components with the join strategy: validates the listings,
/// reads every edge in both directions, then runs at most `iterations`
/// rounds.
pub fn connected_components_join(
    nodes: &Vec<u64>,
    edges: &Vec<(u64, u64)>,
    num_nodes: usize,
    iterations: usize,
) -> (r: Result<State, GraphError>)
    ensures
        match graph_error(nodes@, edges@, num_nodes as nat) {
            Some(e) => r == Err::<State, GraphError>(e),
            None => r matches Ok(s) && is_outcome(s, undirected(edges@), num_nodes as nat, iterations),
        },
{
    match validate(nodes, edges, num_nodes) {
        Err(e) => Err(e),
        Ok(()) => {
            proof {
                lemma_no_edge_error(edges@, num_nodes as nat);
                lemma_undirected_in_range(edges@, num_nodes as nat);
            }
            let sym = symmetric_edges(edges);
            Ok(run_join(&sym, num_nodes, iterations))
        },
    }
}

/// Connected components with the broadcast strategy: validates the
/// listings, builds the neighbour map of the undirected edges once, then
/// runs at most `iterations` rounds.
pub fn connected_components_shared(
    nodes: &Vec<u64>,
    edges: &Vec<(u64, u64)>,
    num_nodes: usize,
    iterations: usize,
) -> (r: Result<State, GraphError>)
    ensures
        match graph_error(nodes@, edges@, num_nodes as nat) {
            Some(e) => r == Err::<State, GraphError>(e),
            None => r matches Ok(s) && is_outcome(s, undirected(edges@), num_nodes as nat, iterations),
        },
{
    match validate(nodes, edges, num_nodes) {
        Err(e) => Err(e),
        Ok(()) => {
            proof {
                lemma_no_edge_error(edges@, num_nodes as nat);
                lemma_undirected_in_range(edges@, num_nodes as nat);
            }
            let sym = symmetric_edges(edges);
            let adj = Adjacency::from_edges(&sym);
            Ok(run_shared(&adj, num_nodes, iterations))
        },
    }
}

} // verus!
