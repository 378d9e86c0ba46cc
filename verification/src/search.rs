//! The isochrone search: from the closest point on the road network, find the
//! parts of the network that can be driven within a time budget.
//!
//! The search keeps a queue of nodes with the driving time at which they were
//! reached, and explores the cheapest node next. Exploring a node walks the
//! links that can be driven away from it: a link that can be driven to its end
//! within the budget is kept whole and its far node is reached; of a link that
//! cannot, the part that can be driven is kept.
use vstd::prelude::*;
use vstd::hash_map::StringHashMap;
use vstd::hash_set::StringHashSet;
use crate::closest::Closest;
use crate::graph::{
    negative_time_limit,
    lists_link,
    drivable, has_route, is_outlink, is_startnode, leaves, lemma_route_base, lemma_route_extend,
    lemma_steps_taken, other_end, outlinks, outlinks_upto, point_index, step_count, steps_taken,
    times_within, walk_fits, walk_in_bounds, walk_points, Graph, Node, NodeCost, RoadLink,
};

verus! {

broadcast use vstd::set_lib::lemma_set_subset_finite;

/// A piece of a link kept by the search: the link's reference and the
/// indices of the kept points of its line, in driving order.
pub struct LinePiece {
    pub link: String,
    pub points: Vec<usize>,
}

impl LinePiece {
    pub open spec fn spec_view(&self) -> (Seq<char>, Seq<usize>) {
        (self.link@, self.points@)
    }
}

/// The state of a search, as values.
#[verifier::ext_equal]
pub struct SearchState {
    /// Nodes that have been explored.
    pub explored: Set<Seq<char>>,
    /// Links that have been kept whole.
    pub explored_links: Set<Seq<char>>,
    /// Queued nodes with the cost at which they were queued.
    pub queue: Seq<(Seq<char>, int)>,
    /// The best known cost of each reached node, in seconds.
    pub costs: Map<Seq<char>, int>,
    /// The kept pieces of links, in the order they were found.
    pub pieces: Seq<(Seq<char>, Seq<usize>)>,
}

/// The budget, or zero when it is negative: no cost recorded by a search
/// exceeds it.
pub open spec fn cap(budget: i32) -> int {
    if budget > 0 {
        budget as int
    } else {
        0
    }
}

/// Every link's driving time is at least `-negative_time_limit(g)` and can
/// be added to any cost up to the budget without passing `i32::MAX`.
pub open spec fn times_fit(g: &Graph, budget: i32) -> bool {
    times_within(g, -negative_time_limit(g), i32::MAX - cap(budget))
}

/// The lowest cost a node can have once `e` nodes are explored: every
/// explored node lowers its neighbours by at most `negative_time_limit(g)`.
pub open spec fn cost_floor(g: &Graph, e: int) -> int {
    -(e + 1) * negative_time_limit(g)
}

proof fn lemma_cost_floor(g: &Graph, a: int, b: int)
    requires
        0 <= a <= b,
    ensures
        negative_time_limit(g) >= 0,
        cost_floor(g, b) <= cost_floor(g, a) <= 0,
        cost_floor(g, a) - negative_time_limit(g) == cost_floor(g, a + 1),
        a + 1 <= g.spec_nodes().dom().len() ==> cost_floor(g, a) - negative_time_limit(g)
            >= -(i32::MAX as int),
{
    let n = g.spec_nodes().dom().len() as int;
    let lim = negative_time_limit(g);
    assert(lim >= 0) by (nonlinear_arith)
        requires lim == (i32::MAX as int) / (n + 1), n >= 0;
    assert(-(b + 1) * lim <= -(a + 1) * lim) by (nonlinear_arith)
        requires a <= b, lim >= 0;
    assert(-(a + 1) * lim <= 0) by (nonlinear_arith)
        requires a >= 0, lim >= 0;
    assert(-(a + 1) * lim - lim == -(a + 2) * lim) by (nonlinear_arith);
    if a + 1 <= n {
        assert((n + 1) * lim <= i32::MAX) by (nonlinear_arith)
            requires lim == (i32::MAX as int) / (n + 1), n >= 0;
        assert((a + 2) * lim <= (n + 1) * lim) by (nonlinear_arith)
            requires a + 1 <= n, lim >= 0;
        assert(-(a + 2) * lim >= -(i32::MAX as int)) by (nonlinear_arith)
            requires (a + 2) * lim <= i32::MAX;
    }
}

pub open spec fn empty_state() -> SearchState {
    SearchState {
        explored: Set::empty(),
        explored_links: Set::empty(),
        queue: Seq::empty(),
        costs: Map::empty(),
        pieces: Seq::empty(),
    }
}

/// Queues `node` at `cost` and records `cost` as its cost.
pub open spec fn add_cost_spec(s: SearchState, node: Seq<char>, cost: int) -> SearchState {
    SearchState { queue: s.queue.push((node, cost)), costs: s.costs.insert(node, cost), ..s }
}

/// Records the smaller of `cost` and `new_cost` as the cost of `node`; when
/// the new cost is smaller, queues `node` again, at `cost`.
pub open spec fn update_to_min_cost_spec(
    s: SearchState,
    node: Seq<char>,
    cost: int,
    new_cost: int,
) -> SearchState {
    let kept = if cost <= new_cost {
        cost
    } else {
        new_cost
    };
    let s1 = SearchState { costs: s.costs.insert(node, kept), ..s };
    if new_cost < cost {
        SearchState { queue: s1.queue.push((node, cost)), ..s1 }
    } else {
        s1
    }
}

/// All the points of a line of `n` points.
pub open spec fn all_points(n: int) -> Seq<usize> {
    Seq::new(n as nat, |i: int| i as usize)
}

/// The points `a .. b` of a line.
pub open spec fn point_range(a: int, b: int) -> Seq<usize> {
    Seq::new((b - a) as nat, |i: int| (a + i) as usize)
}

/// Walks link `l` away from the explored node `origin`, reached at cost
/// `oc`.
pub open spec fn explore_link_spec(
    g: &Graph,
    budget: i32,
    s: SearchState,
    origin: Seq<char>,
    oc: int,
    l: Seq<char>,
) -> SearchState {
    let link = g.spec_links()[l];
    let forward = origin == link.startnode@;
    let t = link.times.full as int;
    let dest = if forward {
        link.endnode@
    } else {
        link.startnode@
    };
    let reference = link.reference@;
    let n = link.geometry.point_count() as int;
    if !s.explored_links.contains(reference) && oc + t > budget {
        let pts = walk_points(
            n,
            forward,
            0,
            link.spec_times_from(forward),
            oc as i32,
            budget,
            link.geometry.segment_lengths@.len(),
        );
        if pts.len() > 0 {
            SearchState { pieces: s.pieces.push((reference, pts)), ..s }
        } else {
            s
        }
    } else {
        let s1 = if !s.explored_links.contains(reference) {
            SearchState {
                pieces: s.pieces.push((reference, all_points(n))),
                explored_links: s.explored_links.insert(reference),
                ..s
            }
        } else {
            s
        };
        if !s1.explored.contains(dest) {
            let s2 = if s1.costs.contains_key(dest) {
                update_to_min_cost_spec(s1, dest, s1.costs[dest], oc + t)
            } else {
                add_cost_spec(s1, dest, oc + t)
            };
            SearchState { explored: s2.explored.insert(origin), ..s2 }
        } else {
            s1
        }
    }
}

/// Walks the first `k` of the links `outs` away from `origin`.
pub open spec fn explore_prefix(
    g: &Graph,
    budget: i32,
    s: SearchState,
    origin: Seq<char>,
    oc: int,
    outs: Seq<Seq<char>>,
    k: int,
) -> SearchState
    decreases k,
{
    if k <= 0 {
        s
    } else {
        explore_link_spec(
            g,
            budget,
            explore_prefix(g, budget, s, origin, oc, outs, k - 1),
            origin,
            oc,
            outs[k - 1],
        )
    }
}

/// Explores `origin`: unless it was explored before, walks every link that
/// can be driven away from it, in the order the node lists them.
pub open spec fn explore_spec(g: &Graph, budget: i32, s: SearchState, origin: Seq<char>) -> SearchState {
    if s.explored.contains(origin) {
        s
    } else {
        let outs = outlinks(g.spec_links(), g.spec_nodes()[origin]);
        explore_prefix(g, budget, s, origin, s.costs[origin], outs, outs.len() as int)
    }
}

/// The `i`-th queue entry has the smallest cost in the queue.
pub open spec fn is_cheapest(q: Seq<(Seq<char>, int)>, i: int) -> bool {
    &&& 0 <= i < q.len()
    &&& forall|j: int| 0 <= j < q.len() ==> q[i].1 <= #[trigger] q[j].1
}

/// One round of the search: a cheapest queue entry is taken out and its node
/// explored. Among entries of equal cost any may be taken.
pub open spec fn search_step(g: &Graph, budget: i32, s: SearchState, s2: SearchState) -> bool {
    exists|i: int|
        is_cheapest(s.queue, i) && s2 == explore_spec(
            g,
            budget,
            SearchState { queue: s.queue.remove(i), ..s },
            s.queue[i].0,
        )
}

/// `tr` is a run of the search: each state follows from the one before by a
/// round.
pub open spec fn is_run(g: &Graph, budget: i32, tr: Seq<SearchState>) -> bool {
    &&& tr.len() >= 1
    &&& forall|i: int| 0 <= i < tr.len() - 1 ==> search_step(g, budget, tr[i], #[trigger] tr[i + 1])
}

/// `s` is where the search ends when started from `s0`: a run leads from `s0`
/// to `s`, and the queue of `s` is empty.
pub open spec fn search_outcome(g: &Graph, budget: i32, s0: SearchState, s: SearchState) -> bool {
    &&& s.queue.len() == 0
    &&& exists|tr: Seq<SearchState>| is_run(g, budget, tr) && tr[0] == s0 && tr.last() == s
}

/// What a search state keeps true throughout: queued and explored nodes have
/// a cost, every costed node is in the graph, its cost is at most the capped
/// budget and not below the floor for the number of explored nodes, and both
/// end nodes of every link kept whole have a cost.
pub open spec fn state_inv(g: &Graph, budget: i32, s: SearchState) -> bool {
    &&& forall|i: int| 0 <= i < s.queue.len() ==> s.costs.contains_key(#[trigger] s.queue[i].0)
    &&& forall|k: Seq<char>| #[trigger]
        s.costs.contains_key(k) ==> {
            &&& g.spec_nodes().contains_key(k)
            &&& cost_floor(g, s.explored.len() as int) <= s.costs[k] <= cap(budget)
        }
    &&& forall|k: Seq<char>| #[trigger] s.explored.contains(k) ==> s.costs.contains_key(k)
    &&& forall|r: Seq<char>| #[trigger]
        s.explored_links.contains(r) ==> {
            &&& g.spec_links().contains_key(r)
            &&& s.costs.contains_key(g.spec_links()[r].startnode@)
            &&& s.costs.contains_key(g.spec_links()[r].endnode@)
        }
}

/// Every link in `outlinks_upto` is one that the node lists.
pub proof fn lemma_outlinks_listed(links: Map<Seq<char>, RoadLink>, node: Node, k: int)
    requires
        0 <= k <= node.links@.len(),
    ensures
        forall|j: int|
            0 <= j < outlinks_upto(links, node, k).len() ==> exists|i: int|
                0 <= i < k && #[trigger] outlinks_upto(links, node, k)[j] == node.links@[i]@,
        forall|j: int|
            0 <= j < outlinks_upto(links, node, k).len() ==> is_outlink(
                links,
                node,
                #[trigger] outlinks_upto(links, node, k)[j],
            ),
    decreases k,
{
    if k > 0 {
        lemma_outlinks_listed(links, node, k - 1);
        let p = outlinks_upto(links, node, k - 1);
        let q = outlinks_upto(links, node, k);
        assert forall|j: int| 0 <= j < q.len() implies exists|i: int|
            0 <= i < k && #[trigger] q[j] == node.links@[i]@ by {
            if j < p.len() {
                assert(q[j] == p[j]);
                let i = choose|i: int| 0 <= i < k - 1 && p[j] == node.links@[i]@;
                assert(0 <= i < k && q[j] == node.links@[i]@);
            } else {
                assert(q[j] == node.links@[k - 1]@);
            }
        }
        assert forall|j: int| 0 <= j < q.len() implies is_outlink(links, node, #[trigger] q[j]) by {
            if j < p.len() {
                assert(q[j] == p[j]);
            }
        }
    }
}

/// Walking one link keeps the invariant, and either leaves the explored nodes
/// and the queue as they were, or marks `origin` explored.
pub proof fn lemma_explore_link(
    g: &Graph,
    budget: i32,
    s: SearchState,
    origin: Seq<char>,
    oc: int,
    l: Seq<char>,
    e0: Set<Seq<char>>,
)
    requires
        g.well_formed(),
        times_fit(g, budget),
        state_inv(g, budget, s),
        s.costs.contains_key(origin),
        !e0.contains(origin),
        s.explored == e0 || s.explored == e0.insert(origin),
        oc >= cost_floor(g, e0.len() as int),
        g.spec_links().contains_key(l),
        g.spec_links()[l].startnode@ == origin || g.spec_links()[l].endnode@ == origin,
    ensures
        ({
            let r = explore_link_spec(g, budget, s, origin, oc, l);
            &&& state_inv(g, budget, r)
            &&& r.costs.contains_key(origin)
            &&& (r.explored == s.explored && r.queue == s.queue) || r.explored == s.explored.insert(
                origin,
            )
        }),
{
    let link = g.spec_links()[l];
    assert(g.link_ok(l));
    let r = explore_link_spec(g, budget, s, origin, oc, l);
    let forward = origin == link.startnode@;
    let dest = if forward {
        link.endnode@
    } else {
        link.startnode@
    };
    let t = link.times.full as int;
    assert(t + cap(budget) <= i32::MAX);
    assert(s.costs.dom().subset_of(g.spec_nodes().dom()));
    assert(e0.subset_of(s.explored));
    assert(s.explored.subset_of(s.costs.dom()));
    vstd::set_lib::lemma_len_subset(e0, g.spec_nodes().dom());
    vstd::set_lib::lemma_len_subset(s.explored, g.spec_nodes().dom());
    let e = e0.len() as int;
    assert(s.explored.len() == e || s.explored.len() == e + 1);
    lemma_cost_floor(g, e, e + 1);
    lemma_cost_floor(g, s.explored.len() as int, e + 1);
    assert(e0.insert(origin).len() == e + 1);
    if !s.explored_links.contains(link.reference@) && oc + t > budget {
    } else {
        let s1 = if !s.explored_links.contains(link.reference@) {
            SearchState {
                pieces: s.pieces.push((link.reference@, all_points(link.geometry.point_count() as int))),
                explored_links: s.explored_links.insert(link.reference@),
                ..s
            }
        } else {
            s
        };
        if !s1.explored.contains(dest) {
            if s1.costs.contains_key(dest) {
            } else {
                // the link was not kept before (else both its ends would have
                // a cost), so its far end is within the budget
                assert(!s.explored_links.contains(link.reference@));
            }
            assert(state_inv(g, budget, r)) by {
                assert forall|i: int| 0 <= i < r.queue.len() implies r.costs.contains_key(
                    #[trigger] r.queue[i].0,
                ) by {
                    if i < s.queue.len() {
                        assert(r.queue[i] == s.queue[i]);
                    }
                }
            }
        }
    }
}

/// Walking a prefix of the links keeps the invariant, and either leaves the
/// explored nodes and the queue as they were, or marks `origin` explored.
pub proof fn lemma_explore_prefix(
    g: &Graph,
    budget: i32,
    s: SearchState,
    origin: Seq<char>,
    oc: int,
    k: int,
)
    requires
        g.well_formed(),
        times_fit(g, budget),
        state_inv(g, budget, s),
        s.costs.contains_key(origin),
        g.spec_nodes().contains_key(origin),
        !s.explored.contains(origin),
        oc >= cost_floor(g, s.explored.len() as int),
        0 <= k <= outlinks(g.spec_links(), g.spec_nodes()[origin]).len(),
    ensures
        ({
            let outs = outlinks(g.spec_links(), g.spec_nodes()[origin]);
            let r = explore_prefix(g, budget, s, origin, oc, outs, k);
            &&& state_inv(g, budget, r)
            &&& r.costs.contains_key(origin)
            &&& (r.explored == s.explored && r.queue == s.queue) || r.explored == s.explored.insert(
                origin,
            )
        }),
    decreases k,
{
    let node = g.spec_nodes()[origin];
    let outs = outlinks(g.spec_links(), node);
    if k > 0 {
        lemma_explore_prefix(g, budget, s, origin, oc, k - 1);
        let p = explore_prefix(g, budget, s, origin, oc, outs, k - 1);
        assert(g.node_ok(origin));
        lemma_outlinks_listed(g.spec_links(), node, node.links@.len() as int);
        let i = choose|i: int| 0 <= i < node.links@.len() && outs[k - 1] == node.links@[i]@;
        assert(node.links@[i]@ == outs[k - 1]);
        lemma_explore_link(g, budget, p, origin, oc, outs[k - 1], s.explored);
    }
}

/// Exploring a node keeps the invariant and either marks the node explored or
/// leaves the explored nodes and the queue as they were.
pub proof fn lemma_explore(g: &Graph, budget: i32, s: SearchState, origin: Seq<char>)
    requires
        g.well_formed(),
        times_fit(g, budget),
        state_inv(g, budget, s),
        s.costs.contains_key(origin),
    ensures
        ({
            let r = explore_spec(g, budget, s, origin);
            &&& state_inv(g, budget, r)
            &&& (r.explored == s.explored && r.queue == s.queue) || (!s.explored.contains(origin)
                && r.explored == s.explored.insert(origin))
        }),
{
    if !s.explored.contains(origin) {
        let outs = outlinks(g.spec_links(), g.spec_nodes()[origin]);
        lemma_explore_prefix(g, budget, s, origin, s.costs[origin], outs.len() as int);
    }
}

/// Every node with a cost in `s` still has one in `s2`, no larger.
pub open spec fn costs_le(s: SearchState, s2: SearchState) -> bool {
    forall|k: Seq<char>| #[trigger]
        s.costs.contains_key(k) ==> s2.costs.contains_key(k) && s2.costs[k] <= s.costs[k]
}

/// No recorded cost is negative.
pub open spec fn costs_nonneg(s: SearchState) -> bool {
    forall|k: Seq<char>| #[trigger] s.costs.contains_key(k) ==> 0 <= s.costs[k]
}

proof fn lemma_explore_link_costs(
    g: &Graph,
    budget: i32,
    s: SearchState,
    origin: Seq<char>,
    oc: int,
    l: Seq<char>,
)
    requires
        times_fit(g, budget),
        g.spec_links().contains_key(l),
    ensures
        costs_le(s, explore_link_spec(g, budget, s, origin, oc, l)),
        times_within(g, 0, i32::MAX as int) && costs_nonneg(s) && oc >= 0 ==> costs_nonneg(
            explore_link_spec(g, budget, s, origin, oc, l),
        ),
{
}

proof fn lemma_explore_prefix_costs(
    g: &Graph,
    budget: i32,
    s: SearchState,
    origin: Seq<char>,
    oc: int,
    k: int,
)
    requires
        g.well_formed(),
        times_fit(g, budget),
        g.spec_nodes().contains_key(origin),
        0 <= k <= outlinks(g.spec_links(), g.spec_nodes()[origin]).len(),
    ensures
        ({
            let outs = outlinks(g.spec_links(), g.spec_nodes()[origin]);
            let r = explore_prefix(g, budget, s, origin, oc, outs, k);
            &&& costs_le(s, r)
            &&& times_within(g, 0, i32::MAX as int) && costs_nonneg(s) && oc >= 0 ==> costs_nonneg(r)
        }),
    decreases k,
{
    let node = g.spec_nodes()[origin];
    let outs = outlinks(g.spec_links(), node);
    if k > 0 {
        lemma_explore_prefix_costs(g, budget, s, origin, oc, k - 1);
        let p = explore_prefix(g, budget, s, origin, oc, outs, k - 1);
        assert(g.node_ok(origin));
        lemma_outlinks_listed(g.spec_links(), node, node.links@.len() as int);
        let i = choose|i: int| 0 <= i < node.links@.len() && outs[k - 1] == node.links@[i]@;
        assert(node.links@[i]@ == outs[k - 1]);
        lemma_explore_link_costs(g, budget, p, origin, oc, outs[k - 1]);
    }
}

/// One round of a search keeps the invariant, lowers no cost below zero when
/// none was, and raises no cost.
pub proof fn lemma_search_step(g: &Graph, budget: i32, s: SearchState, s2: SearchState)
    requires
        g.well_formed(),
        times_fit(g, budget),
        state_inv(g, budget, s),
        search_step(g, budget, s, s2),
    ensures
        state_inv(g, budget, s2),
        costs_le(s, s2),
        times_within(g, 0, i32::MAX as int) && costs_nonneg(s) ==> costs_nonneg(s2),
{
    let i = choose|i: int|
        is_cheapest(s.queue, i) && s2 == explore_spec(
            g,
            budget,
            SearchState { queue: s.queue.remove(i), ..s },
            s.queue[i].0,
        );
    let p = SearchState { queue: s.queue.remove(i), ..s };
    let origin = s.queue[i].0;
    assert(state_inv(g, budget, p)) by {
        assert forall|j: int| 0 <= j < p.queue.len() implies p.costs.contains_key(
            #[trigger] p.queue[j].0,
        ) by {
            if j < i {
                assert(p.queue[j] == s.queue[j]);
            } else {
                assert(p.queue[j] == s.queue[j + 1]);
            }
        }
    }
    assert(s.costs.contains_key(origin));
    lemma_explore(g, budget, p, origin);
    if !p.explored.contains(origin) {
        let outs = outlinks(g.spec_links(), g.spec_nodes()[origin]);
        lemma_explore_prefix_costs(g, budget, p, origin, p.costs[origin], outs.len() as int);
    }
}

/// Along a run of a search the invariant holds, no cost is raised, and, when
/// no driving time is negative, no cost becomes negative when none was at the
/// start.
pub proof fn lemma_run(g: &Graph, budget: i32, tr: Seq<SearchState>, i: int)
    requires
        g.well_formed(),
        times_fit(g, budget),
        is_run(g, budget, tr),
        state_inv(g, budget, tr[0]),
        0 <= i < tr.len(),
    ensures
        state_inv(g, budget, tr[i]),
        costs_le(tr[0], tr[i]),
        times_within(g, 0, i32::MAX as int) && costs_nonneg(tr[0]) ==> costs_nonneg(tr[i]),
    decreases i,
{
    if i > 0 {
        lemma_run(g, budget, tr, i - 1);
        let j = i - 1;
        assert(search_step(g, budget, tr[j], tr[j + 1]));
        assert(tr[j + 1] == tr[i]);
        lemma_search_step(g, budget, tr[i - 1], tr[i]);
    }
}

/// When a search ends, every reached node's cost is at most the budget (zero
/// for a negative budget), and both end nodes of every link kept whole were
/// reached.
pub proof fn law_search_stays_within_budget(g: &Graph, budget: i32, s0: SearchState, s: SearchState)
    requires
        g.well_formed(),
        times_fit(g, budget),
        state_inv(g, budget, s0),
        search_outcome(g, budget, s0, s),
    ensures
        state_inv(g, budget, s),
        forall|k: Seq<char>| #[trigger] s.costs.contains_key(k) ==> s.costs[k] <= cap(budget),
{
    let tr = choose|tr: Seq<SearchState>| is_run(g, budget, tr) && tr[0] == s0 && tr.last() == s;
    lemma_run(g, budget, tr, tr.len() - 1);
}

/// A node's best known cost never goes up during a search: every node with a
/// cost at the start still has one at the end, no larger.
pub proof fn law_costs_never_increase(g: &Graph, budget: i32, s0: SearchState, s: SearchState)
    requires
        g.well_formed(),
        times_fit(g, budget),
        state_inv(g, budget, s0),
        search_outcome(g, budget, s0, s),
    ensures
        costs_le(s0, s),
{
    let tr = choose|tr: Seq<SearchState>| is_run(g, budget, tr) && tr[0] == s0 && tr.last() == s;
    lemma_run(g, budget, tr, tr.len() - 1);
}

/// A search from a node ends with that node reached at cost zero or less,
/// and at cost zero when no link's driving time is negative.
pub proof fn law_start_node_reached_at_zero(
    g: &Graph,
    budget: i32,
    closest: Closest,
    onward: Seq<i32>,
    s: SearchState,
)
    requires
        g.well_formed(),
        times_fit(g, budget),
        closest.node is Some,
        g.spec_nodes().contains_key(closest.node->0@),
        search_outcome(g, budget, start_state(g, budget, closest, onward), s),
    ensures
        s.costs.contains_key(closest.node->0@),
        s.costs[closest.node->0@] <= 0,
        times_within(g, 0, i32::MAX as int) ==> s.costs[closest.node->0@] == 0,
{
    let s0 = start_state(g, budget, closest, onward);
    let node = closest.node->0@;
    assert(s0.queue[0].0 == node);
    lemma_cost_floor(g, 0, 0);
    assert(state_inv(g, budget, s0));
    assert(costs_nonneg(s0));
    let tr = choose|tr: Seq<SearchState>| is_run(g, budget, tr) && tr[0] == s0 && tr.last() == s;
    lemma_run(g, budget, tr, tr.len() - 1);
}

/// Every recorded cost is the cost of a route from a node of `base`.
pub open spec fn routes_from(g: &Graph, base: Map<Seq<char>, int>, s: SearchState) -> bool {
    forall|k: Seq<char>| #[trigger] s.costs.contains_key(k) ==> has_route(g, base, k, s.costs[k])
}

proof fn lemma_explore_link_routes(
    g: &Graph,
    budget: i32,
    s: SearchState,
    origin: Seq<char>,
    oc: int,
    l: Seq<char>,
    base: Map<Seq<char>, int>,
)
    requires
        routes_from(g, base, s),
        has_route(g, base, origin, oc),
        g.spec_links().contains_key(l),
        g.spec_nodes().contains_key(origin),
        lists_link(g.spec_nodes()[origin], l),
        leaves(g.spec_links()[l], origin),
    ensures
        routes_from(g, base, explore_link_spec(g, budget, s, origin, oc, l)),
{
    let link = g.spec_links()[l];
    lemma_route_extend(g, base, origin, oc, l);
}

proof fn lemma_explore_prefix_routes(
    g: &Graph,
    budget: i32,
    s: SearchState,
    origin: Seq<char>,
    oc: int,
    k: int,
    base: Map<Seq<char>, int>,
)
    requires
        g.well_formed(),
        routes_from(g, base, s),
        has_route(g, base, origin, oc),
        g.spec_nodes().contains_key(origin),
        0 <= k <= outlinks(g.spec_links(), g.spec_nodes()[origin]).len(),
    ensures
        routes_from(
            g,
            base,
            explore_prefix(g, budget, s, origin, oc, outlinks(g.spec_links(), g.spec_nodes()[origin]), k),
        ),
    decreases k,
{
    let node = g.spec_nodes()[origin];
    let outs = outlinks(g.spec_links(), node);
    if k > 0 {
        lemma_explore_prefix_routes(g, budget, s, origin, oc, k - 1, base);
        let p = explore_prefix(g, budget, s, origin, oc, outs, k - 1);
        assert(g.node_ok(origin));
        lemma_outlinks_listed(g.spec_links(), node, node.links@.len() as int);
        let i = choose|i: int| 0 <= i < node.links@.len() && outs[k - 1] == node.links@[i]@;
        assert(node.links@[i]@ == outs[k - 1]);
        assert(is_outlink(g.spec_links(), node, outs[k - 1]));
        assert(lists_link(node, outs[k - 1]));
        lemma_explore_link_routes(g, budget, p, origin, oc, outs[k - 1], base);
    }
}

/// Along a run every recorded cost is the cost of a route from a node that
/// had a cost at the start of the run.
pub proof fn lemma_run_routes(g: &Graph, budget: i32, tr: Seq<SearchState>, i: int)
    requires
        g.well_formed(),
        times_fit(g, budget),
        is_run(g, budget, tr),
        state_inv(g, budget, tr[0]),
        0 <= i < tr.len(),
    ensures
        routes_from(g, tr[0].costs, tr[i]),
    decreases i,
{
    let base = tr[0].costs;
    if i == 0 {
        assert forall|k: Seq<char>| #[trigger] tr[0].costs.contains_key(k) implies has_route(
            g,
            base,
            k,
            tr[0].costs[k],
        ) by {
            lemma_route_base(g, base, k);
        }
    } else {
        lemma_run_routes(g, budget, tr, i - 1);
        lemma_run(g, budget, tr, i - 1);
        let j = i - 1;
        assert(search_step(g, budget, tr[j], tr[j + 1]));
        let s = tr[j];
        let q = choose|q: int|
            is_cheapest(s.queue, q) && tr[j + 1] == explore_spec(
                g,
                budget,
                SearchState { queue: s.queue.remove(q), ..s },
                s.queue[q].0,
            );
        let p = SearchState { queue: s.queue.remove(q), ..s };
        let origin = s.queue[q].0;
        assert(s.costs.contains_key(origin));
        if !p.explored.contains(origin) {
            let outs = outlinks(g.spec_links(), g.spec_nodes()[origin]);
            lemma_explore_prefix_routes(g, budget, p, origin, p.costs[origin], outs.len() as int, base);
        }
    }
}

/// Every cost a search records is the driving time of a route: from a node
/// that had a cost when the search started, along links driven the way their
/// lanes allow, plus that node's starting cost.
pub proof fn law_costs_are_route_times(g: &Graph, budget: i32, s0: SearchState, s: SearchState)
    requires
        g.well_formed(),
        times_fit(g, budget),
        state_inv(g, budget, s0),
        search_outcome(g, budget, s0, s),
    ensures
        forall|k: Seq<char>| #[trigger] s.costs.contains_key(k) ==> has_route(g, s0.costs, k, s.costs[k]),
{
    let tr = choose|tr: Seq<SearchState>| is_run(g, budget, tr) && tr[0] == s0 && tr.last() == s;
    lemma_run_routes(g, budget, tr, tr.len() - 1);
}

/// A kept piece names a link of the network and only points of that link's
/// line.
pub open spec fn piece_ok(g: &Graph, p: (Seq<char>, Seq<usize>)) -> bool {
    &&& g.spec_links().contains_key(p.0)
    &&& forall|j: int| 0 <= j < p.1.len() ==> p.1[j] < g.spec_links()[p.0].geometry.point_count()
}

/// Every kept piece names a link of the network and only points of its line.
pub open spec fn pieces_ok(g: &Graph, s: SearchState) -> bool {
    forall|i: int| 0 <= i < s.pieces.len() ==> piece_ok(g, #[trigger] s.pieces[i])
}

/// A walk that stays on a line of `m` segments keeps only points of the line.
pub proof fn lemma_walk_points_on_line(
    forward: bool,
    from: int,
    times: Seq<i32>,
    current: i32,
    max_secs: i32,
    count: nat,
    m: int,
)
    requires
        0 <= from,
        from + steps_taken(times, current, max_secs, count) <= m,
    ensures
        ({
            let pts = walk_points(m + 1, forward, from, times, current, max_secs, count);
            forall|j: int| 0 <= j < pts.len() ==> pts[j] < m + 1
        }),
{
    let pts = walk_points(m + 1, forward, from, times, current, max_secs, count);
    assert forall|j: int| 0 <= j < pts.len() implies pts[j] < m + 1 by {
        let v = point_index(m + 1, forward, from + j);
        assert(0 <= v < m + 1);
    }
}

proof fn lemma_push_piece_ok(g: &Graph, s: SearchState, p: (Seq<char>, Seq<usize>))
    requires
        pieces_ok(g, s),
        piece_ok(g, p),
    ensures
        pieces_ok(g, SearchState { pieces: s.pieces.push(p), ..s }),
{
    let s2 = SearchState { pieces: s.pieces.push(p), ..s };
    assert forall|i: int| 0 <= i < s2.pieces.len() implies piece_ok(g, #[trigger] s2.pieces[i]) by {
        if i < s.pieces.len() {
            assert(s2.pieces[i] == s.pieces[i]);
        }
    }
}

proof fn lemma_explore_link_pieces(
    g: &Graph,
    budget: i32,
    s: SearchState,
    origin: Seq<char>,
    oc: int,
    l: Seq<char>,
)
    requires
        g.well_formed(),
        pieces_ok(g, s),
        g.spec_links().contains_key(l),
    ensures
        pieces_ok(g, explore_link_spec(g, budget, s, origin, oc, l)),
{
    let link = g.spec_links()[l];
    assert(g.link_ok(l));
    let m = link.geometry.segment_lengths@.len() as int;
    let forward = origin == link.startnode@;
    if !s.explored_links.contains(link.reference@) && oc + (link.times.full as int) > budget {
        let times = link.spec_times_from(forward);
        lemma_steps_taken(times, oc as i32, budget, m as nat);
        lemma_walk_points_on_line(forward, 0, times, oc as i32, budget, m as nat, m);
        let pts = walk_points(m + 1, forward, 0, times, oc as i32, budget, m as nat);
        if pts.len() > 0 {
            lemma_push_piece_ok(g, s, (link.reference@, pts));
        }
    } else if !s.explored_links.contains(link.reference@) {
        lemma_push_piece_ok(g, s, (link.reference@, all_points(m + 1)));
    }
}

proof fn lemma_explore_prefix_pieces(
    g: &Graph,
    budget: i32,
    s: SearchState,
    origin: Seq<char>,
    oc: int,
    k: int,
)
    requires
        g.well_formed(),
        pieces_ok(g, s),
        g.spec_nodes().contains_key(origin),
        0 <= k <= outlinks(g.spec_links(), g.spec_nodes()[origin]).len(),
    ensures
        pieces_ok(
            g,
            explore_prefix(g, budget, s, origin, oc, outlinks(g.spec_links(), g.spec_nodes()[origin]), k),
        ),
    decreases k,
{
    let node = g.spec_nodes()[origin];
    let outs = outlinks(g.spec_links(), node);
    if k > 0 {
        lemma_explore_prefix_pieces(g, budget, s, origin, oc, k - 1);
        let p = explore_prefix(g, budget, s, origin, oc, outs, k - 1);
        assert(g.node_ok(origin));
        lemma_outlinks_listed(g.spec_links(), node, node.links@.len() as int);
        let i = choose|i: int| 0 <= i < node.links@.len() && outs[k - 1] == node.links@[i]@;
        assert(node.links@[i]@ == outs[k - 1]);
        lemma_explore_link_pieces(g, budget, p, origin, oc, outs[k - 1]);
    }
}

/// Along a run every kept piece names a link of the network and only points
/// of its line, when that holds at the start.
pub proof fn lemma_run_pieces(g: &Graph, budget: i32, tr: Seq<SearchState>, i: int)
    requires
        g.well_formed(),
        times_fit(g, budget),
        is_run(g, budget, tr),
        state_inv(g, budget, tr[0]),
        pieces_ok(g, tr[0]),
        0 <= i < tr.len(),
    ensures
        pieces_ok(g, tr[i]),
    decreases i,
{
    if i > 0 {
        lemma_run_pieces(g, budget, tr, i - 1);
        lemma_run(g, budget, tr, i - 1);
        let j = i - 1;
        assert(search_step(g, budget, tr[j], tr[j + 1]));
        let s = tr[j];
        let q = choose|q: int|
            is_cheapest(s.queue, q) && tr[j + 1] == explore_spec(
                g,
                budget,
                SearchState { queue: s.queue.remove(q), ..s },
                s.queue[q].0,
            );
        let p = SearchState { queue: s.queue.remove(q), ..s };
        let origin = s.queue[q].0;
        assert(s.costs.contains_key(origin));
        if !p.explored.contains(origin) {
            let outs = outlinks(g.spec_links(), g.spec_nodes()[origin]);
            lemma_explore_prefix_pieces(g, budget, p, origin, p.costs[origin], outs.len() as int);
        }
    }
}

/// A search starts in a state that keeps the invariant and whose pieces lie on
/// links of the network.
pub proof fn lemma_start_state_ok(g: &Graph, budget: i32, closest: Closest, onward: Seq<i32>)
    requires
        g.well_formed(),
        query_ok(g, closest, budget, onward),
    ensures
        state_inv(g, budget, start_state(g, budget, closest, onward)),
        pieces_ok(g, start_state(g, budget, closest, onward)),
{
    let s = start_state(g, budget, closest, onward);
    lemma_cost_floor(g, 0, 0);
    match closest.node {
        Some(node) => {
            assert(s.queue[0].0 == node@);
        },
        None => {
            let link = g.spec_links()[closest.link@];
            assert(g.link_ok(closest.link@));
            let index = closest.linestring_index as int;
            let m = link.geometry.segment_lengths@.len() as int;
            let n = m + 1;
            let e = empty_state();
            let reference = link.reference@;
            let s1 = if drivable(link.lanes@, true) {
                let t = onward[n - 1 - index] as int;
                if t > budget {
                    let count = step_count(index as usize, n as usize);
                    lemma_walk_points_on_line(true, index, onward, 0, budget, count, m);
                    let p = (reference, walk_points(n, true, index, onward, 0, budget, count));
                    lemma_push_piece_ok(g, e, p);
                    SearchState { pieces: e.pieces.push(p), ..e }
                } else {
                    let p = (reference, point_range(index, n));
                    lemma_push_piece_ok(g, e, p);
                    add_cost_spec(SearchState { pieces: e.pieces.push(p), ..e }, link.endnode@, t)
                }
            } else {
                e
            };
            assert(pieces_ok(g, s1));
            assert(state_inv(g, budget, s1)) by {
                assert forall|i: int| 0 <= i < s1.queue.len() implies s1.costs.contains_key(
                    #[trigger] s1.queue[i].0,
                ) by {
                }
            }
            if drivable(link.lanes@, false) {
                let t = link.times.from_start@[index - 1] as int;
                if t > budget {
                    let count = step_count(0, (index + 1) as usize);
                    lemma_walk_points_on_line(false, 0, link.times.from_end@, 0, budget, count, m);
                    let p = (reference, walk_points(n, false, 0, link.times.from_end@, 0, budget, count));
                    lemma_push_piece_ok(g, s1, p);
                } else {
                    let p = (reference, point_range(0, index + 1));
                    lemma_push_piece_ok(g, s1, p);
                    let s2 = add_cost_spec(SearchState { pieces: s1.pieces.push(p), ..s1 }, link.startnode@, t);
                    assert forall|i: int| 0 <= i < s2.queue.len() implies s2.costs.contains_key(
                        #[trigger] s2.queue[i].0,
                    ) by {
                        if i < s1.queue.len() {
                            assert(s2.queue[i] == s1.queue[i]);
                        }
                    }
                }
            }
        },
    }
}

/// Every piece a search keeps names a link of the network and only points of
/// that link's line.
pub proof fn law_pieces_lie_on_links(
    g: &Graph,
    budget: i32,
    closest: Closest,
    onward: Seq<i32>,
    s: SearchState,
)
    requires
        g.well_formed(),
        times_fit(g, budget),
        query_ok(g, closest, budget, onward),
        search_outcome(g, budget, start_state(g, budget, closest, onward), s),
    ensures
        pieces_ok(g, s),
{
    lemma_start_state_ok(g, budget, closest, onward);
    let s0 = start_state(g, budget, closest, onward);
    let tr = choose|tr: Seq<SearchState>| is_run(g, budget, tr) && tr[0] == s0 && tr.last() == s;
    lemma_run_pieces(g, budget, tr, tr.len() - 1);
}

/// The bookkeeping of a search: explored nodes and links, the queue, and the
/// best known cost of each reached node.
pub struct SearchUtils {
    explored: StringHashSet,
    explored_links: StringHashSet,
    queue: Vec<NodeCost>,
    node_costs: StringHashMap<NodeCost>,
}

pub open spec fn entry_view(e: NodeCost) -> (Seq<char>, int) {
    (e.node@, e.cost as int)
}

pub open spec fn entry_cost(e: NodeCost) -> int {
    e.cost as int
}

impl SearchUtils {
    pub closed spec fn spec_explored(&self) -> Set<Seq<char>> {
        self.explored@
    }

    pub closed spec fn spec_explored_links(&self) -> Set<Seq<char>> {
        self.explored_links@
    }

    pub closed spec fn spec_queue(&self) -> Seq<(Seq<char>, int)> {
        self.queue@.map_values(|e: NodeCost| entry_view(e))
    }

    pub closed spec fn spec_costs(&self) -> Map<Seq<char>, int> {
        self.node_costs@.map_values(|e: NodeCost| entry_cost(e))
    }

    /// The bookkeeping as values, with no kept pieces.
    pub closed spec fn book_state(&self) -> SearchState {
        SearchState {
            explored: self.spec_explored(),
            explored_links: self.spec_explored_links(),
            queue: self.spec_queue(),
            costs: self.spec_costs(),
            pieces: Seq::empty(),
        }
    }

    pub fn new() -> (r: Self)
        ensures
            r.book_state() == empty_state(),
            r.spec_explored() == Set::<Seq<char>>::empty(),
            r.spec_explored_links() == Set::<Seq<char>>::empty(),
            r.spec_queue() == Seq::<(Seq<char>, int)>::empty(),
            r.spec_costs() == Map::<Seq<char>, int>::empty(),
    {
        let r = Self {
            explored: StringHashSet::new(),
            explored_links: StringHashSet::new(),
            queue: Vec::new(),
            node_costs: StringHashMap::new(),
        };
        assert(r.spec_queue() =~= Seq::<(Seq<char>, int)>::empty());
        assert(r.spec_costs() =~= Map::<Seq<char>, int>::empty());
        r
    }

    pub fn set_explored(&mut self, nodeid: &str)
        ensures
            final(self).book_state() == book_apply(old(self).book_state(), BookCall::SetExplored(nodeid@)),
            final(self).spec_explored() == old(self).spec_explored().insert(nodeid@),
            final(self).spec_explored_links() == old(self).spec_explored_links(),
            final(self).spec_queue() == old(self).spec_queue(),
            final(self).spec_costs() == old(self).spec_costs(),
    {
        self.explored.insert(nodeid.to_owned());
    }

    pub fn set_link_explored(&mut self, link_reference: &str)
        ensures
            final(self).book_state() == book_apply(
                old(self).book_state(),
                BookCall::SetLinkExplored(link_reference@),
            ),
            final(self).spec_explored() == old(self).spec_explored(),
            final(self).spec_explored_links() == old(self).spec_explored_links().insert(
                link_reference@,
            ),
            final(self).spec_queue() == old(self).spec_queue(),
            final(self).spec_costs() == old(self).spec_costs(),
    {
        self.explored_links.insert(link_reference.to_owned());
    }

    pub fn is_explored(&self, nodeid: &str) -> (r: bool)
        ensures
            r == self.spec_explored().contains(nodeid@),
    {
        self.explored.get(nodeid).is_some()
    }

    pub fn is_link_explored(&self, link_reference: &str) -> (r: bool)
        ensures
            r == self.spec_explored_links().contains(link_reference@),
    {
        self.explored_links.get(link_reference).is_some()
    }

    /// Queues `nodeid` at `cost` and records `cost` as its cost.
    pub fn add_cost(&mut self, nodeid: String, cost: i32)
        ensures
            final(self).book_state() == book_apply(
                old(self).book_state(),
                BookCall::AddCost(nodeid@, cost as int),
            ),
            final(self).spec_explored() == old(self).spec_explored(),
            final(self).spec_explored_links() == old(self).spec_explored_links(),
            final(self).spec_queue() == old(self).spec_queue().push((nodeid@, cost as int)),
            final(self).spec_costs() == old(self).spec_costs().insert(nodeid@, cost as int),
    {
        let queue_entry = NodeCost::new(nodeid.clone(), cost);
        let node_costs_entry = NodeCost::new(nodeid.clone(), cost);
        self.queue.push(queue_entry);
        self.node_costs.insert(nodeid, node_costs_entry);
        assert(self.spec_queue() =~= old(self).spec_queue().push((nodeid@, cost as int)));
        assert(self.spec_costs() =~= old(self).spec_costs().insert(nodeid@, cost as int));
    }

    /// The recorded cost of `nodeid`, if it has one.
    pub fn get_cost_value(&self, nodeid: &str) -> (r: Option<i32>)
        ensures
            r is Some <==> self.spec_costs().contains_key(nodeid@),
            r is Some ==> r->0 as int == self.spec_costs()[nodeid@],
    {
        if let Some(s) = self.node_costs.get(nodeid) {
            return Some(s.cost);
        }
        None
    }

    /// Records the smaller of `cost` and `possible_new_cost` as the cost of
    /// `nodeid`; when the new cost is smaller, queues `nodeid` again, at
    /// `cost`.
    pub fn update_to_min_cost(&mut self, nodeid: &str, cost: i32, possible_new_cost: i32)
        requires
            old(self).spec_costs().contains_key(nodeid@),
        ensures
            final(self).book_state() == book_apply(
                old(self).book_state(),
                BookCall::UpdateToMinCost(nodeid@, cost as int, possible_new_cost as int),
            ),
            ({
                let s = SearchState {
                    explored: old(self).spec_explored(),
                    explored_links: old(self).spec_explored_links(),
                    queue: old(self).spec_queue(),
                    costs: old(self).spec_costs(),
                    pieces: Seq::empty(),
                };
                let r = update_to_min_cost_spec(s, nodeid@, cost as int, possible_new_cost as int);
                &&& final(self).spec_explored() == r.explored
                &&& final(self).spec_explored_links() == r.explored_links
                &&& final(self).spec_queue() == r.queue
                &&& final(self).spec_costs() == r.costs
            }),
    {
        let existing = match self.node_costs.get(nodeid) {
            Some(e) => e,
            None => {
                proof {
                    assert(false);
                }
                unreached()
            },
        };
        let mut entry = NodeCost::new(existing.node.clone(), existing.cost);
        entry.update_cost(cost, possible_new_cost);
        let ghost kept = entry.cost as int;
        self.node_costs.insert(nodeid.to_owned(), entry);
        assert(self.spec_costs() =~= old(self).spec_costs().insert(nodeid@, kept));
        if possible_new_cost < cost {
            self.queue.push(NodeCost::new(nodeid.to_owned(), cost));
            assert(self.spec_queue() =~= old(self).spec_queue().push((nodeid@, cost as int)));
        }
    }

    /// Records the smaller of `cost` and `new_cost` as the cost of `nodeid`,
    /// without queueing it.
    pub fn set_min_cost(&mut self, nodeid: &str, cost: i32, new_cost: i32)
        requires
            old(self).spec_costs().contains_key(nodeid@),
        ensures
            final(self).book_state() == book_apply(
                old(self).book_state(),
                BookCall::SetMinCost(nodeid@, cost as int, new_cost as int),
            ),
            final(self).spec_explored() == old(self).spec_explored(),
            final(self).spec_explored_links() == old(self).spec_explored_links(),
            final(self).spec_queue() == old(self).spec_queue(),
            final(self).spec_costs() == old(self).spec_costs().insert(
                nodeid@,
                if cost <= new_cost {
                    cost as int
                } else {
                    new_cost as int
                },
            ),
    {
        let existing = match self.node_costs.get(nodeid) {
            Some(e) => e,
            None => {
                proof {
                    assert(false);
                }
                unreached()
            },
        };
        let mut entry = NodeCost::new(existing.node.clone(), existing.cost);
        entry.update_cost(cost, new_cost);
        let ghost kept = entry.cost as int;
        self.node_costs.insert(nodeid.to_owned(), entry);
        assert(self.spec_costs() =~= old(self).spec_costs().insert(nodeid@, kept));
    }

    /// Takes a cheapest entry out of the queue.
    pub fn pop_cheapest(&mut self) -> (r: Option<NodeCost>)
        ensures
            exists|i: int|
                final(self).book_state() == book_apply(old(self).book_state(), BookCall::Take(i)),
            final(self).spec_explored() == old(self).spec_explored(),
            final(self).spec_explored_links() == old(self).spec_explored_links(),
            final(self).spec_costs() == old(self).spec_costs(),
            r is None <==> old(self).spec_queue().len() == 0,
            r is None ==> final(self).spec_queue() == old(self).spec_queue(),
            r is Some ==> exists|i: int|
                is_cheapest(old(self).spec_queue(), i) && old(self).spec_queue()[i] == entry_view(
                    r->0,
                ) && final(self).spec_queue() == old(self).spec_queue().remove(i),
    {
        let n = self.queue.len();
        if n == 0 {
            proof {
                assert(self.book_state() =~= book_apply(old(self).book_state(), BookCall::Take(-1)));
            }
            return None;
        }
        let mut best: usize = 0;
        let mut i: usize = 1;
        while i < n
            invariant
                n == self.queue@.len(),
                n > 0,
                1 <= i <= n,
                best < i,
                forall|j: int| 0 <= j < i ==> self.queue@[best as int].cost <= #[trigger] self.queue@[j].cost,
            decreases n - i,
        {
            if self.queue[i].cost < self.queue[best].cost {
                best = i;
            }
            i = i + 1;
        }
        let e = self.queue.remove(best);
        proof {
            let q = old(self).spec_queue();
            assert(is_cheapest(q, best as int)) by {
                assert forall|j: int| 0 <= j < q.len() implies q[best as int].1 <= #[trigger] q[j].1 by {
                    assert(q[j] == entry_view(old(self).queue@[j]));
                }
            }
            assert(self.spec_queue() =~= q.remove(best as int));
            assert(self.book_state() =~= book_apply(
                old(self).book_state(),
                BookCall::Take(best as int),
            ));
        }
        Some(e)
    }
}

/// A call on the bookkeeping of a search, as values.
pub enum BookCall {
    SetExplored(Seq<char>),
    SetLinkExplored(Seq<char>),
    AddCost(Seq<char>, int),
    UpdateToMinCost(Seq<char>, int, int),
    SetMinCost(Seq<char>, int, int),
    /// Taking the `i`-th entry out of the queue.
    Take(int),
}

/// What a call does to the bookkeeping.
pub open spec fn book_apply(s: SearchState, c: BookCall) -> SearchState {
    match c {
        BookCall::SetExplored(n) => SearchState { explored: s.explored.insert(n), ..s },
        BookCall::SetLinkExplored(r) => SearchState {
            explored_links: s.explored_links.insert(r),
            ..s
        },
        BookCall::AddCost(n, c) => add_cost_spec(s, n, c),
        BookCall::UpdateToMinCost(n, c, c2) => update_to_min_cost_spec(s, n, c, c2),
        BookCall::SetMinCost(n, c, c2) => SearchState {
            costs: s.costs.insert(
                n,
                if c <= c2 {
                    c
                } else {
                    c2
                },
            ),
            ..s
        },
        BookCall::Take(i) => if 0 <= i < s.queue.len() {
            SearchState { queue: s.queue.remove(i), ..s }
        } else {
            s
        },
    }
}

/// The bookkeeping after the calls `calls`, made in order from `s`.
pub open spec fn book_run(s: SearchState, calls: Seq<BookCall>) -> SearchState
    decreases calls.len(),
{
    if calls.len() == 0 {
        s
    } else {
        book_apply(book_run(s, calls.drop_last()), calls.last())
    }
}

/// The call writes a cost of node `n`.
pub open spec fn writes_cost(c: BookCall, n: Seq<char>) -> bool {
    match c {
        BookCall::AddCost(m, _) => m == n,
        BookCall::UpdateToMinCost(m, _, _) => m == n,
        BookCall::SetMinCost(m, _, _) => m == n,
        _ => false,
    }
}

/// The nodes that the calls mark explored.
pub open spec fn marked_explored(calls: Seq<BookCall>) -> Set<Seq<char>>
    decreases calls.len(),
{
    if calls.len() == 0 {
        Set::empty()
    } else {
        match calls.last() {
            BookCall::SetExplored(n) => marked_explored(calls.drop_last()).insert(n),
            _ => marked_explored(calls.drop_last()),
        }
    }
}

/// After any calls, the explored nodes are those explored before and those
/// that `set_explored` marked: marking a link explored or writing a cost
/// marks no node.
pub proof fn law_explored_are_those_marked(s: SearchState, calls: Seq<BookCall>)
    ensures
        book_run(s, calls).explored == s.explored.union(marked_explored(calls)),
    decreases calls.len(),
{
    if calls.len() > 0 {
        law_explored_are_those_marked(s, calls.drop_last());
        assert(book_run(s, calls).explored =~= s.explored.union(marked_explored(calls)));
    }
}

/// A node that had no cost and whose cost no call wrote still has no cost.
pub proof fn law_unwritten_node_has_no_cost(s: SearchState, calls: Seq<BookCall>, m: Seq<char>)
    requires
        !s.costs.contains_key(m),
        forall|i: int| 0 <= i < calls.len() ==> !writes_cost(#[trigger] calls[i], m),
    ensures
        !book_run(s, calls).costs.contains_key(m),
    decreases calls.len(),
{
    if calls.len() > 0 {
        law_unwritten_node_has_no_cost(s, calls.drop_last(), m);
        assert(!writes_cost(calls[calls.len() - 1], m));
    }
}

/// After `add_cost(n, c)`, with no later call writing a cost of `n`, the cost
/// read for `n` is `c`.
pub proof fn law_read_gives_added_cost(
    s: SearchState,
    calls: Seq<BookCall>,
    k: int,
    n: Seq<char>,
    c: int,
)
    requires
        0 <= k < calls.len(),
        calls[k] == BookCall::AddCost(n, c),
        forall|i: int| k < i < calls.len() ==> !writes_cost(#[trigger] calls[i], n),
    ensures
        book_run(s, calls).costs.contains_key(n),
        book_run(s, calls).costs[n] == c,
    decreases calls.len(),
{
    if k < calls.len() - 1 {
        let front = calls.drop_last();
        assert forall|i: int| k < i < front.len() implies !writes_cost(#[trigger] front[i], n) by {
            assert(front[i] == calls[i]);
        }
        law_read_gives_added_cost(s, front, k, n, c);
        assert(!writes_cost(calls[calls.len() - 1], n));
    } else {
        assert(calls.last() == BookCall::AddCost(n, c));
    }
}

/// One exploration only adds: earlier kept pieces stay first, explored nodes
/// and links stay explored, every node with a cost keeps one, no larger, and
/// earlier queue entries stay first.
pub open spec fn only_grows(s: SearchState, r: SearchState) -> bool {
    &&& s.pieces.len() <= r.pieces.len()
    &&& forall|i: int| 0 <= i < s.pieces.len() ==> #[trigger] r.pieces[i] == s.pieces[i]
    &&& s.explored.subset_of(r.explored)
    &&& s.explored_links.subset_of(r.explored_links)
    &&& costs_le(s, r)
    &&& s.queue.len() <= r.queue.len()
    &&& forall|i: int| 0 <= i < s.queue.len() ==> #[trigger] r.queue[i] == s.queue[i]
}

proof fn lemma_explore_link_grows(
    g: &Graph,
    budget: i32,
    s: SearchState,
    origin: Seq<char>,
    oc: int,
    l: Seq<char>,
)
    ensures
        only_grows(s, explore_link_spec(g, budget, s, origin, oc, l)),
{
}

proof fn lemma_explore_prefix_grows(
    g: &Graph,
    budget: i32,
    s: SearchState,
    origin: Seq<char>,
    oc: int,
    outs: Seq<Seq<char>>,
    k: int,
)
    ensures
        only_grows(s, explore_prefix(g, budget, s, origin, oc, outs, k)),
    decreases k,
{
    if k > 0 {
        lemma_explore_prefix_grows(g, budget, s, origin, oc, outs, k - 1);
        let p = explore_prefix(g, budget, s, origin, oc, outs, k - 1);
        lemma_explore_link_grows(g, budget, p, origin, oc, outs[k - 1]);
        let r = explore_link_spec(g, budget, p, origin, oc, outs[k - 1]);
        assert forall|i: int| 0 <= i < s.pieces.len() implies #[trigger] r.pieces[i] == s.pieces[i] by {
            assert(r.pieces[i] == p.pieces[i]);
        }
        assert forall|i: int| 0 <= i < s.queue.len() implies #[trigger] r.queue[i] == s.queue[i] by {
            assert(r.queue[i] == p.queue[i]);
        }
    }
}

/// Exploring a node only adds to the state of a search: earlier kept pieces
/// stay first, explored nodes and links stay explored, every node with a cost
/// keeps one, no larger, and earlier queue entries stay first.
pub proof fn law_exploration_only_grows(g: &Graph, budget: i32, s: SearchState, origin: Seq<char>)
    ensures
        only_grows(s, explore_spec(g, budget, s, origin)),
{
    if !s.explored.contains(origin) {
        let outs = outlinks(g.spec_links(), g.spec_nodes()[origin]);
        lemma_explore_prefix_grows(g, budget, s, origin, s.costs[origin], outs, outs.len() as int);
    }
}

/// Walking the links of `origin` marks no node explored but `origin`.
proof fn lemma_explore_prefix_explored(
    g: &Graph,
    budget: i32,
    s: SearchState,
    origin: Seq<char>,
    oc: int,
    outs: Seq<Seq<char>>,
    k: int,
)
    ensures
        explore_prefix(g, budget, s, origin, oc, outs, k).explored.subset_of(
            s.explored.insert(origin),
        ),
    decreases k,
{
    if k > 0 {
        lemma_explore_prefix_explored(g, budget, s, origin, oc, outs, k - 1);
    }
}

/// Walking links `j .. k` of `origin` records a cost for every node that had
/// one after link `j`, no larger.
proof fn lemma_explore_prefix_lowers(
    g: &Graph,
    budget: i32,
    s: SearchState,
    origin: Seq<char>,
    oc: int,
    outs: Seq<Seq<char>>,
    j: int,
    k: int,
)
    requires
        0 <= j <= k,
    ensures
        costs_le(
            explore_prefix(g, budget, s, origin, oc, outs, j),
            explore_prefix(g, budget, s, origin, oc, outs, k),
        ),
    decreases k,
{
    if j < k {
        lemma_explore_prefix_lowers(g, budget, s, origin, oc, outs, j, k - 1);
        let p = explore_prefix(g, budget, s, origin, oc, outs, k - 1);
        lemma_explore_link_grows(g, budget, p, origin, oc, outs[k - 1]);
    }
}

/// Exploring a node relaxes its links: for each link that can be driven away
/// from `origin`, whose far node `v` is another node, not explored yet, and
/// that is kept whole already or fits the budget from `origin`'s cost, the
/// exploration leaves `v` with a cost no larger than `origin`'s cost plus the
/// link's driving time. A node reached more cheaply through another node has
/// its cost lowered.
pub proof fn law_exploration_relaxes_links(
    g: &Graph,
    budget: i32,
    s: SearchState,
    origin: Seq<char>,
    j: int,
)
    requires
        !s.explored.contains(origin),
        0 <= j < outlinks(g.spec_links(), g.spec_nodes()[origin]).len(),
        ({
            let l = outlinks(g.spec_links(), g.spec_nodes()[origin])[j];
            let link = g.spec_links()[l];
            let v = other_end(link, origin);
            &&& v != origin
            &&& !s.explored.contains(v)
            &&& s.explored_links.contains(link.reference@) || s.costs[origin] + link.times.full
                <= budget
        }),
    ensures
        ({
            let l = outlinks(g.spec_links(), g.spec_nodes()[origin])[j];
            let link = g.spec_links()[l];
            let v = other_end(link, origin);
            let r = explore_spec(g, budget, s, origin);
            &&& r.costs.contains_key(v)
            &&& r.costs[v] <= s.costs[origin] + link.times.full
        }),
{
    let outs = outlinks(g.spec_links(), g.spec_nodes()[origin]);
    let oc = s.costs[origin];
    let l = outs[j];
    let link = g.spec_links()[l];
    let v = other_end(link, origin);
    let p = explore_prefix(g, budget, s, origin, oc, outs, j);
    lemma_explore_prefix_explored(g, budget, s, origin, oc, outs, j);
    lemma_explore_prefix_grows(g, budget, s, origin, oc, outs, j);
    assert(!p.explored.contains(v));
    let q = explore_prefix(g, budget, s, origin, oc, outs, j + 1);
    assert(q == explore_link_spec(g, budget, p, origin, oc, l));
    assert(q.costs.contains_key(v) && q.costs[v] <= oc + link.times.full);
    lemma_explore_prefix_lowers(g, budget, s, origin, oc, outs, j + 1, outs.len() as int);
}

/// The start of a search from the `index`-th point inside the closest link.
/// Driving toward the end node: when `onward[m - index]` (the time over the
/// rest of the line) is within the budget, the points from the start point
/// to the end are kept and the end node is queued at that time; otherwise the
/// walk from the start point over `onward` keeps the points that fit.
/// Driving toward the start node: the time compared with the budget is
/// `from_start[index - 1]`, the time from the start node to the point
/// *before* the start point; when it is within the budget, the points up to
/// and including the start point are kept and the start node is queued at
/// that time; otherwise the kept points are those that fit on a walk from the
/// end node backward over `from_end`, among the first `index + 1` steps.
/// `onward[j]` is the driving time over the `j` segments after the point.
pub open spec fn on_link_start(
    g: &Graph,
    budget: i32,
    s: SearchState,
    closest: Closest,
    onward: Seq<i32>,
) -> SearchState {
    let link = g.spec_links()[closest.link@];
    let index = closest.linestring_index as int;
    let m = link.geometry.segment_lengths@.len() as int;
    let n = m + 1;
    let reference = link.reference@;
    let s1 = if drivable(link.lanes@, true) {
        let t = onward[n - 1 - index] as int;
        if t > budget {
            SearchState {
                pieces: s.pieces.push(
                    (
                        reference,
                        walk_points(
                            n,
                            true,
                            index,
                            onward,
                            0,
                            budget,
                            step_count(index as usize, n as usize),
                        ),
                    ),
                ),
                ..s
            }
        } else {
            add_cost_spec(
                SearchState { pieces: s.pieces.push((reference, point_range(index, n))), ..s },
                link.endnode@,
                t,
            )
        }
    } else {
        s
    };
    if drivable(link.lanes@, false) {
        let t = link.times.from_start@[index - 1] as int;
        if t > budget {
            SearchState {
                pieces: s1.pieces.push(
                    (
                        reference,
                        walk_points(
                            n,
                            false,
                            0,
                            link.times.from_end@,
                            0,
                            budget,
                            step_count(0, (index + 1) as usize),
                        ),
                    ),
                ),
                ..s1
            }
        } else {
            add_cost_spec(
                SearchState { pieces: s1.pieces.push((reference, point_range(0, index + 1))), ..s1 },
                link.startnode@,
                t,
            )
        }
    } else {
        s1
    }
}

/// A start inside the closest link can be made without leaving its line or
/// its time tables: the point lies on the line, the onward table covers the
/// rest of the line, a point that is driven toward the start node is not the
/// first one, and each partial walk stays on the line.
pub open spec fn on_link_ok(link: RoadLink, index: int, budget: i32, onward: Seq<i32>) -> bool {
    let m = link.geometry.segment_lengths@.len() as int;
    let n = m + 1;
    &&& 0 <= index < n
    &&& onward.len() == n - index
    &&& drivable(link.lanes@, false) ==> index >= 1
    &&& (drivable(link.lanes@, true) && onward[n - 1 - index] > budget) ==> walk_in_bounds(
        onward,
        0,
        budget,
        index,
        step_count(index as usize, n as usize),
        m,
    )
    &&& (drivable(link.lanes@, false) && link.times.from_start@[index - 1] > budget)
        ==> walk_in_bounds(
        link.times.from_end@,
        0,
        budget,
        0,
        step_count(0, (index + 1) as usize),
        m,
    )
}

/// The costs at which a start inside `link` queues its end nodes are not
/// below `-negative_time_limit(g)`.
pub open spec fn start_costs_fit(
    g: &Graph,
    link: RoadLink,
    index: int,
    budget: i32,
    onward: Seq<i32>,
) -> bool {
    let n = link.geometry.segment_lengths@.len() as int + 1;
    &&& (drivable(link.lanes@, true) && onward[n - 1 - index] <= budget) ==> onward[n - 1 - index]
        >= -negative_time_limit(g)
    &&& (drivable(link.lanes@, false) && link.times.from_start@[index - 1] <= budget)
        ==> link.times.from_start@[index - 1] >= -negative_time_limit(g)
}

/// The search can start from `closest`: its node is in the graph, or its
/// link is and the start inside the link can be made, queuing its end nodes
/// at costs not below `-negative_time_limit(g)`.
pub open spec fn query_ok(g: &Graph, closest: Closest, budget: i32, onward: Seq<i32>) -> bool {
    match closest.node {
        Some(node) => g.spec_nodes().contains_key(node@),
        None => {
            &&& g.spec_links().contains_key(closest.link@)
            &&& on_link_ok(
                g.spec_links()[closest.link@],
                closest.linestring_index as int,
                budget,
                onward,
            )
            &&& start_costs_fit(
                g,
                g.spec_links()[closest.link@],
                closest.linestring_index as int,
                budget,
                onward,
            )
        },
    }
}

/// The state a search starts from: its node queued at cost zero, or the start
/// inside the closest link.
pub open spec fn start_state(g: &Graph, budget: i32, closest: Closest, onward: Seq<i32>) -> SearchState {
    match closest.node {
        Some(node) => add_cost_spec(empty_state(), node@, 0),
        None => on_link_start(g, budget, empty_state(), closest, onward),
    }
}

/// The points `a .. b` of a line.
pub fn points_between(a: usize, b: usize) -> (r: Vec<usize>)
    requires
        a <= b,
    ensures
        r@ == point_range(a as int, b as int),
{
    let mut r: Vec<usize> = Vec::new();
    let mut i = a;
    while i < b
        invariant
            a <= i <= b,
            r@ =~= point_range(a as int, i as int),
        decreases b - i,
    {
        r.push(i);
        i = i + 1;
    }
    r
}

/// All the points of a line of `m` segments.
pub fn all_points_of(m: usize) -> (r: Vec<usize>)
    ensures
        r@ == all_points(m + 1),
{
    let mut r: Vec<usize> = Vec::new();
    r.push(0);
    let mut i: usize = 0;
    while i < m
        invariant
            i <= m,
            r@ =~= all_points(i + 1),
        decreases m - i,
    {
        r.push(i + 1);
        i = i + 1;
    }
    r
}

/// A search over a graph, with its budget in seconds and its starting point.
pub struct Search<'a> {
    utils: SearchUtils,
    pub linestrings: Vec<LinePiece>,
    closest_link: Closest,
    graph: &'a Graph,
    cost: i32,
}

impl<'a> Search<'a> {
    pub closed spec fn spec_graph(&self) -> &'a Graph {
        self.graph
    }

    /// The budget, in seconds.
    pub closed spec fn spec_cost(&self) -> i32 {
        self.cost
    }

    pub closed spec fn spec_closest(&self) -> Closest {
        self.closest_link
    }

    /// The state of the search as values; its pieces are the `linestrings`.
    pub closed spec fn state(&self) -> SearchState {
        SearchState {
            explored: self.utils.spec_explored(),
            explored_links: self.utils.spec_explored_links(),
            queue: self.utils.spec_queue(),
            costs: self.utils.spec_costs(),
            pieces: self.linestrings@.map_values(|p: LinePiece| p.spec_view()),
        }
    }

    /// A search that has found nothing yet, with a budget of `cost` seconds.
    pub fn new(graph: &'a Graph, closest: Closest, cost: i32) -> (r: Search<'a>)
        ensures
            r.spec_graph() == graph,
            r.spec_cost() == cost,
            r.spec_closest() == closest,
            r.state() == empty_state(),
    {
        let r = Self {
            utils: SearchUtils::new(),
            linestrings: Vec::new(),
            closest_link: closest,
            graph: graph,
            cost,
        };
        assert(r.state().pieces =~= Seq::<(Seq<char>, Seq<usize>)>::empty());
        assert(r.state() =~= empty_state());
        r
    }

    /// The kept pieces of links so far.
    pub fn pieces(&self) -> (r: &Vec<LinePiece>)
        ensures
            r@.map_values(|p: LinePiece| p.spec_view()) == self.state().pieces,
    {
        &self.linestrings
    }

    /// The kept pieces of links, as lines of points, in the order they were
    /// found.
    pub fn as_multilinestring(self) -> (r: Vec<LinePiece>)
        ensures
            r@.map_values(|p: LinePiece| p.spec_view()) == self.state().pieces,
    {
        self.linestrings
    }

    /// The best known cost of `node`, in seconds, if the search reached it.
    pub fn cost_of(&self, node: &str) -> (r: Option<i32>)
        ensures
            r is Some <==> self.state().costs.contains_key(node@),
            r is Some ==> r->0 as int == self.state().costs[node@],
    {
        self.utils.get_cost_value(node)
    }

    pub fn closest(&self) -> (r: &Closest)
        ensures
            *r == self.spec_closest(),
    {
        &self.closest_link
    }

    fn get_node_outlinks(&self, node: &Node) -> (r: Vec<String>)
        requires
            forall|i: int|
                0 <= i < node.links@.len() ==> self.spec_graph().spec_links().contains_key(
                    #[trigger] node.links@[i]@,
                ),
        ensures
            r@.len() == outlinks(self.spec_graph().spec_links(), *node).len(),
            forall|i: int|
                0 <= i < r@.len() ==> #[trigger] r@[i]@ == outlinks(
                    self.spec_graph().spec_links(),
                    *node,
                )[i],
    {
        self.graph.get_node_outlinks(node)
    }

    fn push_piece(&mut self, link: String, points: Vec<usize>)
        ensures
            final(self).spec_graph() == old(self).spec_graph(),
            final(self).spec_cost() == old(self).spec_cost(),
            final(self).spec_closest() == old(self).spec_closest(),
            final(self).state() == (SearchState {
                pieces: old(self).state().pieces.push((link@, points@)),
                ..old(self).state()
            }),
    {
        let ghost link_view = link@;
        let ghost points_view = points@;
        self.linestrings.push(LinePiece { link, points });
        assert(self.state().pieces =~= old(self).state().pieces.push((link_view, points_view)));
    }

    /// Explores the node `origin_node_id`: unless it was explored before,
    /// walks every link that can be driven away from it.
    fn explore_node(&mut self, origin_node_id: &str)
        requires
            old(self).spec_graph().well_formed(),
            times_fit(old(self).spec_graph(), old(self).spec_cost()),
            state_inv(old(self).spec_graph(), old(self).spec_cost(), old(self).state()),
            old(self).state().costs.contains_key(origin_node_id@),
        ensures
            final(self).spec_graph() == old(self).spec_graph(),
            final(self).spec_cost() == old(self).spec_cost(),
            final(self).spec_closest() == old(self).spec_closest(),
            final(self).state() == explore_spec(
                old(self).spec_graph(),
                old(self).spec_cost(),
                old(self).state(),
                origin_node_id@,
            ),
    {
        if self.utils.is_explored(origin_node_id) {
            return;
        }
        let ghost g = self.spec_graph();
        let ghost budget = self.cost;
        let ghost s0 = self.state();
        let ghost origin = origin_node_id@;
        let origin_node_cost: i32 = match self.utils.get_cost_value(origin_node_id) {
            Some(c) => c,
            None => {
                proof {
                    assert(false);
                }
                unreached()
            },
        };
        let graph = self.graph;
        proof {
            assert(g.spec_nodes().contains_key(origin));
            assert(g.node_ok(origin));
        }
        let origin_node: &Node = graph.get_node(origin_node_id);
        proof {
            // the origin and the explored nodes are among the graph's nodes
            let e = s0.explored.len() as int;
            assert(!s0.explored.contains(origin));
            assert(s0.explored.subset_of(g.spec_nodes().dom()));
            assert(s0.explored.insert(origin).subset_of(g.spec_nodes().dom()));
            vstd::set_lib::lemma_len_subset(s0.explored, g.spec_nodes().dom());
            vstd::set_lib::lemma_len_subset(s0.explored.insert(origin), g.spec_nodes().dom());
            assert(s0.explored.insert(origin).len() == e + 1);
            assert(s0.costs.contains_key(origin));
            lemma_cost_floor(g, e, e);
        }
        let outs = self.get_node_outlinks(origin_node);
        let ghost outs_spec = outlinks(g.spec_links(), g.spec_nodes()[origin]);
        proof {
            lemma_outlinks_listed(g.spec_links(), *origin_node, origin_node.links@.len() as int);
        }
        let mut i: usize = 0;
        while i < outs.len()
            invariant
                g == self.spec_graph(),
                graph == g,
                budget == self.cost,
                self.spec_closest() == old(self).spec_closest(),
                s0 == old(self).state(),
                g.well_formed(),
                times_fit(g, budget),
                state_inv(g, budget, s0),
                s0.costs.contains_key(origin),
                origin == origin_node_id@,
                g.spec_nodes().contains_key(origin),
                *origin_node == g.spec_nodes()[origin],
                origin_node.id@ == origin,
                origin_node_cost as int == s0.costs[origin],
                origin_node_cost <= cap(budget),
                !s0.explored.contains(origin),
                origin_node_cost as int >= cost_floor(g, s0.explored.len() as int),
                origin_node_cost as int - negative_time_limit(g) >= -(i32::MAX as int),
                outs_spec == outlinks(g.spec_links(), g.spec_nodes()[origin]),
                outs@.len() == outs_spec.len(),
                forall|j: int| 0 <= j < outs@.len() ==> #[trigger] outs@[j]@ == outs_spec[j],
                forall|j: int|
                    0 <= j < outs_spec.len() ==> exists|k: int|
                        0 <= k < origin_node.links@.len() && #[trigger] outs_spec[j]
                            == origin_node.links@[k]@,
                0 <= i <= outs@.len(),
                self.state() == explore_prefix(
                    g,
                    budget,
                    s0,
                    origin,
                    origin_node_cost as int,
                    outs_spec,
                    i as int,
                ),
            decreases outs@.len() - i,
        {
            let ghost before = self.state();
            proof {
                lemma_explore_prefix(g, budget, s0, origin, origin_node_cost as int, i as int);
                let k = choose|k: int|
                    0 <= k < origin_node.links@.len() && outs_spec[i as int]
                        == origin_node.links@[k]@;
                assert(origin_node.links@[k]@ == outs_spec[i as int]);
                assert(g.link_ok(outs_spec[i as int]));
            }
            let linkid = &outs[i];
            let link: &RoadLink = graph.get_link(linkid.as_str());
            let forward = origin_node.id == link.startnode;
            let node_type = if forward {
                "startnode"
            } else {
                "endnode"
            };
            proof {
                reveal_strlit("startnode");
                reveal_strlit("endnode");
                assert("endnode"@.len() == 7);
                assert("startnode"@.len() == 9);
                assert(is_startnode(node_type@) == forward);
            }
            let driving_time = link.driving_time_secs();
            let destination_nodeid = link.get_destination_nodeid(origin_node);
            if !self.utils.is_link_explored(link.reference.as_str()) {
                let destination_cost = origin_node_cost + driving_time;
                if destination_cost > self.cost {
                    let sublinestring = link.sub_linestring(self.cost, origin_node_cost, node_type);
                    if sublinestring.len() > 0 {
                        self.push_piece(link.reference.clone(), sublinestring);
                    }
                    proof {
                        assert(self.state() =~= explore_link_spec(
                            g,
                            budget,
                            before,
                            origin,
                            origin_node_cost as int,
                            outs_spec[i as int],
                        ));
                    }
                    i = i + 1;
                    continue;
                } else {
                    let full = all_points_of(link.geometry.segment_lengths.len());
                    self.push_piece(link.reference.clone(), full);
                    self.utils.set_link_explored(link.reference.as_str());
                }
            }
            if !self.utils.is_explored(destination_nodeid.as_str()) {
                match self.utils.get_cost_value(destination_nodeid.as_str()) {
                    Some(s) => self.utils.update_to_min_cost(
                        destination_nodeid.as_str(),
                        s,
                        origin_node_cost + driving_time,
                    ),
                    None => self.utils.add_cost(
                        destination_nodeid,
                        origin_node_cost + driving_time,
                    ),
                }
                self.utils.set_explored(origin_node_id);
            }
            proof {
                assert(self.state() =~= explore_link_spec(
                    g,
                    budget,
                    before,
                    origin,
                    origin_node_cost as int,
                    outs_spec[i as int],
                ));
            }
            i = i + 1;
        }
    }

    /// Takes a cheapest node out of the queue and explores it, until the
    /// queue is empty.
    fn run(&mut self)
        requires
            old(self).spec_graph().well_formed(),
            times_fit(old(self).spec_graph(), old(self).spec_cost()),
            state_inv(old(self).spec_graph(), old(self).spec_cost(), old(self).state()),
        ensures
            final(self).spec_graph() == old(self).spec_graph(),
            final(self).spec_cost() == old(self).spec_cost(),
            final(self).spec_closest() == old(self).spec_closest(),
            state_inv(final(self).spec_graph(), final(self).spec_cost(), final(self).state()),
            search_outcome(
                final(self).spec_graph(),
                final(self).spec_cost(),
                old(self).state(),
                final(self).state(),
            ),
    {
        let ghost g = self.spec_graph();
        let ghost budget = self.cost;
        let ghost s0 = self.state();
        let ghost mut tr: Seq<SearchState> = seq![s0];
        loop
            invariant
                g == self.spec_graph(),
                budget == self.cost,
                self.spec_closest() == old(self).spec_closest(),
                g.well_formed(),
                times_fit(g, budget),
                state_inv(g, budget, self.state()),
                is_run(g, budget, tr),
                tr[0] == s0,
                tr.last() == self.state(),
            ensures
                state_inv(g, budget, self.state()),
                search_outcome(g, budget, s0, self.state()),
            decreases
                g.spec_nodes().dom().len() - self.state().explored.len(),
                self.state().queue.len(),
        {
            let ghost before = self.state();
            proof {
                vstd::set_lib::lemma_len_subset(before.explored, g.spec_nodes().dom());
            }
            match self.utils.pop_cheapest() {
                Some(s) => {
                    let ghost popped = self.state();
                    let ghost i = choose|i: int|
                        is_cheapest(before.queue, i) && before.queue[i] == entry_view(s)
                            && popped.queue == before.queue.remove(i);
                    proof {
                        assert(popped =~= SearchState { queue: before.queue.remove(i), ..before });
                        assert(state_inv(g, budget, popped)) by {
                            assert forall|j: int| 0 <= j < popped.queue.len() implies popped.costs.contains_key(
                                #[trigger] popped.queue[j].0,
                            ) by {
                                if j < i {
                                    assert(popped.queue[j] == before.queue[j]);
                                } else {
                                    assert(popped.queue[j] == before.queue[j + 1]);
                                }
                            }
                        }
                        assert(before.costs.contains_key(before.queue[i].0));
                        lemma_explore(g, budget, popped, s.node@);
                    }
                    self.explore_node(s.node.as_str());
                    proof {
                        let after = self.state();
                        assert(search_step(g, budget, before, after));
                        let tr2 = tr.push(after);
                        assert forall|k: int| 0 <= k < tr2.len() - 1 implies search_step(
                            g,
                            budget,
                            tr2[k],
                            #[trigger] tr2[k + 1],
                        ) by {
                            if k < tr.len() - 1 {
                                assert(tr2[k] == tr[k]);
                                assert(tr2[k + 1] == tr[k + 1]);
                            } else {
                                assert(tr2[k] == before);
                            }
                        }
                        tr = tr2;
                        if after.explored != before.explored {
                            vstd::set_lib::lemma_len_subset(after.explored, g.spec_nodes().dom());
                        }
                    }
                },
                None => {
                    proof {
                        assert(is_run(g, budget, tr) && tr[0] == s0 && tr.last() == self.state());
                    }
                    break;
                },
            }
        }
    }

    /// Searches from the node the closest point coincides with: the node is
    /// queued at cost zero and the search runs until the queue is empty.
    pub fn do_search_from_node(&mut self)
        requires
            old(self).spec_graph().well_formed(),
            times_fit(old(self).spec_graph(), old(self).spec_cost()),
            state_inv(old(self).spec_graph(), old(self).spec_cost(), old(self).state()),
            old(self).spec_closest().node is Some,
            old(self).spec_graph().spec_nodes().contains_key(old(self).spec_closest().node->0@),
        ensures
            final(self).spec_graph() == old(self).spec_graph(),
            final(self).spec_cost() == old(self).spec_cost(),
            final(self).spec_closest() == old(self).spec_closest(),
            state_inv(final(self).spec_graph(), final(self).spec_cost(), final(self).state()),
            search_outcome(
                final(self).spec_graph(),
                final(self).spec_cost(),
                add_cost_spec(old(self).state(), old(self).spec_closest().node->0@, 0),
                final(self).state(),
            ),
    {
        let startnodeid = match self.closest().node() {
            Some(n) => n,
            None => {
                proof {
                    assert(false);
                }
                unreached()
            },
        };
        self.utils.add_cost(startnodeid, 0);
        proof {
            let g = self.spec_graph();
            let budget = self.cost;
            let s = self.state();
            assert(s =~= add_cost_spec(old(self).state(), old(self).spec_closest().node->0@, 0));
            assert forall|j: int| 0 <= j < s.queue.len() implies s.costs.contains_key(
                #[trigger] s.queue[j].0,
            ) by {
                if j < s.queue.len() - 1 {
                    assert(s.queue[j] == old(self).state().queue[j]);
                }
            }
            let e = old(self).state().explored.len() as int;
            lemma_cost_floor(g, e, e);
            assert(state_inv(g, budget, s));
        }
        self.run();
    }

    /// Searches from a point inside the closest link, starting as
    /// `on_link_start` says: toward the end node the time measured is the
    /// time over the rest of the line from the point; toward the start node
    /// it is the time from the start node to the point before the start
    /// point, and a cut piece is walked from the end node. Then the search
    /// runs until the queue is empty.
    /// `onward[j]` is the driving time over the `j` segments after the point.
    pub fn do_search_on_link(&mut self, onward: &Vec<i32>)
        requires
            old(self).spec_graph().well_formed(),
            times_fit(old(self).spec_graph(), old(self).spec_cost()),
            state_inv(old(self).spec_graph(), old(self).spec_cost(), old(self).state()),
            old(self).spec_graph().spec_links().contains_key(old(self).spec_closest().link@),
            on_link_ok(
                old(self).spec_graph().spec_links()[old(self).spec_closest().link@],
                old(self).spec_closest().linestring_index as int,
                old(self).spec_cost(),
                onward@,
            ),
            start_costs_fit(
                old(self).spec_graph(),
                old(self).spec_graph().spec_links()[old(self).spec_closest().link@],
                old(self).spec_closest().linestring_index as int,
                old(self).spec_cost(),
                onward@,
            ),
        ensures
            final(self).spec_graph() == old(self).spec_graph(),
            final(self).spec_cost() == old(self).spec_cost(),
            final(self).spec_closest() == old(self).spec_closest(),
            state_inv(final(self).spec_graph(), final(self).spec_cost(), final(self).state()),
            search_outcome(
                final(self).spec_graph(),
                final(self).spec_cost(),
                on_link_start(
                    old(self).spec_graph(),
                    old(self).spec_cost(),
                    old(self).state(),
                    old(self).spec_closest(),
                    onward@,
                ),
                final(self).state(),
            ),
    {
        let ghost g = self.spec_graph();
        let ghost budget = self.cost;
        let ghost s0 = self.state();
        let graph = self.graph;
        let link = graph.get_link(self.closest().link().as_str());
        let index = self.closest().linestring_index;
        let m = link.geometry.segment_lengths.len();
        proof {
            assert(g.link_ok(self.spec_closest().link@));
            reveal_strlit("startnode");
            reveal_strlit("endnode");
            assert("endnode"@.len() == 7);
            assert("startnode"@.len() == 9);
        }
        if link.drivable(true) {
            let driving_time = onward[m - index];
            if driving_time > self.cost {
                let sublinestring = link.sub_linestring_from_to(
                    self.cost,
                    0,
                    "startnode",
                    index,
                    m + 1,
                    onward,
                );
                self.push_piece(link.reference.clone(), sublinestring);
            } else {
                let part = points_between(index, m + 1);
                self.push_piece(link.reference.clone(), part);
                self.utils.add_cost(link.endnode.clone(), driving_time);
            }
        }
        let ghost s1 = self.state();
        if link.drivable(false) {
            let driving_time = link.times.from_start[index - 1];
            if driving_time > self.cost {
                let sublinestring = link.sub_linestring_from_to(
                    self.cost,
                    0,
                    "endnode",
                    0,
                    index + 1,
                    &link.times.from_end,
                );
                self.push_piece(link.reference.clone(), sublinestring);
            } else {
                let part = points_between(0, index + 1);
                self.push_piece(link.reference.clone(), part);
                self.utils.add_cost(link.startnode.clone(), driving_time);
            }
        }
        proof {
            let s = self.state();
            assert(s =~= on_link_start(g, budget, s0, self.spec_closest(), onward@));
            assert forall|j: int| 0 <= j < s.queue.len() implies s.costs.contains_key(
                #[trigger] s.queue[j].0,
            ) by {
                if j < s0.queue.len() {
                    assert(s.queue[j] == s0.queue[j]);
                } else if j < s1.queue.len() {
                    assert(s.queue[j] == s1.queue[j]);
                }
            }
            let e = s0.explored.len() as int;
            lemma_cost_floor(g, 0, e);
            assert(state_inv(g, budget, s));
        }
        self.run();
    }

    /// Runs a search over `graph` from `closest` with a budget of `cost`
    /// minutes: from the node the closest point coincides with, if any, else
    /// from the point inside the closest link.
    pub fn do_search(graph: &'a Graph, closest: Closest, cost: i32, onward: Vec<i32>) -> (r:
        Search<'a>)
        requires
            -35_791_394 <= cost <= 35_791_394,
            graph.well_formed(),
            times_fit(graph, (cost * 60) as i32),
            query_ok(graph, closest, (cost * 60) as i32, onward@),
        ensures
            r.spec_graph() == graph,
            r.spec_cost() == cost * 60,
            r.spec_closest() == closest,
            search_outcome(
                graph,
                (cost * 60) as i32,
                start_state(graph, (cost * 60) as i32, closest, onward@),
                r.state(),
            ),
    {
        let cost_seconds = cost * 60;
        let node: bool = closest.node.is_some();
        let mut search = Search::new(graph, closest, cost_seconds);
        if node {
            search.do_search_from_node();
        } else {
            search.do_search_on_link(&onward);
        }
        search
    }
}

impl Graph {
    /// Runs a search over this graph from `closest` with a budget of `cost`
    /// minutes.
    pub fn search(&self, closest: Closest, cost: i32, onward: Vec<i32>) -> (r: Search<'_>)
        requires
            -35_791_394 <= cost <= 35_791_394,
            self.well_formed(),
            times_fit(self, (cost * 60) as i32),
            query_ok(self, closest, (cost * 60) as i32, onward@),
        ensures
            r.spec_graph() == self,
            r.spec_cost() == cost * 60,
            r.spec_closest() == closest,
            search_outcome(
                self,
                (cost * 60) as i32,
                start_state(self, (cost * 60) as i32, closest, onward@),
                r.state(),
            ),
    {
        Search::do_search(self, closest, cost, onward)
    }
}

/// Whether a start inside `link` at the `index`-th point can be made.
pub fn start_on_link_fits(link: &RoadLink, index: usize, budget: i32, onward: &Vec<i32>) -> (r:
    bool)
    requires
        link.well_formed(),
    ensures
        r == on_link_ok(*link, index as int, budget, onward@),
{
    let m = link.geometry.segment_lengths.len();
    if index > m {
        return false;
    }
    if onward.len() != m + 1 - index {
        return false;
    }
    let forward = link.drivable(true);
    let backward = link.drivable(false);
    if backward && index < 1 {
        return false;
    }
    if forward && onward[m - index] > budget {
        if !walk_fits(onward, 0, budget, index, m + 1 - index, m) {
            return false;
        }
    }
    if backward && link.times.from_start[index - 1] > budget {
        if !walk_fits(&link.times.from_end, 0, budget, 0, index + 1, m) {
            return false;
        }
    }
    true
}

/// Whether a search can start from `closest`.
pub fn query_fits(g: &Graph, closest: &Closest, budget: i32, onward: &Vec<i32>) -> (r: bool)
    requires
        g.well_formed(),
    ensures
        r == query_ok(g, *closest, budget, onward@),
{
    match &closest.node {
        Some(node) => g.has_node(node.as_str()),
        None => {
            if !g.has_link(closest.link.as_str()) {
                return false;
            }
            let link = g.get_link(closest.link.as_str());
            proof {
                assert(g.link_ok(closest.link@));
            }
            if !start_on_link_fits(link, closest.linestring_index, budget, onward) {
                return false;
            }
            start_costs_within(g, link, closest.linestring_index, budget, onward)
        },
    }
}

/// Whether a start inside `link` at the `index`-th point queues its end nodes
/// at costs not below `-negative_time_limit(g)`.
fn start_costs_within(g: &Graph, link: &RoadLink, index: usize, budget: i32, onward: &Vec<i32>) -> (r:
    bool)
    requires
        link.well_formed(),
        on_link_ok(*link, index as int, budget, onward@),
    ensures
        r == start_costs_fit(g, *link, index as int, budget, onward@),
{
    let lim = g.negative_time_limit();
    let m = link.geometry.segment_lengths.len();
    if link.drivable(true) {
        let t = onward[m - index];
        if t <= budget && t < -lim {
            return false;
        }
    }
    if link.drivable(false) {
        let t = link.times.from_start[index - 1];
        if t <= budget && t < -lim {
            return false;
        }
    }
    true
}

impl Graph {
    /// Runs a search over this graph from `closest` with a budget of `cost`
    /// minutes when it can be run: the budget in seconds fits in an `i32`,
    /// the network is well formed, every link's driving time fits, and the
    /// search can start from `closest`. Otherwise returns `None`.
    pub fn try_search(&self, closest: Closest, cost: i32, onward: Vec<i32>) -> (r: Option<
        Search<'_>,
    >)
        ensures
            r is Some <==> {
                &&& -35_791_394 <= cost <= 35_791_394
                &&& self.well_formed()
                &&& times_fit(self, (cost * 60) as i32)
                &&& query_ok(self, closest, (cost * 60) as i32, onward@)
            },
            r is Some ==> {
                let search = r->0;
                &&& search.spec_graph() == self
                &&& search.spec_cost() == cost * 60
                &&& search.spec_closest() == closest
                &&& search_outcome(
                    self,
                    (cost * 60) as i32,
                    start_state(self, (cost * 60) as i32, closest, onward@),
                    search.state(),
                )
            },
    {
        if cost < -35_791_394 || cost > 35_791_394 {
            return None;
        }
        if !self.is_well_formed() {
            return None;
        }
        let budget = cost * 60;
        let cap_value = if budget > 0 {
            budget
        } else {
            0
        };
        let lim = self.negative_time_limit();
        if !self.check_link_times(-lim, i32::MAX - cap_value) {
            return None;
        }
        if !query_fits(self, &closest, budget, &onward) {
            return None;
        }
        Some(self.search(closest, cost, onward))
    }
}

} // verus!
