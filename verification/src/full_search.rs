//! The whole-network search: from the closest point, the driving time to
//! every node that can be reached is worked out, however large; the links
//! whose far node is reached within the budget are kept whole.
//!
//! Unlike the budget-bounded search, exploring a node here always walks all
//! of its links, and a link is kept as soon as its far node's best known cost
//! is within the budget. Costs are added up in `i32`: a search in which a sum
//! would leave `i32` stops and gives no result.
use vstd::prelude::*;
use crate::closest::Closest;
use crate::graph::{
    lists_link,
    has_route, is_outlink, leaves, lemma_route_base, lemma_route_extend, other_end, outlinks,
    span_sum, times_within, Graph, Haversine, LineStringSegment, Node, RoadLink,
};
use crate::search::{
    add_cost_spec, all_points, all_points_of, costs_le, costs_nonneg, empty_state, entry_view, is_cheapest,
    lemma_outlinks_listed, piece_ok, pieces_ok, point_range, points_between, routes_from,
    LinePiece, SearchState, SearchUtils,
};

verus! {

broadcast use vstd::set_lib::lemma_set_subset_finite;

/// Records the smaller of `cost` and `new_cost` as the cost of `node`.
pub open spec fn lower_cost_spec(s: SearchState, node: Seq<char>, cost: int, new_cost: int) -> SearchState {
    SearchState {
        costs: s.costs.insert(
            node,
            if cost <= new_cost {
                cost
            } else {
                new_cost
            },
        ),
        ..s
    }
}

/// Walks link `l` away from `origin`, reached at cost `oc`: unless the far
/// node was explored, its cost is lowered to `oc` plus the link's driving
/// time (or set, with the node queued, when it had none), the link is kept
/// whole when the far node's cost is within the budget, and `origin` is
/// marked explored.
pub open spec fn reach_link_spec(
    g: &Graph,
    budget: i32,
    s: SearchState,
    origin: Seq<char>,
    oc: int,
    l: Seq<char>,
) -> SearchState {
    let link = g.spec_links()[l];
    let t = link.times.full as int;
    let dest = other_end(link, origin);
    if !s.explored.contains(dest) {
        let s2 = if s.costs.contains_key(dest) {
            lower_cost_spec(s, dest, s.costs[dest], oc + t)
        } else {
            add_cost_spec(s, dest, oc + t)
        };
        let s3 = if s2.costs[dest] <= budget {
            SearchState {
                pieces: s2.pieces.push(
                    (link.reference@, all_points(link.geometry.point_count() as int)),
                ),
                ..s2
            }
        } else {
            s2
        };
        SearchState { explored: s3.explored.insert(origin), ..s3 }
    } else {
        s
    }
}

/// Walking link `l` away from `origin`, reached at cost `oc`, would take a
/// cost out of `i32`: the far node is not explored, and `oc` plus the link's
/// driving time is not an `i32`.
pub open spec fn reach_link_overflows(
    g: &Graph,
    s: SearchState,
    origin: Seq<char>,
    oc: int,
    l: Seq<char>,
) -> bool {
    let link = g.spec_links()[l];
    &&& !s.explored.contains(other_end(link, origin))
    &&& !(i32::MIN <= oc + link.times.full <= i32::MAX)
}

/// Walks the first `k` of the links `outs` away from `origin`.
pub open spec fn reach_prefix(
    g: &Graph,
    budget: i32,
    s: SearchState,
    origin: Seq<char>,
    oc: int,
    outs: Seq<Seq<char>>,
    k: int,
) -> SearchState
    decreases k,
{
    if k <= 0 {
        s
    } else {
        reach_link_spec(
            g,
            budget,
            reach_prefix(g, budget, s, origin, oc, outs, k - 1),
            origin,
            oc,
            outs[k - 1],
        )
    }
}

/// Walking the first `k` of the links `outs` away from `origin` meets a link
/// whose walk would take a cost out of `i32`.
pub open spec fn reach_prefix_overflows(
    g: &Graph,
    budget: i32,
    s: SearchState,
    origin: Seq<char>,
    oc: int,
    outs: Seq<Seq<char>>,
    k: int,
) -> bool
    decreases k,
{
    if k <= 0 {
        false
    } else {
        ||| reach_prefix_overflows(g, budget, s, origin, oc, outs, k - 1)
        ||| reach_link_overflows(
            g,
            reach_prefix(g, budget, s, origin, oc, outs, k - 1),
            origin,
            oc,
            outs[k - 1],
        )
    }
}

/// Explores `origin`: walks every link that can be driven away from it, in
/// the order the node lists them.
pub open spec fn reach_spec(g: &Graph, budget: i32, s: SearchState, origin: Seq<char>) -> SearchState {
    let outs = outlinks(g.spec_links(), g.spec_nodes()[origin]);
    reach_prefix(g, budget, s, origin, s.costs[origin], outs, outs.len() as int)
}

/// Exploring `origin` would take a cost out of `i32`.
pub open spec fn reach_overflows(g: &Graph, budget: i32, s: SearchState, origin: Seq<char>) -> bool {
    let outs = outlinks(g.spec_links(), g.spec_nodes()[origin]);
    reach_prefix_overflows(g, budget, s, origin, s.costs[origin], outs, outs.len() as int)
}

/// The state after the `i`-th queue entry is taken out.
pub open spec fn popped(s: SearchState, i: int) -> SearchState {
    SearchState { queue: s.queue.remove(i), ..s }
}

/// One round: a cheapest queue entry is taken out and its node explored,
/// all its costs staying within `i32`.
pub open spec fn reach_step(g: &Graph, budget: i32, s: SearchState, s2: SearchState) -> bool {
    exists|i: int|
        #![trigger is_cheapest(s.queue, i)]
        is_cheapest(s.queue, i) && !reach_overflows(g, budget, popped(s, i), s.queue[i].0) && s2
            == reach_spec(g, budget, popped(s, i), s.queue[i].0)
}

/// `tr` is a run: each state follows from the one before by a round.
pub open spec fn is_reach_run(g: &Graph, budget: i32, tr: Seq<SearchState>) -> bool {
    &&& tr.len() >= 1
    &&& forall|i: int| 0 <= i < tr.len() - 1 ==> reach_step(g, budget, tr[i], #[trigger] tr[i + 1])
}

/// `s` is where the search ends when started from `s0`.
pub open spec fn reach_outcome(g: &Graph, budget: i32, s0: SearchState, s: SearchState) -> bool {
    &&& s.queue.len() == 0
    &&& exists|tr: Seq<SearchState>| is_reach_run(g, budget, tr) && tr[0] == s0 && tr.last() == s
}

/// The search started from `s0` stops short: a run from `s0` reaches a state
/// in which exploring a cheapest queued node would take a cost out of
/// `i32`.
pub open spec fn reach_halts(g: &Graph, budget: i32, s0: SearchState) -> bool {
    exists|tr: Seq<SearchState>, i: int|
        #![trigger is_reach_run(g, budget, tr), is_cheapest(tr.last().queue, i)]
        is_reach_run(g, budget, tr) && tr[0] == s0 && is_cheapest(tr.last().queue, i)
            && reach_overflows(g, budget, popped(tr.last(), i), tr.last().queue[i].0)
}

/// What the state keeps true: queued and explored nodes have a cost, every
/// costed node is in the graph, and every cost is an `i32`.
pub open spec fn reach_inv(g: &Graph, s: SearchState) -> bool {
    &&& forall|i: int| 0 <= i < s.queue.len() ==> s.costs.contains_key(#[trigger] s.queue[i].0)
    &&& forall|k: Seq<char>| #[trigger]
        s.costs.contains_key(k) ==> {
            &&& g.spec_nodes().contains_key(k)
            &&& i32::MIN <= s.costs[k] <= i32::MAX
        }
    &&& forall|k: Seq<char>| #[trigger] s.explored.contains(k) ==> s.costs.contains_key(k)
}

/// The queue length plus the number of nodes of the graph without a cost:
/// every round lowers it by one.
pub open spec fn reach_potential(g: &Graph, s: SearchState) -> int {
    s.queue.len() + g.spec_nodes().dom().len() - s.costs.dom().len()
}

/// From `s` to `r` no cost is raised, no explored node is forgotten, and the
/// queue grew by as many entries as nodes got a first cost.
pub open spec fn reach_grows(s: SearchState, r: SearchState) -> bool {
    &&& costs_le(s, r)
    &&& s.explored.subset_of(r.explored)
    &&& r.queue.len() - r.costs.dom().len() == s.queue.len() - s.costs.dom().len()
}

/// Walking one link keeps the invariant and only grows the state.
proof fn lemma_reach_link(
    g: &Graph,
    budget: i32,
    s: SearchState,
    origin: Seq<char>,
    oc: int,
    l: Seq<char>,
)
    requires
        g.well_formed(),
        reach_inv(g, s),
        s.costs.contains_key(origin),
        i32::MIN <= oc <= i32::MAX,
        g.spec_links().contains_key(l),
        !reach_link_overflows(g, s, origin, oc, l),
    ensures
        ({
            let r = reach_link_spec(g, budget, s, origin, oc, l);
            &&& reach_inv(g, r)
            &&& r.costs.contains_key(origin)
            &&& reach_grows(s, r)
            &&& times_within(g, 0, i32::MAX as int) && costs_nonneg(s) && oc >= 0 ==> costs_nonneg(r)
        }),
{
    let link = g.spec_links()[l];
    assert(g.link_ok(l));
    let dest = other_end(link, origin);
    let r = reach_link_spec(g, budget, s, origin, oc, l);
    if !s.explored.contains(dest) {
        if s.costs.contains_key(dest) {
            assert(r.costs.dom() =~= s.costs.dom());
        } else {
            assert(r.costs.dom() =~= s.costs.dom().insert(dest));
            assert(s.costs.dom().subset_of(g.spec_nodes().dom()));
            vstd::set_lib::lemma_len_subset(s.costs.dom(), g.spec_nodes().dom());
            assert(r.costs.dom().len() == s.costs.dom().len() + 1);
        }
        assert forall|i: int| 0 <= i < r.queue.len() implies r.costs.contains_key(
            #[trigger] r.queue[i].0,
        ) by {
            if i < s.queue.len() {
                assert(r.queue[i] == s.queue[i]);
            }
        }
        assert forall|k: Seq<char>| #[trigger] r.costs.contains_key(k) implies {
            &&& g.spec_nodes().contains_key(k)
            &&& i32::MIN <= r.costs[k] <= i32::MAX
        } by {
            if k != dest {
                assert(s.costs.contains_key(k));
            }
        }
    }
}

/// Walking a prefix of the links keeps the invariant and only grows the
/// state.
proof fn lemma_reach_prefix(
    g: &Graph,
    budget: i32,
    s: SearchState,
    origin: Seq<char>,
    oc: int,
    k: int,
)
    requires
        g.well_formed(),
        reach_inv(g, s),
        s.costs.contains_key(origin),
        g.spec_nodes().contains_key(origin),
        i32::MIN <= oc <= i32::MAX,
        0 <= k <= outlinks(g.spec_links(), g.spec_nodes()[origin]).len(),
        !reach_prefix_overflows(
            g,
            budget,
            s,
            origin,
            oc,
            outlinks(g.spec_links(), g.spec_nodes()[origin]),
            k,
        ),
    ensures
        ({
            let outs = outlinks(g.spec_links(), g.spec_nodes()[origin]);
            let r = reach_prefix(g, budget, s, origin, oc, outs, k);
            &&& reach_inv(g, r)
            &&& r.costs.contains_key(origin)
            &&& reach_grows(s, r)
            &&& times_within(g, 0, i32::MAX as int) && costs_nonneg(s) && oc >= 0 ==> costs_nonneg(r)
        }),
    decreases k,
{
    let node = g.spec_nodes()[origin];
    let outs = outlinks(g.spec_links(), node);
    if k > 0 {
        lemma_reach_prefix(g, budget, s, origin, oc, k - 1);
        let p = reach_prefix(g, budget, s, origin, oc, outs, k - 1);
        assert(g.node_ok(origin));
        lemma_outlinks_listed(g.spec_links(), node, node.links@.len() as int);
        let i = choose|i: int| 0 <= i < node.links@.len() && outs[k - 1] == node.links@[i]@;
        assert(node.links@[i]@ == outs[k - 1]);
        lemma_reach_link(g, budget, p, origin, oc, outs[k - 1]);
    }
}

/// Once walking a prefix of the links meets an overflowing link, so does
/// walking any longer prefix.
proof fn lemma_prefix_overflows_grows(
    g: &Graph,
    budget: i32,
    s: SearchState,
    origin: Seq<char>,
    oc: int,
    outs: Seq<Seq<char>>,
    j: int,
    k: int,
)
    requires
        j <= k,
        reach_prefix_overflows(g, budget, s, origin, oc, outs, j),
    ensures
        reach_prefix_overflows(g, budget, s, origin, oc, outs, k),
    decreases k,
{
    if j < k {
        lemma_prefix_overflows_grows(g, budget, s, origin, oc, outs, j, k - 1);
    }
}

/// From a node reached at cost zero no walk takes a cost out of `i32`.
proof fn lemma_prefix_from_zero(
    g: &Graph,
    budget: i32,
    s: SearchState,
    origin: Seq<char>,
    outs: Seq<Seq<char>>,
    k: int,
)
    requires
        forall|j: int| 0 <= j < outs.len() ==> g.spec_links().contains_key(#[trigger] outs[j]),
        k <= outs.len(),
    ensures
        !reach_prefix_overflows(g, budget, s, origin, 0, outs, k),
    decreases k,
{
    if k > 0 {
        lemma_prefix_from_zero(g, budget, s, origin, outs, k - 1);
        assert(g.spec_links().contains_key(outs[k - 1]));
    }
}

/// Exploring a node reached at cost zero takes no cost out of `i32`.
proof fn lemma_reach_from_zero(g: &Graph, budget: i32, s: SearchState, origin: Seq<char>)
    requires
        g.well_formed(),
        g.spec_nodes().contains_key(origin),
        s.costs.contains_key(origin),
        s.costs[origin] == 0,
    ensures
        !reach_overflows(g, budget, s, origin),
{
    let node = g.spec_nodes()[origin];
    let outs = outlinks(g.spec_links(), node);
    assert(g.node_ok(origin));
    lemma_outlinks_listed(g.spec_links(), node, node.links@.len() as int);
    assert forall|j: int| 0 <= j < outs.len() implies g.spec_links().contains_key(
        #[trigger] outs[j],
    ) by {
        let i = choose|i: int| 0 <= i < node.links@.len() && outs[j] == node.links@[i]@;
        assert(node.links@[i]@ == outs[j]);
    }
    lemma_prefix_from_zero(g, budget, s, origin, outs, outs.len() as int);
}

/// Exploring a node keeps the invariant and only grows the state.
proof fn lemma_reach(g: &Graph, budget: i32, s: SearchState, origin: Seq<char>)
    requires
        g.well_formed(),
        reach_inv(g, s),
        s.costs.contains_key(origin),
        !reach_overflows(g, budget, s, origin),
    ensures
        ({
            let r = reach_spec(g, budget, s, origin);
            &&& reach_inv(g, r)
            &&& reach_grows(s, r)
            &&& times_within(g, 0, i32::MAX as int) && costs_nonneg(s) ==> costs_nonneg(r)
        }),
{
    let outs = outlinks(g.spec_links(), g.spec_nodes()[origin]);
    lemma_reach_prefix(g, budget, s, origin, s.costs[origin], outs.len() as int);
}

/// Taking an entry out of the queue keeps the invariant.
proof fn lemma_pop_keeps_inv(g: &Graph, s: SearchState, i: int)
    requires
        reach_inv(g, s),
        0 <= i < s.queue.len(),
    ensures
        reach_inv(g, popped(s, i)),
        s.costs.contains_key(s.queue[i].0),
{
    let p = popped(s, i);
    assert forall|j: int| 0 <= j < p.queue.len() implies p.costs.contains_key(
        #[trigger] p.queue[j].0,
    ) by {
        if j < i {
            assert(p.queue[j] == s.queue[j]);
        } else {
            assert(p.queue[j] == s.queue[j + 1]);
        }
    }
}

/// One round keeps the invariant, raises no cost, forgets no explored node,
/// and lowers the potential by one.
proof fn lemma_reach_step(g: &Graph, budget: i32, s: SearchState, s2: SearchState)
    requires
        g.well_formed(),
        reach_inv(g, s),
        reach_step(g, budget, s, s2),
    ensures
        reach_inv(g, s2),
        costs_le(s, s2),
        s.explored.subset_of(s2.explored),
        reach_potential(g, s2) == reach_potential(g, s) - 1,
        times_within(g, 0, i32::MAX as int) && costs_nonneg(s) ==> costs_nonneg(s2),
{
    let k = choose|k: int|
        #![trigger is_cheapest(s.queue, k)]
        is_cheapest(s.queue, k) && !reach_overflows(g, budget, popped(s, k), s.queue[k].0) && s2
            == reach_spec(g, budget, popped(s, k), s.queue[k].0);
    lemma_pop_keeps_inv(g, s, k);
    lemma_reach(g, budget, popped(s, k), s.queue[k].0);
}

/// Along a run the invariant holds, no cost is raised, no explored node is
/// forgotten, and each round lowers the potential by one.
pub proof fn lemma_reach_run(g: &Graph, budget: i32, tr: Seq<SearchState>, i: int)
    requires
        g.well_formed(),
        is_reach_run(g, budget, tr),
        reach_inv(g, tr[0]),
        0 <= i < tr.len(),
    ensures
        reach_inv(g, tr[i]),
        costs_le(tr[0], tr[i]),
        tr[0].explored.subset_of(tr[i].explored),
        reach_potential(g, tr[i]) == reach_potential(g, tr[0]) - i,
        times_within(g, 0, i32::MAX as int) && costs_nonneg(tr[0]) ==> costs_nonneg(tr[i]),
    decreases i,
{
    if i > 0 {
        lemma_reach_run(g, budget, tr, i - 1);
        let j = i - 1;
        assert(reach_step(g, budget, tr[j], tr[j + 1]));
        lemma_reach_step(g, budget, tr[j], tr[j + 1]);
    }
}

/// A state that keeps the invariant has a potential that is not negative.
proof fn lemma_potential_nonneg(g: &Graph, s: SearchState)
    requires
        g.well_formed(),
        reach_inv(g, s),
    ensures
        reach_potential(g, s) >= s.queue.len(),
{
    assert(s.costs.dom().subset_of(g.spec_nodes().dom()));
    vstd::set_lib::lemma_len_subset(s.costs.dom(), g.spec_nodes().dom());
}

/// When the whole-network search ends, every reached node is in the graph and
/// its cost is an `i32`; when no driving time and no starting cost is
/// negative, no cost is negative.
pub proof fn law_reach_costs_bounded(g: &Graph, budget: i32, s0: SearchState, s: SearchState)
    requires
        g.well_formed(),
        reach_inv(g, s0),
        reach_outcome(g, budget, s0, s),
    ensures
        reach_inv(g, s),
        times_within(g, 0, i32::MAX as int) && costs_nonneg(s0) ==> costs_nonneg(s),
{
    let tr = choose|tr: Seq<SearchState>| is_reach_run(g, budget, tr) && tr[0] == s0 && tr.last() == s;
    lemma_reach_run(g, budget, tr, tr.len() - 1);
}

/// A node's best known cost never goes up during the whole-network search:
/// every node with a cost at the start still has one at the end, no larger.
pub proof fn law_reach_costs_never_rise(g: &Graph, budget: i32, s0: SearchState, s: SearchState)
    requires
        g.well_formed(),
        reach_inv(g, s0),
        reach_outcome(g, budget, s0, s),
    ensures
        costs_le(s0, s),
{
    let tr = choose|tr: Seq<SearchState>| is_reach_run(g, budget, tr) && tr[0] == s0 && tr.last() == s;
    lemma_reach_run(g, budget, tr, tr.len() - 1);
}

/// Every run of the whole-network search has at most as many rounds as its
/// first state has queued entries plus nodes without a cost: a node is queued
/// again only when it first gets a cost.
pub proof fn law_reach_rounds_bounded(g: &Graph, budget: i32, tr: Seq<SearchState>)
    requires
        g.well_formed(),
        is_reach_run(g, budget, tr),
        reach_inv(g, tr[0]),
    ensures
        tr.len() - 1 <= reach_potential(g, tr[0]),
{
    lemma_reach_run(g, budget, tr, tr.len() - 1);
    lemma_potential_nonneg(g, tr.last());
}

/// A whole-network search from a node, on a fresh state: the node is queued
/// at cost zero and explored, and from there every run has at most as many
/// rounds as the graph has nodes (so the node is explored twice and any other
/// node at most once); when no driving time is negative and the search ends,
/// the node's cost is still zero.
pub proof fn law_reach_from_node(g: &Graph, budget: i32, v: Seq<char>, s: SearchState)
    requires
        g.well_formed(),
        g.spec_nodes().contains_key(v),
    ensures
        ({
            let s1 = reach_spec(g, budget, add_cost_spec(empty_state(), v, 0), v);
            &&& forall|tr: Seq<SearchState>|
                is_reach_run(g, budget, tr) && tr[0] == s1 ==> #[trigger] tr.len() - 1
                    <= g.spec_nodes().dom().len()
            &&& times_within(g, 0, i32::MAX as int) && reach_outcome(g, budget, s1, s)
                ==> s.costs.contains_key(v) && s.costs[v] == 0
        }),
{
    let s0 = add_cost_spec(empty_state(), v, 0);
    let s1 = reach_spec(g, budget, s0, v);
    lemma_start_from_node(g, budget, empty_state(), v);
    assert forall|tr: Seq<SearchState>|
        is_reach_run(g, budget, tr) && tr[0] == s1 implies #[trigger] tr.len() - 1
        <= g.spec_nodes().dom().len() by {
        law_reach_rounds_bounded(g, budget, tr);
    }
    if reach_outcome(g, budget, s1, s) {
        law_reach_costs_never_rise(g, budget, s1, s);
        law_reach_costs_bounded(g, budget, s1, s);
    }
}

/// Queuing a node at cost zero and exploring it, from a state that keeps the
/// invariant, takes no cost out of `i32`, keeps the invariant, leaves the
/// node at cost zero or less (zero when no cost or driving time is
/// negative), and gives a potential one more than the queue length
/// and uncosted nodes before, less one if the node had a cost.
proof fn lemma_start_from_node(g: &Graph, budget: i32, s_in: SearchState, v: Seq<char>)
    requires
        g.well_formed(),
        reach_inv(g, s_in),
        g.spec_nodes().contains_key(v),
    ensures
        ({
            let s0 = add_cost_spec(s_in, v, 0);
            let s1 = reach_spec(g, budget, s0, v);
            &&& reach_inv(g, s0)
            &&& !reach_overflows(g, budget, s0, v)
            &&& reach_inv(g, s1)
            &&& s1.costs.contains_key(v)
            &&& s1.costs[v] <= 0
            &&& times_within(g, 0, i32::MAX as int) && costs_nonneg(s_in) ==> costs_nonneg(s1)
            &&& reach_potential(g, s1) == reach_potential(g, s0)
            &&& (s_in == empty_state() ==> reach_potential(g, s1) == g.spec_nodes().dom().len())
        }),
{
    let s0 = add_cost_spec(s_in, v, 0);
    assert forall|j: int| 0 <= j < s0.queue.len() implies s0.costs.contains_key(
        #[trigger] s0.queue[j].0,
    ) by {
        if j < s0.queue.len() - 1 {
            assert(s0.queue[j] == s_in.queue[j]);
        }
    }
    assert forall|k: Seq<char>| #[trigger] s0.costs.contains_key(k) implies {
        &&& g.spec_nodes().contains_key(k)
        &&& i32::MIN <= s0.costs[k] <= i32::MAX
    } by {
        if k != v {
            assert(s_in.costs.contains_key(k));
        }
    }
    assert(reach_inv(g, s0));
    lemma_reach_from_zero(g, budget, s0, v);
    lemma_reach(g, budget, s0, v);
    if s_in == empty_state() {
        assert(s0.costs.dom() =~= set![v]);
    }
}

proof fn lemma_reach_link_routes(
    g: &Graph,
    budget: i32,
    s: SearchState,
    origin: Seq<char>,
    oc: int,
    l: Seq<char>,
    base: Map<Seq<char>, int>,
)
    requires
        routes_from(g, base, s),
        has_route(g, base, origin, oc),
        g.spec_links().contains_key(l),
        g.spec_nodes().contains_key(origin),
        lists_link(g.spec_nodes()[origin], l),
        leaves(g.spec_links()[l], origin),
    ensures
        routes_from(g, base, reach_link_spec(g, budget, s, origin, oc, l)),
{
    lemma_route_extend(g, base, origin, oc, l);
}

proof fn lemma_reach_prefix_routes(
    g: &Graph,
    budget: i32,
    s: SearchState,
    origin: Seq<char>,
    oc: int,
    k: int,
    base: Map<Seq<char>, int>,
)
    requires
        g.well_formed(),
        routes_from(g, base, s),
        has_route(g, base, origin, oc),
        g.spec_nodes().contains_key(origin),
        0 <= k <= outlinks(g.spec_links(), g.spec_nodes()[origin]).len(),
    ensures
        routes_from(
            g,
            base,
            reach_prefix(g, budget, s, origin, oc, outlinks(g.spec_links(), g.spec_nodes()[origin]), k),
        ),
    decreases k,
{
    let node = g.spec_nodes()[origin];
    let outs = outlinks(g.spec_links(), node);
    if k > 0 {
        lemma_reach_prefix_routes(g, budget, s, origin, oc, k - 1, base);
        let p = reach_prefix(g, budget, s, origin, oc, outs, k - 1);
        assert(g.node_ok(origin));
        lemma_outlinks_listed(g.spec_links(), node, node.links@.len() as int);
        let i = choose|i: int| 0 <= i < node.links@.len() && outs[k - 1] == node.links@[i]@;
        assert(node.links@[i]@ == outs[k - 1]);
        assert(is_outlink(g.spec_links(), node, outs[k - 1]));
        assert(lists_link(node, outs[k - 1]));
        lemma_reach_link_routes(g, budget, p, origin, oc, outs[k - 1], base);
    }
}

/// Along a run every recorded cost is the cost of a route from a node that
/// had a cost at the start of the run.
pub proof fn lemma_reach_run_routes(g: &Graph, budget: i32, tr: Seq<SearchState>, i: int)
    requires
        g.well_formed(),
        is_reach_run(g, budget, tr),
        reach_inv(g, tr[0]),
        0 <= i < tr.len(),
    ensures
        routes_from(g, tr[0].costs, tr[i]),
    decreases i,
{
    let base = tr[0].costs;
    if i == 0 {
        assert forall|k: Seq<char>| #[trigger] tr[0].costs.contains_key(k) implies has_route(
            g,
            base,
            k,
            tr[0].costs[k],
        ) by {
            lemma_route_base(g, base, k);
        }
    } else {
        lemma_reach_run_routes(g, budget, tr, i - 1);
        lemma_reach_run(g, budget, tr, i - 1);
        let j = i - 1;
        assert(reach_step(g, budget, tr[j], tr[j + 1]));
        let s = tr[j];
        let q = choose|q: int|
            #![trigger is_cheapest(s.queue, q)]
            is_cheapest(s.queue, q) && !reach_overflows(g, budget, popped(s, q), s.queue[q].0)
                && tr[j + 1] == reach_spec(g, budget, popped(s, q), s.queue[q].0);
        let p = popped(s, q);
        let origin = s.queue[q].0;
        assert(s.costs.contains_key(origin));
        let outs = outlinks(g.spec_links(), g.spec_nodes()[origin]);
        lemma_reach_prefix_routes(g, budget, p, origin, p.costs[origin], outs.len() as int, base);
    }
}

/// Every cost the whole-network search records is the driving time of a
/// route: from a node that had a cost when the search started, along links
/// driven the way their lanes allow, plus that node's starting cost.
pub proof fn law_reach_costs_are_route_times(g: &Graph, budget: i32, s0: SearchState, s: SearchState)
    requires
        g.well_formed(),
        reach_inv(g, s0),
        reach_outcome(g, budget, s0, s),
    ensures
        forall|k: Seq<char>| #[trigger] s.costs.contains_key(k) ==> has_route(g, s0.costs, k, s.costs[k]),
{
    let tr = choose|tr: Seq<SearchState>| is_reach_run(g, budget, tr) && tr[0] == s0 && tr.last() == s;
    lemma_reach_run_routes(g, budget, tr, tr.len() - 1);
}

proof fn lemma_push_reach_piece(g: &Graph, s: SearchState, p: (Seq<char>, Seq<usize>))
    requires
        pieces_ok(g, s),
        piece_ok(g, p),
    ensures
        pieces_ok(g, SearchState { pieces: s.pieces.push(p), ..s }),
{
    let s2 = SearchState { pieces: s.pieces.push(p), ..s };
    assert forall|i: int| 0 <= i < s2.pieces.len() implies piece_ok(g, #[trigger] s2.pieces[i]) by {
        if i < s.pieces.len() {
            assert(s2.pieces[i] == s.pieces[i]);
        }
    }
}

proof fn lemma_reach_prefix_pieces(
    g: &Graph,
    budget: i32,
    s: SearchState,
    origin: Seq<char>,
    oc: int,
    k: int,
)
    requires
        g.well_formed(),
        pieces_ok(g, s),
        g.spec_nodes().contains_key(origin),
        0 <= k <= outlinks(g.spec_links(), g.spec_nodes()[origin]).len(),
    ensures
        pieces_ok(
            g,
            reach_prefix(g, budget, s, origin, oc, outlinks(g.spec_links(), g.spec_nodes()[origin]), k),
        ),
    decreases k,
{
    let node = g.spec_nodes()[origin];
    let outs = outlinks(g.spec_links(), node);
    if k > 0 {
        lemma_reach_prefix_pieces(g, budget, s, origin, oc, k - 1);
        let p = reach_prefix(g, budget, s, origin, oc, outs, k - 1);
        assert(g.node_ok(origin));
        lemma_outlinks_listed(g.spec_links(), node, node.links@.len() as int);
        let i = choose|i: int| 0 <= i < node.links@.len() && outs[k - 1] == node.links@[i]@;
        assert(node.links@[i]@ == outs[k - 1]);
        let l = outs[k - 1];
        let link = g.spec_links()[l];
        assert(g.link_ok(l));
        let dest = other_end(link, origin);
        if !p.explored.contains(dest) {
            let s2 = if p.costs.contains_key(dest) {
                lower_cost_spec(p, dest, p.costs[dest], oc + link.times.full)
            } else {
                add_cost_spec(p, dest, oc + link.times.full)
            };
            let piece = (link.reference@, all_points(link.geometry.point_count() as int));
            lemma_push_reach_piece(g, s2, piece);
        }
    }
}

/// Along a run every kept piece names a link of the network and only points
/// of its line, when that holds at the start.
pub proof fn lemma_reach_run_pieces(g: &Graph, budget: i32, tr: Seq<SearchState>, i: int)
    requires
        g.well_formed(),
        is_reach_run(g, budget, tr),
        reach_inv(g, tr[0]),
        pieces_ok(g, tr[0]),
        0 <= i < tr.len(),
    ensures
        pieces_ok(g, tr[i]),
    decreases i,
{
    if i > 0 {
        lemma_reach_run_pieces(g, budget, tr, i - 1);
        lemma_reach_run(g, budget, tr, i - 1);
        let j = i - 1;
        assert(reach_step(g, budget, tr[j], tr[j + 1]));
        let s = tr[j];
        let q = choose|q: int|
            #![trigger is_cheapest(s.queue, q)]
            is_cheapest(s.queue, q) && !reach_overflows(g, budget, popped(s, q), s.queue[q].0)
                && tr[j + 1] == reach_spec(g, budget, popped(s, q), s.queue[q].0);
        let p = popped(s, q);
        let origin = s.queue[q].0;
        assert(s.costs.contains_key(origin));
        let outs = outlinks(g.spec_links(), g.spec_nodes()[origin]);
        lemma_reach_prefix_pieces(g, budget, p, origin, p.costs[origin], outs.len() as int);
    }
}

/// The start of a search from a point inside the closest link, the
/// `index`-th of its line: the parts of the line on either side of the point
/// are kept, and both end nodes are queued at their distance from the point
/// and then again at cost zero, which is the cost they are left with.
pub open spec fn reach_on_link_start(g: &Graph, s: SearchState, closest: Closest) -> SearchState {
    let link = g.spec_links()[closest.link@];
    let index = closest.linestring_index as int;
    let d = link.geometry.segment_lengths@;
    let m = d.len() as int;
    let n = m + 1;
    let reference = link.reference@;
    let to_start = span_sum(d, 0, index - 1);
    let to_end = span_sum(d, index, m - index);
    let s1 = SearchState {
        pieces: s.pieces.push((reference, point_range(0, index + 1))).push(
            (reference, point_range(index, n)),
        ),
        ..s
    };
    add_cost_spec(
        add_cost_spec(
            add_cost_spec(add_cost_spec(s1, link.startnode@, to_start), link.endnode@, to_end),
            link.startnode@,
            0,
        ),
        link.endnode@,
        0,
    )
}

/// The state a whole-network search starts from: when the closest point is
/// the first point of its link, the start node queued at cost zero and
/// explored; when it is the point the closest point's `linestring_length`
/// names, the same from the end node; otherwise the start inside the link.
pub open spec fn reach_start_state(g: &Graph, budget: i32, closest: Closest) -> SearchState {
    let link = g.spec_links()[closest.link@];
    if closest.linestring_index == 0 {
        reach_spec(g, budget, add_cost_spec(empty_state(), link.startnode@, 0), link.startnode@)
    } else if closest.linestring_index == closest.linestring_length {
        reach_spec(g, budget, add_cost_spec(empty_state(), link.endnode@, 0), link.endnode@)
    } else {
        reach_on_link_start(g, empty_state(), closest)
    }
}

/// A whole-network search can start from `closest`: its link is in the graph
/// and, when the search starts inside the link, the point is neither the
/// first nor past the last of the line.
pub open spec fn reach_query_ok(g: &Graph, closest: Closest) -> bool {
    &&& g.spec_links().contains_key(closest.link@)
    &&& (closest.linestring_index != 0 && closest.linestring_index != closest.linestring_length)
        ==> closest.linestring_index < g.spec_links()[closest.link@].geometry.point_count()
}

/// A whole-network search over a graph, with its budget in seconds and its
/// starting point.
pub struct Search<'a> {
    utils: SearchUtils,
    pub linestrings: Vec<LinePiece>,
    closest_link: Closest,
    graph: &'a Graph,
    cost: i32,
}

impl<'a> Search<'a> {
    pub closed spec fn spec_graph(&self) -> &'a Graph {
        self.graph
    }

    /// The budget, in seconds.
    pub closed spec fn spec_cost(&self) -> i32 {
        self.cost
    }

    pub closed spec fn spec_closest(&self) -> Closest {
        self.closest_link
    }

    /// The state of the search as values; its pieces are the `linestrings`.
    pub closed spec fn state(&self) -> SearchState {
        SearchState {
            explored: self.utils.spec_explored(),
            explored_links: self.utils.spec_explored_links(),
            queue: self.utils.spec_queue(),
            costs: self.utils.spec_costs(),
            pieces: self.linestrings@.map_values(|p: LinePiece| p.spec_view()),
        }
    }

    /// A search that has found nothing yet, with a budget of `cost` seconds.
    pub fn new(graph: &'a Graph, closest: Closest, cost: i32) -> (r: Search<'a>)
        ensures
            r.spec_graph() == graph,
            r.spec_cost() == cost,
            r.spec_closest() == closest,
            r.state() == empty_state(),
    {
        let r = Self {
            utils: SearchUtils::new(),
            linestrings: Vec::new(),
            closest_link: closest,
            graph: graph,
            cost,
        };
        assert(r.state().pieces =~= Seq::<(Seq<char>, Seq<usize>)>::empty());
        assert(r.state() =~= empty_state());
        r
    }

    /// The kept pieces of links so far.
    pub fn pieces(&self) -> (r: &Vec<LinePiece>)
        ensures
            r@.map_values(|p: LinePiece| p.spec_view()) == self.state().pieces,
    {
        &self.linestrings
    }

    /// The kept pieces of links, as lines of points, in the order they were
    /// found.
    pub fn as_multilinestring(self) -> (r: Vec<LinePiece>)
        ensures
            r@.map_values(|p: LinePiece| p.spec_view()) == self.state().pieces,
    {
        self.linestrings
    }

    /// The best known cost of `node`, in seconds, if the search reached it.
    pub fn cost_of(&self, node: &str) -> (r: Option<i32>)
        ensures
            r is Some <==> self.state().costs.contains_key(node@),
            r is Some ==> r->0 as int == self.state().costs[node@],
    {
        self.utils.get_cost_value(node)
    }

    fn closest_link(&self) -> (r: &Closest)
        ensures
            *r == self.spec_closest(),
    {
        &self.closest_link
    }

    fn get_node_outlinks(&self, node: &Node) -> (r: Vec<String>)
        requires
            forall|i: int|
                0 <= i < node.links@.len() ==> self.spec_graph().spec_links().contains_key(
                    #[trigger] node.links@[i]@,
                ),
        ensures
            r@.len() == outlinks(self.spec_graph().spec_links(), *node).len(),
            forall|i: int|
                0 <= i < r@.len() ==> #[trigger] r@[i]@ == outlinks(
                    self.spec_graph().spec_links(),
                    *node,
                )[i],
    {
        self.graph.get_node_outlinks(node)
    }

    fn push_piece(&mut self, link: String, points: Vec<usize>)
        ensures
            final(self).spec_graph() == old(self).spec_graph(),
            final(self).spec_cost() == old(self).spec_cost(),
            final(self).spec_closest() == old(self).spec_closest(),
            final(self).state() == (SearchState {
                pieces: old(self).state().pieces.push((link@, points@)),
                ..old(self).state()
            }),
    {
        let ghost link_view = link@;
        let ghost points_view = points@;
        self.linestrings.push(LinePiece { link, points });
        assert(self.state().pieces =~= old(self).state().pieces.push((link_view, points_view)));
    }

    /// Explores `origin_node_id`: walks every link that can be driven away
    /// from it. Returns `false`, and stops, at the first link whose walk would
    /// take a cost out of `i32`.
    fn explore_node(&mut self, origin_node_id: &str) -> (r: bool)
        requires
            old(self).spec_graph().well_formed(),
            reach_inv(old(self).spec_graph(), old(self).state()),
            old(self).state().costs.contains_key(origin_node_id@),
        ensures
            final(self).spec_graph() == old(self).spec_graph(),
            final(self).spec_cost() == old(self).spec_cost(),
            final(self).spec_closest() == old(self).spec_closest(),
            r == !reach_overflows(
                old(self).spec_graph(),
                old(self).spec_cost(),
                old(self).state(),
                origin_node_id@,
            ),
            r ==> final(self).state() == reach_spec(
                old(self).spec_graph(),
                old(self).spec_cost(),
                old(self).state(),
                origin_node_id@,
            ),
    {
        let ghost g = self.spec_graph();
        let ghost budget = self.cost;
        let ghost s0 = self.state();
        let ghost origin = origin_node_id@;
        let origin_node_cost: i32 = match self.utils.get_cost_value(origin_node_id) {
            Some(c) => c,
            None => {
                proof {
                    assert(false);
                }
                unreached()
            },
        };
        let graph = self.graph;
        proof {
            assert(g.spec_nodes().contains_key(origin));
            assert(g.node_ok(origin));
        }
        let origin_node: &Node = graph.get_node(origin_node_id);
        let outs = self.get_node_outlinks(origin_node);
        let ghost outs_spec = outlinks(g.spec_links(), g.spec_nodes()[origin]);
        proof {
            lemma_outlinks_listed(g.spec_links(), *origin_node, origin_node.links@.len() as int);
        }
        let mut i: usize = 0;
        while i < outs.len()
            invariant
                g == self.spec_graph(),
                g == old(self).spec_graph(),
                graph == g,
                budget == self.cost,
                budget == old(self).spec_cost(),
                self.spec_closest() == old(self).spec_closest(),
                s0 == old(self).state(),
                g.well_formed(),
                reach_inv(g, s0),
                s0.costs.contains_key(origin),
                origin == origin_node_id@,
                g.spec_nodes().contains_key(origin),
                *origin_node == g.spec_nodes()[origin],
                origin_node.id@ == origin,
                origin_node_cost as int == s0.costs[origin],
                outs_spec == outlinks(g.spec_links(), g.spec_nodes()[origin]),
                outs@.len() == outs_spec.len(),
                forall|j: int| 0 <= j < outs@.len() ==> #[trigger] outs@[j]@ == outs_spec[j],
                forall|j: int|
                    0 <= j < outs_spec.len() ==> exists|k: int|
                        0 <= k < origin_node.links@.len() && #[trigger] outs_spec[j]
                            == origin_node.links@[k]@,
                0 <= i <= outs@.len(),
                !reach_prefix_overflows(
                    g,
                    budget,
                    s0,
                    origin,
                    origin_node_cost as int,
                    outs_spec,
                    i as int,
                ),
                self.state() == reach_prefix(
                    g,
                    budget,
                    s0,
                    origin,
                    origin_node_cost as int,
                    outs_spec,
                    i as int,
                ),
            decreases outs@.len() - i,
        {
            let ghost before = self.state();
            proof {
                lemma_reach_prefix(g, budget, s0, origin, origin_node_cost as int, i as int);
                let k = choose|k: int|
                    0 <= k < origin_node.links@.len() && outs_spec[i as int]
                        == origin_node.links@[k]@;
                assert(origin_node.links@[k]@ == outs_spec[i as int]);
                assert(g.link_ok(outs_spec[i as int]));
            }
            let linkid = &outs[i];
            let link: &RoadLink = graph.get_link(linkid.as_str());
            let driving_time = link.driving_time_secs();
            let destination_nodeid = link.get_destination_nodeid(origin_node);
            if !self.utils.is_explored(destination_nodeid.as_str()) {
                let out_of_range = if driving_time >= 0 {
                    origin_node_cost > i32::MAX - driving_time
                } else {
                    origin_node_cost < i32::MIN - driving_time
                };
                if out_of_range {
                    proof {
                        assert(reach_link_overflows(
                            g,
                            before,
                            origin,
                            origin_node_cost as int,
                            outs_spec[i as int],
                        ));
                        assert(reach_prefix_overflows(
                            g,
                            budget,
                            s0,
                            origin,
                            origin_node_cost as int,
                            outs_spec,
                            i + 1,
                        ));
                        lemma_prefix_overflows_grows(
                            g,
                            budget,
                            s0,
                            origin,
                            origin_node_cost as int,
                            outs_spec,
                            i + 1,
                            outs_spec.len() as int,
                        );
                    }
                    return false;
                }
                match self.utils.get_cost_value(destination_nodeid.as_str()) {
                    Some(s) => self.utils.set_min_cost(
                        destination_nodeid.as_str(),
                        s,
                        origin_node_cost + driving_time,
                    ),
                    None => self.utils.add_cost(
                        destination_nodeid.clone(),
                        origin_node_cost + driving_time,
                    ),
                }
                let destination_cost = match self.utils.get_cost_value(
                    destination_nodeid.as_str(),
                ) {
                    Some(c) => c,
                    None => {
                        proof {
                            assert(false);
                        }
                        unreached()
                    },
                };
                if destination_cost <= self.cost {
                    let full = all_points_of(link.geometry.segment_lengths.len());
                    self.push_piece(link.reference.clone(), full);
                }
                self.utils.set_explored(origin_node_id);
            }
            proof {
                assert(!reach_link_overflows(
                    g,
                    before,
                    origin,
                    origin_node_cost as int,
                    outs_spec[i as int],
                ));
                assert(self.state() =~= reach_link_spec(
                    g,
                    budget,
                    before,
                    origin,
                    origin_node_cost as int,
                    outs_spec[i as int],
                ));
            }
            i = i + 1;
        }
        true
    }

    /// Takes a cheapest node out of the queue and explores it, until the
    /// queue is empty (returns `true`) or an exploration would take a cost
    /// out of `i32` (returns `false`).
    fn run(&mut self) -> (r: bool)
        requires
            old(self).spec_graph().well_formed(),
            reach_inv(old(self).spec_graph(), old(self).state()),
        ensures
            final(self).spec_graph() == old(self).spec_graph(),
            final(self).spec_cost() == old(self).spec_cost(),
            final(self).spec_closest() == old(self).spec_closest(),
            r ==> reach_inv(final(self).spec_graph(), final(self).state()),
            r ==> reach_outcome(
                final(self).spec_graph(),
                final(self).spec_cost(),
                old(self).state(),
                final(self).state(),
            ),
            !r ==> reach_halts(final(self).spec_graph(), final(self).spec_cost(), old(self).state()),
    {
        let ghost g = self.spec_graph();
        let ghost budget = self.cost;
        let ghost s0 = self.state();
        let ghost mut tr: Seq<SearchState> = seq![s0];
        loop
            invariant
                g == self.spec_graph(),
                g == old(self).spec_graph(),
                budget == self.cost,
                budget == old(self).spec_cost(),
                s0 == old(self).state(),
                self.spec_closest() == old(self).spec_closest(),
                g.well_formed(),
                reach_inv(g, self.state()),
                is_reach_run(g, budget, tr),
                tr[0] == s0,
                tr.last() == self.state(),
            ensures
                reach_inv(g, self.state()),
                reach_outcome(g, budget, s0, self.state()),
            decreases reach_potential(g, self.state()),
        {
            let ghost before = self.state();
            proof {
                lemma_potential_nonneg(g, before);
            }
            match self.utils.pop_cheapest() {
                Some(s) => {
                    let ghost after_pop = self.state();
                    let ghost i = choose|i: int|
                        is_cheapest(before.queue, i) && before.queue[i] == entry_view(s)
                            && after_pop.queue == before.queue.remove(i);
                    proof {
                        assert(after_pop =~= popped(before, i));
                        lemma_pop_keeps_inv(g, before, i);
                    }
                    if !self.explore_node(s.node.as_str()) {
                        proof {
                            assert(is_cheapest(tr.last().queue, i));
                            assert(reach_overflows(g, budget, popped(tr.last(), i), tr.last().queue[i].0));
                            assert(reach_halts(g, budget, s0));
                        }
                        return false;
                    }
                    proof {
                        let after = self.state();
                        assert(reach_step(g, budget, before, after));
                        lemma_reach_step(g, budget, before, after);
                        let tr2 = tr.push(after);
                        assert forall|k: int| 0 <= k < tr2.len() - 1 implies reach_step(
                            g,
                            budget,
                            tr2[k],
                            #[trigger] tr2[k + 1],
                        ) by {
                            if k < tr.len() - 1 {
                                assert(tr2[k] == tr[k]);
                                assert(tr2[k + 1] == tr[k + 1]);
                            } else {
                                assert(tr2[k] == before);
                            }
                        }
                        tr = tr2;
                    }
                },
                None => {
                    break;
                },
            }
        }
        true
    }

    /// Searches from the node `nodeid`: it is queued at cost zero and
    /// explored, and then the search runs until the queue is empty. `None`
    /// when an exploration would take a cost out of `i32`. The node ends at
    /// cost zero when no driving time and no earlier cost is negative.
    pub fn do_search_from_node(self, nodeid: &str) -> (r: Option<Search<'a>>)
        requires
            self.spec_graph().well_formed(),
            reach_inv(self.spec_graph(), self.state()),
            self.spec_graph().spec_nodes().contains_key(nodeid@),
        ensures
            ({
                let g = self.spec_graph();
                let s1 = reach_spec(g, self.spec_cost(), add_cost_spec(self.state(), nodeid@, 0), nodeid@);
                &&& forall|tr: Seq<SearchState>|
                    is_reach_run(g, self.spec_cost(), tr) && tr[0] == s1 ==> #[trigger] tr.len() - 1
                        <= reach_potential(g, add_cost_spec(self.state(), nodeid@, 0))
                &&& self.state() == empty_state() ==> reach_potential(
                    g,
                    add_cost_spec(self.state(), nodeid@, 0),
                ) == g.spec_nodes().dom().len()
                &&& r is None ==> reach_halts(g, self.spec_cost(), s1)
                &&& r is Some ==> {
                    let search = r->0;
                    &&& search.spec_graph() == g
                    &&& search.spec_cost() == self.spec_cost()
                    &&& search.spec_closest() == self.spec_closest()
                    &&& reach_inv(g, search.state())
                    &&& reach_outcome(g, self.spec_cost(), s1, search.state())
                    &&& search.state().costs.contains_key(nodeid@)
                    &&& search.state().costs[nodeid@] <= 0
                    &&& times_within(g, 0, i32::MAX as int) && costs_nonneg(self.state())
                        ==> search.state().costs[nodeid@] == 0
                }
            }),
    {
        let mut search = self;
        let ghost g = search.spec_graph();
        let ghost s_in = search.state();
        let ghost budget = search.cost;
        let startnodeid = nodeid.to_string();
        search.utils.add_cost(startnodeid.clone(), 0);
        proof {
            assert(search.state() =~= add_cost_spec(s_in, nodeid@, 0));
            lemma_start_from_node(g, budget, s_in, nodeid@);
            let s0 = add_cost_spec(s_in, nodeid@, 0);
            let s1 = reach_spec(g, budget, s0, nodeid@);
            lemma_reach(g, budget, s0, nodeid@);
            assert forall|tr: Seq<SearchState>|
                is_reach_run(g, budget, tr) && tr[0] == s1 implies #[trigger] tr.len() - 1
                <= reach_potential(g, s0) by {
                law_reach_rounds_bounded(g, budget, tr);
            }
        }
        if !search.explore_node(startnodeid.as_str()) {
            proof {
                assert(false);
            }
            return None;
        }
        let ghost s1 = search.state();
        if !search.run() {
            return None;
        }
        proof {
            law_reach_costs_never_rise(g, budget, s1, search.state());
            law_reach_costs_bounded(g, budget, s1, search.state());
        }
        Some(search)
    }

    /// Searches from the `index`-th point of the closest link: the parts of
    /// the line on either side of the point are kept, both end nodes are
    /// queued, and the search runs until the queue is empty. `None` when an
    /// exploration would take a cost out of `i32`.
    pub fn do_search_on_link(self, index: usize) -> (r: Option<Search<'a>>)
        requires
            self.spec_graph().well_formed(),
            self.state() == empty_state(),
            self.spec_graph().spec_links().contains_key(self.spec_closest().link@),
            index == self.spec_closest().linestring_index,
            1 <= index < self.spec_graph().spec_links()[self.spec_closest().link@].geometry.point_count(),
        ensures
            ({
                let g = self.spec_graph();
                let s1 = reach_on_link_start(g, self.state(), self.spec_closest());
                &&& r is None ==> reach_halts(g, self.spec_cost(), s1)
                &&& r is Some ==> {
                    let search = r->0;
                    &&& search.spec_graph() == g
                    &&& search.spec_cost() == self.spec_cost()
                    &&& search.spec_closest() == self.spec_closest()
                    &&& reach_inv(g, search.state())
                    &&& reach_outcome(g, self.spec_cost(), s1, search.state())
                }
            }),
    {
        let mut search = self;
        let ghost g = search.spec_graph();
        let ghost s_in = search.state();
        let graph = search.graph;
        let link = graph.get_link(search.closest_link().link().as_str());
        proof {
            assert(g.link_ok(search.spec_closest().link@));
        }
        let m = link.geometry.segment_lengths.len();
        let dist_to_startnode = LineStringSegment::new(&link.geometry, 0, index).haversine_dist();
        let dist_to_endnode = LineStringSegment::new(&link.geometry, index, m + 1).haversine_dist();
        let before_part = points_between(0, index + 1);
        search.push_piece(link.reference.clone(), before_part);
        let after_part = points_between(index, m + 1);
        search.push_piece(link.reference.clone(), after_part);
        search.utils.add_cost(link.startnode.clone(), dist_to_startnode);
        search.utils.add_cost(link.endnode.clone(), dist_to_endnode);
        search.utils.add_cost(link.startnode.clone(), 0);
        search.utils.add_cost(link.endnode.clone(), 0);
        proof {
            let s = search.state();
            assert(s =~= reach_on_link_start(g, s_in, search.spec_closest()));
            assert(s.costs.dom() =~= set![link.startnode@, link.endnode@]);
            assert forall|j: int| 0 <= j < s.queue.len() implies s.costs.contains_key(
                #[trigger] s.queue[j].0,
            ) by {
            }
            assert(reach_inv(g, s));
        }
        if !search.run() {
            return None;
        }
        Some(search)
    }

    /// Runs a whole-network search over `graph` from `closest` with a budget
    /// of `cost` minutes: from the start node when the closest point is the
    /// first point of its link, from the end node when it is the point that
    /// `linestring_length` names, else from inside the link. `None` when an
    /// exploration would take a cost out of `i32`.
    pub fn do_search(graph: &'a Graph, closest: Closest, cost: i32) -> (r: Option<Search<'a>>)
        requires
            -35_791_394 <= cost <= 35_791_394,
            graph.well_formed(),
            reach_query_ok(graph, closest),
        ensures
            r is None ==> reach_halts(
                graph,
                (cost * 60) as i32,
                reach_start_state(graph, (cost * 60) as i32, closest),
            ),
            r is Some ==> {
                let search = r->0;
                &&& search.spec_graph() == graph
                &&& search.spec_cost() == cost * 60
                &&& search.spec_closest() == closest
                &&& reach_outcome(
                    graph,
                    (cost * 60) as i32,
                    reach_start_state(graph, (cost * 60) as i32, closest),
                    search.state(),
                )
            },
    {
        let cost_seconds = cost * 60;
        let link = graph.get_link(closest.link().as_str());
        proof {
            assert(graph.link_ok(closest.link@));
        }
        let closest_index = closest.linestring_index;
        if closest_index == 0 {
            let start = link.startnode.clone();
            let search = Search::new(graph, closest, cost_seconds);
            proof {
                lemma_empty_inv(graph);
            }
            search.do_search_from_node(start.as_str())
        } else if closest_index == closest.linestring_length {
            let end = link.endnode.clone();
            let search = Search::new(graph, closest, cost_seconds);
            proof {
                lemma_empty_inv(graph);
            }
            search.do_search_from_node(end.as_str())
        } else {
            let search = Search::new(graph, closest, cost_seconds);
            search.do_search_on_link(closest_index)
        }
    }

    /// Runs a whole-network search over `graph` from `closest` with a budget
    /// of `cost` minutes when it can be run: the budget in seconds fits in an
    /// `i32`, the network is well formed, and the search can start from
    /// `closest`. Otherwise, or when an
    /// exploration would take a cost out of `i32`, returns `None`.
    pub fn try_do_search(graph: &'a Graph, closest: Closest, cost: i32) -> (r: Option<Search<'a>>)
        ensures
            ({
                let can_run = {
                    &&& -35_791_394 <= cost <= 35_791_394
                    &&& graph.well_formed()
                    &&& reach_query_ok(graph, closest)
                };
                &&& !can_run ==> r is None
                &&& (r is None && can_run) ==> reach_halts(
                    graph,
                    (cost * 60) as i32,
                    reach_start_state(graph, (cost * 60) as i32, closest),
                )
                &&& r is Some ==> {
                    let search = r->0;
                    &&& can_run
                    &&& search.spec_graph() == graph
                    &&& search.spec_cost() == cost * 60
                    &&& search.spec_closest() == closest
                    &&& reach_outcome(
                        graph,
                        (cost * 60) as i32,
                        reach_start_state(graph, (cost * 60) as i32, closest),
                        search.state(),
                    )
                }
            }),
    {
        if cost < -35_791_394 || cost > 35_791_394 {
            return None;
        }
        if !graph.is_well_formed() {
            return None;
        }
        if !graph.has_link(closest.link.as_str()) {
            return None;
        }
        let link = graph.get_link(closest.link.as_str());
        let index = closest.linestring_index;
        if index != 0 && index != closest.linestring_length
            && index > link.geometry.segment_lengths.len() {
            return None;
        }
        Search::do_search(graph, closest, cost)
    }

}

/// A whole-network search starts in a state that keeps the invariant and
/// whose pieces lie on links of the network.
pub proof fn lemma_reach_start_state_ok(g: &Graph, budget: i32, closest: Closest)
    requires
        g.well_formed(),
        reach_query_ok(g, closest),
    ensures
        reach_inv(g, reach_start_state(g, budget, closest)),
        pieces_ok(g, reach_start_state(g, budget, closest)),
{
    let link = g.spec_links()[closest.link@];
    assert(g.link_ok(closest.link@));
    if closest.linestring_index == 0 || closest.linestring_index == closest.linestring_length {
        let v = if closest.linestring_index == 0 {
            link.startnode@
        } else {
            link.endnode@
        };
        let s = add_cost_spec(empty_state(), v, 0);
        lemma_empty_inv(g);
        lemma_start_from_node(g, budget, empty_state(), v);
        let outs = outlinks(g.spec_links(), g.spec_nodes()[v]);
        lemma_reach_prefix_pieces(g, budget, s, v, s.costs[v], outs.len() as int);
    } else {
        let index = closest.linestring_index as int;
        let n = link.geometry.point_count() as int;
        let e = empty_state();
        let p1 = (link.reference@, point_range(0, index + 1));
        let p2 = (link.reference@, point_range(index, n));
        lemma_push_reach_piece(g, e, p1);
        let e1 = SearchState { pieces: e.pieces.push(p1), ..e };
        lemma_push_reach_piece(g, e1, p2);
        let s = reach_start_state(g, budget, closest);
        assert(s.pieces =~= e1.pieces.push(p2));
        assert(pieces_ok(g, s));
        assert(s.costs.dom() =~= set![link.startnode@, link.endnode@]);
        assert forall|j: int| 0 <= j < s.queue.len() implies s.costs.contains_key(
            #[trigger] s.queue[j].0,
        ) by {
        }
    }
}

/// Every piece the whole-network search keeps names a link of the network
/// and only points of that link's line.
pub proof fn law_reach_pieces_lie_on_links(g: &Graph, budget: i32, closest: Closest, s: SearchState)
    requires
        g.well_formed(),
        reach_query_ok(g, closest),
        reach_outcome(g, budget, reach_start_state(g, budget, closest), s),
    ensures
        pieces_ok(g, s),
{
    lemma_reach_start_state_ok(g, budget, closest);
    let s0 = reach_start_state(g, budget, closest);
    let tr = choose|tr: Seq<SearchState>| is_reach_run(g, budget, tr) && tr[0] == s0 && tr.last() == s;
    lemma_reach_run_pieces(g, budget, tr, tr.len() - 1);
}

/// Walking a link raises no cost and forgets no cost.
proof fn lemma_reach_link_lowers(
    g: &Graph,
    budget: i32,
    s: SearchState,
    origin: Seq<char>,
    oc: int,
    l: Seq<char>,
)
    ensures
        costs_le(s, reach_link_spec(g, budget, s, origin, oc, l)),
        reach_link_spec(g, budget, s, origin, oc, l).explored.subset_of(s.explored.insert(origin)),
{
}

/// Walking links `j .. k` of `origin` raises no cost, and marks no node
/// explored but `origin`.
proof fn lemma_reach_prefix_lowers(
    g: &Graph,
    budget: i32,
    s: SearchState,
    origin: Seq<char>,
    oc: int,
    outs: Seq<Seq<char>>,
    j: int,
    k: int,
)
    requires
        0 <= j <= k,
    ensures
        costs_le(
            reach_prefix(g, budget, s, origin, oc, outs, j),
            reach_prefix(g, budget, s, origin, oc, outs, k),
        ),
        reach_prefix(g, budget, s, origin, oc, outs, k).explored.subset_of(
            reach_prefix(g, budget, s, origin, oc, outs, j).explored.insert(origin),
        ),
    decreases k,
{
    if j < k {
        lemma_reach_prefix_lowers(g, budget, s, origin, oc, outs, j, k - 1);
        let p = reach_prefix(g, budget, s, origin, oc, outs, k - 1);
        lemma_reach_link_lowers(g, budget, p, origin, oc, outs[k - 1]);
    }
}

/// Exploring a node relaxes its links: for each link that can be driven away
/// from `origin` to another node `v` not explored yet, the exploration leaves
/// `v` with a cost no larger than `origin`'s cost plus the link's driving
/// time. A node reached more cheaply through another node has its cost
/// lowered.
pub proof fn law_reach_relaxes_links(
    g: &Graph,
    budget: i32,
    s: SearchState,
    origin: Seq<char>,
    j: int,
)
    requires
        0 <= j < outlinks(g.spec_links(), g.spec_nodes()[origin]).len(),
        ({
            let l = outlinks(g.spec_links(), g.spec_nodes()[origin])[j];
            let v = other_end(g.spec_links()[l], origin);
            &&& v != origin
            &&& !s.explored.contains(v)
        }),
    ensures
        ({
            let l = outlinks(g.spec_links(), g.spec_nodes()[origin])[j];
            let link = g.spec_links()[l];
            let v = other_end(link, origin);
            let r = reach_spec(g, budget, s, origin);
            &&& r.costs.contains_key(v)
            &&& r.costs[v] <= s.costs[origin] + link.times.full
        }),
{
    let outs = outlinks(g.spec_links(), g.spec_nodes()[origin]);
    let oc = s.costs[origin];
    let l = outs[j];
    let link = g.spec_links()[l];
    let v = other_end(link, origin);
    lemma_reach_prefix_lowers(g, budget, s, origin, oc, outs, 0, j);
    let p = reach_prefix(g, budget, s, origin, oc, outs, j);
    assert(!p.explored.contains(v));
    let q = reach_prefix(g, budget, s, origin, oc, outs, j + 1);
    assert(q == reach_link_spec(g, budget, p, origin, oc, l));
    assert(q.costs.contains_key(v) && q.costs[v] <= oc + link.times.full);
    lemma_reach_prefix_lowers(g, budget, s, origin, oc, outs, j + 1, outs.len() as int);
}

proof fn lemma_empty_inv(g: &Graph)
    ensures
        reach_inv(g, empty_state()),
{
}

} // verus!
