//! The road network: nodes, road links with their speed limits, lanes and
//! geometry, and the per-link driving figures that the search reads.
use vstd::prelude::*;
use vstd::hash_map::StringHashMap;
use vstd::std_specs::cmp::{PartialEqSpec, PartialOrdSpec};

verus! {

/// Nearest integer to `n / d` (for `d > 0`), halves rounded away from zero.
pub open spec fn round_div(n: int, d: int) -> int
    recommends
        d > 0,
{
    if n >= 0 {
        (2 * n + d) / (2 * d)
    } else {
        -((-2 * n + d) / (2 * d))
    }
}

/// Integer division truncated toward zero (for `d > 0`).
pub open spec fn div_trunc(n: int, d: int) -> int
    recommends
        d > 0,
{
    if n >= 0 {
        n / d
    } else {
        -((-n) / d)
    }
}

/// A speed limit on a road link, in km/h.
pub struct Speedlimit {
    pub id: i32,
    pub value: i8,
}

impl Speedlimit {
    pub fn new(id: i32, value: i8) -> (r: Speedlimit)
        ensures
            r.id == id,
            r.value == value,
    {
        Speedlimit { id, value }
    }

    /// The limit in km/h.
    pub fn get_value(&self) -> (r: i32)
        ensures
            r == self.value as int,
    {
        self.value as i32
    }
}

/// Sum of the first `k` speed limit values.
pub open spec fn sum_limits(s: Seq<Speedlimit>, k: int) -> int
    decreases k,
{
    if k <= 0 {
        0
    } else {
        sum_limits(s, k - 1) + s[k - 1].value as int
    }
}

proof fn lemma_sum_limits_bounds(s: Seq<Speedlimit>, k: int)
    requires
        0 <= k <= s.len(),
    ensures
        -128 * k <= sum_limits(s, k) <= 127 * k,
    decreases k,
{
    if k > 0 {
        lemma_sum_limits_bounds(s, k - 1);
    }
}

/// The speed limits can be averaged as `i32`s: their number and their sum
/// fit in an `i32`.
pub open spec fn limits_sum_fits(s: Seq<Speedlimit>) -> bool {
    &&& s.len() <= i32::MAX
    &&& i32::MIN <= sum_limits(s, s.len() as int) <= i32::MAX
}

/// Average of the speed limits in km/h (integer division truncated toward
/// zero); 50 when there are none.
pub open spec fn spec_avg_km_per_h(s: Seq<Speedlimit>) -> int {
    if s.len() == 0 {
        50
    } else {
        div_trunc(sum_limits(s, s.len() as int), s.len() as int)
    }
}

/// Estimated driving speed in km/h for an average speed limit.
pub open spec fn spec_estimated_speed(avg: int) -> int {
    if avg <= 40 {
        avg + 5
    } else if avg <= 50 {
        avg + 10
    } else if avg <= 60 {
        avg + 15
    } else if avg <= 70 {
        avg + 20
    } else if avg <= 80 {
        avg + 25
    } else if avg <= 90 {
        avg + 30
    } else if avg <= 100 {
        avg + 40
    } else if avg <= 110 {
        avg + 50
    } else {
        avg
    }
}

/// Factor, in hundredths, by which the pure driving time is stretched for an
/// average speed limit.
pub open spec fn spec_add_factor_percent(avg: int) -> int {
    if avg <= 40 {
        150
    } else if avg <= 50 {
        145
    } else if avg <= 60 {
        140
    } else if avg <= 70 {
        135
    } else if avg <= 80 {
        130
    } else if avg <= 90 {
        120
    } else if avg <= 100 {
        115
    } else {
        110
    }
}

/// A node of the road network, with the references of the links that touch it.
pub struct Node {
    pub id: String,
    pub links: Vec<String>,
}

impl Node {
    pub fn new(id: String, links: Vec<String>) -> (r: Self)
        ensures
            r.id == id,
            r.links == links,
    {
        Self { id, links }
    }
}

/// A node together with the cost, in seconds, at which the search reached it.
#[derive(Clone, Debug)]
pub struct NodeCost {
    pub node: String,
    pub cost: i32,
}

impl NodeCost {
    pub fn new(node: String, cost: i32) -> (r: Self)
        ensures
            r.node == node,
            r.cost == cost,
    {
        Self { node, cost }
    }

    /// Sets the cost to the smaller of the two given costs.
    pub fn update_cost(&mut self, cost1: i32, cost2: i32)
        ensures
            final(self).node == old(self).node,
            final(self).cost == if cost1 <= cost2 { cost1 } else { cost2 },
    {
        self.cost = if cost1 <= cost2 { cost1 } else { cost2 };
    }
}

impl PartialEq for NodeCost {
    /// Two entries are equal when their costs are.
    fn eq(&self, other: &Self) -> (r: bool) {
        self.cost == other.cost
    }
}

impl vstd::std_specs::cmp::PartialEqSpecImpl for NodeCost {
    open spec fn obeys_eq_spec() -> bool {
        true
    }

    open spec fn eq_spec(&self, other: &NodeCost) -> bool {
        self.cost == other.cost
    }
}

impl Eq for NodeCost {

}

impl PartialOrd for NodeCost {
    /// Entries are ordered by cost, reversed: the cheaper entry is the greater
    /// one, so that a max-priority queue hands out the cheapest node first.
    fn partial_cmp(&self, other: &Self) -> (r: Option<core::cmp::Ordering>) {
        if other.cost < self.cost {
            Some(core::cmp::Ordering::Less)
        } else if other.cost == self.cost {
            Some(core::cmp::Ordering::Equal)
        } else {
            Some(core::cmp::Ordering::Greater)
        }
    }
}

impl vstd::std_specs::cmp::PartialOrdSpecImpl for NodeCost {
    open spec fn obeys_partial_cmp_spec() -> bool {
        true
    }

    open spec fn partial_cmp_spec(&self, other: &NodeCost) -> Option<core::cmp::Ordering> {
        if other.cost < self.cost {
            Some(core::cmp::Ordering::Less)
        } else if other.cost == self.cost {
            Some(core::cmp::Ordering::Equal)
        } else {
            Some(core::cmp::Ordering::Greater)
        }
    }
}


/// Node costs are ordered by cost, reversed: the cheaper entry is the greater
/// one; comparing two entries either way gives opposite answers; and two
/// entries are equal exactly when they compare equal.
pub proof fn law_node_cost_order(a: NodeCost, b: NodeCost)
    ensures
        (a.partial_cmp_spec(&b) == Some(core::cmp::Ordering::Greater)) == (a.cost < b.cost),
        (a.partial_cmp_spec(&b) == Some(core::cmp::Ordering::Less)) == (a.cost > b.cost),
        (a.partial_cmp_spec(&b) == Some(core::cmp::Ordering::Less)) == (b.partial_cmp_spec(&a)
            == Some(core::cmp::Ordering::Greater)),
        a.eq_spec(&b) == (a.partial_cmp_spec(&b) == Some(core::cmp::Ordering::Equal)),
{
}

/// The geometry of a road link, seen through the distances between its
/// consecutive points: `segment_lengths[i]` is the haversine distance, in whole
/// meters, from point `i` to point `i + 1`. A line of `k` segments has `k + 1`
/// points.
pub struct LineString {
    pub segment_lengths: Vec<i32>,
}

/// The segment lengths in the order met when walking the line forward (from
/// its first point) or backward (from its last point).
pub open spec fn oriented(d: Seq<i32>, forward: bool) -> Seq<i32> {
    if forward {
        d
    } else {
        Seq::new(d.len(), |i: int| d[d.len() - 1 - i])
    }
}

/// Sum of the `j` segment lengths `d[from]`, ..., `d[from + j - 1]`.
pub open spec fn span_sum(d: Seq<i32>, from: int, j: int) -> int
    decreases j,
{
    if j <= 0 {
        0
    } else {
        span_sum(d, from, j - 1) + d[from + j - 1] as int
    }
}

/// Index, among the original points of a line of `n` points, of the point
/// that comes `a`-th when walking forward or backward.
pub open spec fn point_index(n: int, forward: bool, a: int) -> int {
    if forward {
        a
    } else {
        n - 1 - a
    }
}

pub proof fn lemma_span_sum_monotone(d: Seq<i32>, from: int, j: int, k: int)
    requires
        0 <= j <= k,
        0 <= from,
        from + k <= d.len(),
        forall|i: int| 0 <= i < d.len() ==> 0 <= #[trigger] d[i],
    ensures
        0 <= span_sum(d, from, j) <= span_sum(d, from, k),
    decreases k,
{
    if j < k {
        lemma_span_sum_monotone(d, from, j, k - 1);
    } else if k > 0 {
        lemma_span_sum_monotone(d, from, j - 1, k - 1);
    }
}

/// The whole length of the line is the sum of what lies before and after a
/// point.
pub proof fn lemma_span_sum_split(d: Seq<i32>, from: int, j: int, k: int)
    requires
        0 <= j,
        0 <= k,
    ensures
        span_sum(d, from, j + k) == span_sum(d, from, j) + span_sum(d, from + j, k),
    decreases k,
{
    if k > 0 {
        lemma_span_sum_split(d, from, j, k - 1);
    }
}

impl LineString {
    pub open spec fn point_count(&self) -> nat {
        self.segment_lengths@.len() + 1
    }

    /// Segment lengths are not negative, the whole line length fits in an
    /// `i32`, and the number of points fits in a `usize`.
    pub open spec fn well_formed(&self) -> bool {
        &&& self.segment_lengths@.len() < usize::MAX
        &&& forall|i: int|
            0 <= i < self.segment_lengths@.len() ==> 0 <= #[trigger] self.segment_lengths@[i]
        &&& span_sum(self.segment_lengths@, 0, self.segment_lengths@.len() as int) <= i32::MAX
    }

    pub fn new(segment_lengths: Vec<i32>) -> (r: Self)
        ensures
            r.segment_lengths == segment_lengths,
    {
        LineString { segment_lengths }
    }

    /// Whether the line is well formed.
    pub fn check_well_formed(&self) -> (r: bool)
        ensures
            r == self.well_formed(),
    {
        let d = &self.segment_lengths;
        let m = d.len();
        if m == usize::MAX {
            return false;
        }
        let mut total: i64 = 0;
        let mut i: usize = 0;
        while i < m
            invariant
                d == &self.segment_lengths,
                m == d@.len(),
                m < usize::MAX,
                i <= m,
                forall|j: int| 0 <= j < i ==> 0 <= #[trigger] d@[j],
                total == span_sum(d@, 0, i as int),
                total <= i32::MAX,
            decreases m - i,
        {
            if d[i] < 0 {
                assert(d@[i as int] < 0);
                return false;
            }
            total = total + d[i] as i64;
            assert(total == span_sum(d@, 0, i + 1));
            if total > i32::MAX as i64 {
                proof {
                    if forall|j: int| 0 <= j < m ==> 0 <= #[trigger] d@[j] {
                        lemma_span_sum_monotone(d@, 0, (i + 1) as int, m as int);
                    }
                }
                return false;
            }
            i = i + 1;
        }
        true
    }

    /// The distances, along the line, from the point that comes `from`-th when
    /// walking forward (or backward) to that point and each later one:
    /// `r[j]` is the length of the `j` segments that follow it.
    pub fn distances_along(&self, forward: bool, from: usize) -> (r: Vec<i32>)
        requires
            self.well_formed(),
            from < self.point_count(),
        ensures
            r@.len() == self.point_count() - from,
            forall|j: int|
                0 <= j < r@.len() ==> #[trigger] r@[j] == span_sum(
                    oriented(self.segment_lengths@, forward),
                    from as int,
                    j,
                ),
    {
        let m = self.segment_lengths.len();
        let ghost d = oriented(self.segment_lengths@, forward);
        proof {
            let s = self.segment_lengths@;
            assert forall|i: int| 0 <= i < d.len() implies 0 <= #[trigger] d[i] by {
                if !forward {
                    assert(d[i] == s[s.len() - 1 - i]);
                }
            }
            lemma_span_sum_reverse(s, m as int);
            lemma_span_sum_split(d, 0, from as int, (m - from) as int);
            lemma_span_sum_monotone(d, 0, 0, from as int);
        }
        let mut r: Vec<i32> = Vec::new();
        let mut total: i32 = 0;
        r.push(0);
        let mut a: usize = from;
        while a < m
            invariant
                from <= a <= m,
                m == self.segment_lengths@.len(),
                d == oriented(self.segment_lengths@, forward),
                forall|i: int| 0 <= i < d.len() ==> 0 <= #[trigger] d[i],
                span_sum(d, from as int, (m - from) as int) <= i32::MAX,
                r@.len() == a - from + 1,
                total == span_sum(d, from as int, (a - from) as int),
                forall|j: int| 0 <= j < r@.len() ==> #[trigger] r@[j] == span_sum(d, from as int, j),
            decreases m - a,
        {
            let seg = if forward {
                self.segment_lengths[a]
            } else {
                self.segment_lengths[m - 1 - a]
            };
            assert(seg == d[a as int]);
            proof {
                lemma_span_sum_monotone(d, from as int, (a - from + 1) as int, (m - from) as int);
            }
            total = total + seg;
            r.push(total);
            a = a + 1;
        }
        r
    }
}

/// Walking the line backward gives the same total length.
pub proof fn lemma_span_sum_reverse(s: Seq<i32>, m: int)
    requires
        m == s.len(),
    ensures
        span_sum(oriented(s, false), 0, m) == span_sum(s, 0, m),
{
    lemma_span_sum_reverse_prefix(s, m);
}

proof fn lemma_span_sum_reverse_prefix(s: Seq<i32>, k: int)
    requires
        0 <= k <= s.len(),
    ensures
        span_sum(oriented(s, false), 0, k) == span_sum(s, s.len() - k, k),
    decreases k,
{
    if k > 0 {
        lemma_span_sum_reverse_prefix(s, k - 1);
        // the backward walk adds s[len - k] last; the forward span starting
        // one point earlier adds it first
        lemma_span_sum_split(s, s.len() - k, 1, k - 1);
        assert(span_sum(s, s.len() - k, 1) == s[s.len() - k] as int) by {
            assert(span_sum(s, s.len() - k, 0) == 0);
        }
    }
}

/// Driving times, in seconds, that the time model gives for a road link:
/// for the whole link (`full`, from its recorded length), and for the
/// distance from either end node to each point of the line (`from_start[j]`
/// covers the first `j` segments walking forward, `from_end[j]` the first
/// `j` segments walking backward).
pub struct DrivingTimes {
    pub full: i32,
    pub from_start: Vec<i32>,
    pub from_end: Vec<i32>,
}

/// A road link between two nodes.
pub struct RoadLink {
    pub reference: String,
    pub seq_id: i32,
    pub startnode: String,
    pub endnode: String,
    pub length: i32,
    /// Lane numbers: odd lanes run from the start node to the end node, even
    /// lanes the other way. No lanes means both ways.
    pub lanes: Vec<i32>,
    pub geometry: LineString,
    pub speedlimits: Vec<Speedlimit>,
    pub times: DrivingTimes,
}

/// Some lane number has the given parity (odd when `odd`).
pub open spec fn has_lane(lanes: Seq<i32>, odd: bool) -> bool {
    exists|i: int| 0 <= i < lanes.len() && (#[trigger] lanes[i] % 2 != 0) == odd
}

/// The link can be driven starting from its start node (`from_start`) or from
/// its end node.
pub open spec fn drivable(lanes: Seq<i32>, from_start: bool) -> bool {
    has_lane(lanes, from_start) || lanes.len() == 0
}

impl RoadLink {
    /// The geometry and the driving time tables agree in size.
    pub open spec fn well_formed(&self) -> bool {
        &&& self.geometry.well_formed()
        &&& self.times.from_start@.len() == self.geometry.point_count()
        &&& self.times.from_end@.len() == self.geometry.point_count()
    }

    pub fn startnode(&self) -> (r: &String)
        ensures
            r == &self.startnode,
    {
        &self.startnode
    }

    pub fn endnode(&self) -> (r: &String)
        ensures
            r == &self.endnode,
    {
        &self.endnode
    }

    /// The node at the other end of the link.
    pub fn get_destination_nodeid(&self, node: &Node) -> (r: String)
        requires
            node.id@ == self.startnode@ || node.id@ == self.endnode@,
        ensures
            r@ == other_end(*self, node.id@),
    {
        if node.id == self.startnode {
            return self.endnode.clone();
        } else {
            return self.startnode.clone();
        }
    }

    /// Whether the link is well formed.
    pub fn check_well_formed(&self) -> (r: bool)
        ensures
            r == self.well_formed(),
    {
        if !self.geometry.check_well_formed() {
            return false;
        }
        let n = self.geometry.segment_lengths.len() + 1;
        self.times.from_start.len() == n && self.times.from_end.len() == n
    }

    /// Whether some lane has the given parity.
    pub fn has_lane(&self, odd: bool) -> (r: bool)
        ensures
            r == has_lane(self.lanes@, odd),
    {
        let mut i: usize = 0;
        while i < self.lanes.len()
            invariant
                i <= self.lanes@.len(),
                forall|j: int| 0 <= j < i ==> (#[trigger] self.lanes@[j] % 2 != 0) != odd,
            decreases self.lanes@.len() - i,
        {
            let lane = self.lanes[i];
            let lane_odd = lane % 2 != 0;
            if lane_odd == odd {
                return true;
            }
            i = i + 1;
        }
        false
    }

    /// Whether the link can be driven away from its start node (`from_start`)
    /// or from its end node.
    pub fn drivable(&self, from_start: bool) -> (r: bool)
        ensures
            r == drivable(self.lanes@, from_start),
    {
        self.has_lane(from_start) || self.lanes.len() == 0
    }

    /// The speed limit values, in km/h.
    pub fn speedlimits_values(&self) -> (r: Vec<i32>)
        ensures
            r@.len() == self.speedlimits@.len(),
            forall|i: int|
                0 <= i < r@.len() ==> #[trigger] r@[i] == self.speedlimits@[i].value as int,
    {
        let mut r: Vec<i32> = Vec::new();
        let mut i: usize = 0;
        while i < self.speedlimits.len()
            invariant
                i <= self.speedlimits@.len(),
                r@.len() == i,
                forall|j: int| 0 <= j < i ==> #[trigger] r@[j] == self.speedlimits@[j].value as int,
            decreases self.speedlimits@.len() - i,
        {
            r.push(self.speedlimits[i].get_value());
            i = i + 1;
        }
        r
    }

    /// The sum of the speed limit values.
    fn limits_total(&self) -> (r: i64)
        requires
            self.speedlimits@.len() <= i32::MAX,
        ensures
            r == sum_limits(self.speedlimits@, self.speedlimits@.len() as int),
    {
        let n = self.speedlimits.len();
        let mut sum: i64 = 0;
        let mut i: usize = 0;
        while i < n
            invariant
                n == self.speedlimits@.len(),
                n <= i32::MAX,
                i <= n,
                sum == sum_limits(self.speedlimits@, i as int),
            decreases n - i,
        {
            proof {
                lemma_sum_limits_bounds(self.speedlimits@, i as int);
            }
            sum = sum + self.speedlimits[i].get_value() as i64;
            i = i + 1;
        }
        sum
    }

    /// Whether the speed limits can be averaged: their number and their sum
    /// fit in an `i32`.
    pub fn speedlimits_fit(&self) -> (r: bool)
        ensures
            r == limits_sum_fits(self.speedlimits@),
    {
        if self.speedlimits.len() > 2_147_483_647 {
            return false;
        }
        let total = self.limits_total();
        -2_147_483_648 <= total && total <= 2_147_483_647
    }

    /// Average of the speed limits in km/h, truncated toward zero; 50 when the
    /// link has none.
    pub fn avg_km_per_h(&self) -> (r: i32)
        requires
            limits_sum_fits(self.speedlimits@),
        ensures
            r == spec_avg_km_per_h(self.speedlimits@),
            -128 <= r <= 127 || r == 50,
    {
        let n = self.speedlimits.len();
        if n == 0 {
            return 50;
        }
        let sum = self.limits_total();
        proof {
            lemma_sum_limits_bounds(self.speedlimits@, n as int);
        }
        let len = n as i64;
        let r = if sum >= 0 {
            sum / len
        } else {
            -((-sum) / len)
        };
        proof {
            let total = sum as int;
            if total >= 0 {
                assert(total / (n as int) <= total) by (nonlinear_arith)
                    requires total >= 0, n >= 1;
                assert(total / (n as int) <= 127) by (nonlinear_arith)
                    requires total >= 0, n >= 1, total <= 127 * n;
            } else {
                assert((-total) / (n as int) <= 128) by (nonlinear_arith)
                    requires -total >= 0, n >= 1, -total <= 128 * n;
                assert((-total) / (n as int) >= 0) by (nonlinear_arith)
                    requires -total >= 0, n >= 1;
            }
        }
        r as i32
    }

    /// Estimated driving speed in km/h: the average speed limit plus a margin
    /// that grows with it.
    pub fn get_estimated_driving_speed(&self) -> (r: i32)
        requires
            limits_sum_fits(self.speedlimits@),
        ensures
            r == spec_estimated_speed(spec_avg_km_per_h(self.speedlimits@)),
            -123 <= r <= 177,
    {
        let avg = self.avg_km_per_h();
        if avg <= 40 {
            return avg + 5;
        }
        if avg <= 50 {
            return avg + 10;
        }
        if avg <= 60 {
            return avg + 15;
        }
        if avg <= 70 {
            return avg + 20;
        }
        if avg <= 80 {
            return avg + 25;
        }
        if avg <= 90 {
            return avg + 30;
        }
        if avg <= 100 {
            return avg + 40;
        }
        if avg <= 110 {
            return avg + 50;
        }
        avg
    }

    /// The factor, in hundredths, that stretches the pure driving time on
    /// this link.
    pub fn driving_time_add_factor(&self) -> (r: i32)
        requires
            limits_sum_fits(self.speedlimits@),
        ensures
            r == spec_add_factor_percent(spec_avg_km_per_h(self.speedlimits@)),
    {
        let avg = self.avg_km_per_h();
        if avg <= 40 {
            return 150;
        }
        if avg <= 50 {
            return 145;
        }
        if avg <= 60 {
            return 140;
        }
        if avg <= 70 {
            return 135;
        }
        if avg <= 80 {
            return 130;
        }
        if avg <= 90 {
            return 120;
        }
        if avg <= 100 {
            return 115;
        }
        if avg <= 110 {
            return 110;
        }
        110
    }

    /// The estimated driving speed in meters per second, rounded to the
    /// nearest integer, halves away from zero.
    pub fn meters_per_second(&self) -> (r: i32)
        requires
            limits_sum_fits(self.speedlimits@),
        ensures
            r == round_div(spec_estimated_speed(spec_avg_km_per_h(self.speedlimits@)) * 1000, 3600),
    {
        let speed = self.get_estimated_driving_speed();
        if speed >= 0 {
            (2000 * speed + 3600) / 7200
        } else {
            -((-2000 * speed + 3600) / 7200)
        }
    }

    /// The driving time over the whole link, in seconds.
    pub fn driving_time_secs(&self) -> (r: i32)
        ensures
            r == self.times.full,
    {
        self.times.full
    }
}

/// The end node of `link` that is not `v`: the end node when `v` is the start
/// node, else the start node.
pub open spec fn other_end(link: RoadLink, v: Seq<char>) -> Seq<char> {
    if v == link.startnode@ {
        link.endnode@
    } else {
        link.startnode@
    }
}

/// Lanes decide the directions a link can be driven in: with no lanes it can
/// be driven both ways; a lane with an odd number lets it be driven away from
/// its start node, and one with an even number away from its end node,
/// whatever other lanes it has; and a link with lanes cannot be driven in a
/// direction that none of its lanes runs in.
pub proof fn law_lanes_decide_direction(lanes: Seq<i32>, i: int, from_start: bool)
    ensures
        lanes.len() == 0 ==> drivable(lanes, true) && drivable(lanes, false),
        0 <= i < lanes.len() && lanes[i] % 2 != 0 ==> drivable(lanes, true),
        0 <= i < lanes.len() && lanes[i] % 2 == 0 ==> drivable(lanes, false),
        lanes.len() > 0 && drivable(lanes, from_start) ==> exists|k: int|
            0 <= k < lanes.len() && (#[trigger] lanes[k] % 2 != 0) == from_start,
{
    if 0 <= i < lanes.len() {
        assert((lanes[i] % 2 != 0) == (lanes[i] % 2 != 0));
    }
}

/// Two runs of segment lengths that agree on `from .. from + j` have the same
/// length there.
proof fn lemma_span_sum_agree(d1: Seq<i32>, d2: Seq<i32>, from: int, j: int)
    requires
        forall|i: int| from <= i < from + j ==> d1[i] == d2[i],
    ensures
        span_sum(d1, from, j) == span_sum(d2, from, j),
    decreases j,
{
    if j > 0 {
        lemma_span_sum_agree(d1, d2, from, j - 1);
    }
}

/// A line is well formed when its segment lengths are not negative (zero
/// lengths, from points less than half a meter apart, included), add up to
/// at most `i32::MAX`, and are fewer than `usize::MAX`.
pub proof fn law_line_accepts_zero_lengths(line: LineString)
    requires
        line.segment_lengths@.len() < usize::MAX,
        forall|i: int| 0 <= i < line.segment_lengths@.len() ==> line.segment_lengths@[i] >= 0,
        span_sum(line.segment_lengths@, 0, line.segment_lengths@.len() as int) <= i32::MAX,
    ensures
        line.well_formed(),
{
}

/// Adding a segment of length zero to the end of a well-formed line keeps it
/// well formed and keeps its length.
pub proof fn law_zero_segment_keeps_line(a: LineString, b: LineString)
    requires
        a.well_formed(),
        b.segment_lengths@ == a.segment_lengths@.push(0),
        b.segment_lengths@.len() < usize::MAX,
    ensures
        b.well_formed(),
        span_sum(b.segment_lengths@, 0, b.segment_lengths@.len() as int) == span_sum(
            a.segment_lengths@,
            0,
            a.segment_lengths@.len() as int,
        ),
{
    let n = a.segment_lengths@.len() as int;
    lemma_span_sum_agree(a.segment_lengths@, b.segment_lengths@, 0, n);
    assert(b.segment_lengths@[n] == 0);
    assert forall|i: int| 0 <= i < b.segment_lengths@.len() implies 0
        <= #[trigger] b.segment_lengths@[i] by {
        if i < n {
            assert(b.segment_lengths@[i] == a.segment_lengths@[i]);
        }
    }
}

/// The links among the first `k` that `node` lists that can be driven away
/// from it are exactly those `outlinks_upto` gives.
proof fn lemma_outlinks_upto_members(links: Map<Seq<char>, RoadLink>, node: Node, k: int, l: Seq<char>)
    requires
        0 <= k <= node.links@.len(),
    ensures
        outlinks_upto(links, node, k).contains(l) <==> (exists|i: int|
            0 <= i < k && #[trigger] node.links@[i]@ == l) && drivable(
            links[l].lanes@,
            node.id@ == links[l].startnode@,
        ),
    decreases k,
{
    if k > 0 {
        lemma_outlinks_upto_members(links, node, k - 1, l);
        let p = outlinks_upto(links, node, k - 1);
        let q = outlinks_upto(links, node, k);
        let m = node.links@[k - 1]@;
        if is_outlink(links, node, m) {
            assert(q == p.push(m));
            assert(q.contains(l) <==> p.contains(l) || l == m) by {
                if p.contains(l) {
                    let j = choose|j: int| 0 <= j < p.len() && p[j] == l;
                    assert(q[j] == l);
                }
                if l == m {
                    assert(q[q.len() - 1] == l);
                }
                if q.contains(l) {
                    let j = choose|j: int| 0 <= j < q.len() && q[j] == l;
                    if j < p.len() {
                        assert(p[j] == l);
                    }
                }
            }
        }
        if (exists|i: int| 0 <= i < k && #[trigger] node.links@[i]@ == l) {
            let i = choose|i: int| 0 <= i < k && #[trigger] node.links@[i]@ == l;
            if i < k - 1 {
                assert(exists|i2: int| 0 <= i2 < k - 1 && #[trigger] node.links@[i2]@ == l);
            }
        }
        if (exists|i: int| 0 <= i < k - 1 && #[trigger] node.links@[i]@ == l) {
            let i = choose|i: int| 0 <= i < k - 1 && #[trigger] node.links@[i]@ == l;
            assert(0 <= i < k && node.links@[i]@ == l);
        }
    }
}

/// The links that can be driven away from a node are exactly the links it
/// lists whose lanes let them be driven away from it: from the start node
/// when the node is the link's start node, otherwise from the end node.
pub proof fn law_outlinks_are_drivable_listed_links(
    links: Map<Seq<char>, RoadLink>,
    node: Node,
    l: Seq<char>,
)
    ensures
        outlinks(links, node).contains(l) <==> lists_link(node, l) && drivable(
            links[l].lanes@,
            node.id@ == links[l].startnode@,
        ),
{
    lemma_outlinks_upto_members(links, node, node.links@.len() as int, l);
}

/// Going to the other end of a link and back returns to where one started.
pub proof fn law_other_end_round_trip(link: RoadLink, v: Seq<char>)
    requires
        v == link.startnode@ || v == link.endnode@,
    ensures
        other_end(link, other_end(link, v)) == v,
{
}

/// A line is as long walked backward as walked forward.
pub proof fn law_line_length_both_ways(line: LineString)
    ensures
        span_sum(oriented(line.segment_lengths@, false), 0, line.segment_lengths@.len() as int)
            == span_sum(oriented(line.segment_lengths@, true), 0, line.segment_lengths@.len() as int),
{
    lemma_span_sum_reverse(line.segment_lengths@, line.segment_lengths@.len() as int);
}

/// A walk with a larger time limit keeps at least as many points.
pub proof fn law_larger_limit_keeps_more(
    times: Seq<i32>,
    current: i32,
    max1: i32,
    max2: i32,
    count: nat,
)
    requires
        max1 <= max2,
    ensures
        steps_taken(times, current, max1, count) <= steps_taken(times, current, max2, count),
    decreases count,
{
    if count > 0 {
        law_larger_limit_keeps_more(times, current, max1, max2, (count - 1) as nat);
        lemma_steps_taken(times, current, max1, (count - 1) as nat);
        lemma_steps_taken(times, current, max2, (count - 1) as nat);
    }
}

/// Walking a whole link is the walk over all its points with the link's own
/// time table: the part `sub_linestring` keeps is the part
/// `sub_linestring_from_to` keeps from the first point to the last.
pub proof fn law_whole_link_walk(link: RoadLink, max_secs: i32, current_secs: i32, forward: bool)
    requires
        link.well_formed(),
    ensures
        walk_points(
            link.geometry.point_count() as int,
            forward,
            0,
            link.spec_times_from(forward),
            current_secs,
            max_secs,
            link.geometry.segment_lengths@.len(),
        ) == walk_points(
            link.geometry.point_count() as int,
            forward,
            0,
            link.spec_times_from(forward),
            current_secs,
            max_secs,
            step_count(0, link.geometry.segment_lengths@.len() as usize),
        ),
        walk_in_bounds(
            link.spec_times_from(forward),
            current_secs,
            max_secs,
            0,
            step_count(0, link.geometry.segment_lengths@.len() as usize),
            link.geometry.segment_lengths@.len() as int,
        ),
{
    let m = link.geometry.segment_lengths@.len();
    lemma_steps_taken(link.spec_times_from(forward), current_secs, max_secs, m);
    if m == 0 {
        assert(step_count(0, m as usize) == 0);
    }
}

/// The stretch factor of a link lies between 110 and 150 hundredths, and a
/// link whose average speed limit is no lower never gets a larger factor.
pub proof fn law_faster_roads_stretch_less(x: RoadLink, y: RoadLink)
    requires
        spec_avg_km_per_h(x.speedlimits@) <= spec_avg_km_per_h(y.speedlimits@),
    ensures
        110 <= spec_add_factor_percent(spec_avg_km_per_h(x.speedlimits@)) <= 150,
        spec_add_factor_percent(spec_avg_km_per_h(y.speedlimits@)) <= spec_add_factor_percent(
            spec_avg_km_per_h(x.speedlimits@),
        ),
{
}

/// Of two links whose average speed limits are in order and at most 110 km/h,
/// the estimated driving speeds are in the same order.
pub proof fn law_estimated_speed_order(x: RoadLink, y: RoadLink)
    requires
        spec_avg_km_per_h(x.speedlimits@) <= spec_avg_km_per_h(y.speedlimits@) <= 110,
    ensures
        spec_estimated_speed(spec_avg_km_per_h(x.speedlimits@)) <= spec_estimated_speed(
            spec_avg_km_per_h(y.speedlimits@),
        ),
{
}

/// A link's estimated driving speed is above its average speed limit when
/// that is at most 110 km/h, and equal to it above.
pub proof fn law_estimated_speed_above_average(l: RoadLink)
    ensures
        spec_avg_km_per_h(l.speedlimits@) <= 110 ==> spec_estimated_speed(
            spec_avg_km_per_h(l.speedlimits@),
        ) > spec_avg_km_per_h(l.speedlimits@),
        spec_avg_km_per_h(l.speedlimits@) > 110 ==> spec_estimated_speed(
            spec_avg_km_per_h(l.speedlimits@),
        ) == spec_avg_km_per_h(l.speedlimits@),
{
}

/// Link `link` can be driven away from node `u`: `u` is one of its end nodes
/// and a lane leaves it.
pub open spec fn leaves(link: RoadLink, u: Seq<char>) -> bool {
    &&& (u == link.startnode@ || u == link.endnode@)
    &&& drivable(link.lanes@, u == link.startnode@)
}

/// Where a route from `start` over the links `ls` (by reference) ends.
pub open spec fn route_end(g: &Graph, start: Seq<char>, ls: Seq<Seq<char>>) -> Seq<char>
    decreases ls.len(),
{
    if ls.len() == 0 {
        start
    } else {
        other_end(g.spec_links()[ls.last()], route_end(g, start, ls.drop_last()))
    }
}

/// `node` lists the link `l` among its links.
pub open spec fn lists_link(node: Node, l: Seq<char>) -> bool {
    exists|i: int| 0 <= i < node.links@.len() && #[trigger] node.links@[i]@ == l
}

/// The links `ls` form a route from `start`: each is in the network, is
/// listed by the node the route has got to, and can be driven away from it.
pub open spec fn is_route(g: &Graph, start: Seq<char>, ls: Seq<Seq<char>>) -> bool
    decreases ls.len(),
{
    if ls.len() == 0 {
        true
    } else {
        let u = route_end(g, start, ls.drop_last());
        &&& is_route(g, start, ls.drop_last())
        &&& g.spec_links().contains_key(ls.last())
        &&& g.spec_nodes().contains_key(u)
        &&& lists_link(g.spec_nodes()[u], ls.last())
        &&& leaves(g.spec_links()[ls.last()], u)
    }
}

/// The driving time over the links `ls`.
pub open spec fn route_time(g: &Graph, ls: Seq<Seq<char>>) -> int
    decreases ls.len(),
{
    if ls.len() == 0 {
        0
    } else {
        route_time(g, ls.drop_last()) + g.spec_links()[ls.last()].times.full
    }
}

/// `v` can be reached at cost `c`: by a route from a node `start` of `base`,
/// at `start`'s cost in `base` plus the route's driving time.
pub open spec fn has_route(g: &Graph, base: Map<Seq<char>, int>, v: Seq<char>, c: int) -> bool {
    exists|start: Seq<char>, ls: Seq<Seq<char>>|
        #![trigger route_end(g, start, ls), route_time(g, ls)]
        base.contains_key(start) && is_route(g, start, ls) && route_end(g, start, ls) == v && c
            == base[start] + route_time(g, ls)
}

/// A node of `base` is reached at its cost there, by the empty route.
pub proof fn lemma_route_base(g: &Graph, base: Map<Seq<char>, int>, v: Seq<char>)
    requires
        base.contains_key(v),
    ensures
        has_route(g, base, v, base[v]),
{
    let ls = Seq::<Seq<char>>::empty();
    assert(route_end(g, v, ls) == v && route_time(g, ls) == 0 && is_route(g, v, ls));
}

/// A route to `u` followed by a link driven away from `u` is a route to the
/// link's other end, at the link's driving time more.
pub proof fn lemma_route_extend(
    g: &Graph,
    base: Map<Seq<char>, int>,
    u: Seq<char>,
    c: int,
    l: Seq<char>,
)
    requires
        has_route(g, base, u, c),
        g.spec_links().contains_key(l),
        g.spec_nodes().contains_key(u),
        lists_link(g.spec_nodes()[u], l),
        leaves(g.spec_links()[l], u),
    ensures
        has_route(g, base, other_end(g.spec_links()[l], u), c + g.spec_links()[l].times.full),
{
    let (start, ls) = choose|start: Seq<char>, ls: Seq<Seq<char>>|
        #![trigger route_end(g, start, ls), route_time(g, ls)]
        base.contains_key(start) && is_route(g, start, ls) && route_end(g, start, ls) == u && c
            == base[start] + route_time(g, ls);
    let ls2 = ls.push(l);
    assert(ls2.drop_last() =~= ls);
    assert(ls2.last() == l);
    assert(is_route(g, start, ls2));
    assert(route_end(g, start, ls2) == other_end(g.spec_links()[l], u));
    assert(route_time(g, ls2) == route_time(g, ls) + g.spec_links()[l].times.full);
}

/// The name of the node type that walks a link forward.
pub open spec fn is_startnode(node_type: Seq<char>) -> bool {
    node_type == "startnode"@
}

/// Whether `node_type` names the start node, so that a link is walked from
/// its first point.
pub fn is_startnode_type(node_type: &str) -> (r: bool)
    ensures
        r == is_startnode(node_type@),
{
    let target = "startnode";
    proof {
        reveal_strlit("startnode");
    }
    let n = node_type.unicode_len();
    if n != 9 {
        return false;
    }
    let mut i: usize = 0;
    while i < 9
        invariant
            i <= 9,
            node_type@.len() == 9,
            target@ == "startnode"@,
            target@.len() == 9,
            forall|j: int| 0 <= j < i ==> node_type@[j] == target@[j],
        decreases 9 - i,
    {
        if node_type.get_char(i) != target.get_char(i) {
            return false;
        }
        i = i + 1;
    }
    assert(node_type@ =~= target@);
    true
}

/// Driving seconds already reached before the step from the `j`-th point of a
/// walk: the starting seconds for the first step, then the time table.
pub open spec fn secs_before(times: Seq<i32>, current: i32, j: int) -> int {
    if j == 0 {
        current as int
    } else {
        times[j] as int
    }
}

/// Number of points a walk of at most `count` steps keeps: a step is taken
/// while the seconds reached before it do not exceed `max_secs`.
pub open spec fn steps_taken(times: Seq<i32>, current: i32, max_secs: i32, count: nat) -> nat
    decreases count,
{
    if count == 0 {
        0
    } else {
        let p = steps_taken(times, current, max_secs, (count - 1) as nat);
        if p == count - 1 && secs_before(times, current, count - 1) <= max_secs {
            count
        } else {
            p
        }
    }
}

pub proof fn lemma_steps_taken(times: Seq<i32>, current: i32, max_secs: i32, count: nat)
    ensures
        steps_taken(times, current, max_secs, count) <= count,
        forall|j: int|
            0 <= j < steps_taken(times, current, max_secs, count) ==> secs_before(
                times,
                current,
                j,
            ) <= max_secs,
        steps_taken(times, current, max_secs, count) < count ==> secs_before(
            times,
            current,
            steps_taken(times, current, max_secs, count) as int,
        ) > max_secs,
    decreases count,
{
    if count > 0 {
        lemma_steps_taken(times, current, max_secs, (count - 1) as nat);
    }
}

/// The points, as indices into the link's line, that a walk keeps: it starts
/// at the `from`-th point met in the walking direction and keeps
/// `steps_taken` points.
pub open spec fn walk_points(
    n: int,
    forward: bool,
    from: int,
    times: Seq<i32>,
    current: i32,
    max_secs: i32,
    count: nat,
) -> Seq<usize> {
    Seq::new(
        steps_taken(times, current, max_secs, count),
        |j: int| point_index(n, forward, from + j) as usize,
    )
}

/// Every step that the walk takes stays on the line (`m` segments) and in
/// the time table.
pub open spec fn walk_in_bounds(
    times: Seq<i32>,
    current: i32,
    max_secs: i32,
    from: int,
    count: nat,
    m: int,
) -> bool {
    let k = steps_taken(times, current, max_secs, count);
    &&& from + k <= m
    &&& k < times.len()
}

/// Number of steps of a walk over the points `from .. to`.
pub open spec fn step_count(from: usize, to: usize) -> nat {
    if from < to {
        (to - from) as nat
    } else {
        0
    }
}

/// A walk keeps at least `j` points when the seconds reached before each of
/// the first `j` steps are within the limit.
pub proof fn lemma_steps_taken_at_least(
    times: Seq<i32>,
    current: i32,
    max_secs: i32,
    count: nat,
    j: nat,
)
    requires
        j <= count,
        forall|i: int| 0 <= i < j ==> secs_before(times, current, i) <= max_secs,
    ensures
        steps_taken(times, current, max_secs, count) >= j,
    decreases count,
{
    if count > 0 {
        if j == count {
            lemma_steps_taken_at_least(times, current, max_secs, (count - 1) as nat, (j - 1) as nat);
            lemma_steps_taken(times, current, max_secs, (count - 1) as nat);
        } else {
            lemma_steps_taken_at_least(times, current, max_secs, (count - 1) as nat, j);
        }
    }
}

/// Whether a walk of at most `count` steps from the `from`-th point stays on
/// a line of `m` segments and in its time table.
pub fn walk_fits(
    times: &Vec<i32>,
    current: i32,
    max_secs: i32,
    from: usize,
    count: usize,
    m: usize,
) -> (r: bool)
    ensures
        r == walk_in_bounds(times@, current, max_secs, from as int, count as nat, m as int),
{
    let mut j: usize = 0;
    loop
        invariant
            j <= count,
            forall|i: int| 0 <= i < j ==> secs_before(times@, current, i) <= max_secs,
        ensures
            j <= count,
            forall|i: int| 0 <= i < j ==> secs_before(times@, current, i) <= max_secs,
            j == count || j >= times@.len() || secs_before(times@, current, j as int) > max_secs,
        decreases count - j,
    {
        if j >= count || j >= times.len() {
            break;
        }
        let sb = if j == 0 {
            current
        } else {
            times[j]
        };
        if sb > max_secs {
            break;
        }
        j = j + 1;
    }
    proof {
        lemma_steps_taken_at_least(times@, current, max_secs, count as nat, j as nat);
        lemma_steps_taken(times@, current, max_secs, count as nat);
    }
    if j < count && j >= times.len() {
        return false;
    }
    j < times.len() && from <= m && j <= m - from
}

impl RoadLink {
    /// The time table for walking the link from its start node or its end
    /// node.
    pub open spec fn spec_times_from(&self, forward: bool) -> Seq<i32> {
        if forward {
            self.times.from_start@
        } else {
            self.times.from_end@
        }
    }

    /// The part of the link that can be driven within `max_secs`, walking
    /// from `node_type`'s end over the points `from .. to` (counted in the
    /// walking direction). `times[j]` is the driving time over the `j`
    /// segments after the `from`-th point; `current_secs` is the time already
    /// spent before the first step. A point is kept as long as the time
    /// reached before leaving it does not exceed `max_secs`. Returns indices
    /// into the link's line.
    pub fn sub_linestring_from_to(
        &self,
        max_secs: i32,
        current_secs: i32,
        node_type: &str,
        from: usize,
        to: usize,
        times: &Vec<i32>,
    ) -> (r: Vec<usize>)
        requires
            walk_in_bounds(
                times@,
                current_secs,
                max_secs,
                from as int,
                step_count(from, to),
                self.geometry.segment_lengths@.len() as int,
            ),
        ensures
            r@ == walk_points(
                self.geometry.point_count() as int,
                is_startnode(node_type@),
                from as int,
                times@,
                current_secs,
                max_secs,
                step_count(from, to),
            ),
    {
        let forward = is_startnode_type(node_type);
        let m = self.geometry.segment_lengths.len();
        let ghost n = m + 1;
        let ghost count = step_count(from, to);
        let ghost k = steps_taken(times@, current_secs, max_secs, count);
        proof {
            lemma_steps_taken(times@, current_secs, max_secs, count);
        }
        let mut substring: Vec<usize> = Vec::new();
        let mut secs = current_secs;
        let mut a = from;
        while a < to
            invariant
                from <= a,
                a - from <= k,
                k <= count,
                count == step_count(from, to),
                k == steps_taken(times@, current_secs, max_secs, count),
                from + k <= m,
                k < times@.len(),
                m == self.geometry.segment_lengths@.len(),
                n == m + 1,
                a < to ==> a - from < count,
                secs == secs_before(times@, current_secs, a - from),
                forall|j: int|
                    0 <= j < k ==> secs_before(times@, current_secs, j) <= max_secs,
                k < count ==> secs_before(times@, current_secs, k as int) > max_secs,
                substring@ =~= Seq::new(
                    (a - from) as nat,
                    |j: int| point_index(n as int, forward, from + j) as usize,
                ),
            ensures
                substring@ =~= Seq::new(
                    k,
                    |j: int| point_index(n as int, forward, from + j) as usize,
                ),
            decreases to - a,
        {
            if secs > max_secs {
                break;
            }
            let idx = if forward {
                a
            } else {
                m - a
            };
            secs = times[a - from + 1];
            substring.push(idx);
            a = a + 1;
        }
        substring
    }

    /// The part of the link that can be driven within `max_secs`, walking the
    /// whole link from `node_type`'s end with `current_secs` already spent.
    /// Returns indices into the link's line.
    pub fn sub_linestring(&self, max_secs: i32, current_secs: i32, node_type: &str) -> (r: Vec<
        usize,
    >)
        requires
            self.well_formed(),
        ensures
            r@ == walk_points(
                self.geometry.point_count() as int,
                is_startnode(node_type@),
                0,
                self.spec_times_from(is_startnode(node_type@)),
                current_secs,
                max_secs,
                self.geometry.segment_lengths@.len(),
            ),
    {
        let forward = is_startnode_type(node_type);
        let m = self.geometry.segment_lengths.len();
        let times = if forward {
            &self.times.from_start
        } else {
            &self.times.from_end
        };
        proof {
            lemma_steps_taken(times@, current_secs, max_secs, m as nat);
        }
        self.sub_linestring_from_to(max_secs, current_secs, node_type, 0, m, times)
    }
}

/// Something with a length along the earth's surface, in whole meters.
pub trait Haversine {
    fn haversine_dist(&self) -> i32;
}

/// The run of consecutive points `from .. to` of a line.
pub struct LineStringSegment<'a> {
    line: &'a LineString,
    from: usize,
    to: usize,
}

impl<'a> LineStringSegment<'a> {
    #[verifier::type_invariant]
    spec fn inv(self) -> bool {
        &&& self.line.well_formed()
        &&& self.from < self.to <= self.line.point_count()
    }

    pub closed spec fn line(self) -> &'a LineString {
        self.line
    }

    pub closed spec fn from(self) -> usize {
        self.from
    }

    pub closed spec fn to(self) -> usize {
        self.to
    }

    /// The points `from .. to` of `line`; the run holds at least one point.
    pub fn new(line: &'a LineString, from: usize, to: usize) -> (r: Self)
        requires
            line.well_formed(),
            from < to <= line.point_count(),
        ensures
            r.line() == line,
            r.from() == from,
            r.to() == to,
    {
        LineStringSegment { line, from, to }
    }
}

impl<'a> Haversine for LineStringSegment<'a> {
    /// The length of the run: the sum of the distances between its
    /// consecutive points.
    fn haversine_dist(&self) -> (r: i32)
        ensures
            r == span_sum(
                self.line().segment_lengths@,
                self.from() as int,
                self.to() - self.from() - 1,
            ),
    {
        proof {
            use_type_invariant(self);
        }
        let d = &self.line.segment_lengths;
        let ghost m = d@.len() as int;
        proof {
            lemma_span_sum_split(d@, 0, self.from as int, m - self.from);
            lemma_span_sum_monotone(d@, self.from as int, 0, m - self.from);
            lemma_span_sum_monotone(d@, 0, 0, self.from as int);
        }
        let mut tot: i32 = 0;
        let mut a: usize = self.from;
        while a < self.to - 1
            invariant
                self.from <= a <= self.to - 1,
                self.to - 1 <= m,
                m == d@.len(),
                forall|i: int| 0 <= i < m ==> 0 <= #[trigger] d@[i],
                span_sum(d@, self.from as int, m - self.from) <= i32::MAX,
                tot == span_sum(d@, self.from as int, a - self.from),
            decreases self.to - 1 - a,
        {
            proof {
                lemma_span_sum_monotone(d@, self.from as int, a - self.from + 1, m - self.from);
            }
            tot = tot + d[a];
            a = a + 1;
        }
        tot
    }
}

/// A link referenced by `node` is driven away from it: from its start node
/// when `node` is the start node, otherwise from its end node.
pub open spec fn is_outlink(links: Map<Seq<char>, RoadLink>, node: Node, l: Seq<char>) -> bool {
    let link = links[l];
    drivable(link.lanes@, node.id@ == link.startnode@)
}

/// The links among the first `k` of `node`'s links that can be driven away
/// from it, in order.
pub open spec fn outlinks_upto(links: Map<Seq<char>, RoadLink>, node: Node, k: int) -> Seq<
    Seq<char>,
>
    decreases k,
{
    if k <= 0 {
        seq![]
    } else {
        let p = outlinks_upto(links, node, k - 1);
        let l = node.links@[k - 1]@;
        if is_outlink(links, node, l) {
            p.push(l)
        } else {
            p
        }
    }
}

/// The links that can be driven away from `node`, in the order `node` lists
/// them.
pub open spec fn outlinks(links: Map<Seq<char>, RoadLink>, node: Node) -> Seq<Seq<char>> {
    outlinks_upto(links, node, node.links@.len() as int)
}

/// How far below zero a link's driving time may go for the searches: a sum of
/// such times over a route through every node, and once more, stays within
/// `i32`.
pub open spec fn negative_time_limit(g: &Graph) -> int {
    (i32::MAX as int) / (g.spec_nodes().dom().len() as int + 1)
}

/// Every link's driving time lies between `low` and `high`.
pub open spec fn times_within(g: &Graph, low: int, high: int) -> bool {
    forall|r: Seq<char>| #[trigger]
        g.spec_links().contains_key(r) ==> low <= g.spec_links()[r].times.full <= high
}

/// The nodes of `s` by id; of nodes with equal ids the last one counts.
pub open spec fn nodes_by_id(s: Seq<Node>) -> Map<Seq<char>, Node>
    decreases s.len(),
{
    if s.len() == 0 {
        Map::empty()
    } else {
        nodes_by_id(s.drop_last()).insert(s.last().id@, s.last())
    }
}

/// The links of `s` by reference; of links with equal references the last
/// one counts.
pub open spec fn links_by_reference(s: Seq<RoadLink>) -> Map<Seq<char>, RoadLink>
    decreases s.len(),
{
    if s.len() == 0 {
        Map::empty()
    } else {
        links_by_reference(s.drop_last()).insert(s.last().reference@, s.last())
    }
}

/// The road network: nodes by id and links by reference.
pub struct Graph {
    nodes: StringHashMap<Node>,
    links: StringHashMap<RoadLink>,
    node_ids: Vec<String>,
    link_refs: Vec<String>,
}

impl Graph {
    pub closed spec fn spec_nodes(&self) -> Map<Seq<char>, Node> {
        self.nodes@
    }

    pub closed spec fn spec_links(&self) -> Map<Seq<char>, RoadLink> {
        self.links@
    }

    /// The id lists name exactly the stored nodes and links.
    #[verifier::type_invariant]
    spec fn keys_listed(self) -> bool {
        &&& self.nodes@.dom().finite()
        &&& forall|k: Seq<char>|
            self.nodes@.contains_key(k) <==> exists|i: int|
                0 <= i < self.node_ids@.len() && #[trigger] self.node_ids@[i]@ == k
        &&& forall|k: Seq<char>|
            self.links@.contains_key(k) <==> exists|i: int|
                0 <= i < self.link_refs@.len() && #[trigger] self.link_refs@[i]@ == k
    }

    /// Each node is stored under its id and each link under its reference;
    /// every link a node lists exists and touches that node; both end nodes of
    /// every link exist; every link is well formed; there are finitely many
    /// nodes.
    pub open spec fn well_formed(&self) -> bool {
        &&& self.spec_nodes().dom().finite()
        &&& forall|k: Seq<char>| #[trigger]
            self.spec_nodes().contains_key(k) ==> self.node_ok(k)
        &&& forall|r: Seq<char>| #[trigger]
            self.spec_links().contains_key(r) ==> self.link_ok(r)
    }

    pub open spec fn node_ok(&self, k: Seq<char>) -> bool {
        let node = self.spec_nodes()[k];
        &&& node.id@ == k
        &&& forall|i: int|
            0 <= i < node.links@.len() ==> {
                let l = #[trigger] node.links@[i]@;
                &&& self.spec_links().contains_key(l)
                &&& (self.spec_links()[l].startnode@ == k || self.spec_links()[l].endnode@ == k)
            }
    }

    pub open spec fn link_ok(&self, r: Seq<char>) -> bool {
        let link = self.spec_links()[r];
        &&& link.reference@ == r
        &&& self.spec_nodes().contains_key(link.startnode@)
        &&& self.spec_nodes().contains_key(link.endnode@)
        &&& link.well_formed()
    }

    /// The network of the given nodes, by id, and links, by reference.
    pub fn new(nodes: Vec<Node>, links: Vec<RoadLink>) -> (r: Self)
        ensures
            r.spec_nodes() == nodes_by_id(nodes@),
            r.spec_links() == links_by_reference(links@),
    {
        let ghost all_nodes = nodes@;
        let ghost all_links = links@;
        let mut node_map: StringHashMap<Node> = StringHashMap::new();
        let mut node_ids: Vec<String> = Vec::new();
        for node in it: nodes
            invariant
                it.seq() == all_nodes,
                node_map@ == nodes_by_id(all_nodes.take(it.index() as int)),
                node_map@.dom().finite(),
                forall|k: Seq<char>|
                    node_map@.contains_key(k) <==> exists|i: int|
                        0 <= i < node_ids@.len() && #[trigger] node_ids@[i]@ == k,
        {
            let ghost before = node_ids@;
            let ghost done = all_nodes.take(it.index() as int);
            assert(all_nodes.take(it.index() + 1).drop_last() =~= done);
            node_ids.push(node.id.clone());
            node_map.insert(node.id.clone(), node);
            assert forall|k: Seq<char>|
                node_map@.contains_key(k) implies exists|i: int|
                    0 <= i < node_ids@.len() && #[trigger] node_ids@[i]@ == k by {
                if k != node_ids@[node_ids@.len() - 1]@ {
                    let i = choose|i: int| 0 <= i < before.len() && #[trigger] before[i]@ == k;
                    assert(node_ids@[i] == before[i]);
                }
            }
            assert forall|k: Seq<char>|
                (exists|i: int| 0 <= i < node_ids@.len() && #[trigger] node_ids@[i]@ == k)
                implies node_map@.contains_key(k) by {
                let i = choose|i: int| 0 <= i < node_ids@.len() && #[trigger] node_ids@[i]@ == k;
                if i < before.len() {
                    assert(before[i] == node_ids@[i]);
                }
            }
        }
        assert(all_nodes.take(all_nodes.len() as int) =~= all_nodes);
        let mut link_map: StringHashMap<RoadLink> = StringHashMap::new();
        let mut link_refs: Vec<String> = Vec::new();
        for link in it: links
            invariant
                it.seq() == all_links,
                link_map@ == links_by_reference(all_links.take(it.index() as int)),
                node_map@ == nodes_by_id(all_nodes),
                node_map@.dom().finite(),
                forall|k: Seq<char>|
                    node_map@.contains_key(k) <==> exists|i: int|
                        0 <= i < node_ids@.len() && #[trigger] node_ids@[i]@ == k,
                forall|k: Seq<char>|
                    link_map@.contains_key(k) <==> exists|i: int|
                        0 <= i < link_refs@.len() && #[trigger] link_refs@[i]@ == k,
        {
            let ghost before = link_refs@;
            let ghost done = all_links.take(it.index() as int);
            assert(all_links.take(it.index() + 1).drop_last() =~= done);
            link_refs.push(link.reference.clone());
            link_map.insert(link.reference.clone(), link);
            assert forall|k: Seq<char>|
                link_map@.contains_key(k) implies exists|i: int|
                    0 <= i < link_refs@.len() && #[trigger] link_refs@[i]@ == k by {
                if k != link_refs@[link_refs@.len() - 1]@ {
                    let i = choose|i: int| 0 <= i < before.len() && #[trigger] before[i]@ == k;
                    assert(link_refs@[i] == before[i]);
                }
            }
            assert forall|k: Seq<char>|
                (exists|i: int| 0 <= i < link_refs@.len() && #[trigger] link_refs@[i]@ == k)
                implies link_map@.contains_key(k) by {
                let i = choose|i: int| 0 <= i < link_refs@.len() && #[trigger] link_refs@[i]@ == k;
                if i < before.len() {
                    assert(before[i] == link_refs@[i]);
                }
            }
        }
        assert(all_links.take(all_links.len() as int) =~= all_links);
        let ghost gg = Graph { nodes: node_map, links: link_map, node_ids, link_refs };
        assert(gg.node_ids@ == node_ids@ && gg.link_refs@ == link_refs@);
        assert(gg.keys_listed());
        Graph { nodes: node_map, links: link_map, node_ids, link_refs }
    }

    /// The node with the given id.
    pub fn get_node(&self, id: &str) -> (r: &Node)
        requires
            self.spec_nodes().contains_key(id@),
        ensures
            *r == self.spec_nodes()[id@],
    {
        match self.nodes.get(id) {
            Some(n) => n,
            None => {
                proof {
                    assert(false);
                }
                unreached()
            },
        }
    }

    /// The link with the given reference.
    pub fn get_link(&self, reference: &str) -> (r: &RoadLink)
        requires
            self.spec_links().contains_key(reference@),
        ensures
            *r == self.spec_links()[reference@],
    {
        match self.links.get(reference) {
            Some(l) => l,
            None => {
                proof {
                    assert(false);
                }
                unreached()
            },
        }
    }

    /// The references of the links that can be driven away from `node`: of
    /// the links it lists, those with a lane in the direction leaving `node`
    /// (odd lanes leave the start node, even lanes the end node) or with no
    /// lanes at all.
    pub fn get_node_outlinks(&self, node: &Node) -> (r: Vec<String>)
        requires
            forall|i: int|
                0 <= i < node.links@.len() ==> self.spec_links().contains_key(
                    #[trigger] node.links@[i]@,
                ),
        ensures
            r@.len() == outlinks(self.spec_links(), *node).len(),
            forall|i: int|
                0 <= i < r@.len() ==> #[trigger] r@[i]@ == outlinks(self.spec_links(), *node)[i],
    {
        let mut r: Vec<String> = Vec::new();
        let mut i: usize = 0;
        while i < node.links.len()
            invariant
                i <= node.links@.len(),
                forall|j: int|
                    0 <= j < node.links@.len() ==> self.spec_links().contains_key(
                        #[trigger] node.links@[j]@,
                    ),
                r@.len() == outlinks_upto(self.spec_links(), *node, i as int).len(),
                forall|j: int|
                    0 <= j < r@.len() ==> #[trigger] r@[j]@ == outlinks_upto(
                        self.spec_links(),
                        *node,
                        i as int,
                    )[j],
            decreases node.links@.len() - i,
        {
            let id = &node.links[i];
            let link = self.get_link(id.as_str());
            let leaves = if node.id == link.startnode {
                link.drivable(true)
            } else {
                link.drivable(false)
            };
            if leaves {
                r.push(id.clone());
            }
            i = i + 1;
        }
        r
    }

    /// Whether the network is well formed.
    pub fn is_well_formed(&self) -> (r: bool)
        ensures
            r == self.well_formed(),
    {
        proof {
            use_type_invariant(self);
        }
        let mut i: usize = 0;
        while i < self.node_ids.len()
            invariant
                self.keys_listed(),
                i <= self.node_ids@.len(),
                forall|j: int| 0 <= j < i ==> self.node_ok(#[trigger] self.node_ids@[j]@),
            decreases self.node_ids@.len() - i,
        {
            let key = &self.node_ids[i];
            proof {
                assert(self.node_ids@[i as int]@ == key@);
            }
            let node = self.get_node(key.as_str());
            if !(node.id == *key) {
                return false;
            }
            let mut j: usize = 0;
            while j < node.links.len()
                invariant
                    self.keys_listed(),
                    self.spec_nodes().contains_key(key@),
                    *node == self.spec_nodes()[key@],
                    node.id@ == key@,
                    j <= node.links@.len(),
                    forall|l: int|
                        0 <= l < j ==> {
                            let lr = #[trigger] node.links@[l]@;
                            &&& self.spec_links().contains_key(lr)
                            &&& (self.spec_links()[lr].startnode@ == key@
                                || self.spec_links()[lr].endnode@ == key@)
                        },
                decreases node.links@.len() - j,
            {
                let lr = &node.links[j];
                proof {
                    assert(node.links@[j as int]@ == lr@);
                    assert(self.spec_nodes().contains_key(key@));
                }
                match self.links.get(lr.as_str()) {
                    None => {
                        assert(!self.node_ok(key@));
                        return false;
                    },
                    Some(link) => {
                        if !(link.startnode == *key || link.endnode == *key) {
                            assert(!self.node_ok(key@));
                            return false;
                        }
                    },
                }
                j = j + 1;
            }
            i = i + 1;
        }
        let mut i: usize = 0;
        while i < self.link_refs.len()
            invariant
                self.keys_listed(),
                forall|j: int| 0 <= j < self.node_ids@.len() ==> self.node_ok(#[trigger] self.node_ids@[j]@),
                i <= self.link_refs@.len(),
                forall|j: int| 0 <= j < i ==> self.link_ok(#[trigger] self.link_refs@[j]@),
            decreases self.link_refs@.len() - i,
        {
            let key = &self.link_refs[i];
            proof {
                assert(self.link_refs@[i as int]@ == key@);
            }
            let link = self.get_link(key.as_str());
            if !(link.reference == *key) {
                return false;
            }
            if !self.nodes.contains_key(link.startnode.as_str()) {
                return false;
            }
            if !self.nodes.contains_key(link.endnode.as_str()) {
                return false;
            }
            if !link.check_well_formed() {
                return false;
            }
            i = i + 1;
        }
        proof {
            assert forall|k: Seq<char>| #[trigger] self.spec_nodes().contains_key(k) implies self.node_ok(k) by {
                let j = choose|j: int| 0 <= j < self.node_ids@.len() && #[trigger] self.node_ids@[j]@ == k;
            }
            assert forall|k: Seq<char>| #[trigger] self.spec_links().contains_key(k) implies self.link_ok(k) by {
                let j = choose|j: int| 0 <= j < self.link_refs@.len() && #[trigger] self.link_refs@[j]@ == k;
            }
        }
        true
    }

    /// Whether every link's driving time lies between `low` and `high`.
    pub fn check_link_times(&self, low: i32, high: i32) -> (r: bool)
        ensures
            r == times_within(self, low as int, high as int),
    {
        proof {
            use_type_invariant(self);
        }
        let mut i: usize = 0;
        while i < self.link_refs.len()
            invariant
                self.keys_listed(),
                i <= self.link_refs@.len(),
                forall|j: int|
                    0 <= j < i ==> {
                        let t = self.spec_links()[#[trigger] self.link_refs@[j]@].times.full;
                        low <= t <= high
                    },
            decreases self.link_refs@.len() - i,
        {
            let key = &self.link_refs[i];
            proof {
                assert(self.link_refs@[i as int]@ == key@);
            }
            let t = self.get_link(key.as_str()).times.full;
            if t < low || t > high {
                proof {
                    assert(self.spec_links().contains_key(key@));
                    assert(!(low <= self.spec_links()[key@].times.full <= high));
                }
                return false;
            }
            i = i + 1;
        }
        proof {
            assert forall|k: Seq<char>| #[trigger] self.spec_links().contains_key(k) implies ({
                let t = self.spec_links()[k].times.full;
                low <= t <= high
            }) by {
                let j = choose|j: int| 0 <= j < self.link_refs@.len() && #[trigger] self.link_refs@[j]@ == k;
            }
        }
        true
    }

    /// How far below zero a link's driving time may go for the searches.
    pub fn negative_time_limit(&self) -> (r: i32)
        ensures
            r == negative_time_limit(self),
            r >= 0,
    {
        let n = self.node_count();
        if n >= 2_147_483_647 {
            proof {
                let nn = n as int;
                assert((i32::MAX as int) / (nn + 1) == 0) by (nonlinear_arith)
                    requires nn + 1 > i32::MAX as int;
            }
            0
        } else {
            2_147_483_647 / (n as i32 + 1)
        }
    }

    /// The number of nodes.
    pub fn node_count(&self) -> (r: usize)
        ensures
            r == self.spec_nodes().dom().len(),
    {
        self.nodes.len()
    }

    /// Whether the network has a node with the given id.
    pub fn has_node(&self, id: &str) -> (r: bool)
        ensures
            r == self.spec_nodes().contains_key(id@),
    {
        self.nodes.contains_key(id)
    }

    /// Whether the network has a link with the given reference.
    pub fn has_link(&self, reference: &str) -> (r: bool)
        ensures
            r == self.spec_links().contains_key(reference@),
    {
        self.links.contains_key(reference)
    }
}

} // verus!
