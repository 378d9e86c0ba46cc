use isochrone::closest::Closest;
use isochrone::graph::{
    is_startnode_type, walk_fits, DrivingTimes, Graph, Haversine, LineString, LineStringSegment,
    Node, NodeCost, RoadLink, Speedlimit,
};
use std::cmp::Ordering;

fn strings(v: &[&str]) -> Vec<String> {
    v.iter().map(|s| s.to_string()).collect()
}

fn link(
    reference: &str,
    start: &str,
    end: &str,
    lanes: Vec<i32>,
    segments: Vec<i32>,
    full: i32,
    from_start: Vec<i32>,
    from_end: Vec<i32>,
) -> RoadLink {
    RoadLink {
        reference: reference.to_string(),
        seq_id: 1,
        startnode: start.to_string(),
        endnode: end.to_string(),
        length: segments.iter().sum(),
        lanes,
        geometry: LineString::new(segments),
        speedlimits: Vec::new(),
        times: DrivingTimes { full, from_start, from_end },
    }
}

fn with_limits(values: &[i8]) -> RoadLink {
    let mut l = link("L", "A", "B", vec![], vec![10], 1, vec![0, 1], vec![0, 1]);
    l.speedlimits = values.iter().enumerate().map(|(i, v)| Speedlimit::new(i as i32, *v)).collect();
    l
}

#[test]
fn node_cost_new_and_update() {
    let mut c = NodeCost::new("n1".to_string(), 40);
    assert_eq!(c.node, "n1");
    assert_eq!(c.cost, 40);
    c.update_cost(30, 50);
    assert_eq!(c.cost, 30);
    c.update_cost(70, 20);
    assert_eq!(c.cost, 20);
    assert_eq!(c.node, "n1");
}

#[test]
fn node_cost_orders_cheaper_as_greater() {
    let cheap = NodeCost::new("a".to_string(), 10);
    let dear = NodeCost::new("b".to_string(), 20);
    assert_eq!(cheap.partial_cmp(&dear), Some(Ordering::Greater));
    assert_eq!(dear.partial_cmp(&cheap), Some(Ordering::Less));
    assert!(cheap > dear);
    assert_eq!(cheap, NodeCost::new("other".to_string(), 10));
    assert_ne!(cheap, dear);
}

#[test]
fn node_new_keeps_fields() {
    let n = Node::new("N".to_string(), strings(&["a", "b"]));
    assert_eq!(n.id, "N");
    assert_eq!(n.links, strings(&["a", "b"]));
}

#[test]
fn speed_figures_without_limits() {
    let l = with_limits(&[]);
    assert_eq!(l.avg_km_per_h(), 50);
    assert_eq!(l.get_estimated_driving_speed(), 60);
    assert_eq!(l.driving_time_add_factor(), 145);
    // 60 km/h is 16.67 m/s
    assert_eq!(l.meters_per_second(), 17);
}

#[test]
fn speed_figures_by_band() {
    let cases: &[(&[i8], i32, i32, i32, i32)] = &[
        (&[30, 50], 40, 45, 150, 13),
        (&[50, 60, 71], 60, 75, 140, 21),
        (&[70], 70, 90, 135, 25),
        (&[80], 80, 105, 130, 29),
        (&[90], 90, 120, 120, 33),
        (&[100], 100, 140, 115, 39),
        (&[110], 110, 160, 110, 44),
        (&[120], 120, 120, 110, 33),
    ];
    for (limits, avg, speed, factor, mps) in cases {
        let l = with_limits(limits);
        assert_eq!(l.avg_km_per_h(), *avg, "{:?}", limits);
        assert_eq!(l.get_estimated_driving_speed(), *speed, "{:?}", limits);
        assert_eq!(l.driving_time_add_factor(), *factor, "{:?}", limits);
        assert_eq!(l.meters_per_second(), *mps, "{:?}", limits);
    }
}

#[test]
fn average_truncates_toward_zero() {
    assert_eq!(with_limits(&[50, 51]).avg_km_per_h(), 50);
    assert_eq!(with_limits(&[-3, -4]).avg_km_per_h(), -3);
    assert_eq!(with_limits(&[-3, -4]).meters_per_second(), 1);
}

#[test]
fn meters_per_second_rounds_halves_up() {
    // an average of 4 gives 9 km/h, exactly 2.5 m/s
    let l = with_limits(&[4]);
    assert_eq!(l.get_estimated_driving_speed(), 9);
    assert_eq!(l.meters_per_second(), 3);
}

#[test]
fn speedlimit_values_in_order() {
    let l = with_limits(&[30, 60, 80]);
    assert_eq!(l.speedlimits_values(), vec![30, 60, 80]);
    assert_eq!(Speedlimit::new(7, 90).get_value(), 90);
}

#[test]
fn lanes_decide_direction() {
    let both = link("L", "A", "B", vec![], vec![5], 1, vec![0, 1], vec![0, 1]);
    assert!(both.drivable(true) && both.drivable(false));
    let forward = link("L", "A", "B", vec![1, 3], vec![5], 1, vec![0, 1], vec![0, 1]);
    assert!(forward.drivable(true));
    assert!(!forward.drivable(false));
    let backward = link("L", "A", "B", vec![2], vec![5], 1, vec![0, 1], vec![0, 1]);
    assert!(!backward.drivable(true));
    assert!(backward.drivable(false));
    let negative = link("L", "A", "B", vec![-1], vec![5], 1, vec![0, 1], vec![0, 1]);
    assert!(negative.has_lane(true));
}

#[test]
fn destination_is_the_other_end() {
    let l = link("L", "A", "B", vec![], vec![5], 1, vec![0, 1], vec![0, 1]);
    let a = Node::new("A".to_string(), strings(&["L"]));
    let b = Node::new("B".to_string(), strings(&["L"]));
    assert_eq!(l.get_destination_nodeid(&a), "B");
    assert_eq!(l.get_destination_nodeid(&b), "A");
    assert_eq!(l.startnode(), "A");
    assert_eq!(l.endnode(), "B");
    assert_eq!(l.driving_time_secs(), 1);
}

#[test]
fn distances_along_both_ways() {
    let line = LineString::new(vec![10, 20, 30]);
    assert_eq!(line.distances_along(true, 0), vec![0, 10, 30, 60]);
    assert_eq!(line.distances_along(false, 0), vec![0, 30, 50, 60]);
    assert_eq!(line.distances_along(true, 1), vec![0, 20, 50]);
    assert_eq!(line.distances_along(false, 3), vec![0]);
}

#[test]
fn segment_length_is_the_sum_of_its_parts() {
    let line = LineString::new(vec![10, 20, 30]);
    assert_eq!(LineStringSegment::new(&line, 0, 4).haversine_dist(), 60);
    assert_eq!(LineStringSegment::new(&line, 1, 3).haversine_dist(), 20);
    assert_eq!(LineStringSegment::new(&line, 2, 3).haversine_dist(), 0);
}

#[test]
fn line_well_formedness() {
    assert!(LineString::new(vec![1, 2]).check_well_formed());
    assert!(!LineString::new(vec![1, -2]).check_well_formed());
    assert!(!LineString::new(vec![i32::MAX, 1]).check_well_formed());
}

#[test]
fn node_type_names() {
    assert!(is_startnode_type("startnode"));
    assert!(!is_startnode_type("endnode"));
    assert!(!is_startnode_type("startnodes"));
    assert!(!is_startnode_type(""));
}

#[test]
fn sub_linestring_stops_after_the_limit() {
    let l = link("L", "A", "B", vec![], vec![10, 10, 10], 15, vec![0, 5, 10, 15], vec![0, 6, 12, 18]);
    assert_eq!(l.sub_linestring(7, 0, "startnode"), vec![0, 1]);
    assert_eq!(l.sub_linestring(100, 0, "startnode"), vec![0, 1, 2]);
    assert_eq!(l.sub_linestring(7, 0, "endnode"), vec![3, 2]);
    assert_eq!(l.sub_linestring(7, 8, "startnode"), Vec::<usize>::new());
    // the seconds after the first step come from the table, not from the
    // starting seconds
    assert_eq!(l.sub_linestring(12, 11, "startnode"), vec![0, 1, 2]);
}

#[test]
fn sub_linestring_from_to_walks_a_range() {
    let l = link("L", "A", "B", vec![], vec![10, 10, 10], 15, vec![0, 5, 10, 15], vec![0, 6, 12, 18]);
    let onward = vec![0, 4, 8];
    assert_eq!(l.sub_linestring_from_to(5, 0, "startnode", 1, 4, &onward), vec![1, 2]);
    assert_eq!(l.sub_linestring_from_to(20, 0, "startnode", 1, 3, &onward), vec![1, 2]);
    assert_eq!(l.sub_linestring_from_to(7, 0, "endnode", 0, 2, &l.times.from_end), vec![3, 2]);
    assert_eq!(l.sub_linestring_from_to(7, 0, "endnode", 2, 1, &onward), Vec::<usize>::new());
}

#[test]
fn walk_fits_tells_when_a_walk_would_leave_the_line() {
    let onward = vec![0, 4, 8];
    assert!(walk_fits(&onward, 0, 5, 1, 3, 3));
    assert!(!walk_fits(&onward, 0, 100, 1, 3, 3));
    assert!(!walk_fits(&vec![], 0, 5, 0, 1, 3));
}

fn small_graph() -> Graph {
    let nodes = vec![
        Node::new("A".to_string(), strings(&["l1"])),
        Node::new("B".to_string(), strings(&["l1", "l2"])),
        Node::new("C".to_string(), strings(&["l2"])),
    ];
    let links = vec![
        link("l1", "A", "B", vec![], vec![100, 100], 60, vec![0, 30, 60], vec![0, 30, 60]),
        link("l2", "B", "C", vec![], vec![100, 100, 100], 90, vec![0, 30, 60, 90], vec![0, 30, 60, 90]),
    ];
    Graph::new(nodes, links)
}

#[test]
fn graph_lookups() {
    let g = small_graph();
    assert_eq!(g.get_node("B").links, strings(&["l1", "l2"]));
    assert_eq!(g.get_link("l2").endnode, "C");
    assert!(g.has_node("A") && !g.has_node("D"));
    assert!(g.has_link("l1") && !g.has_link("l3"));
    assert_eq!(g.node_count(), 3);
    assert!(g.is_well_formed());
    assert!(g.check_link_times(0, 90));
    assert!(!g.check_link_times(0, 89));
    assert!(!g.check_link_times(61, 90));
    assert_eq!(g.negative_time_limit(), i32::MAX / 4);
}

#[test]
fn later_nodes_with_the_same_id_win() {
    let g = Graph::new(
        vec![Node::new("A".to_string(), vec![]), Node::new("A".to_string(), strings(&["x"]))],
        vec![],
    );
    assert_eq!(g.get_node("A").links, strings(&["x"]));
    assert_eq!(g.node_count(), 1);
}

#[test]
fn outlinks_follow_lanes() {
    let nodes = vec![
        Node::new("A".to_string(), strings(&["f", "b", "both"])),
        Node::new("B".to_string(), strings(&["f", "b", "both"])),
    ];
    let links = vec![
        link("f", "A", "B", vec![1], vec![5], 1, vec![0, 1], vec![0, 1]),
        link("b", "A", "B", vec![2], vec![5], 1, vec![0, 1], vec![0, 1]),
        link("both", "A", "B", vec![], vec![5], 1, vec![0, 1], vec![0, 1]),
    ];
    let g = Graph::new(nodes, links);
    assert_eq!(g.get_node_outlinks(g.get_node("A")), strings(&["f", "both"]));
    assert_eq!(g.get_node_outlinks(g.get_node("B")), strings(&["b", "both"]));
}

#[test]
fn malformed_graphs_are_told_apart() {
    let missing_link = Graph::new(vec![Node::new("A".to_string(), strings(&["nope"]))], vec![]);
    assert!(!missing_link.is_well_formed());
    let foreign_link = Graph::new(
        vec![
            Node::new("A".to_string(), strings(&["l"])),
            Node::new("B".to_string(), vec![]),
            Node::new("C".to_string(), vec![]),
        ],
        vec![link("l", "B", "C", vec![], vec![5], 1, vec![0, 1], vec![0, 1])],
    );
    assert!(!foreign_link.is_well_formed());
    let missing_end = Graph::new(
        vec![Node::new("A".to_string(), strings(&["l"]))],
        vec![link("l", "A", "Z", vec![], vec![5], 1, vec![0, 1], vec![0, 1])],
    );
    assert!(!missing_end.is_well_formed());
    let short_table = Graph::new(
        vec![Node::new("A".to_string(), strings(&["l"])), Node::new("B".to_string(), vec![])],
        vec![link("l", "A", "B", vec![], vec![5], 1, vec![0], vec![0, 1])],
    );
    assert!(!short_table.is_well_formed());
}

#[test]
fn closest_getters() {
    let c = Closest {
        link: "l2".to_string(),
        node: Some("B".to_string()),
        linestring_index: 0,
        linestring_length: 3,
    };
    assert_eq!(c.link(), "l2");
    assert_eq!(c.node(), Some("B".to_string()));
    assert_eq!(c.linestring_index(), 0);
    assert_eq!(c.linestring_length(), 3);
    let d = Closest { node: None, ..c };
    assert_eq!(d.node(), None);
}

#[test]
fn whole_link_walk_is_the_walk_over_all_points() {
    let l = link("L", "A", "B", vec![], vec![10, 10, 10], 15, vec![0, 5, 10, 15], vec![0, 6, 12, 18]);
    for max in [-1, 0, 5, 6, 11, 20] {
        for current in [0, 3, 9] {
            assert_eq!(
                l.sub_linestring(max, current, "startnode"),
                l.sub_linestring_from_to(max, current, "startnode", 0, 3, &l.times.from_start)
            );
            assert_eq!(
                l.sub_linestring(max, current, "endnode"),
                l.sub_linestring_from_to(max, current, "endnode", 0, 3, &l.times.from_end)
            );
        }
    }
}

#[test]
fn larger_limit_keeps_more_points() {
    let l = link("L", "A", "B", vec![], vec![10, 10, 10], 15, vec![0, 5, 10, 15], vec![0, 6, 12, 18]);
    let mut last = 0;
    for max in 0..20 {
        let kept = l.sub_linestring(max, 0, "startnode").len();
        assert!(kept >= last);
        last = kept;
    }
}

#[test]
fn other_end_round_trip() {
    let l = link("L", "A", "B", vec![], vec![5], 1, vec![0, 1], vec![0, 1]);
    let a = Node::new("A".to_string(), strings(&["L"]));
    let there = Node::new(l.get_destination_nodeid(&a), strings(&["L"]));
    assert_eq!(l.get_destination_nodeid(&there), "A");
}

#[test]
fn speedlimits_fit_when_their_sum_fits_in_i32() {
    assert!(with_limits(&[]).speedlimits_fit());
    assert!(with_limits(&[127, -128, 90]).speedlimits_fit());
    // 17 million limits of 127 add up past i32::MAX
    let values = vec![127i8; 17_000_000];
    assert!(!with_limits(&values).speedlimits_fit());
    // as many limits of zero still fit, with an average of zero
    let zeros = vec![0i8; 17_000_000];
    let l = with_limits(&zeros);
    assert!(l.speedlimits_fit());
    assert_eq!(l.avg_km_per_h(), 0);
}

#[test]
fn faster_roads_get_faster_estimates_and_smaller_factors() {
    let averages: Vec<i8> = vec![-20, 0, 30, 40, 41, 50, 51, 60, 61, 70, 71, 80, 81, 90, 91, 100, 101, 110];
    let mut last_speed = i32::MIN;
    let mut last_factor = i32::MAX;
    for a in averages {
        let l = with_limits(&[a]);
        let speed = l.get_estimated_driving_speed();
        let factor = l.driving_time_add_factor();
        assert!(speed > a as i32 && speed >= last_speed, "{}", a);
        assert!((110..=150).contains(&factor) && factor <= last_factor, "{}", a);
        last_speed = speed;
        last_factor = factor;
    }
    assert_eq!(with_limits(&[120]).get_estimated_driving_speed(), 120);
}
