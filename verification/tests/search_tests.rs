use isochrone::closest::Closest;
use isochrone::full_search;
use isochrone::graph::{DrivingTimes, Graph, LineString, Node, RoadLink};
use isochrone::paging::next_page;
use isochrone::search::{all_points_of, points_between, LinePiece, Search, SearchUtils};

fn strings(v: &[&str]) -> Vec<String> {
    v.iter().map(|s| s.to_string()).collect()
}

fn link(reference: &str, start: &str, end: &str, segments: Vec<i32>, full: i32, table: Vec<i32>) -> RoadLink {
    RoadLink {
        reference: reference.to_string(),
        seq_id: 1,
        startnode: start.to_string(),
        endnode: end.to_string(),
        length: segments.iter().sum(),
        lanes: Vec::new(),
        geometry: LineString::new(segments),
        speedlimits: Vec::new(),
        times: DrivingTimes { full, from_start: table.clone(), from_end: table },
    }
}

/// A - l1 - B - l2 - C
fn small_graph() -> Graph {
    let nodes = vec![
        Node::new("A".to_string(), strings(&["l1"])),
        Node::new("B".to_string(), strings(&["l1", "l2"])),
        Node::new("C".to_string(), strings(&["l2"])),
    ];
    let links = vec![
        link("l1", "A", "B", vec![100, 100], 60, vec![0, 30, 60]),
        link("l2", "B", "C", vec![100, 100, 100], 90, vec![0, 30, 60, 90]),
    ];
    Graph::new(nodes, links)
}

fn pieces(ls: &[LinePiece]) -> Vec<(String, Vec<usize>)> {
    ls.iter().map(|p| (p.link.clone(), p.points.clone())).collect()
}

fn at_node(node: &str) -> Closest {
    Closest { link: "l1".to_string(), node: Some(node.to_string()), linestring_index: 0, linestring_length: 2 }
}

#[test]
fn search_from_node_keeps_what_fits() {
    let g = small_graph();
    let s = g.try_search(at_node("A"), 2, vec![]).expect("search runs");
    assert_eq!(
        pieces(&s.linestrings),
        vec![("l1".to_string(), vec![0, 1, 2]), ("l2".to_string(), vec![0, 1, 2])]
    );
    assert_eq!(s.cost_of("A"), Some(0));
    assert_eq!(s.cost_of("B"), Some(60));
    assert_eq!(s.cost_of("C"), None);
    assert_eq!(pieces(s.pieces()), pieces(&s.linestrings));
    let lines = s.as_multilinestring();
    assert_eq!(lines.len(), 2);
    assert_eq!(lines[1].link, "l2");
}

#[test]
fn search_with_a_large_budget_reaches_everything() {
    let g = small_graph();
    let s = g.search(at_node("A"), 10, vec![]);
    assert_eq!(
        pieces(&s.linestrings),
        vec![("l1".to_string(), vec![0, 1, 2]), ("l2".to_string(), vec![0, 1, 2, 3])]
    );
    assert_eq!(s.cost_of("C"), Some(150));
}

#[test]
fn search_with_zero_budget_keeps_only_first_points() {
    let g = small_graph();
    let s = g.search(at_node("B"), 0, vec![]);
    assert_eq!(
        pieces(&s.linestrings),
        vec![("l1".to_string(), vec![2]), ("l2".to_string(), vec![0])]
    );
    assert_eq!(s.cost_of("B"), Some(0));
    assert_eq!(s.cost_of("A"), None);
}

#[test]
fn search_from_inside_a_link() {
    let g = small_graph();
    let closest = Closest { link: "l2".to_string(), node: None, linestring_index: 1, linestring_length: 3 };
    let s = g.try_search(closest, 1, vec![0, 30, 60]).expect("search runs");
    assert_eq!(
        pieces(&s.linestrings),
        vec![
            ("l2".to_string(), vec![1, 2, 3]),
            ("l2".to_string(), vec![0, 1]),
            ("l1".to_string(), vec![0, 1, 2]),
            ("l2".to_string(), vec![0, 1, 2]),
            ("l2".to_string(), vec![3, 2, 1]),
        ]
    );
    assert_eq!(s.cost_of("B"), Some(0));
    assert_eq!(s.cost_of("C"), Some(60));
    assert_eq!(s.cost_of("A"), Some(60));
}

#[test]
fn search_from_inside_a_link_cut_short() {
    let g = small_graph();
    let closest = Closest { link: "l2".to_string(), node: None, linestring_index: 1, linestring_length: 3 };
    // 30 seconds reach neither end of the link
    let s = Search::do_search(&g, closest, 0, vec![0, 30, 60]);
    assert_eq!(s.cost_of("B"), Some(0));
    assert_eq!(s.linestrings[0].points, vec![1]);
}

#[test]
fn try_search_refuses_what_cannot_run() {
    let g = small_graph();
    assert!(g.try_search(at_node("Z"), 2, vec![]).is_none());
    assert!(g.try_search(at_node("A"), 40_000_000, vec![]).is_none());
    let off_line = Closest { link: "l2".to_string(), node: None, linestring_index: 7, linestring_length: 3 };
    assert!(g.try_search(off_line, 2, vec![0]).is_none());
    let short_table = Closest { link: "l2".to_string(), node: None, linestring_index: 1, linestring_length: 3 };
    assert!(g.try_search(short_table, 2, vec![0]).is_none());
    let broken = Graph::new(vec![Node::new("A".to_string(), strings(&["x"]))], vec![]);
    assert!(broken.try_search(at_node("A"), 2, vec![]).is_none());
}

#[test]
fn search_new_starts_empty() {
    let g = small_graph();
    let s = Search::new(&g, at_node("A"), 120);
    assert!(s.linestrings.is_empty());
    assert_eq!(s.cost_of("A"), None);
    assert_eq!(s.closest().link, "l1");
}

#[test]
fn search_utils_bookkeeping() {
    let mut u = SearchUtils::new();
    assert!(!u.is_explored("A"));
    u.set_explored("A");
    assert!(u.is_explored("A"));
    assert!(!u.is_link_explored("l"));
    u.set_link_explored("l");
    assert!(u.is_link_explored("l"));
    u.add_cost("B".to_string(), 50);
    assert_eq!(u.get_cost_value("B"), Some(50));
    u.update_to_min_cost("B", 50, 70);
    assert_eq!(u.get_cost_value("B"), Some(50));
    u.update_to_min_cost("B", 50, 20);
    assert_eq!(u.get_cost_value("B"), Some(20));
    u.set_min_cost("B", 20, 10);
    assert_eq!(u.get_cost_value("B"), Some(10));
    // the queue holds B at 50 and again at 50 (the cost it had before)
    let first = u.pop_cheapest().unwrap();
    assert_eq!((first.node.as_str(), first.cost), ("B", 50));
    let second = u.pop_cheapest().unwrap();
    assert_eq!((second.node.as_str(), second.cost), ("B", 50));
    assert!(u.pop_cheapest().is_none());
}

#[test]
fn queue_hands_out_the_cheapest_first() {
    let mut u = SearchUtils::new();
    u.add_cost("X".to_string(), 30);
    u.add_cost("Y".to_string(), 10);
    u.add_cost("Z".to_string(), 20);
    let order: Vec<i32> = std::iter::from_fn(|| u.pop_cheapest().map(|e| e.cost)).collect();
    assert_eq!(order, vec![10, 20, 30]);
}

#[test]
fn point_lists() {
    assert_eq!(points_between(2, 5), vec![2, 3, 4]);
    assert_eq!(points_between(3, 3), Vec::<usize>::new());
    assert_eq!(all_points_of(2), vec![0, 1, 2]);
}

#[test]
fn whole_network_search_from_start_node() {
    let g = small_graph();
    let closest = Closest { link: "l1".to_string(), node: None, linestring_index: 0, linestring_length: 2 };
    let s = full_search::Search::try_do_search(&g, closest, 2).expect("search runs");
    assert_eq!(
        pieces(&s.linestrings),
        vec![("l1".to_string(), vec![0, 1, 2]), ("l1".to_string(), vec![0, 1, 2])]
    );
    assert_eq!(s.cost_of("A"), Some(0));
    assert_eq!(s.cost_of("B"), Some(60));
    assert_eq!(s.cost_of("C"), Some(150));
}

#[test]
fn whole_network_search_from_end_node() {
    let g = small_graph();
    let closest = Closest { link: "l2".to_string(), node: None, linestring_index: 3, linestring_length: 3 };
    let s = full_search::Search::do_search(&g, closest, 1).expect("search runs");
    assert_eq!(s.cost_of("C"), Some(0));
    assert_eq!(s.cost_of("B"), Some(90));
    assert_eq!(s.cost_of("A"), Some(150));
    assert!(s.linestrings.is_empty());
}

#[test]
fn whole_network_search_from_inside_a_link() {
    let g = small_graph();
    let closest = Closest { link: "l2".to_string(), node: None, linestring_index: 2, linestring_length: 3 };
    let s = full_search::Search::do_search(&g, closest, 1).expect("search runs");
    assert_eq!(s.linestrings[0].points, vec![0, 1, 2]);
    assert_eq!(s.linestrings[1].points, vec![2, 3]);
    assert_eq!(s.cost_of("B"), Some(0));
    assert_eq!(s.cost_of("C"), Some(0));
    assert_eq!(s.cost_of("A"), Some(60));
    // both ends are reached at cost zero, so both links are kept
    let kept: Vec<&str> = s.linestrings[2..].iter().map(|p| p.link.as_str()).collect();
    assert!(kept.contains(&"l1") && kept.contains(&"l2"));
}

#[test]
fn whole_network_search_refuses_what_cannot_run() {
    let g = small_graph();
    let missing = Closest { link: "zz".to_string(), node: None, linestring_index: 1, linestring_length: 3 };
    assert!(full_search::Search::try_do_search(&g, missing, 1).is_none());
    let off_line = Closest { link: "l1".to_string(), node: None, linestring_index: 5, linestring_length: 9 };
    assert!(full_search::Search::try_do_search(&g, off_line, 1).is_none());
}

#[test]
fn paging_stops_at_a_repeated_page() {
    let current = "https://example.org/page?start=1".to_string();
    assert_eq!(next_page(&current, current.clone()), None);
    assert_eq!(
        next_page(&current, "https://example.org/page?start=2".to_string()),
        Some("https://example.org/page?start=2".to_string())
    );
}

#[test]
fn reached_costs_stay_within_budget() {
    let g = small_graph();
    for minutes in 0..4 {
        let s = g.search(at_node("A"), minutes, vec![]);
        for node in ["A", "B", "C"] {
            if let Some(c) = s.cost_of(node) {
                assert!(c >= 0 && c <= minutes * 60, "{} {} {}", minutes, node, c);
            }
        }
        assert_eq!(s.cost_of("A"), Some(0));
    }
}

#[test]
fn whole_network_search_stops_when_costs_pass_i32() {
    // A - l1 - B - l2 - C, where l1 alone takes almost all of i32
    let nodes = vec![
        Node::new("A".to_string(), strings(&["l1"])),
        Node::new("B".to_string(), strings(&["l1", "l2"])),
        Node::new("C".to_string(), strings(&["l2"])),
    ];
    let links = vec![
        link("l1", "A", "B", vec![100, 100], i32::MAX - 10, vec![0, 30, 60]),
        link("l2", "B", "C", vec![100, 100, 100], 90, vec![0, 30, 60, 90]),
    ];
    let g = Graph::new(nodes, links);
    // from A, B is reached at i32::MAX - 10, and adding l2 passes i32::MAX
    let from_a = Closest { link: "l1".to_string(), node: None, linestring_index: 0, linestring_length: 2 };
    assert!(full_search::Search::try_do_search(&g, from_a, 1).is_none());
    // from B, A and C are leaves: no sum passes i32::MAX
    let from_b = Closest { link: "l1".to_string(), node: None, linestring_index: 2, linestring_length: 2 };
    let s = full_search::Search::try_do_search(&g, from_b, 1).expect("search runs");
    assert_eq!(s.cost_of("B"), Some(0));
    assert_eq!(s.cost_of("A"), Some(i32::MAX - 10));
    assert_eq!(s.cost_of("C"), Some(90));
}

#[test]
fn whole_network_search_from_node_keeps_the_start_at_zero() {
    let g = small_graph();
    let closest = Closest { link: "l1".to_string(), node: None, linestring_index: 0, linestring_length: 2 };
    let s = full_search::Search::new(&g, closest, 120);
    let s = s.do_search_from_node("B").expect("search runs");
    assert_eq!(s.cost_of("B"), Some(0));
    assert_eq!(s.cost_of("A"), Some(60));
    assert_eq!(s.cost_of("C"), Some(90));
}

#[test]
fn reads_give_back_what_the_calls_wrote() {
    let mut u = SearchUtils::new();
    u.add_cost("A".to_string(), 40);
    u.set_explored("X");
    u.set_link_explored("l");
    u.add_cost("B".to_string(), 7);
    u.update_to_min_cost("B", 7, 3);
    let _ = u.pop_cheapest();
    // A keeps the cost it was given; M was never given one
    assert_eq!(u.get_cost_value("A"), Some(40));
    assert_eq!(u.get_cost_value("M"), None);
    // exactly the node marked explored is explored
    assert!(u.is_explored("X"));
    assert!(!u.is_explored("A") && !u.is_explored("B") && !u.is_explored("l"));
}

#[test]
fn exploring_only_adds_to_a_search() {
    let g = small_graph();
    let small = g.search(at_node("A"), 1, vec![]);
    let large = g.search(at_node("A"), 3, vec![]);
    // a larger budget keeps at least the same costs, no larger
    for node in ["A", "B", "C"] {
        if let Some(c) = small.cost_of(node) {
            assert_eq!(large.cost_of(node), Some(c));
        }
    }
}

/// A - l1 - B - l2 - C, with the given driving times.
fn graph_with_times(t1: i32, t2: i32) -> Graph {
    let nodes = vec![
        Node::new("A".to_string(), strings(&["l1"])),
        Node::new("B".to_string(), strings(&["l1", "l2"])),
        Node::new("C".to_string(), strings(&["l2"])),
    ];
    let links = vec![
        link("l1", "A", "B", vec![100, 100], t1, vec![0, 30, 60]),
        link("l2", "B", "C", vec![100, 100, 100], t2, vec![0, 30, 60, 90]),
    ];
    Graph::new(nodes, links)
}

#[test]
fn search_accepts_negative_driving_times() {
    let g = graph_with_times(60, -30);
    let s = g.try_search(at_node("A"), 2, vec![]).expect("search runs");
    assert_eq!(s.cost_of("A"), Some(0));
    assert_eq!(s.cost_of("B"), Some(60));
    assert_eq!(s.cost_of("C"), Some(30));
    // three nodes: times may go down to -(i32::MAX / 4)
    let too_low = graph_with_times(60, -(i32::MAX / 4) - 1);
    assert!(too_low.try_search(at_node("A"), 2, vec![]).is_none());
    let lowest = graph_with_times(60, -(i32::MAX / 4));
    assert!(lowest.try_search(at_node("A"), 2, vec![]).is_some());
}

#[test]
fn whole_network_search_accepts_negative_driving_times() {
    let g = graph_with_times(60, -30);
    let closest = Closest { link: "l1".to_string(), node: None, linestring_index: 0, linestring_length: 2 };
    let s = full_search::Search::try_do_search(&g, closest, 2).expect("search runs");
    assert_eq!(s.cost_of("A"), Some(0));
    assert_eq!(s.cost_of("B"), Some(60));
    assert_eq!(s.cost_of("C"), Some(30));
    // B is reached at i32::MIN + 5, and 10 seconds less leaves i32
    let down = graph_with_times(i32::MIN + 5, -10);
    let closest = Closest { link: "l1".to_string(), node: None, linestring_index: 0, linestring_length: 2 };
    assert!(full_search::Search::try_do_search(&down, closest, 2).is_none());
}
