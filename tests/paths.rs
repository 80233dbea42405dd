use flight_tracker::chain::{flight_path, walk_back, ChainError, PredecessorMap};
use flight_tracker::flight::{contains_label, flights, position_of, Flight};
use flight_tracker::graph::AdjacencyGraph;
use flight_tracker::traversal::{calculate_flight_path, dfs};

fn batch(pairs: &[(&str, &str)]) -> Vec<Flight> {
    pairs
        .iter()
        .map(|(s, d)| Flight::new(s.to_string(), d.to_string()))
        .collect()
}

fn strings(items: &[&str]) -> Vec<String> {
    items.iter().map(|s| s.to_string()).collect()
}

#[test]
fn traversal_visits_origins_in_order_and_skips_visited() {
    let b = batch(&[("SFO", "EWR"), ("ATL", "EWR"), ("SFO", "ATL")]);
    assert_eq!(calculate_flight_path(&b), strings(&["SFO", "EWR", "ATL"]));
}

#[test]
fn traversal_of_sample_flights() {
    assert_eq!(calculate_flight_path(&flights()), strings(&["SFO", "EWR", "ATL"]));
}

#[test]
fn traversal_of_empty_batch_is_empty() {
    assert_eq!(calculate_flight_path(&Vec::new()), Vec::<String>::new());
}

#[test]
fn traversal_descends_depth_first() {
    let b = batch(&[("A", "B"), ("A", "C"), ("B", "D"), ("C", "E"), ("X", "Y")]);
    assert_eq!(calculate_flight_path(&b), strings(&["A", "B", "D", "C", "E", "X", "Y"]));
}

#[test]
fn traversal_reaches_later_origin_through_recursion() {
    let b = batch(&[("A", "B"), ("B", "C"), ("C", "A")]);
    assert_eq!(calculate_flight_path(&b), strings(&["A", "B", "C"]));
}

#[test]
fn traversal_keeps_duplicate_segments_without_repeating_labels() {
    let b = batch(&[("A", "B"), ("A", "B"), ("B", "B")]);
    assert_eq!(calculate_flight_path(&b), strings(&["A", "B"]));
}

#[test]
fn traversal_each_reachable_label_once() {
    let b = batch(&[("A", "B"), ("C", "B"), ("B", "D"), ("D", "A"), ("E", "F")]);
    let p = calculate_flight_path(&b);
    assert_eq!(p, strings(&["A", "B", "D", "C", "E", "F"]));
    assert_eq!(p.len(), 6);
}

#[test]
fn traversal_twice_gives_same_path() {
    let b = batch(&[("SFO", "EWR"), ("ATL", "EWR"), ("SFO", "ATL")]);
    assert_eq!(calculate_flight_path(&b), calculate_flight_path(&b));
}

#[test]
fn dfs_appends_descent_after_visited_labels() {
    let b = batch(&[("A", "B"), ("B", "C"), ("B", "A"), ("Z", "Q")]);
    let g = AdjacencyGraph::build(&b);
    let mut path = strings(&["C"]);
    dfs(&g, &"A".to_string(), &mut path);
    assert_eq!(path, strings(&["C", "A", "B"]));
}

#[test]
fn dfs_on_label_without_destinations() {
    let b = batch(&[("A", "B")]);
    let g = AdjacencyGraph::build(&b);
    let mut path = Vec::new();
    dfs(&g, &"B".to_string(), &mut path);
    assert_eq!(path, strings(&["B"]));
}

#[test]
fn graph_lists_destinations_per_origin() {
    let b = batch(&[("A", "B"), ("C", "D"), ("A", "E"), ("A", "B")]);
    let g = AdjacencyGraph::build(&b);
    assert_eq!(g.origin_count(), 2);
    assert_eq!(g.origin(0), "A");
    assert_eq!(g.origin(1), "C");
    let a = "A".to_string();
    assert_eq!(g.successor(&a, 0), Some("B".to_string()));
    assert_eq!(g.successor(&a, 1), Some("E".to_string()));
    assert_eq!(g.successor(&a, 2), Some("B".to_string()));
    assert_eq!(g.successor(&a, 3), None);
    assert_eq!(g.successor(&"B".to_string(), 0), None);
}

#[test]
fn predecessor_map_last_write_wins() {
    let b = batch(&[("A", "X"), ("B", "X")]);
    let m = PredecessorMap::build(&b);
    assert_eq!(m.get(&"X".to_string()), Some(&"B".to_string()));
    assert_eq!(m.get(&"A".to_string()), None);
}

#[test]
fn predecessor_map_insert_and_get() {
    let mut m = PredecessorMap::new();
    assert_eq!(m.get(&"X".to_string()), None);
    m.insert("X".to_string(), "A".to_string());
    m.insert("Y".to_string(), "B".to_string());
    m.insert("X".to_string(), "C".to_string());
    assert_eq!(m.get(&"X".to_string()), Some(&"C".to_string()));
    assert_eq!(m.get(&"Y".to_string()), Some(&"B".to_string()));
}

#[test]
fn chain_from_first_origin_without_predecessor() {
    let b = batch(&[("A", "B"), ("B", "C"), ("C", "D")]);
    assert_eq!(flight_path(&b), Ok(strings(&["A"])));
}

#[test]
fn chain_walks_back_from_last_label() {
    let b = batch(&[("A", "B"), ("B", "C"), ("C", "D")]);
    let m = PredecessorMap::build(&b);
    assert_eq!(walk_back(&m, &"D".to_string()), Ok(strings(&["D", "C", "B", "A"])));
}

#[test]
fn chain_walks_back_from_first_segment_origin() {
    let b = batch(&[("C", "D"), ("B", "C"), ("A", "B")]);
    assert_eq!(flight_path(&b), Ok(strings(&["C", "B", "A"])));
}

#[test]
fn chain_of_empty_batch_fails() {
    assert_eq!(flight_path(&Vec::new()), Err(ChainError::EmptyBatch));
}

#[test]
fn chain_detects_two_label_cycle() {
    let b = batch(&[("A", "B"), ("B", "A")]);
    assert_eq!(flight_path(&b), Err(ChainError::UnboundedWalk));
}

#[test]
fn chain_detects_self_loop() {
    let b = batch(&[("A", "A")]);
    assert_eq!(flight_path(&b), Err(ChainError::UnboundedWalk));
}

#[test]
fn chain_detects_cycle_entered_later() {
    let b = batch(&[("A", "B"), ("B", "C"), ("C", "B"), ("Z", "A")]);
    let m = PredecessorMap::build(&b);
    assert_eq!(walk_back(&m, &"C".to_string()), Err(ChainError::UnboundedWalk));
}

#[test]
fn chain_follows_overwritten_predecessor() {
    let b = batch(&[("X", "A"), ("A", "B"), ("Y", "A")]);
    let m = PredecessorMap::build(&b);
    assert_eq!(walk_back(&m, &"B".to_string()), Ok(strings(&["B", "A", "Y"])));
}

#[test]
fn chain_twice_gives_same_result() {
    let b = batch(&[("A", "B"), ("B", "C")]);
    let m = PredecessorMap::build(&b);
    let c = "C".to_string();
    assert_eq!(walk_back(&m, &c), walk_back(&m, &c));
    assert_eq!(flight_path(&b), flight_path(&b));
}

#[test]
fn label_lookup_helpers() {
    let v = strings(&["A", "B", "A"]);
    assert!(contains_label(&v, &"B".to_string()));
    assert!(!contains_label(&v, &"C".to_string()));
    assert_eq!(position_of(&v, &"A".to_string()), Some(0));
    assert_eq!(position_of(&v, &"B".to_string()), Some(1));
    assert_eq!(position_of(&v, &"C".to_string()), None);
}

#[test]
fn sample_flights_are_fixed() {
    let f = flights();
    assert_eq!(f.len(), 3);
    assert_eq!((f[0].source.as_str(), f[0].destination.as_str()), ("SFO", "EWR"));
    assert_eq!((f[1].source.as_str(), f[1].destination.as_str()), ("ATL", "EWR"));
    assert_eq!((f[2].source.as_str(), f[2].destination.as_str()), ("SFO", "ATL"));
}
