use ant_colony::tour::{identity_tour, path_windows, tour_edges};
use ant_colony::TourBuilder;

#[test]
fn builder_starts_on_its_start_node() {
    let ant = TourBuilder::new(4, 2);
    assert_eq!(ant.n(), 4);
    assert_eq!(ant.current(), 2);
    assert_eq!(ant.len(), 1);
    assert!(ant.is_visited(2));
    assert!(!ant.is_visited(0));
    assert!(!ant.is_complete());
    assert_eq!(ant.candidates(), vec![0, 1, 3]);
}

#[test]
fn builder_walks_every_node_once() {
    let mut ant = TourBuilder::new(5, 3);
    while !ant.is_complete() {
        let candidates = ant.candidates();
        assert!(!candidates.is_empty());
        assert!(!candidates.contains(&ant.current()));
        let next = candidates[candidates.len() - 1];
        ant.advance(next);
        assert_eq!(ant.current(), next);
    }
    assert!(ant.candidates().is_empty());
    let tour = ant.into_tour();
    assert_eq!(tour, vec![3, 4, 2, 1, 0]);
    let mut sorted = tour.clone();
    sorted.sort();
    assert_eq!(sorted, vec![0, 1, 2, 3, 4]);
}

#[test]
fn single_node_builder_is_complete() {
    let ant = TourBuilder::new(1, 0);
    assert!(ant.is_complete());
    assert!(ant.candidates().is_empty());
    assert_eq!(ant.into_tour(), vec![0]);
}

#[test]
fn identity_tour_lists_nodes_in_order() {
    assert_eq!(identity_tour(4), vec![0, 1, 2, 3]);
    assert!(identity_tour(0).is_empty());
}

#[test]
fn path_windows_are_consecutive_pairs() {
    assert_eq!(path_windows(&[0, 1, 2]), vec![(0, 1), (1, 2)]);
    assert!(path_windows(&[7]).is_empty());
    assert!(path_windows(&[]).is_empty());
}

#[test]
fn tour_edges_close_the_tour() {
    assert_eq!(tour_edges(&[0, 1, 2, 3]), vec![(0, 1), (1, 2), (2, 3), (3, 0)]);
    assert_eq!(tour_edges(&[4, 2]), vec![(4, 2), (2, 4)]);
}

#[test]
fn single_node_tour_has_no_edges() {
    assert!(tour_edges(&[0]).is_empty());
    assert!(tour_edges(&[]).is_empty());
}
