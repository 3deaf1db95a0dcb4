use hdqtsp_lehmer::tour::{close_route, CombineStep, map_local_route, merge_leaf_routes, missing_cities, two_opt_move, TourBuilder, TourCombiner};
use hdqtsp_lehmer::subsets::combinations;

#[test]
fn validate_accepts_permutations_only() {
    let combiner = TourCombiner::new(4);
    assert!(combiner.validate(&[2, 0, 3, 1]));
    assert!(!combiner.validate(&[2, 0, 3]));
    assert!(!combiner.validate(&[2, 0, 3, 3]));
    assert!(!combiner.validate(&[2, 0, 3, 4]));
    assert!(!combiner.validate(&[0, 1, 2, 3, 0]));
    assert!(TourCombiner::new(0).validate(&[]));
}

#[test]
fn merge_two_leaves_covers_all_cities() {
    let leaf_routes = vec![vec![0, 1, 2], vec![3, 4, 5]];
    let merged = merge_leaf_routes(&leaf_routes);
    assert_eq!(merged, vec![0, 1, 2, 3, 4, 5]);
    assert_eq!(merged.len(), 6);
    assert!(TourCombiner::new(6).validate(&merged));
}

#[test]
fn merge_puts_longest_routes_first_and_drops_repeats() {
    let leaf_routes = vec![vec![1], vec![2, 3], vec![4, 5, 6], vec![7, 3]];
    assert_eq!(merge_leaf_routes(&leaf_routes), vec![4, 5, 6, 2, 3, 7, 1]);
    assert_eq!(merge_leaf_routes(&[]), Vec::<usize>::new());
    assert_eq!(merge_leaf_routes(&[vec![], vec![2, 2]]), vec![2]);
}

#[test]
fn missing_cities_are_the_complement() {
    assert_eq!(missing_cities(&vec![4, 0, 2], 6), vec![1, 3, 5]);
    assert_eq!(missing_cities(&vec![0, 1, 2], 3), Vec::<usize>::new());
    assert_eq!(missing_cities(&vec![], 2), vec![0, 1]);
}

#[test]
fn two_opt_move_reverses_segment() {
    let route = vec![0, 1, 2, 3, 4, 5];
    assert_eq!(two_opt_move(&route, 1, 4), vec![0, 4, 3, 2, 1, 5]);
    assert_eq!(two_opt_move(&route, 2, 2), route);
    assert_eq!(two_opt_move(&route, 0, 5), vec![5, 4, 3, 2, 1, 0]);
}

#[test]
fn close_route_returns_to_start() {
    assert_eq!(close_route(&vec![3, 1, 2]), vec![3, 1, 2, 3]);
    assert_eq!(close_route(&vec![7]), vec![7, 7]);
}

#[test]
fn map_local_route_maps_positions() {
    assert_eq!(map_local_route(&vec![0, 2, 1], &vec![10, 20, 30]), vec![10, 30, 20]);
}

#[test]
fn combinations_in_order() {
    assert_eq!(combinations(&[1, 2, 3], 2), vec![vec![1, 2], vec![1, 3], vec![2, 3]]);
    assert_eq!(combinations(&[1, 2, 3], 0), vec![Vec::<usize>::new()]);
    assert_eq!(combinations(&[1, 2], 3), Vec::<Vec<usize>>::new());
    assert_eq!(combinations(&[1, 2, 3, 4, 5], 3).len(), 10);
}

#[test]
fn two_opt_move_keeps_a_tour() {
    let combiner = TourCombiner::new(7);
    let route = vec![3, 0, 6, 1, 5, 2, 4];
    for i in 0..7 {
        for j in i..7 {
            assert!(combiner.validate(&two_opt_move(&route, i, j)));
        }
    }
}

#[test]
fn merged_plus_missing_is_a_tour() {
    let merged = merge_leaf_routes(&[vec![5, 1], vec![1, 7, 2]]);
    assert_eq!(merged, vec![1, 7, 2, 5]);
    let missing = missing_cities(&merged, 9);
    assert_eq!(missing, vec![0, 3, 4, 6, 8]);
    let mut all = merged.clone();
    all.extend(missing);
    assert!(TourCombiner::new(9).validate(&all));
}

#[test]
fn decoded_local_route_visits_every_city() {
    let cities = vec![11, 4, 9, 20];
    let decoder = hdqtsp_lehmer::lehmer::LehmerDecoder::new(4);
    for idx in 0..decoder.total_permutations() {
        let mut global = map_local_route(&decoder.decode_full_route(idx), &cities);
        assert_eq!(global[0], 11);
        global.sort();
        assert_eq!(global, vec![4, 9, 11, 20]);
    }
}

#[test]
fn tour_builder_builds_a_tour() {
    let mut b = TourBuilder::new(4, 2);
    assert_eq!(b.unvisited(), vec![0, 1, 3]);
    assert!(!b.is_complete());
    assert!(b.is_visited(2));
    b.visit(3);
    b.visit(0);
    assert_eq!(b.unvisited(), vec![1]);
    b.visit(1);
    assert!(b.is_complete());
    assert_eq!(b.route(), vec![2, 3, 0, 1]);
    assert!(TourCombiner::new(4).validate(&b.route()));
    // a start outside the cities is kept in front and never counted as visited
    let b = TourBuilder::new(2, 5);
    assert_eq!(b.unvisited(), vec![0, 1]);
}

#[test]
fn combinations_of_distinct_items_are_distinct_picks() {
    let items = [4, 9, 1, 7];
    let all = combinations(&items, 2);
    assert_eq!(all, vec![vec![4, 9], vec![4, 1], vec![4, 7], vec![9, 1], vec![9, 7], vec![1, 7]]);
    for i in 0..all.len() {
        for j in (i + 1)..all.len() {
            assert_ne!(all[i], all[j]);
        }
    }
    assert_eq!(combinations(&items, 4), vec![vec![4, 9, 1, 7]]);
}

#[test]
fn combine_step_decides_what_is_left() {
    let c = TourCombiner::new(5);
    assert!(matches!(c.combine_step(&[]), CombineStep::NearestNeighbour));
    match c.combine_step(&[vec![3, 4], vec![0, 1, 2]]) {
        CombineStep::Complete(t) => assert_eq!(t, vec![0, 1, 2, 3, 4]),
        _ => panic!("expected a complete tour"),
    }
    match c.combine_step(&[vec![4, 1], vec![1, 3, 2]]) {
        CombineStep::Insert(t, m) => {
            assert_eq!(t, vec![1, 3, 2, 4]);
            assert_eq!(m, vec![0]);
        }
        _ => panic!("expected cities to insert"),
    }
}
