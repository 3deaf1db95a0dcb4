use hdqtsp_lehmer::dag::{annotate_connections, AdaptiveDAGDecomposer, Decomposition};

#[test]
fn decomposer_parameters() {
    let d = AdaptiveDAGDecomposer::new(8, 4);
    assert_eq!(d.max_depth(), 2);
    assert_eq!(d.min_cluster_size(), 3);
    assert_eq!(d.overlap_size(), 1);
    let d = AdaptiveDAGDecomposer::new(100, 6);
    assert_eq!(d.max_depth(), 5);
    assert_eq!(d.min_cluster_size(), 3);
    assert_eq!(d.overlap_size(), 2);
    let d = AdaptiveDAGDecomposer::new(3, 12);
    assert_eq!(d.max_depth(), 2);
    assert_eq!(d.min_cluster_size(), 6);
    assert_eq!(d.overlap_size(), 4);
    let d = AdaptiveDAGDecomposer::new(1000, 10);
    assert_eq!(d.max_depth(), 7);
}

#[test]
fn single_node_holds_every_city() {
    let dag = AdaptiveDAGDecomposer::new(3, 6).single_node();
    assert_eq!(dag.nodes.len(), 1);
    assert_eq!(dag.nodes[&0].cities, vec![0, 1, 2]);
    assert_eq!(dag.roots, vec![0]);
    assert_eq!(dag.leaves, vec![0]);
}

#[test]
fn fallback_flat_windows() {
    let dag = AdaptiveDAGDecomposer::new(10, 4).fallback_flat();
    assert_eq!(dag.nodes.len(), 4);
    assert_eq!(dag.nodes[&0].cities, vec![0, 1, 2, 3]);
    assert_eq!(dag.nodes[&0].child_ids, vec![1, 2, 3]);
    assert_eq!(dag.nodes[&1].cities, vec![2, 3, 4, 5]);
    assert_eq!(dag.nodes[&2].cities, vec![5, 6, 7, 8]);
    assert_eq!(dag.nodes[&3].cities, vec![8, 9]);
    assert_eq!(dag.nodes[&3].parent_ids, vec![0]);
    assert_eq!(dag.nodes[&3].level, 1);
    assert_eq!(dag.roots, vec![0]);
    assert_eq!(dag.leaves, vec![1, 2, 3]);
}

#[test]
fn tree_plan_and_assembly() {
    let d = AdaptiveDAGDecomposer::new(8, 4);
    let order = vec![3, 5, 7, 0, 1, 2, 4, 6];
    let plan = d.build_tree_plan(&order);
    assert_eq!(plan.len(), 3);
    assert_eq!(plan[0].split, Some((vec![3, 5, 7, 0], vec![1, 2, 4, 6])));
    assert_eq!(plan[0].parent_id, 0);
    assert_eq!(plan[0].level, 1);
    assert_eq!(plan[1].cities, vec![3, 5, 7, 0]);
    assert_eq!(plan[1].parent_id, 1);
    assert_eq!(plan[1].level, 2);
    assert_eq!(plan[2].cities, vec![1, 2, 4, 6]);
    assert_eq!(plan[2].split, None);

    let bridges = vec![(7, 1), (0, 0), (0, 0)];
    let mut dag = d.assemble_tree(&plan, &bridges);
    assert_eq!(dag.nodes.len(), 4);
    assert_eq!(dag.nodes[&0].cities, vec![7, 1]);
    assert_eq!(dag.nodes[&0].child_ids, vec![1]);
    assert_eq!(dag.nodes[&1].cities, vec![7, 1]);
    assert_eq!(dag.nodes[&1].child_ids, vec![2, 3]);
    assert_eq!(dag.roots, vec![0]);
    assert_eq!(dag.leaves, vec![2, 3]);

    annotate_connections(&mut dag);
    assert_eq!(dag.nodes[&0].connection_cities, Vec::<usize>::new());
    assert_eq!(dag.nodes[&1].connection_cities, vec![7, 1]);
    assert_eq!(dag.nodes[&2].connection_cities, vec![7]);
    assert_eq!(dag.nodes[&3].connection_cities, vec![1]);
}

#[test]
fn tree_plan_small_instance_is_one_leaf() {
    // 3 cities with subproblems of 2: the 3 cities do not exceed the minimum
    // cluster size of 3, so the tree is a single leaf holding 0..n in order.
    let d = AdaptiveDAGDecomposer::new(3, 2);
    let plan = d.build_tree_plan(&vec![2, 1, 0]);
    assert_eq!(plan.len(), 1);
    assert_eq!(plan[0].cities, vec![0, 1, 2]);
    let dag = d.assemble_tree(&plan, &vec![(0, 0)]);
    assert_eq!(dag.nodes[&0].cities, vec![0]);
    assert_eq!(dag.leaves, vec![1]);
}

#[test]
fn deep_tree_levels() {
    // 24 cities, subproblems of 3: depth limit max(2, floor(log2(8)) + 1) = 4.
    let d = AdaptiveDAGDecomposer::new(24, 3);
    assert_eq!(d.max_depth(), 4);
    let order: Vec<usize> = (0..24).collect();
    let plan = d.build_tree_plan(&order);
    // 24 -> 12 + 12 -> 6 + 6 (each) -> leaves of 3 cities.
    assert_eq!(plan.len(), 1 + 2 * (1 + 2 * (1 + 2)));
    let leaf_count = plan.iter().filter(|p| p.split.is_none()).count();
    assert_eq!(leaf_count, 8);
    let mut covered: Vec<usize> = plan.iter().filter(|p| p.split.is_none()).flat_map(|p| p.cities.clone()).collect();
    covered.sort();
    assert_eq!(covered, order);
}

#[test]
fn levels_of_an_assembled_tree() {
    let d = AdaptiveDAGDecomposer::new(24, 3);
    let order: Vec<usize> = (0..24).rev().collect();
    let plan = d.build_tree_plan(&order);
    let bridges: Vec<(usize, usize)> = plan
        .iter()
        .map(|p| match &p.split {
            Some((l, r)) => (l[0], r[0]),
            None => (0, 0),
        })
        .collect();
    let dag = d.assemble_tree(&plan, &bridges);
    assert_eq!(dag.max_level(), 4);
    assert_eq!(dag.nodes_at_level(0), vec![0]);
    assert_eq!(dag.nodes_at_level(1), vec![1]);
    assert_eq!(dag.nodes_at_level(4).len(), 8);
    // the root holds the distinct bridge cities in plan order, at most 3
    assert_eq!(dag.nodes[&0].cities, vec![23, 11, 17]);
    // every city lies in exactly one leaf
    let mut covered: Vec<usize> = dag.leaves.iter().flat_map(|&id| dag.nodes[&id].cities.clone()).collect();
    covered.sort();
    assert_eq!(covered, (0..24).collect::<Vec<usize>>());
    for id in 1..dag.nodes.len() {
        let node = &dag.nodes[&id];
        assert_eq!(node.node_id, id);
        let parent = &dag.nodes[&node.parent_ids[0]];
        assert_eq!(node.level, parent.level + 1);
        assert!(parent.child_ids.contains(&node.node_id));
    }
}

#[test]
fn no_cities_and_no_subproblem_size() {
    let d = AdaptiveDAGDecomposer::new(0, 0);
    assert_eq!(d.max_depth(), 2);
    let dag = d.single_node();
    assert_eq!(dag.nodes.len(), 1);
    assert_eq!(dag.nodes[&0].cities, Vec::<usize>::new());
    assert_eq!(dag.roots, vec![0]);
    assert_eq!(dag.leaves, vec![0]);
}

#[test]
fn assembled_tree_shape() {
    let d = AdaptiveDAGDecomposer::new(20, 4);
    let order: Vec<usize> = (0..20).collect();
    let plan = d.build_tree_plan(&order);
    let bridges: Vec<(usize, usize)> = plan
        .iter()
        .map(|p| match &p.split {
            Some((l, r)) => (l[l.len() - 1], r[0]),
            None => (0, 0),
        })
        .collect();
    let dag = d.assemble_tree(&plan, &bridges);
    assert_eq!(dag.roots, vec![0]);
    let root = &dag.nodes[&0];
    assert!(root.parent_ids.is_empty());
    assert_eq!(root.level, 0);
    for id in 1..dag.nodes.len() {
        let node = &dag.nodes[&id];
        assert_eq!(node.parent_ids.len(), 1);
        assert!(node.parent_ids[0] < id);
        for c in &node.child_ids {
            assert_eq!(dag.nodes[c].parent_ids, vec![id]);
        }
    }
    let childless: Vec<usize> = (0..dag.nodes.len()).filter(|k| dag.nodes[k].child_ids.is_empty()).collect();
    assert_eq!(dag.leaves, childless);
    assert!(dag.leaves.len() >= 2);
}

#[test]
fn decomposition_branches() {
    assert_eq!(AdaptiveDAGDecomposer::new(5, 8).decomposition(), Decomposition::SingleNode);
    assert_eq!(AdaptiveDAGDecomposer::new(8, 8).decomposition(), Decomposition::SingleNode);
    assert_eq!(AdaptiveDAGDecomposer::new(9, 8).decomposition(), Decomposition::Spectral);
    assert_eq!(AdaptiveDAGDecomposer::new(3, 2).decomposition(), Decomposition::Spectral);
    assert_eq!(AdaptiveDAGDecomposer::new(2, 1).decomposition(), Decomposition::Flat);
}

#[test]
fn decompose_small_instance_is_one_node() {
    let d = AdaptiveDAGDecomposer::new(4, 6);
    let dag = d.decompose(&Vec::new(), &Vec::new());
    assert_eq!(dag.nodes.len(), 1);
    assert_eq!(dag.nodes[&0].cities, vec![0, 1, 2, 3]);
    assert_eq!(dag.roots, vec![0]);
    assert_eq!(dag.leaves, vec![0]);
}

#[test]
fn decompose_spectral_tree() {
    let d = AdaptiveDAGDecomposer::new(12, 3);
    let order: Vec<usize> = (0..12).rev().collect();
    let plan = d.build_tree_plan(&order);
    let bridges: Vec<(usize, usize)> = plan
        .iter()
        .map(|p| match &p.split {
            Some((l, r)) => (l[0], r[0]),
            None => (0, 0),
        })
        .collect();
    let dag = d.decompose(&order, &bridges);
    let mut plain = d.assemble_tree(&plan, &bridges);
    annotate_connections(&mut plain);
    assert_eq!(dag.nodes.len(), plain.nodes.len());
    for k in 0..dag.nodes.len() {
        let (a, b) = (&dag.nodes[&k], &plain.nodes[&k]);
        assert_eq!((a.node_id, &a.cities, a.level), (b.node_id, &b.cities, b.level));
        assert_eq!((&a.parent_ids, &a.child_ids, &a.connection_cities), (&b.parent_ids, &b.child_ids, &b.connection_cities));
    }
    assert_eq!(dag.roots, vec![0]);
    for id in 1..dag.nodes.len() {
        let node = &dag.nodes[&id];
        assert_eq!(node.parent_ids.len(), 1);
        let parent = &dag.nodes[&node.parent_ids[0]];
        assert_eq!(node.level, parent.level + 1);
        assert!(parent.child_ids.contains(&id));
        // a child shares with its parent exactly the cities they both hold
        for c in &node.connection_cities {
            assert!(parent.cities.contains(c) && node.cities.contains(c));
        }
    }
    let childless: Vec<usize> = (0..dag.nodes.len()).filter(|k| dag.nodes[k].child_ids.is_empty()).collect();
    assert_eq!(dag.leaves, childless);
}
