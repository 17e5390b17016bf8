use dsa_visualizer::bfs::BFSVisualizer;
use dsa_visualizer::dfs::DFSVisualizer;
use dsa_visualizer::dijkstra::DijkstraVisualizer;
use dsa_visualizer::euclidean::EuclideanVisualizer;
use dsa_visualizer::heap_sort::{HeapSortStage, HeapSortVisualizer};
use dsa_visualizer::lcs::{LCSPhase, LCSVisualizer};
use dsa_visualizer::merge_sort::MergeSortVisualizer;
use std::collections::HashMap;

fn level(id: usize) -> u32 {
    usize::BITS - 1 - id.leading_zeros()
}

#[test]
fn bfs_visits_all_nodes_level_by_level() {
    let mut v = BFSVisualizer::new();
    v.initialize();
    assert_eq!(v.nodes().len(), 31);
    v.start();
    assert!(v.auto_play());
    let mut guard = 0;
    while !v.queue().is_empty() {
        v.step();
        guard += 1;
        assert!(guard <= 31);
    }
    let expected: Vec<usize> = (1..=31).collect();
    assert_eq!(v.visited(), &expected);
    for w in v.visited().windows(2) {
        assert!(level(w[0]) <= level(w[1]));
    }
    // a finished traversal stays as it is, auto-play included
    assert_eq!(v.current_node(), Some(31));
    v.step();
    assert_eq!(v.visited(), &expected);
    assert_eq!(v.current_node(), Some(31));
    assert!(v.auto_play());
}

#[test]
fn bfs_step_before_tree_is_harmless() {
    let mut v = BFSVisualizer::new();
    v.start();
    assert!(!v.auto_play());
    v.step();
    assert!(v.visited().is_empty());
}

#[test]
fn dfs_visits_in_preorder() {
    let mut v = DFSVisualizer::new();
    v.initialize();
    v.start();
    let mut guard = 0;
    while !v.stack().is_empty() {
        v.step();
        guard += 1;
        assert!(guard <= 31);
    }
    let expected: Vec<usize> = vec![
        1, 2, 4, 8, 16, 17, 9, 18, 19, 5, 10, 20, 21, 11, 22, 23, 3, 6, 12, 24, 25, 13, 26, 27, 7,
        14, 28, 29, 15, 30, 31,
    ];
    assert_eq!(v.visited(), &expected);
    assert_eq!(v.current_node(), Some(31));
    assert!(v.auto_play());
    v.step();
    assert_eq!(v.visited(), &expected);
    assert_eq!(v.current_node(), Some(31));
    assert!(v.auto_play());
}

fn run_dijkstra(v: &mut DijkstraVisualizer) -> Vec<usize> {
    v.start();
    let mut guard = 0;
    while v.is_running() {
        v.step();
        guard += 1;
        assert!(guard < 100);
    }
    v.visited().clone()
}

#[test]
fn dijkstra_example_distances() {
    let mut v = DijkstraVisualizer::new();
    v.initialize();
    let order = run_dijkstra(&mut v);
    let expected = [0usize, 1, 3, 4, 2, 4];
    for (node, d) in expected.iter().enumerate() {
        assert_eq!(v.distance(node), *d);
    }
    // settled in non-decreasing order of distance, each once
    assert_eq!(order.len(), 6);
    for w in order.windows(2) {
        assert!(v.distance(w[0]) <= v.distance(w[1]));
    }
    // every edge is relaxed, and each predecessor gives the distance exactly
    for (u, edges) in v.graph().iter() {
        for &(n, w) in edges {
            assert!(v.distance(n) <= v.distance(*u) + w);
        }
    }
    for node in 1..6usize {
        let p = v.predecessor(node).unwrap();
        let w = v.graph()[&p].iter().filter(|e| e.0 == node).map(|e| e.1).min().unwrap();
        assert_eq!(v.distance(node), v.distance(p) + w);
    }
    assert_eq!(v.predecessor(0), None);
}

#[test]
fn dijkstra_stopped_search_is_unchanged() {
    let mut v = DijkstraVisualizer::new();
    v.initialize();
    run_dijkstra(&mut v);
    assert!(v.auto_play());
    let visited = v.visited().clone();
    let current = v.current();
    v.step();
    assert!(v.auto_play());
    assert!(!v.is_running());
    assert_eq!(v.distance(3), 4);
    assert_eq!(v.visited(), &visited);
    assert_eq!(v.current(), current);
}

#[test]
fn dijkstra_stops_at_target() {
    let mut v = DijkstraVisualizer::new();
    v.initialize();
    v.set_target(Some(4));
    let order = run_dijkstra(&mut v);
    assert_eq!(order, vec![0, 1, 4]);
    assert_eq!(v.current(), Some(4));
}

#[test]
fn dijkstra_source_outside_graph_does_not_start() {
    let mut v = DijkstraVisualizer::new();
    let mut g = HashMap::new();
    g.insert(1usize, vec![(2usize, 3usize)]);
    v.initialize_graph(g, 7);
    assert!(!v.source_in_graph());
    v.start();
    assert!(!v.is_running());
    assert!(!v.auto_play());
    assert_eq!(v.distance(1), usize::MAX);
}

#[test]
fn dijkstra_huge_weights_do_not_overflow() {
    let mut v = DijkstraVisualizer::new();
    let mut g = HashMap::new();
    g.insert(0usize, vec![(1usize, usize::MAX)]);
    g.insert(1usize, vec![(2usize, usize::MAX)]);
    g.insert(2usize, vec![]);
    v.initialize_graph(g, 0);
    run_dijkstra(&mut v);
    assert_eq!(v.distance(1), usize::MAX);
    assert_eq!(v.distance(2), usize::MAX);
}

#[test]
fn merge_sort_sorts_example() {
    let mut v = MergeSortVisualizer::new();
    let mut initial = v.data().clone();
    v.start();
    while v.current_step() < v.steps().len() {
        v.step();
    }
    let data = v.data().clone();
    for w in data.windows(2) {
        assert!(w[0] <= w[1]);
    }
    initial.sort();
    assert_eq!(data, initial);
    assert_eq!(v.steps().len(), 24);
    assert_eq!(*v.steps().last().unwrap(), (0, 24));
    let ranges = v.current_ranges();
    assert_eq!(ranges, Some((0, 13, 25)));
    v.step();
    assert_eq!(v.current_ranges(), ranges);
    assert_eq!(v.data(), &data);
    assert_eq!(v.current_step(), 24);
}

#[test]
fn merge_sort_initialize_restores_input() {
    let mut v = MergeSortVisualizer::new();
    let input = v.data().clone();
    v.step();
    v.step();
    assert_ne!(v.data(), &input);
    v.initialize();
    assert_eq!(v.data(), &input);
    assert_eq!(v.current_step(), 0);
    assert_eq!(v.current_ranges(), None);
    v.step();
    v.start();
    assert_eq!(v.data(), &input);
    assert!(v.auto_play());
}

#[test]
fn merge_sort_first_step_merges_first_pair() {
    let mut v = MergeSortVisualizer::new();
    assert_eq!(v.steps()[0], (0, 1));
    v.step();
    assert_eq!(&v.data()[..3], &[23, 45, 11]);
    assert_eq!(v.current_ranges(), Some((0, 1, 2)));
}

fn run_heap_sort(v: &mut HeapSortVisualizer) {
    let mut guard = 0;
    while v.stage() != HeapSortStage::Done {
        v.step();
        guard += 1;
        assert!(guard < 1000);
    }
}

#[test]
fn heap_sort_sorts_given_data() {
    let mut v = HeapSortVisualizer::new();
    let input = vec![5, 3, 9, 1, 5, 7, 2, 8, 0, -4];
    v.initialize_with(input.clone());
    assert_eq!(v.current_index(), 4);
    run_heap_sort(&mut v);
    let mut expected = input;
    expected.sort();
    assert_eq!(v.data(), &expected);
    assert_eq!(v.heap_size(), 0);
    let done = v.data().clone();
    v.step();
    assert_eq!(v.data(), &done);
    assert_eq!(v.stage(), HeapSortStage::Done);
}

#[test]
fn heap_sort_random_data() {
    let mut v = HeapSortVisualizer::new();
    v.initialize();
    assert_eq!(v.data().len(), 20);
    assert!(v.data().iter().all(|&x| (1..100).contains(&x)));
    assert_eq!(v.current_index(), 9);
    run_heap_sort(&mut v);
    for w in v.data().windows(2) {
        assert!(w[0] <= w[1]);
    }
    assert_eq!(v.heap_size(), 0);
}

#[test]
fn heap_sort_tiny_inputs() {
    let mut v = HeapSortVisualizer::new();
    v.step();
    assert_eq!(v.stage(), HeapSortStage::Done);
    v.initialize_with(vec![3]);
    assert_eq!(v.stage(), HeapSortStage::Done);
    v.initialize_with(vec![2, 1]);
    run_heap_sort(&mut v);
    assert_eq!(v.data(), &vec![1, 2]);
}

fn run_lcs(v: &mut LCSVisualizer) {
    let mut guard = 0;
    while v.phase() != LCSPhase::Done {
        v.step();
        guard += 1;
        assert!(guard < 1000);
    }
}

fn is_subsequence(sub: &[char], s: &[char]) -> bool {
    let mut it = s.iter();
    sub.iter().all(|c| it.any(|x| x == c))
}

#[test]
fn lcs_example_has_length_four() {
    let mut v = LCSVisualizer::new();
    v.initialize();
    run_lcs(&mut v);
    let r = v.lcs_result().clone();
    assert_eq!(r.len(), 4);
    assert_eq!(v.dp_table()[7][5], 4);
    assert!(is_subsequence(&r, v.str1()));
    assert!(is_subsequence(&r, v.str2()));
    let s: String = r.iter().collect();
    assert_eq!(s, "BDAB");
    assert!(!v.auto_play());
    v.step();
    assert_eq!(v.lcs_result(), &r);
}

#[test]
fn lcs_edited_strings() {
    let mut v = LCSVisualizer::new();
    v.set_strings("AGGTAB", "GXTXAYB");
    run_lcs(&mut v);
    let s: String = v.lcs_result().iter().collect();
    assert_eq!(s, "GTAB");
    v.set_strings("ABC", "");
    run_lcs(&mut v);
    assert!(v.lcs_result().is_empty());
}

#[test]
fn euclid_48_18() {
    let mut v = EuclideanVisualizer::new();
    v.initialize();
    assert_eq!(v.steps(), &vec![(48, 18), (18, 12), (12, 6)]);
    assert_eq!(v.result(), Some(6));
    v.step();
    assert_eq!((v.current_a(), v.current_b()), (48, 18));
    v.step();
    assert_eq!((v.current_a(), v.current_b()), (18, 12));
    v.step();
    assert_eq!((v.current_a(), v.current_b()), (12, 6));
    v.step();
    assert_eq!((v.current_a(), v.current_b()), (12, 6));
    assert_eq!(v.current_step(), 3);
}

#[test]
fn euclid_negative_and_zero_inputs() {
    let mut v = EuclideanVisualizer::new();
    v.set_numbers(-48, 18);
    assert_eq!(v.steps(), &vec![(-48, 18), (18, -12), (-12, 6)]);
    assert_eq!(v.result(), Some(6));
    v.set_numbers(7, 0);
    assert!(v.steps().is_empty());
    assert_eq!(v.result(), Some(7));
    v.set_numbers(i32::MIN, -1);
    assert_eq!(v.steps(), &vec![(i32::MIN, -1)]);
    assert_eq!(v.result(), Some(-1));
}
