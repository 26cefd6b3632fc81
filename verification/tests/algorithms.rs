use ojo::components::{tarjan, weak_components};
use ojo::dfs::{Dfs, Status, Visit};
use ojo::diff::LineDiff::{Delete, Keep, New};
use ojo::diff::{diff, diff_ends, LineDiff};
use ojo::filtered::{neighbor_set, Doubled, EdgeFiltered, NodeFiltered};
use ojo::graph::{AdjGraph, Graph};
use ojo::lis::longest_increasing_subsequence;
use ojo::reach::has_path;
use ojo::topo::{linear_order, top_sort};

fn graph(n: usize, edges: &[(usize, usize)]) -> AdjGraph {
    let mut g = AdjGraph::new(n);
    for &(u, v) in edges {
        g.add_edge(u, v);
    }
    g
}

// A diff is valid when every line of each file appears once, in order, and kept lines agree.
fn assert_valid(a: &[u32], b: &[u32], d: &[LineDiff]) {
    let input = d
        .iter()
        .filter_map(|l| match *l {
            LineDiff::New(_) => None,
            LineDiff::Keep(i, _) => Some(i),
            LineDiff::Delete(i) => Some(i),
        })
        .collect::<Vec<_>>();
    assert_eq!(input, (0..a.len()).collect::<Vec<_>>());
    let output = d
        .iter()
        .filter_map(|l| match *l {
            LineDiff::New(i) => Some(i),
            LineDiff::Keep(_, i) => Some(i),
            LineDiff::Delete(_) => None,
        })
        .collect::<Vec<_>>();
    assert_eq!(output, (0..b.len()).collect::<Vec<_>>());
    for l in d {
        if let LineDiff::Keep(i, j) = *l {
            assert_eq!(a[i], b[j]);
        }
    }
}

fn run_diff_ends(a: &[u32], b: &[u32]) -> Vec<LineDiff> {
    let mut d = Vec::new();
    diff_ends(a, 0, b, 0, &mut d);
    d
}

#[test]
fn diff_ends_all() {
    assert_eq!(run_diff_ends(&[1, 2, 3], &[1, 2, 3]), vec![Keep(0, 0), Keep(1, 1), Keep(2, 2)]);
}

#[test]
fn diff_ends_shorter_first() {
    assert_eq!(run_diff_ends(&[1, 1], &[1, 1, 1]), vec![Keep(0, 0), Keep(1, 1), New(2)]);
}

#[test]
fn diff_ends_longer_first() {
    assert_eq!(run_diff_ends(&[1, 1, 1], &[1, 1]), vec![Keep(0, 0), Keep(1, 1), Delete(2)]);
}

#[test]
fn diff_is_valid() {
    let cases: Vec<(Vec<u32>, Vec<u32>)> = vec![
        (vec![], vec![]),
        (vec![], vec![1, 2]),
        (vec![1, 2], vec![]),
        (vec![1, 2, 3], vec![1, 3, 4]),
        (vec![1, 2, 3, 4, 5], vec![5, 4, 3, 2, 1]),
        (vec![1, 1, 2, 2, 3, 3], vec![3, 1, 2, 1, 2, 3]),
        (vec![7, 8, 9, 1, 2, 3, 7, 8, 9], vec![1, 2, 3, 7, 8, 9, 4]),
    ];
    for (a, b) in cases {
        let d = diff(&a, &b);
        assert_valid(&a, &b, &d);
    }
}

#[test]
fn diff_keeps_common_lines() {
    let d = diff(&[1u32, 2, 3], &[1, 3, 4]);
    assert_eq!(d, vec![Keep(0, 0), Delete(1), Keep(2, 1), New(2)]);
}

#[test]
fn lis_test_empty() {
    assert_eq!(longest_increasing_subsequence(&[]), Vec::<usize>::new());
}

#[test]
fn lis_test_ordered() {
    assert_eq!(longest_increasing_subsequence(&[0, 1, 2, 3, 4, 5, 6]), vec![0, 1, 2, 3, 4, 5, 6]);
}

#[test]
fn lis_test_reversed() {
    assert_eq!(longest_increasing_subsequence(&[6, 5, 4, 3, 2, 1, 0]), vec![6]);
}

#[test]
fn lis_is_longest() {
    let seq = [0, 5, 1, 2, 6, 3];
    let lis = longest_increasing_subsequence(&seq);
    assert_eq!(lis.len(), 4);
    let vals = lis.iter().map(|&i| seq[i]).collect::<Vec<_>>();
    assert!(vals.windows(2).all(|p| p[0] < p[1]));
    assert!(lis.windows(2).all(|p| p[0] < p[1]));
}

#[test]
fn top_sort_acyclic() {
    let g = graph(4, &[(0, 1), (0, 2), (1, 3), (2, 3)]);
    let order = top_sort(&g).unwrap();
    assert_eq!(order.len(), 4);
    let pos = |x: usize| order.iter().position(|&y| y == x).unwrap();
    for &(u, v) in &[(0, 1), (0, 2), (1, 3), (2, 3)] {
        assert!(pos(u) < pos(v));
    }
}

#[test]
fn top_sort_cyclic() {
    let g = graph(3, &[(0, 1), (1, 2), (2, 0)]);
    assert_eq!(top_sort(&g), None);
}

#[test]
fn linear_order_chain_and_diamond() {
    let g = graph(3, &[(1, 2), (0, 1)]);
    assert_eq!(linear_order(&g), Some(vec![0, 1, 2]));
    let d = graph(4, &[(0, 1), (0, 2), (1, 3), (2, 3)]);
    assert_eq!(linear_order(&d), None);
    let c = graph(2, &[(0, 1), (1, 0)]);
    assert_eq!(linear_order(&c), None);
}

#[test]
fn has_path_reachability() {
    let g = graph(4, &[(0, 1), (1, 2)]);
    assert!(has_path(&g, 0, 2));
    assert!(!has_path(&g, 2, 0));
    assert!(!has_path(&g, 0, 3));
    // A path has at least one edge.
    assert!(!has_path(&g, 0, 0));
    let c = graph(2, &[(0, 1), (1, 0)]);
    assert!(has_path(&c, 0, 0));
}

#[test]
fn tarjan_components() {
    let g = graph(5, &[(0, 1), (1, 2), (2, 1), (2, 3), (3, 4), (4, 3)]);
    let p = tarjan(&g);
    assert_eq!(p.num_components(), 3);
    assert_eq!(p.index_of(1), p.index_of(2));
    assert_eq!(p.index_of(3), p.index_of(4));
    assert_ne!(p.index_of(0), p.index_of(1));
    assert_ne!(p.index_of(1), p.index_of(3));
    // Components come in topological order.
    assert!(p.index_of(0) < p.index_of(1));
    assert!(p.index_of(1) < p.index_of(3));
}

#[test]
fn weak_components_connectivity() {
    let g = graph(5, &[(0, 1), (2, 1), (3, 4)]);
    let p = weak_components(&g);
    assert_eq!(p.num_components(), 2);
    assert_eq!(p.index_of(0), p.index_of(2));
    assert_eq!(p.index_of(3), p.index_of(4));
    assert_ne!(p.index_of(0), p.index_of(3));
}

#[test]
fn dfs_visits() {
    let g = graph(3, &[(0, 1), (0, 2), (1, 2)]);
    let mut dfs = Dfs::new(&g);
    let mut visits = Vec::new();
    while let Some(v) = dfs.next() {
        visits.push(v);
    }
    assert_eq!(visits[0], Visit::Root(0));
    assert_eq!(visits[1], Visit::Edge { src: 0, dst: 1, status: Status::New });
    assert!(visits.contains(&Visit::Edge { src: 0, dst: 2, status: Status::Repeated }));
    let retreats = visits.iter().filter(|v| matches!(v, Visit::Retreat { .. })).count();
    assert_eq!(retreats, 3);
}

#[test]
fn doubled_graph() {
    let g = graph(3, &[(0, 1), (1, 2)]);
    let d = Doubled::new(&g);
    assert_eq!(d.num_nodes(), 3);
    assert_eq!(d.out_edges(1), vec![2, 0]);
    assert_eq!(d.in_edges(1), vec![2, 0]);
}

#[test]
fn node_filtered_graph() {
    let g = graph(4, &[(0, 1), (1, 2), (2, 3), (0, 3)]);
    let f = NodeFiltered::new(&g, vec![true, false, true, true]);
    // Nodes 0, 2, 3 become 0, 1, 2.
    assert_eq!(f.num_nodes(), 3);
    assert_eq!(f.out_edges(0), vec![2]);
    assert_eq!(f.out_edges(1), vec![2]);
    assert_eq!(f.in_edges(1), Vec::<usize>::new());
    assert_eq!(f.in_edges(2), vec![1, 0]);
}

#[test]
fn edge_filtered_graph() {
    let g = graph(3, &[(0, 1), (0, 2), (1, 2)]);
    let f = EdgeFiltered::new(
        &g,
        vec![vec![false, true], vec![true], vec![]],
        vec![vec![], vec![true], vec![true, false]],
    );
    assert_eq!(f.num_nodes(), 3);
    assert_eq!(f.out_edges(0), vec![2]);
    assert_eq!(f.out_edges(1), vec![2]);
    assert_eq!(f.in_edges(2), vec![0]);
    assert_eq!(f.in_edges(1), vec![0]);
}

#[test]
fn neighbor_set_of_nodes() {
    let g = graph(5, &[(0, 1), (1, 2), (3, 1)]);
    let r = neighbor_set(&g, &vec![1]);
    assert_eq!(r, vec![true, false, true, true, false]);
    let r = neighbor_set(&g, &vec![]);
    assert_eq!(r, vec![false; 5]);
}

#[test]
fn lis_prefers_latest_positions() {
    // Both [0, 2] and [1, 3] (and more) are longest; patience sorting ends at the last position
    // whose run is that long, and steps back to the last suitable position before it.
    assert_eq!(longest_increasing_subsequence(&[1, 0, 3, 2]), vec![1, 3]);
    assert_eq!(longest_increasing_subsequence(&[3, 4, 1, 2]), vec![2, 3]);
}

#[test]
fn tarjan_condensation_edges() {
    let g = graph(5, &[(0, 1), (1, 2), (2, 1), (2, 3), (3, 4), (4, 3)]);
    let p = tarjan(&g);
    let a = p.index_of(0);
    let b = p.index_of(1);
    let c = p.index_of(3);
    assert_eq!(p.out_edges(a), vec![b]);
    assert_eq!(p.out_edges(b), vec![c]);
    assert!(p.out_edges(c).is_empty());
    assert_eq!(top_sort(&p), Some(vec![0, 1, 2]));
}

#[test]
fn weak_components_parts_nonempty() {
    let g = graph(6, &[(0, 1), (2, 1), (3, 4)]);
    let p = weak_components(&g);
    assert_eq!(p.num_components(), 3);
    for i in 0..p.num_components() {
        assert!(!p.part(i).is_empty());
    }
}

#[test]
fn top_sort_tree() {
    let g = graph(4, &[(0, 2), (2, 3), (1, 3)]);
    assert_eq!(top_sort(&g), Some(vec![1, 0, 2, 3]));
}

#[test]
fn top_sort_chain() {
    let g = graph(4, &[(0, 1), (1, 3), (3, 2)]);
    assert_eq!(top_sort(&g), Some(vec![0, 1, 3, 2]));
}

#[test]
fn diff_anchors_on_unique_lines() {
    let d = diff(&[0u32, 1, 7, 2, 9], &[0, 7, 4, 9]);
    assert_eq!(d, vec![Keep(0, 0), Delete(1), Keep(2, 1), Delete(3), New(2), Keep(4, 3)]);
}
