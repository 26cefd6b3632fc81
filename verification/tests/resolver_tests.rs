use ojo::chain_graggle::ChainGraggle;
use ojo::change::{Change, Changes};
use ojo::graggle::GraggleData;
use ojo::ids::{NodeId, PatchId};
use ojo::resolver::{ChainIter, CycleResolver};

fn make_graggle(live: &[u64], edges: &[(u64, u64)]) -> GraggleData {
    let mut d = GraggleData::new();
    for &i in live {
        d.add_node(NodeId::cur(i));
    }
    for &(s, t) in edges {
        d.add_edge(NodeId::cur(s), NodeId::cur(t), PatchId::cur());
    }
    d
}

fn collect(mut it: ChainIter) -> Vec<NodeId> {
    let mut r = Vec::new();
    while let Some(n) = it.next() {
        r.push(n);
    }
    r
}

#[test]
fn resolver_chain_iter() {
    let graggle = make_graggle(&[0, 1, 2, 3, 4, 5], &[(0, 1), (1, 2), (2, 3), (3, 4), (4, 5), (0, 5), (2, 5)]);
    let check = |init: u64, expected: Vec<u64>| {
        let actual = collect(ChainIter::new(graggle.as_graggle(), NodeId::cur(init)));
        let expected = expected.into_iter().map(NodeId::cur).collect::<Vec<_>>();
        assert_eq!(actual, expected);
    };
    check(0, vec![0]);
    check(1, vec![1, 2]);
    check(2, vec![2]);
    check(3, vec![3, 4]);
    check(4, vec![4]);
    check(5, vec![5]);
}

#[test]
fn resolver_resolver_diamond() {
    let graggle = make_graggle(&[0, 1, 2, 3], &[(0, 1), (0, 2), (1, 3), (2, 3)]);
    let mut res = CycleResolver::new(graggle.as_graggle()).into_order_resolver();

    assert_eq!(res.candidates().len(), 1);
    assert_eq!(collect(res.candidates()[0].iter()), vec![NodeId::cur(0)]);

    res.choose_node(&NodeId::cur(0));
    assert_eq!(res.candidates().len(), 2);
    let mut both = res.candidates().iter().flat_map(|x| collect(x.iter())).collect::<Vec<_>>();
    both.sort();
    assert_eq!(both, vec![NodeId::cur(1), NodeId::cur(2)]);

    res.choose_node(&NodeId::cur(1));
    assert_eq!(res.candidates().len(), 1);
    assert_eq!(collect(res.candidates()[0].iter()), vec![NodeId::cur(2)]);

    res.choose_node(&NodeId::cur(2));
    assert_eq!(res.candidates().len(), 1);
    assert_eq!(collect(res.candidates()[0].iter()), vec![NodeId::cur(3)]);

    res.choose_node(&NodeId::cur(3));
    assert_eq!(res.candidates().len(), 0);
    assert!(res.is_finished());

    assert_eq!(
        res.changes(),
        Changes { changes: vec![Change::NewEdge { src: NodeId::cur(1), dest: NodeId::cur(2) }] }
    );
}

// Deleting a candidate removes it from the order and deletes it in the changes.
#[test]
fn resolver_delete_candidate() {
    let graggle = make_graggle(&[0, 1, 2], &[(0, 1), (0, 2)]);
    let mut res = CycleResolver::new(graggle.as_graggle()).into_order_resolver();
    res.choose_node(&NodeId::cur(0));
    res.delete(&NodeId::cur(1));
    assert_eq!(res.candidates().len(), 1);
    assert_eq!(res.candidates()[0].first(), NodeId::cur(2));
    res.choose_node(&NodeId::cur(2));
    assert!(res.is_finished());
    assert_eq!(res.ordered_nodes(), &vec![NodeId::cur(0), NodeId::cur(2)]);
    assert_eq!(res.changes(), Changes { changes: vec![Change::DeleteNode { id: NodeId::cur(1) }] });
}

// A cycle must be resolved (all but one of its nodes deleted) before the graggle can be ordered.
#[test]
fn resolver_cycle() {
    let graggle = make_graggle(&[0, 1, 2], &[(0, 1), (1, 2), (2, 1)]);
    let mut cycles = CycleResolver::new(graggle.as_graggle());
    let comp = cycles.next_component().unwrap();
    let mut comp_sorted = comp.clone();
    comp_sorted.sort();
    assert_eq!(comp_sorted, vec![NodeId::cur(1), NodeId::cur(2)]);
    cycles.resolve_component(NodeId::cur(1));
    assert!(cycles.next_component().is_none());
    let mut res = cycles.into_order_resolver();
    res.choose_node(&NodeId::cur(0));
    res.choose_node(&NodeId::cur(1));
    assert!(res.is_finished());
    assert_eq!(res.changes(), Changes { changes: vec![Change::DeleteNode { id: NodeId::cur(2) }] });
}

#[test]
fn chain_graggle_diamond() {
    let graggle = make_graggle(&[0, 1, 2, 3], &[(0, 1), (0, 2), (1, 3), (2, 3)]);
    let decomp = ChainGraggle::from_graph(&graggle.as_graggle().as_live_graph());
    assert_eq!(decomp.num_chains(), 4);
    for i in 0..decomp.num_chains() {
        assert_eq!(decomp.chain(i).len(), 1);
    }
}

// A path is one chain; a cycle is a cluster of one-node chains.
#[test]
fn chain_graggle_path_and_cycle() {
    let graggle = make_graggle(&[0, 1, 2, 3, 4, 5], &[(0, 1), (1, 2), (2, 3), (3, 4), (4, 5), (5, 3)]);
    let decomp = ChainGraggle::from_graph(&graggle.as_graggle().as_live_graph());
    // 3, 4 and 5 form a cycle: each is a chain of its own, and they make up one cluster.
    assert_eq!(decomp.num_chains(), 4);
    assert_eq!(decomp.clusters().len(), 1);
    assert_eq!(decomp.clusters()[0].len(), 3);
    let mut path = None;
    for i in 0..decomp.num_chains() {
        if decomp.chain(i).len() > 1 {
            path = Some(i);
        }
    }
    let path = path.unwrap();
    assert_eq!(decomp.chain(path), &[NodeId::cur(0), NodeId::cur(1), NodeId::cur(2)][..]);
    // The path has an edge to the chain of node 3.
    let outs = decomp.out_edges(&path);
    assert_eq!(outs.len(), 1);
    assert_eq!(decomp.chain(outs[0]), &[NodeId::cur(3)][..]);
}

// Every node lies in exactly one chain.
#[test]
fn chain_graggle_partition() {
    let graggle = make_graggle(
        &[0, 1, 2, 3, 4, 5, 6, 7],
        &[(0, 1), (1, 2), (2, 3), (1, 4), (4, 5), (5, 6), (6, 4), (3, 7), (0, 7)],
    );
    let decomp = ChainGraggle::from_graph(&graggle.as_graggle().as_live_graph());
    let mut all = Vec::new();
    for i in 0..decomp.num_chains() {
        all.extend_from_slice(decomp.chain(i));
    }
    all.sort();
    let expected = (0..8).map(NodeId::cur).collect::<Vec<_>>();
    assert_eq!(all, expected);
}

#[test]
fn resolver_new_candidates_take_the_chosen_place() {
    let graggle = make_graggle(&[0, 1, 2, 3, 4], &[(1, 3), (1, 4)]);
    let mut res = CycleResolver::new(graggle.as_graggle()).into_order_resolver();
    let before = res.candidates().iter().map(|c| c.first()).collect::<Vec<_>>();
    assert_eq!(before.len(), 3);
    let i = before.iter().position(|n| *n == NodeId::cur(1)).unwrap();
    res.choose_node(&NodeId::cur(1));
    let after = res.candidates().iter().map(|c| c.first()).collect::<Vec<_>>();
    assert_eq!(after.len(), 4);
    assert_eq!(&after[..i], &before[..i]);
    assert_eq!(&after[i + 2..], &before[i + 1..]);
    let mut fresh = after[i..i + 2].to_vec();
    fresh.sort();
    assert_eq!(fresh, vec![NodeId::cur(3), NodeId::cur(4)]);
}
