use cplib::graph::csr2::scc::SCC;
use cplib::graph::csr2::search::{Traverse, DFS};
use cplib::graph::csr2::{CSRBuilder, Directed, Edge, Undirected, CSR};

fn directed(n: usize, edges: &[(usize, usize)]) -> CSR<u32, Directed> {
    let mut builder = CSRBuilder::<u32, Directed>::with_capacity(edges.len(), n);
    for (i, &(s, t)) in edges.iter().enumerate() {
        builder.push_edge(Edge { source: s, target: t, weight: i as u32 });
    }
    builder.build()
}

#[test]
fn out_edges_are_in_reverse_insertion_order() {
    let g = directed(3, &[(0, 1), (0, 2), (1, 2), (0, 0)]);
    assert_eq!(g.num_nodes(), 3);
    assert_eq!(g.num_edges(), 4);
    let targets: Vec<usize> = g.out_edges(0).iter().map(|e| e.target).collect();
    assert_eq!(targets, vec![0, 2, 1]);
    assert_eq!(g.nth_edge(0, 1).map(|e| (e.target, *e.weight)), Some((2, 1)));
    assert!(g.nth_edge(2, 0).is_none());
}

#[test]
fn undirected_edges_go_both_ways() {
    let mut builder = CSRBuilder::<i64, Undirected>::with_capacity(2, 3);
    builder.push_edge(Edge { source: 0, target: 1, weight: 5 });
    builder.push_edge(Edge { source: 1, target: 2, weight: 7 });
    let g = builder.build();
    assert_eq!(g.num_edges(), 4);
    let t1: Vec<(usize, i64)> = g.out_edges(1).iter().map(|e| (e.target, e.weight)).collect();
    assert_eq!(t1, vec![(2, 7), (0, 5)]);
}

#[test]
fn nth_edge_mut_writes_the_weight() {
    let mut g = directed(2, &[(0, 1), (1, 0)]);
    if let Some(e) = g.nth_edge_mut(1, 0) {
        *e.weight = 42;
    }
    assert_eq!(g.nth_edge(1, 0).map(|e| *e.weight), Some(42));
    assert!(g.nth_edge_mut(0, 1).is_none());
}

#[test]
fn find_cycle_returns_a_cycle() {
    let g = directed(5, &[(0, 1), (1, 2), (2, 3), (3, 1), (3, 4)]);
    let cycle = g.find_cycle().expect("the graph has a cycle");
    assert!(!cycle.is_empty());
    for w in cycle.windows(2) {
        assert_eq!(w[0].target, w[1].source);
    }
    assert_eq!(cycle.last().unwrap().target, cycle[0].source);
    let mut nodes: Vec<usize> = cycle.iter().map(|e| e.source).collect();
    nodes.sort();
    assert_eq!(nodes, vec![1, 2, 3]);
}

#[test]
fn find_cycle_on_a_dag_is_none() {
    let g = directed(5, &[(0, 1), (0, 2), (1, 3), (2, 3), (3, 4)]);
    assert!(g.find_cycle().is_none());
    let empty = directed(0, &[]);
    assert!(empty.find_cycle().is_none());
    let self_loop = directed(1, &[(0, 0)]);
    assert_eq!(self_loop.find_cycle().map(|c| c.len()), Some(1));
}

#[test]
fn scc_partitions_into_components_in_topological_order() {
    // 0 -> 1 -> 2 -> 0, 2 -> 3, 3 -> 4 -> 3, 5 alone
    let g = directed(6, &[(0, 1), (1, 2), (2, 0), (2, 3), (3, 4), (4, 3)]);
    let scc = SCC::new(&g);
    assert_eq!(scc.len(), 3);
    let mut comps: Vec<Vec<usize>> = scc
        .topological_iter()
        .iter()
        .map(|c| {
            let mut c = c.to_vec();
            c.sort();
            c
        })
        .collect();
    let pos = |v: usize| comps.iter().position(|c| c.contains(&v)).unwrap();
    assert!(pos(0) < pos(3));
    comps.sort();
    assert_eq!(comps, vec![vec![0, 1, 2], vec![3, 4], vec![5]]);
}

#[test]
fn dfs_visits_and_leaves() {
    let g = directed(3, &[(0, 1), (1, 2), (0, 2)]);
    let mut dfs = DFS::new(g);
    assert!(!dfs.is_visited(0));
    dfs.set_source(0);
    assert!(dfs.is_visited(0));
    let mut steps = Vec::new();
    while let Some(step) = dfs.next() {
        steps.push(match step {
            Traverse::Visit(e) => ('v', e.source, e.target),
            Traverse::Leave(e) => ('l', e.source, e.target),
            Traverse::Revisit(e) => ('r', e.source, e.target),
        });
    }
    // out-edges of 0 are (0, 2) then (0, 1)
    assert_eq!(steps[0], ('v', 0, 2));
    assert_eq!(steps[1], ('l', 0, 2));
    assert_eq!(steps[2], ('v', 0, 1));
    assert!(steps.iter().any(|s| s.0 == 'l' && s.1 == 0 && s.2 == 1));
}

use cplib::graph::csr::{DirectedCSR, Edge as IdxEdge, Index, UndirectedCSR, CSR as IdxCSR};
use cplib::graph::scc::tarjan_scc;

#[test]
fn index_types_round_trip() {
    assert_eq!(<u8 as Index>::from_usize(200).into_usize(), 200);
    assert_eq!(<u16 as Index>::from_usize(60000).into_usize(), 60000);
    assert!(<u8 as Index>::assert_bounds(254));
    assert!(!<u8 as Index>::assert_bounds(255));
    assert!(<u32 as Index>::assert_bounds(1 << 20));
}

#[test]
fn directed_csr_targets() {
    let edges = vec![
        IdxEdge { source: 0u32, target: 1u32, weight: 'a' },
        IdxEdge { source: 0, target: 2, weight: 'b' },
        IdxEdge { source: 2, target: 0, weight: 'c' },
    ];
    let g = DirectedCSR::new(edges, 3u32);
    assert_eq!(g.max_index(), 3);
    assert_eq!(g.num_edges(), 3);
    assert_eq!(g.target(0), &[(2u32, 'b'), (1u32, 'a')]);
    assert_eq!(g.target(2), &[(0u32, 'c')]);
    assert!(g.target(3).is_empty());
}

#[test]
fn undirected_csr_targets() {
    let edges = vec![
        IdxEdge { source: 0u8, target: 1u8, weight: 10u64 },
        IdxEdge { source: 1, target: 2, weight: 20 },
    ];
    let (g, _) = UndirectedCSR::new(edges, 2u8);
    assert_eq!(g.num_edges(), 4);
    assert_eq!(g.target(1), &[(2u8, 20u64), (0u8, 10u64)]);
    assert_eq!(g.target(0), &[(1u8, 10u64)]);
}

#[test]
fn tarjan_components_in_topological_order() {
    // 0 -> 1 -> 2 -> 0, 2 -> 3, 3 -> 4 -> 3, 5 alone
    let pairs = [(0u32, 1u32), (1, 2), (2, 0), (2, 3), (3, 4), (4, 3)];
    let edges: Vec<IdxEdge<u32, ()>> = pairs
        .iter()
        .map(|&(s, t)| IdxEdge { source: s, target: t, weight: () })
        .collect();
    let g = DirectedCSR::new(edges, 5u32);
    let scc = tarjan_scc(&g);
    let comps: Vec<Vec<u32>> = scc
        .iter_in_topological_order()
        .iter()
        .map(|c| {
            let mut c = c.to_vec();
            c.sort();
            c
        })
        .collect();
    assert_eq!(comps.len(), 3);
    let pos = |v: u32| comps.iter().position(|c| c.contains(&v)).unwrap();
    assert!(pos(0) < pos(3));
    let mut sorted = comps.clone();
    sorted.sort();
    assert_eq!(sorted, vec![vec![0, 1, 2], vec![3, 4], vec![5]]);
}

use cplib::graph::lca::{BuildLCAError, LCA};

fn tree(pairs: &[(u32, u32)], max_index: u32) -> UndirectedCSR<u32, ()> {
    let edges: Vec<IdxEdge<u32, ()>> = pairs
        .iter()
        .map(|&(s, t)| IdxEdge { source: s, target: t, weight: () })
        .collect();
    UndirectedCSR::new(edges, max_index).0
}

#[test]
fn lca_of_small_tree() {
    //        0
    //      /   \
    //     1     2
    //    / \     \
    //   3   4     5
    let g = tree(&[(0, 1), (0, 2), (1, 3), (1, 4), (2, 5)], 5);
    let lca = LCA::try_from((0u32, &g)).unwrap();
    assert_eq!(lca.lca(3, 4), 1);
    assert_eq!(lca.lca(4, 3), 1);
    assert_eq!(lca.lca(3, 5), 0);
    assert_eq!(lca.lca(4, 4), 4);
    assert_eq!(lca.lca(1, 3), 1);
    assert_eq!(lca.lca(5, 2), 2);
    assert_eq!(lca.lca(0, 5), 0);

    let rerooted = LCA::try_from((2u32, &g)).unwrap();
    assert_eq!(rerooted.lca(3, 4), 1);
    assert_eq!(rerooted.lca(3, 5), 2);
    assert_eq!(rerooted.lca(0, 1), 0);
}

#[test]
fn lca_on_a_long_path() {
    let n = 300u32;
    let pairs: Vec<(u32, u32)> = (0..n - 1).map(|i| (i, i + 1)).collect();
    let g = tree(&pairs, n - 1);
    let lca = LCA::try_from((0u32, &g)).unwrap();
    for i in 0..n {
        for j in (0..n).step_by(7) {
            assert_eq!(lca.lca(i, j), i.min(j));
        }
    }
    let mid = LCA::try_from((150u32, &g)).unwrap();
    assert_eq!(mid.lca(10, 20), 20);
    assert_eq!(mid.lca(10, 290), 150);
    assert_eq!(mid.lca(200, 290), 200);
}

#[test]
fn lca_distance_is_the_connecting_subtree() {
    let g = tree(&[(0, 1), (0, 2), (1, 3), (1, 4), (2, 5)], 5);
    let lca = LCA::try_from((0u32, &g)).unwrap();
    assert_eq!(lca.distance(&mut [3, 4, 5]), 5);
    assert_eq!(lca.distance(&mut [5, 3]), 4);
    assert_eq!(lca.distance(&mut [4]), 0);
    assert_eq!(lca.distance(&mut [3, 4]), 2);
}

#[test]
fn lca_rejects_bad_input() {
    let g = tree(&[(0, 1), (0, 2), (1, 3), (1, 4), (2, 5)], 5);
    assert_eq!(LCA::try_from((6u32, &g)).err(), Some(BuildLCAError::InvalidRoot));
    // a cycle: as many edges as nodes
    let cyc = tree(&[(0, 1), (1, 2), (2, 0)], 2);
    assert_eq!(LCA::try_from((0u32, &cyc)).err(), Some(BuildLCAError::NotTree));
    // one edge fewer than nodes, but not connected
    let split = tree(&[(0, 1), (1, 0), (2, 3)], 3);
    assert_eq!(LCA::try_from((0u32, &split)).err(), Some(BuildLCAError::NotTree));
    // a single node
    let single = tree(&[], 0);
    let lca = LCA::try_from((0u32, &single)).unwrap();
    assert_eq!(lca.lca(0, 0), 0);
}

use cplib::graph::bipartite::try_into_bipartite;

#[test]
fn bipartite_path_and_components() {
    let g = tree(&[(0, 1), (1, 2), (2, 3)], 3);
    let b = try_into_bipartite(&g).unwrap();
    assert_eq!(b.blacks(), &[1u32, 3]);
    assert_eq!(b.whites(), &[2u32, 0]);

    let two = tree(&[(0, 1), (2, 3)], 4);
    let b = try_into_bipartite(&two).unwrap();
    assert_eq!(b.blacks(), &[1u32, 3]);
    assert_eq!(b.whites(), &[4u32, 2, 0]);
}

#[test]
fn bipartite_cycles() {
    let square = tree(&[(0, 1), (1, 2), (2, 3), (3, 0)], 3);
    let b = try_into_bipartite(&square).unwrap();
    let mut all: Vec<u32> = b.blacks().iter().chain(b.whites().iter()).copied().collect();
    all.sort();
    assert_eq!(all, vec![0, 1, 2, 3]);
    assert_eq!(b.blacks().len(), 2);

    let triangle = tree(&[(0, 1), (1, 2), (2, 0)], 2);
    assert!(try_into_bipartite(&triangle).is_none());

    let self_loop = tree(&[(0, 1), (1, 1)], 1);
    assert!(try_into_bipartite(&self_loop).is_none());
}

use cplib::graph2::csr2::{
    CSRBuilder as Builder2, Directed as Directed2, Edge as Edge2, OutEdge as OutEdge2, Undirected as Undirected2,
    CSR as CSR2,
};
use cplib::graph2::scc2::SCC as SCC2;

fn directed2(n: usize, edges: &[(usize, usize)]) -> CSR2<u32, Directed2> {
    let mut b = Builder2::<u32, Directed2>::with_capacity(n, edges.len());
    for (k, &(s, t)) in edges.iter().enumerate() {
        assert!(b.push_edge(s, t, k as u32 * 10));
    }
    b.build()
}

#[test]
fn numbered_edges_keep_their_position() {
    let mut b = Builder2::<u32, Directed2>::with_capacity(3, 4);
    assert!(b.push_edge(0, 1, 5));
    assert!(!b.push_edge(0, 3, 6));
    assert!(b.push_edge(0, 2, 7));
    assert!(b.push_edge(2, 1, 8));
    let g = b.build();
    assert_eq!(g.num_nodes(), 3);
    assert_eq!(g.num_edges(), 3);
    assert_eq!(
        g.out_edges(0),
        &[OutEdge2 { target: 2, weight: 7, index: 1 }, OutEdge2 { target: 1, weight: 5, index: 0 }]
    );
    let e = g.nth_edge(2, 0).unwrap();
    assert_eq!((e.target, *e.weight, e.index), (1, 8, 2));
    assert!(g.nth_edge(1, 0).is_none());
    let full = OutEdge2 { target: 1, weight: 8, index: 2 }.set_source(2);
    assert_eq!(full, Edge2 { source: 2, target: 1, weight: 8, index: 2 });
    assert_eq!(full.discard_weight(), Edge2 { source: 2, target: 1, weight: (), index: 2 });
}

#[test]
fn numbered_undirected_edges_count_once() {
    let mut b = Builder2::<u32, Undirected2>::with_capacity(3, 2);
    assert!(b.push_edge(0, 1, 1));
    assert!(b.push_edge(1, 2, 2));
    assert!(!b.push_edge(3, 0, 3));
    let g = b.build();
    assert_eq!(g.num_edges(), 2);
    let from1: Vec<(usize, usize)> = g.out_edges(1).iter().map(|e| (e.target, e.index)).collect();
    assert_eq!(from1, vec![(2, 1), (0, 0)]);
}

#[test]
fn numbered_nth_edge_mut_and_cycles() {
    let mut g = directed2(4, &[(0, 1), (1, 2), (2, 0), (2, 3)]);
    *g.nth_edge_mut(1, 0).unwrap().weight = 99;
    assert_eq!(*g.nth_edge(1, 0).unwrap().weight, 99);
    assert!(g.nth_edge_mut(3, 0).is_none());
    let c = g.find_cycle().unwrap();
    assert_eq!(c.len(), 3);
    for k in 0..c.len() {
        assert_eq!(c[k].target, c[(k + 1) % c.len()].source);
    }
    let dag = directed2(3, &[(0, 1), (1, 2), (0, 2)]);
    assert!(dag.find_cycle().is_none());
}

#[test]
fn numbered_scc_components() {
    let g = directed2(6, &[(0, 1), (1, 2), (2, 0), (2, 3), (3, 4), (4, 3)]);
    let scc = SCC2::new(&g);
    assert_eq!(scc.len(), 3);
    let mut comps: Vec<Vec<usize>> = scc
        .topological_iter()
        .iter()
        .map(|c| {
            let mut c = c.to_vec();
            c.sort();
            c
        })
        .collect();
    let pos = |v: usize| comps.iter().position(|c| c.contains(&v)).unwrap();
    assert!(pos(0) < pos(3));
    comps.sort();
    assert_eq!(comps, vec![vec![0, 1, 2], vec![3, 4], vec![5]]);
}

use cplib::graph2::search::{BFSTraversal, DFSTraversal, Visitor};

#[test]
fn visitor_depth_first_steps() {
    // 0 -> 1 -> 2, 0 -> 2, 2 -> 0
    let g = directed2(3, &[(0, 1), (1, 2), (0, 2), (2, 0)]);
    let mut v = Visitor::new(&g);
    assert!(!v.visited(0));
    v.dfs_start(0);
    assert!(v.visited(0));
    let mut events = Vec::new();
    while let Some(ev) = v.dfs_next() {
        events.push(match ev {
            DFSTraversal::Descend(e) => ('D', e.source, e.target, e.index),
            DFSTraversal::Ascend(e) => ('A', e.source, e.target, e.index),
            DFSTraversal::Glance(e) => ('G', e.source, e.target, e.index),
        });
    }
    // out-edges of 0 are (0,2) then (0,1): the last inserted first
    assert_eq!(
        events,
        vec![('D', 0, 2, 2), ('G', 2, 0, 3), ('A', 0, 2, 2), ('D', 0, 1, 0), ('G', 1, 2, 1), ('A', 0, 1, 0)]
    );
    assert!((0..3).all(|i| v.visited(i)));
    v.reset();
    assert!(!v.visited(1));
    assert_eq!(v.csr().num_nodes(), 3);
}

#[test]
fn visitor_breadth_first_steps() {
    let g = directed2(4, &[(0, 1), (0, 2), (1, 3), (2, 3)]);
    let mut v = Visitor::new(&g);
    v.bfs_start(0);
    let mut events = Vec::new();
    while let Some(ev) = v.bfs_next() {
        events.push(match ev {
            BFSTraversal::Discover(e) => ('D', e.source, e.target),
            BFSTraversal::Glance(e) => ('G', e.source, e.target),
        });
    }
    assert_eq!(events, vec![('D', 0, 2), ('D', 0, 1), ('D', 2, 3), ('G', 1, 3)]);
    assert!((0..4).all(|i| v.visited(i)));
}

fn pseudo_random_edges(n: usize, m: usize, seed: u64) -> Vec<(usize, usize)> {
    let mut state = seed;
    let mut next = || {
        state = state.wrapping_mul(6364136223846793005).wrapping_add(1442695040888963407);
        (state >> 33) as usize
    };
    (0..m).map(|_| (next() % n, next() % n)).collect()
}

#[test]
fn scc_edges_go_forward() {
    for seed in 0..20u64 {
        let n = 40;
        let edges = pseudo_random_edges(n, 70, seed);
        let g = directed(n, &edges);
        let blocks: Vec<Vec<usize>> = SCC::new(&g).topological_iter().iter().map(|c| c.to_vec()).collect();
        let pos = |v: usize| blocks.iter().position(|c| c.contains(&v)).unwrap();
        for &(u, v) in &edges {
            assert!(pos(u) <= pos(v));
        }
        let g2 = directed2(n, &edges);
        let blocks2: Vec<Vec<usize>> = SCC2::new(&g2).topological_iter().iter().map(|c| c.to_vec()).collect();
        let pos2 = |v: usize| blocks2.iter().position(|c| c.contains(&v)).unwrap();
        for &(u, v) in &edges {
            assert!(pos2(u) <= pos2(v));
        }
        assert_eq!(blocks.len(), blocks2.len());
    }
}
