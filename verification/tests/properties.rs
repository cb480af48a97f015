use gdsl::adjacent::{count_bytes, position, purge, Adjacent, WeakNode};
use gdsl::bfs::DiBFS;
use gdsl::dfs::DiDFS;
use gdsl::digraph::Digraph;
use gdsl::error::Error;
use gdsl::frontier::{Feed, Frontier, Queue, Stack};
use gdsl::heap::{Heap, Priority, Rank};
use gdsl::method::{Method, NullMethod};
use gdsl::node::Node;
use gdsl::path::Path;
use gdsl::pfs::DiPFS;
use gdsl::search::traverse;
use gdsl::walk::Direction;
use std::cell::Cell;
use std::mem::size_of;

fn lists(lists: &[&[usize]]) -> Digraph<usize, (), ()> {
    let mut g = Digraph::new();
    for key in 0..lists.len() {
        g.insert(key, ());
    }
    for (key, list) in lists.iter().enumerate() {
        for peer in list.iter() {
            g.connect(&key, peer, ());
        }
    }
    g
}

fn keys<N, E>(nodes: &[&Node<usize, N, E>]) -> Vec<usize> {
    nodes.iter().map(|n| *n.key()).collect()
}

fn out_keys<N, E: Clone>(g: &Digraph<usize, N, E>, key: usize) -> Vec<(usize, E)> {
    g.iter_out(&key).iter().map(|e| (*e.target.key(), e.value.clone())).collect()
}

fn in_keys<N, E: Clone>(g: &Digraph<usize, N, E>, key: usize) -> Vec<(usize, E)> {
    g.iter_in(&key).iter().map(|e| (*e.source.key(), e.value.clone())).collect()
}

#[test]
fn mirror_holds_after_mutations() {
    let mut g = Digraph::<usize, (), u32>::new();
    for k in 0..4 {
        g.insert(k, ());
    }
    g.connect(&0, &1, 10);
    g.connect(&0, &1, 11);
    g.connect(&2, &1, 12);
    g.connect(&1, &1, 13);
    g.connect(&3, &0, 14);
    g.disconnect(&0, &1);
    for a in 0..4usize {
        for b in 0..4usize {
            let forth: Vec<u32> =
                out_keys(&g, a).into_iter().filter(|(k, _)| *k == b).map(|(_, e)| e).collect();
            let back: Vec<u32> =
                in_keys(&g, b).into_iter().filter(|(k, _)| *k == a).map(|(_, e)| e).collect();
            assert_eq!(forth, back);
        }
    }
    assert_eq!(out_keys(&g, 0), vec![(1, 11)]);
    assert_eq!(in_keys(&g, 1), vec![(0, 11), (2, 12), (1, 13)]);
}

#[test]
fn edge_count_is_sum_of_outbound() {
    let mut g = lists(&[&[1, 2, 3], &[3], &[4], &[2, 0], &[]]);
    let sum: usize = (0..5).map(|k| g.node(&k).unwrap().adjacent.len_outbound()).sum();
    assert_eq!(g.edge_count(), 7);
    assert_eq!(g.edge_count(), sum as u128);
    g.disconnect(&3, &0);
    assert_eq!(g.edge_count(), 6);
    g.disconnect(&3, &0);
    assert_eq!(g.edge_count(), 6);
    g.connect(&9, &0, ());
    assert_eq!(g.edge_count(), 6);
    g.isolate(&2);
    assert_eq!(g.edge_count(), 3);
    assert_eq!(g.node_count(), 5);
}

#[test]
fn handles_name_one_node() {
    let g = lists(&[&[1], &[]]);
    let node = g.node(&1).unwrap();
    let n = WeakNode::downgrade(node);
    let m = n;
    assert!(m == n);
    assert_eq!(n.slot, 1);
    let up_n = n.upgrade(&g).unwrap();
    let up_m = m.upgrade(&g).unwrap();
    assert!(std::ptr::eq(up_n, up_m));
    assert!(std::ptr::eq(up_n, node));
    assert_eq!(up_m.key(), up_n.key());
    assert_eq!(g.handle(&1), Some(n));
    assert_eq!(g.handle(&7), None);
    assert!(WeakNode { slot: 2 }.upgrade(&g).is_none());
    let loose = Node::<usize, (), ()>::new(5, ());
    assert!(WeakNode::downgrade(&loose).upgrade(&g).is_none());
}

#[test]
fn insert_is_an_upsert() {
    let mut g = Digraph::<&str, i32, u8>::new();
    assert!(g.insert("a", 1));
    assert!(g.insert("b", 2));
    g.connect(&"a", &"b", 7);
    g.connect(&"b", &"a", 8);
    assert!(!g.insert("a", 3));
    assert_eq!(g.node_count(), 2);
    let a = g.node(&"a").unwrap();
    assert_eq!(*a.value(), 3);
    assert_eq!(a.adjacent.len_outbound(), 1);
    assert_eq!(a.adjacent.len_inbound(), 1);
    assert!(g.is_connected(&"a", &"b"));
    assert_eq!(g.edge_count(), 2);
}

#[test]
fn insert_node_keeps_the_node_that_is_there() {
    let mut g = Digraph::<usize, i32, ()>::new();
    assert!(g.insert_node(Node::new(1, 10)));
    assert!(g.insert_node(Node::new(2, 20)));
    g.connect(&1, &2, ());
    assert!(!g.insert_node(Node::new(1, 99)));
    assert_eq!(*g.node(&1).unwrap().value(), 10);
    assert!(g.is_connected(&1, &2));
    assert_eq!(g.node_count(), 2);
    assert_eq!(g.node(&2).unwrap().slot, 1);
}

#[test]
fn isolate_leaves_no_reference() {
    let mut g = lists(&[&[1, 2, 0], &[0, 2], &[0, 0], &[0]]);
    g.isolate(&0);
    assert!(g.node(&0).unwrap().is_orphan());
    for k in 0..4usize {
        assert!(out_keys(&g, k).iter().all(|(p, _)| *p != 0));
        assert!(in_keys(&g, k).iter().all(|(p, _)| *p != 0));
    }
    assert!(g.is_connected(&1, &2));
    assert_eq!(g.edge_count(), 1);
    g.isolate(&9);
    assert_eq!(g.edge_count(), 1);
}

#[test]
fn connect_then_disconnect_restores() {
    let mut g = Digraph::<usize, (), u32>::new();
    for k in 0..3 {
        g.insert(k, ());
    }
    g.connect(&0, &1, 5);
    g.connect(&1, &2, 6);
    let before_out: Vec<_> = (0..3).map(|k| out_keys(&g, k)).collect();
    let before_in: Vec<_> = (0..3).map(|k| in_keys(&g, k)).collect();
    let count = g.edge_count();
    g.connect(&0, &2, 9);
    assert_eq!(g.edge_count(), count + 1);
    g.disconnect(&0, &2);
    assert_eq!(g.edge_count(), count);
    let after_out: Vec<_> = (0..3).map(|k| out_keys(&g, k)).collect();
    let after_in: Vec<_> = (0..3).map(|k| in_keys(&g, k)).collect();
    assert_eq!(before_out, after_out);
    assert_eq!(before_in, after_in);
}

#[test]
fn disconnect_takes_the_first_of_parallel_edges() {
    let mut g = Digraph::<usize, (), u32>::new();
    g.insert(0, ());
    g.insert(1, ());
    g.connect(&0, &1, 5);
    g.connect(&0, &1, 6);
    assert_eq!(g.try_disconnect(&0, &1), Ok(5));
    assert_eq!(out_keys(&g, 0), vec![(1, 6)]);
    assert_eq!(in_keys(&g, 1), vec![(0, 6)]);
    assert_eq!(g.try_disconnect(&0, &1), Ok(6));
    assert_eq!(g.try_disconnect(&0, &1), Err(Error::NoSuchEdge));
    assert_eq!(g.try_disconnect(&0, &4), Err(Error::NoSuchNode));
    assert_eq!(g.try_disconnect(&4, &0), Err(Error::NoSuchNode));
}

#[test]
fn try_connect_twice_keeps_the_first_value() {
    let mut g = Digraph::<usize, (), u32>::new();
    g.insert(0, ());
    g.insert(1, ());
    assert_eq!(g.try_connect(&0, &1, 5), Ok(()));
    assert_eq!(g.try_connect(&0, &1, 6), Err(Error::EdgeExists));
    assert_eq!(out_keys(&g, 0), vec![(1, 5)]);
    assert_eq!(g.edge_count(), 1);
    assert_eq!(g.try_connect(&0, &2, 6), Err(Error::NoSuchNode));
    assert_eq!(g.try_connect(&2, &0, 6), Err(Error::NoSuchNode));
    let edge = g.edge(&0, &1).unwrap();
    assert_eq!(*edge.value, 5);
    assert_eq!(*edge.source.key(), 0);
    assert_eq!(*edge.target.key(), 1);
    assert!(g.edge(&1, &0).is_none());
    assert!(g.edge(&0, &3).is_none());
}

#[test]
fn missing_keys_are_no_ops() {
    let mut g = lists(&[&[1], &[]]);
    g.connect(&0, &5, ());
    g.connect(&5, &0, ());
    g.disconnect(&0, &5);
    g.disconnect(&1, &0);
    assert_eq!(g.edge_count(), 1);
    assert!(!g.is_connected(&0, &5));
    assert!(!g.is_connected(&5, &0));
    assert!(g.node(&5).is_none());
    assert!(g.iter_out(&5).is_empty());
    assert!(g.iter_in(&5).is_empty());
}

#[test]
fn path_nodes_are_linked_in_the_chosen_direction() {
    let g = lists(&[&[1, 2, 3], &[3], &[4], &[2, 0], &[]]);
    let forth = g.depth_first(&0).target(&4).path_nodes().unwrap();
    let ks = keys(&forth);
    assert_eq!(ks[0], 0);
    assert_eq!(*ks.last().unwrap(), 4);
    for pair in ks.windows(2) {
        assert!(g.is_connected(&pair[0], &pair[1]));
    }
    let back = g.breadth_first(&4).target(&0).transpose().path_nodes().unwrap();
    let ks = keys(&back);
    assert_eq!(ks, vec![4, 2, 0]);
    for pair in ks.windows(2) {
        assert!(g.is_connected(&pair[1], &pair[0]));
    }
    let edges = g.breadth_first(&4).target(&0).transpose().path_edges().unwrap();
    assert_eq!(edges.len(), 2);
    assert_eq!(*edges[0].source.key(), 2);
    assert_eq!(*edges[0].target.key(), 4);
    assert_eq!(*edges[1].source.key(), 0);
    assert_eq!(*edges[1].target.key(), 2);
    for edge in edges.iter() {
        assert!(g.is_connected(edge.source.key(), edge.target.key()));
    }
}

#[test]
fn transposed_search_keeps_edges_from_source_to_target() {
    let mut g = Digraph::<usize, u64, u32>::new();
    g.insert(0, 0);
    g.insert(1, 0);
    g.connect(&0, &1, 7);
    let edges = DiPFS::new(&g, &1).target(&0).transpose().path_edges().unwrap();
    assert_eq!(edges.len(), 1);
    assert!(std::ptr::eq(edges[0].source, g.node(&0).unwrap()));
    assert!(std::ptr::eq(edges[0].target, g.node(&1).unwrap()));
    assert_eq!(*edges[0].value, 7);
    let nodes = DiPFS::new(&g, &1).target(&0).transpose().path_nodes().unwrap();
    assert_eq!(keys(&nodes), vec![1, 0]);
    let found = DiPFS::new(&g, &1).target(&0).transpose().find().unwrap();
    assert_eq!(*found.key(), 0);
    let path = g.depth_first(&1).target(&0).transpose().search_path().unwrap();
    assert_eq!(*path.first().unwrap().key(), 1);
    assert_eq!(*path.last().unwrap().key(), 0);
}

#[test]
fn priority_decides_the_way() {
    let mut g = Digraph::<char, u64, ()>::new();
    g.insert('r', 0);
    g.insert('a', 5);
    g.insert('b', 1);
    g.insert('t', 9);
    g.connect(&'r', &'a', ());
    g.connect(&'r', &'b', ());
    g.connect(&'a', &'t', ());
    g.connect(&'b', &'t', ());
    let least = DiPFS::new(&g, &'r').min().target(&'t').path_edges().unwrap();
    assert_eq!(*least.last().unwrap().source.key(), 'b');
    assert_eq!(*least.last().unwrap().target.key(), 't');
    let plain = DiPFS::new(&g, &'r').target(&'t').path_edges().unwrap();
    assert_eq!(*plain.last().unwrap().source.key(), 'b');
    let greatest = DiPFS::new(&g, &'r').max().target(&'t').path_edges().unwrap();
    assert_eq!(*greatest.last().unwrap().source.key(), 'a');
    assert_eq!(*greatest.last().unwrap().target.key(), 't');
    let again = DiPFS::new(&g, &'r').max().target(&'t').path_edges().unwrap();
    assert_eq!(again.len(), greatest.len());
    for (x, y) in again.iter().zip(greatest.iter()) {
        assert!(std::ptr::eq(x.source, y.source) && std::ptr::eq(x.target, y.target));
    }
    let nodes = DiPFS::new(&g, &'r').max().target(&'t').path_nodes().unwrap();
    assert_eq!(nodes.len(), greatest.len() + 1);
    assert_eq!(*nodes[0].key(), 'r');
    for (i, edge) in greatest.iter().enumerate() {
        assert!(std::ptr::eq(nodes[i + 1], edge.target));
    }
}

#[test]
fn depth_first_takes_the_last_neighbour_first() {
    let g = lists(&[&[1, 2, 3], &[3], &[4], &[2, 0], &[]]);
    let nodes = g.depth_first(&0).target(&4).path_nodes().unwrap();
    assert_eq!(keys(&nodes), vec![0, 2, 4]);
    let g = lists(&[&[1, 2], &[3], &[], &[4], &[]]);
    let nodes = g.depth_first(&0).target(&4).path_nodes().unwrap();
    assert_eq!(keys(&nodes), vec![0, 1, 3, 4]);
}

#[test]
fn breadth_first_finds_a_shortest_route() {
    let g = lists(&[&[1, 5], &[2], &[3], &[4], &[], &[4]]);
    let nodes = g.breadth_first(&0).target(&4).path_nodes().unwrap();
    assert_eq!(keys(&nodes), vec![0, 5, 4]);
    let nodes = g.depth_first(&0).target(&4).path_nodes().unwrap();
    assert_eq!(keys(&nodes), vec![0, 5, 4]);
    let g = lists(&[&[5, 1], &[2], &[3], &[4], &[], &[4]]);
    let nodes = g.depth_first(&0).target(&4).path_nodes().unwrap();
    assert_eq!(keys(&nodes), vec![0, 1, 2, 3, 4]);
    let nodes = g.breadth_first(&0).target(&4).path_nodes().unwrap();
    assert_eq!(keys(&nodes), vec![0, 5, 4]);
}

#[test]
fn cycle_search_on_acyclic_graph_is_none() {
    let g = lists(&[&[1, 2], &[2], &[3], &[]]);
    assert!(g.depth_first(&0).search_cycle().is_none());
    assert!(g.breadth_first(&0).search_cycle().is_none());
    assert!(DiPFS::new(&lists_ranked(), &0).cycle().is_none());
    assert!(g.depth_first(&0).transpose().search_cycle().is_none());
}

fn lists_ranked() -> Digraph<usize, u64, ()> {
    let mut g = Digraph::new();
    g.insert(0, 5);
    g.insert(1, 3);
    g.insert(2, 9);
    g.connect(&0, &1, ());
    g.connect(&0, &2, ());
    g.connect(&1, &2, ());
    g
}

#[test]
fn cycle_search_with_self_edge_is_root_root() {
    let g = lists(&[&[1, 0, 2], &[0], &[]]);
    for nodes in [
        g.depth_first(&0).search_cycle().unwrap().to_vec_nodes(),
        g.breadth_first(&0).search_cycle().unwrap().to_vec_nodes(),
        g.breadth_first(&0).transpose().search_cycle().unwrap().to_vec_nodes(),
    ] {
        assert_eq!(keys(&nodes), vec![0, 0]);
    }
    let path = g.depth_first(&0).search_cycle().unwrap();
    assert_eq!(path.len(), 1);
    assert_eq!(*path.first().unwrap().key(), 0);
    assert_eq!(*path.last().unwrap().key(), 0);
}

#[test]
fn back_edge_cycle_starts_and_ends_at_root() {
    let g = lists(&[&[1, 2, 3], &[3], &[4], &[2, 0], &[]]);
    let nodes = g.depth_first(&0).search_cycle().unwrap().to_vec_nodes();
    assert_eq!(keys(&nodes), vec![0, 3, 0]);
    let nodes = g.breadth_first(&0).search_cycle().unwrap().to_vec_nodes();
    assert_eq!(keys(&nodes), vec![0, 3, 0]);
    let nodes = g.depth_first(&3).search_cycle().unwrap().to_vec_nodes();
    assert_eq!(keys(&nodes), vec![3, 0, 3]);
}

#[test]
fn transposed_search_mirrors_forward_search() {
    let g = lists(&[&[1, 2, 3], &[3], &[4], &[2], &[], &[0]]);
    for root in 0..6usize {
        for target in 0..6usize {
            let forth = g.breadth_first(&root).target(&target).search().is_some();
            let back = g.breadth_first(&target).target(&root).transpose().search().is_some();
            assert_eq!(forth, back);
            let forth = g.depth_first(&root).target(&target).search().is_some();
            let back = g.depth_first(&target).target(&root).transpose().search().is_some();
            assert_eq!(forth, back);
        }
    }
    assert!(g.breadth_first(&0).target(&4).search().is_some());
    assert!(g.breadth_first(&4).target(&0).search().is_none());
}

#[test]
fn search_without_a_way_is_none() {
    let g = lists(&[&[1], &[0], &[]]);
    assert!(g.depth_first(&0).target(&2).search().is_none());
    assert!(g.depth_first(&0).target(&0).search().is_none());
    assert!(g.breadth_first(&0).target(&0).search_path().is_none());
    assert!(g.depth_first(&0).target(&9).search().is_none());
    assert!(g.depth_first(&9).target(&0).search().is_none());
    assert!(g.depth_first(&9).search_cycle().is_none());
    assert!(g.depth_first(&0).search().is_none());
    assert!(g.breadth_first(&0).path_edges().is_none());
    assert!(g.breadth_first(&0).path_nodes().is_none());
    let found = g.depth_first(&0).target(&1).search().unwrap();
    assert_eq!(*found.key(), 1);
}

#[test]
fn filter_decides_which_edges_are_followed() {
    let mut g = Digraph::<usize, (), u32>::new();
    for k in 0..4 {
        g.insert(k, ());
    }
    g.connect(&0, &3, 100);
    g.connect(&0, &1, 1);
    g.connect(&1, &2, 1);
    g.connect(&2, &3, 1);
    let cheap = g
        .breadth_first(&0)
        .target(&3)
        .filter(|_u: &Node<usize, (), u32>, _v: &Node<usize, (), u32>, e: &u32| *e < 10)
        .path_nodes()
        .unwrap();
    assert_eq!(keys(&cheap), vec![0, 1, 2, 3]);
    let none = g
        .breadth_first(&0)
        .target(&3)
        .filter(|_u: &Node<usize, (), u32>, _v: &Node<usize, (), u32>, _e: &u32| false)
        .search();
    assert!(none.is_none());
    let calls = Cell::new(0u32);
    let all = g
        .depth_first(&0)
        .target(&3)
        .filter_map(|_u: &Node<usize, (), u32>, _v: &Node<usize, (), u32>, e: &u32| {
            calls.set(calls.get() + 1);
            *e != 100
        })
        .path_nodes()
        .unwrap();
    assert_eq!(keys(&all), vec![0, 1, 2, 3]);
    assert_eq!(calls.get(), 4);
}

#[test]
fn map_is_run_on_every_followed_edge() {
    let g = lists(&[&[1, 2], &[2, 3], &[3], &[0]]);
    let seen = std::cell::RefCell::new(Vec::new());
    let r = g
        .breadth_first(&0)
        .map(|u: &Node<usize, (), ()>, v: &Node<usize, (), ()>, _e: &()| {
            seen.borrow_mut().push((*u.key(), *v.key()));
        })
        .search();
    assert!(r.is_none());
    assert_eq!(*seen.borrow(), vec![(0, 1), (0, 2), (1, 3)]);
    seen.borrow_mut().clear();
    let r = g
        .breadth_first(&0)
        .transpose()
        .map(|u: &Node<usize, (), ()>, v: &Node<usize, (), ()>, _e: &()| {
            seen.borrow_mut().push((*u.key(), *v.key()));
        })
        .search();
    assert!(r.is_none());
    assert_eq!(*seen.borrow(), vec![(3, 0), (1, 3), (2, 3)]);
}

struct Dist(Cell<u64>);

impl Rank for Dist {
    fn priority(&self) -> u64 {
        self.0.get()
    }

    fn rank(&self) -> u64 {
        self.0.get()
    }
}

fn weighted(edges: &[(char, &[(char, u64)])]) -> Digraph<char, Dist, u64> {
    let mut g = Digraph::new();
    for (key, _) in edges.iter() {
        g.insert(*key, Dist(Cell::new(u64::MAX)));
    }
    for (key, list) in edges.iter() {
        for (peer, weight) in list.iter() {
            g.connect(key, peer, *weight);
        }
    }
    g
}

fn nine_nodes() -> Digraph<char, Dist, u64> {
    weighted(&[
        ('A', &[('B', 4), ('H', 8)]),
        ('B', &[('A', 4), ('H', 11), ('C', 8)]),
        ('C', &[('B', 8), ('I', 2), ('F', 4), ('D', 7)]),
        ('D', &[('C', 7), ('F', 14), ('E', 9)]),
        ('E', &[('D', 9), ('F', 10)]),
        ('F', &[('G', 2), ('C', 4), ('D', 14), ('E', 10)]),
        ('G', &[('H', 1), ('I', 6), ('F', 2)]),
        ('H', &[('A', 8), ('B', 11), ('I', 7), ('G', 1)]),
        ('I', &[('H', 7), ('C', 2), ('G', 6)]),
    ])
}

fn relax(u: &Node<char, Dist, u64>, v: &Node<char, Dist, u64>, e: &u64) {
    let (u_dist, v_dist) = (u.value().0.get(), v.value().0.get());
    if v_dist > u_dist + e {
        v.value().0.set(u_dist + e);
    }
}

#[test]
fn dijkstra_by_priority_first_search() {
    let g = nine_nodes();
    g.node(&'A').unwrap().value().0.set(0);
    let r = DiPFS::new(&g, &'A').min().map(relax).find();
    assert!(r.is_none());
    assert_eq!(g.node(&'E').unwrap().value().0.get(), 21);
    assert_eq!(g.node(&'B').unwrap().value().0.get(), 4);
    assert_eq!(g.node(&'G').unwrap().value().0.get(), 9);
    assert_eq!(g.node(&'F').unwrap().value().0.get(), 11);
}

#[test]
fn dijkstra_with_target_and_filter_map() {
    let g = nine_nodes();
    g.node(&'A').unwrap().value().0.set(0);
    let path = DiPFS::new(&g, &'A')
        .target(&'E')
        .filter_map(|u: &Node<char, Dist, u64>, v: &Node<char, Dist, u64>, e: &u64| {
            let (u_dist, v_dist) = (u.value().0.get(), v.value().0.get());
            if v_dist > u_dist + e {
                v.value().0.set(u_dist + e);
                true
            } else {
                false
            }
        })
        .path_nodes()
        .unwrap();
    let ks: Vec<char> = path.iter().map(|n| *n.key()).collect();
    assert_eq!(ks, vec!['A', 'H', 'G', 'F', 'E']);
    assert_eq!(g.node(&'E').unwrap().value().0.get(), 21);
}

#[test]
fn priority_first_takes_least_or_greatest_rank_first() {
    let mut g = Digraph::<usize, u64, ()>::new();
    g.insert(0, 0);
    g.insert(1, 30);
    g.insert(2, 10);
    g.insert(3, 20);
    g.insert(4, 0);
    g.connect(&0, &1, ());
    g.connect(&0, &2, ());
    g.connect(&0, &3, ());
    g.connect(&1, &4, ());
    g.connect(&2, &4, ());
    g.connect(&3, &4, ());
    let by_min = DiPFS::new(&g, &0).target(&4).path_nodes().unwrap();
    assert_eq!(keys(&by_min), vec![0, 2, 4]);
    let by_min = DiPFS::new(&g, &0).max().min().target(&4).search_path().unwrap().to_vec_nodes();
    assert_eq!(keys(&by_min), vec![0, 2, 4]);
    let by_max = DiPFS::new(&g, &0).max().target(&4).path_nodes().unwrap();
    assert_eq!(keys(&by_max), vec![0, 1, 4]);
    let edges = DiPFS::new(&g, &0).max().target(&4).path_edges().unwrap();
    assert_eq!(edges.len(), 2);
    assert_eq!(*edges[1].source.key(), 1);
    let back = DiPFS::new(&g, &4).transpose().target(&0).find().unwrap();
    assert_eq!(*back.key(), 0);
    let back = DiPFS::new(&g, &4).transpose().target(&0).path_nodes().unwrap();
    assert_eq!(keys(&back), vec![4, 2, 0]);
    g.connect(&4, &0, ());
    let round = DiPFS::new(&g, &0).cycle().unwrap().to_vec_nodes();
    assert_eq!(keys(&round), vec![0, 2, 4, 0]);
}

#[test]
fn heap_hands_out_in_order() {
    let mut heap = Heap::new(Priority::Min);
    for (slot, rank) in [(0usize, 30u64), (1, 10), (2, 20), (3, 10)] {
        heap.push(slot, &rank);
    }
    let mut out = Vec::new();
    while let Some(slot) = heap.pop() {
        out.push(slot);
    }
    assert_eq!(out, vec![1, 3, 2, 0]);
    let mut heap = Heap::new(Priority::Max);
    for (slot, rank) in [(0usize, 30u64), (1, 10), (2, 20), (3, 10)] {
        heap.push(slot, &rank);
    }
    let mut out = Vec::new();
    while let Some(slot) = heap.pop() {
        out.push(slot);
    }
    assert_eq!(out, vec![0, 2, 3, 1]);
    assert_eq!(heap.pop(), None);
    assert_eq!(7u8.rank(), 7);
    assert_eq!(7u16.rank(), 7);
    assert_eq!(7u32.rank(), 7);
    assert_eq!(u64::MAX.rank(), u64::MAX);
    assert_eq!(7usize.rank(), 7);
}

#[test]
fn stack_and_queue_orders() {
    let mut stack = Stack::new();
    let mut queue = Queue::new();
    for slot in [4usize, 7, 1] {
        Feed::<()>::push(&mut stack, slot, &());
        Feed::<()>::push(&mut queue, slot, &());
    }
    assert_eq!(stack.pop(), Some(1));
    assert_eq!(stack.pop(), Some(7));
    assert_eq!(stack.pop(), Some(4));
    assert_eq!(stack.pop(), None);
    assert_eq!(queue.pop(), Some(4));
    assert_eq!(queue.pop(), Some(7));
    assert_eq!(queue.pop(), Some(1));
    assert_eq!(queue.pop(), None);
}

#[test]
fn traverse_by_slot() {
    let g = lists(&[&[1], &[2], &[0]]);
    let path =
        traverse(&g, 0, Some(2), Direction::Forward, &NullMethod, Stack::new(), false).unwrap();
    assert_eq!(keys(&path.to_vec_nodes()), vec![0, 1, 2]);
    let path =
        traverse(&g, 0, None, Direction::Backward, &NullMethod, Queue::new(), true).unwrap();
    assert_eq!(keys(&path.to_vec_nodes()), vec![0, 2, 1, 0]);
    assert!(traverse(&g, 0, None, Direction::Forward, &NullMethod, Queue::new(), false).is_none());
    assert!(traverse(&g, 3, Some(0), Direction::Forward, &NullMethod, Queue::new(), false).is_none());
    assert!(traverse(&g, 0, Some(3), Direction::Forward, &NullMethod, Queue::new(), false).is_none());
    let mut used = Stack::new();
    Feed::<()>::push(&mut used, 9, &());
    Feed::<()>::push(&mut used, 1, &());
    let path = traverse(&g, 0, Some(1), Direction::Forward, &NullMethod, used, false).unwrap();
    assert_eq!(keys(&path.to_vec_nodes()), vec![0, 1]);
    assert!(Method::<usize, (), ()>::exec(
        &NullMethod,
        g.node(&0).unwrap(),
        g.node(&1).unwrap(),
        &()
    ));
}

#[test]
fn adjacency_lists() {
    let mut adj = Adjacent::<u32>::new();
    let (a, b) = (WeakNode { slot: 1 }, WeakNode { slot: 2 });
    adj.push_outbound((a, 10));
    adj.push_outbound((b, 20));
    adj.push_outbound((a, 30));
    adj.push_inbound((b, 40));
    assert_eq!(adj.len_outbound(), 3);
    assert_eq!(adj.len_inbound(), 1);
    assert_eq!(adj.get_outbound(1), Some((&b, &20)));
    assert_eq!(adj.get_outbound(3), None);
    assert_eq!(adj.get_inbound(0), Some((&b, &40)));
    assert_eq!(adj.get_inbound(1), None);
    assert_eq!(adj.find_outbound(&a), Some((&a, &10)));
    assert_eq!(adj.find_outbound(&WeakNode { slot: 3 }), None);
    assert_eq!(adj.find_inbound(&b), Some((&b, &40)));
    assert_eq!(adj.find_inbound(&a), None);
    assert_eq!(adj.remove_outbound(&a), Ok(10));
    assert_eq!(adj.get_outbound(0), Some((&b, &20)));
    assert_eq!(adj.remove_outbound(&a), Ok(30));
    assert_eq!(adj.remove_outbound(&a), Err(Error::NoSuchEdge));
    assert_eq!(adj.remove_inbound(&a), Err(Error::NoSuchEdge));
    assert_eq!(adj.remove_inbound(&b), Ok(40));
    assert_eq!(adj.len_inbound(), 0);
    adj.push_inbound((a, 1));
    adj.clear_outbound();
    assert_eq!(adj.len_outbound(), 0);
    assert_eq!(adj.len_inbound(), 1);
    adj.clear_inbound();
    assert_eq!(adj.len_inbound(), 0);
}

#[test]
fn byte_counts() {
    let mut adj = Adjacent::<u32>::new();
    let base = size_of::<Adjacent<u32>>();
    let entry = size_of::<WeakNode>() + size_of::<u32>();
    assert_eq!(adj.sizeof(), base);
    adj.push_outbound((WeakNode { slot: 0 }, 1));
    adj.push_inbound((WeakNode { slot: 0 }, 1));
    adj.push_inbound((WeakNode { slot: 1 }, 1));
    assert_eq!(adj.sizeof(), base + 3 * entry);
    assert_eq!(count_bytes(2, 3, 8, 4, 100), 160);
    assert_eq!(count_bytes(usize::MAX, 1, 8, 4, 0), usize::MAX);
    assert_eq!(count_bytes(usize::MAX, 1, 0, 0, 7), 7);
    assert_eq!(count_bytes(0, 0, usize::MAX, 1, 7), 7);
    assert_eq!(count_bytes(1, 0, usize::MAX, 1, 7), usize::MAX);
    assert_eq!(count_bytes(2, 0, usize::MAX / 2 + 1, 0, 0), usize::MAX);
    assert_eq!(count_bytes(1, 0, usize::MAX - 1, 0, 2), usize::MAX);
    assert_eq!(count_bytes(1, 0, usize::MAX - 1, 0, 1), usize::MAX);
    let g = lists(&[&[1, 2], &[2], &[]]);
    let node = size_of::<Node<usize, (), ()>>();
    let edge = 2 * (size_of::<WeakNode>() + size_of::<()>());
    assert_eq!(g.bytesize(), 3 * node + 3 * edge);
    let mut list = vec![
        (WeakNode { slot: 1 }, 'a'),
        (WeakNode { slot: 2 }, 'b'),
        (WeakNode { slot: 1 }, 'c'),
    ];
    assert_eq!(position(&list, &WeakNode { slot: 2 }), Some(1));
    assert_eq!(position(&list, &WeakNode { slot: 3 }), None);
    assert_eq!(purge(&mut list, &WeakNode { slot: 1 }), 2);
    assert_eq!(list, vec![(WeakNode { slot: 2 }, 'b')]);
    assert_eq!(purge(&mut list, &WeakNode { slot: 1 }), 0);
}

#[test]
fn leaves_in_insertion_order() {
    let g = lists(&[&[1, 2], &[], &[3], &[], &[0]]);
    assert_eq!(keys(&g.get_leaves()), vec![1, 3]);
    let empty = Digraph::<usize, (), ()>::default();
    assert!(empty.get_leaves().is_empty());
    assert_eq!(empty.node_count(), 0);
    assert_eq!(empty.edge_count(), 0);
}

#[test]
fn paths_project_to_nodes() {
    let g = lists(&[&[1], &[2], &[]]);
    let path = DiDFS::new(&g, &0).target(&2).search_path().unwrap();
    assert_eq!(path.len(), 2);
    assert_eq!(*path.first().unwrap().key(), 0);
    assert_eq!(*path.last().unwrap().key(), 2);
    assert_eq!(keys(&path.to_vec_nodes()), vec![0, 1, 2]);
    let path = path.backtrack();
    let edges = path.to_vec_edges();
    assert_eq!(edges.len(), 2);
    assert_eq!(*edges[0].source.key(), 0);
    assert_eq!(*edges[0].target.key(), 1);
    assert_eq!(*edges[1].source.key(), 1);
    assert_eq!(*edges[1].target.key(), 2);
    let empty: Path<usize, (), ()> = Path::new(Vec::new(), Direction::Forward);
    assert!(empty.first().is_none());
    assert!(empty.last().is_none());
    assert!(empty.to_vec_nodes().is_empty());
    let by_breadth = DiBFS::new(&g, &0).target(&2).search_path().unwrap();
    assert_eq!(by_breadth.len(), 2);
}

#[test]
fn errors_in_words() {
    assert_eq!(Error::EdgeExists.message(), "edge exists");
    assert_eq!(Error::NoSuchEdge.message(), "no such edge");
    assert_eq!(Error::NoSuchNode.message(), "no such node");
}
