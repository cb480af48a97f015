use gdsl::adjacent::WeakNode;
use gdsl::bfs::DiBFS;
use gdsl::dfs::DiDFS;
use gdsl::digraph::Digraph;
use gdsl::node::Node;
use std::collections::{HashSet, VecDeque};
use std::mem::size_of;

/// The graph with one node per entry of `lists`, named by its position, and
/// an edge from it to each key of its list, in list order.
fn graph_of(lists: &[&[usize]]) -> Digraph<usize, (), ()> {
    let mut g = Digraph::new();
    for key in 0..lists.len() {
        assert!(g.insert(key, ()));
    }
    for (key, list) in lists.iter().enumerate() {
        for peer in list.iter() {
            g.connect(&key, peer, ());
        }
    }
    g
}

fn same<K, N, E>(a: &Node<K, N, E>, b: &Node<K, N, E>) -> bool {
    std::ptr::eq(a, b)
}

#[test]
fn ut_digraph_manual_bfs() {
    let g = graph_of(&[&[1, 2, 3], &[4], &[5], &[4, 5], &[], &[]]);

    let mut visited = HashSet::new();
    let mut queue = VecDeque::new();

    queue.push_back(0usize);
    visited.insert(0usize);

    while let Some(key) = queue.pop_front() {
        for edge in g.iter_out(&key) {
            let v = edge.target;
            if !visited.contains(v.key()) {
                if same(v, g.node(&4).unwrap()) {
                    return;
                }
                visited.insert(*v.key());
                queue.push_back(*v.key());
            }
        }
    }
    panic!();
}

#[test]
fn ut_digraph_bfs() {
    let g = graph_of(&[&[1, 2, 3], &[3], &[4], &[2], &[]]);

    let path = g.breadth_first(&0).target(&4).search_path().unwrap().to_vec_nodes();

    assert!(same(path[0], g.node(&0).unwrap()));
    assert!(same(path[1], g.node(&2).unwrap()));
    assert!(same(path[2], g.node(&4).unwrap()));
}

#[test]
fn ut_digraph() {
    let mut g = Digraph::new();
    g.insert(0x1, "A");
    g.insert(0x2, "B");
    g.insert(0x4, "C");

    g.connect(&0x1, &0x2, 0.42);
    g.connect(&0x1, &0x4, 1.7);
    g.connect(&0x2, &0x4, 0.09);
    g.connect(&0x4, &0x2, 12.9);

    let edges = g.iter_out(&0x1);
    let edge = edges.iter().next().unwrap();

    assert!(same(edge.source, g.node(&0x1).unwrap()));
    assert!(same(edge.target, g.node(&0x2).unwrap()));
    assert!(*edge.value == 0.42);
}

#[test]
fn ut_digraph_new() {
    let n1 = Node::<i32, char, ()>::new(1, 'A');

    assert!(*n1.key() == 1);
    assert!(*n1.value() == 'A');
}

#[test]
fn ut_digraph_connect() {
    let mut g = Digraph::new();
    g.insert(1, ());
    g.insert(2, ());

    g.connect(&1, &2, 4.20);

    assert!(g.is_connected(&1, &2));
}

#[test]
fn ut_digraph_try_connect() {
    let mut g = Digraph::new();
    g.insert(1, ());
    g.insert(2, ());

    match g.try_connect(&1, &2, ()) {
        Ok(_) => assert!(g.is_connected(&1, &2)),
        Err(_) => panic!("n1 should be connected to n2"),
    }

    match g.try_connect(&1, &2, ()) {
        Ok(_) => panic!("n1 should be connected to n2"),
        Err(_) => assert!(g.is_connected(&1, &2)),
    }
}

#[test]
fn ut_digraph_disconnect() {
    let mut g = Digraph::new();
    g.insert(1, ());
    g.insert(2, ());

    g.connect(&1, &2, ());

    assert!(g.is_connected(&1, &2));

    if g.try_disconnect(&1, &2).is_err() {
        panic!("n1 should be connected to n2");
    }

    assert!(!g.is_connected(&1, &2));
}

#[test]
fn ut_digraph_isolate() {
    let mut g = Digraph::new();
    g.insert(1, ());
    g.insert(2, ());
    g.insert(3, ());
    g.insert(4, ());

    g.connect(&1, &2, ());
    g.connect(&1, &3, ());
    g.connect(&2, &1, ());
    g.connect(&3, &1, ());
    g.connect(&4, &3, ());
    g.connect(&3, &2, ());

    g.isolate(&1);

    assert!(g.is_connected(&3, &2));
    assert!(g.is_connected(&4, &3));
    assert!(!g.is_connected(&1, &2));
    assert!(!g.is_connected(&1, &3));
    assert!(g.node(&1).unwrap().is_orphan());
}

#[test]
fn ut_digraph_dfs_find_1() {
    let g = graph_of(&[&[1, 2, 3], &[3], &[4], &[2, 0], &[]]);

    let target = g.depth_first(&0).target(&4).search().unwrap();

    let source = g.depth_first(&4).target(&0).transpose().search().unwrap();

    assert!(same(target, g.node(&4).unwrap()));
    assert!(same(source, g.node(&0).unwrap()));
}

#[test]
fn ut_digraph_dfs_cycle_1() {
    let g = graph_of(&[&[0, 2, 3], &[3], &[4], &[2, 0], &[]]);

    let cycle = g.depth_first(&0).search_cycle().unwrap().to_vec_nodes();

    assert!(same(cycle[0], g.node(&0).unwrap()));
    assert!(same(cycle[1], g.node(&0).unwrap()));
}

#[test]
fn ut_digraph_dfs_cycle_2() {
    let g = graph_of(&[&[1, 2, 3], &[3], &[4], &[2, 0], &[]]);

    let cycle = g.depth_first(&0).search_cycle().unwrap().to_vec_nodes();

    assert!(same(cycle[0], g.node(&0).unwrap()));
    assert!(same(*cycle.last().unwrap(), g.node(&0).unwrap()));
}

#[test]
fn ut_digraph_bfs_find_1() {
    let g = graph_of(&[&[1, 2, 3], &[3], &[4], &[2, 0], &[]]);

    let target = g.breadth_first(&0).target(&4).search().unwrap();

    let source = g.breadth_first(&4).target(&0).transpose().search().unwrap();

    assert!(same(target, g.node(&4).unwrap()));
    assert!(same(source, g.node(&0).unwrap()));
}

#[test]
fn ut_digraph_bfs_cycle_1() {
    let g = graph_of(&[&[0, 2, 3], &[3], &[4], &[2, 0], &[]]);

    let cycle = g.breadth_first(&0).search_cycle().unwrap().to_vec_nodes();

    assert!(same(cycle[0], g.node(&0).unwrap()));
    assert!(same(cycle[1], g.node(&0).unwrap()));
}

#[test]
fn ut_digraph_bfs_cycle_2() {
    let g = graph_of(&[&[1, 2, 3], &[3], &[4], &[2, 0], &[]]);

    let cycle = g.breadth_first(&0).search_cycle().unwrap().to_vec_nodes();

    assert!(same(cycle[0], g.node(&0).unwrap()));
    assert!(same(*cycle.last().unwrap(), g.node(&0).unwrap()));
}

#[test]
fn ut_digraph_deref_node() {
    let mut g = Digraph::<char, i32, f64>::new();
    g.insert('A', 42);
    g.insert('B', 6);

    g.connect(&'A', &'B', 0.5);

    let n1 = g.node(&'A').unwrap();
    let n2 = g.node(&'B').unwrap();

    assert!(*n1.value() == 42);
    assert!(n2.key() == &'B');

    let edges = g.iter_out(&'A');
    let edge = edges.iter().next().unwrap();

    assert!(edge.source.key() == &'A');
    assert!(same(edge.target, n2));
    assert!(*edge.value == 0.5);
}

#[test]
fn builders_by_type_name() {
    let g = graph_of(&[&[1], &[2], &[]]);
    let by_depth = DiDFS::new(&g, &0).target(&2).path_nodes().unwrap();
    let by_breadth = DiBFS::new(&g, &0).target(&2).path_nodes().unwrap();
    let keys_d: Vec<usize> = by_depth.iter().map(|n| *n.key()).collect();
    let keys_b: Vec<usize> = by_breadth.iter().map(|n| *n.key()).collect();
    assert_eq!(keys_d, vec![0, 1, 2]);
    assert_eq!(keys_b, vec![0, 1, 2]);
}

#[test]
fn ut_digraph_sizes() {
    type N1 = Node;
    type N2 = Node<usize>;
    type N3 = Node<usize, usize>;
    type N4 = Node<usize, usize, usize>;

    let n1 = N1::new(1, ());
    let n2 = N2::new(2, ());
    let n3 = N3::new(3, 42);
    let n4 = N4::new(4, 42);

    assert!(n1.sizeof() == size_of::<N1>());
    assert!(n2.sizeof() == size_of::<N2>());
    assert!(n3.sizeof() == size_of::<N3>());
    assert!(n4.sizeof() == size_of::<N4>());
    assert!(n3.sizeof() == n1.sizeof() + size_of::<usize>());

    let mut g = Digraph::<usize, (), ()>::new();
    g.insert_node(n1);
    g.insert_node(N1::new(11, ()));
    g.insert_node(N1::new(12, ()));
    g.insert_node(N1::new(13, ()));

    g.connect(&1, &11, ());
    g.connect(&1, &12, ());
    g.connect(&1, &13, ());

    let entry = size_of::<WeakNode>() + size_of::<()>();
    assert!(g.node(&1).unwrap().sizeof() == size_of::<N1>() + 3 * entry);
    assert!(g.node(&11).unwrap().sizeof() == size_of::<N1>() + entry);
}
