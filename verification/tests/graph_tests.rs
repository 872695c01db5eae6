use graphs::graph::{Graph, Node};
use graphs::name::same_name;
use graphs::sample::{init, init_graph};
use std::cell::RefCell;
use typed_arena::Arena;

fn sample(arena: &Arena<Graph>) -> &mut Graph {
    let g = Graph::new(arena);
    g.add_edge("A", "B");
    g.add_edge("A", "C");
    g.add_edge("A", "D");
    g.add_edge("C", "E");
    g.add_edge("C", "F");
    g.add_edge("C", "A");
    g
}

fn called_dfs(g: &Graph) -> Vec<&'static str> {
    let calls: RefCell<Vec<&'static str>> = RefCell::new(Vec::new());
    g.dfs_traverse(&|name| calls.borrow_mut().push(name));
    calls.into_inner()
}

fn called_bfs(g: &Graph) -> Vec<&'static str> {
    let calls: RefCell<Vec<&'static str>> = RefCell::new(Vec::new());
    g.bfs_traverse(&|name| calls.borrow_mut().push(name));
    calls.into_inner()
}

#[test]
fn empty_graph_has_nothing() {
    let arena = Arena::new();
    let g = Graph::new(&arena);
    assert_eq!(g.num_vertices(), 0);
    assert_eq!(g.num_edges(), 0);
    assert_eq!(g.dfs_order(), Vec::<&'static str>::new());
    assert_eq!(g.bfs_order(), Vec::<&'static str>::new());
    assert_eq!(called_dfs(g), Vec::<&'static str>::new());
    assert_eq!(called_bfs(g), Vec::<&'static str>::new());
    assert_eq!(g.find("A"), None);
}

#[test]
fn sample_counts() {
    let arena = Arena::new();
    let g = sample(&arena);
    assert_eq!(g.num_vertices(), 6);
    assert_eq!(g.num_edges(), 6);
}

#[test]
fn sample_depth_first_order() {
    let arena = Arena::new();
    let g = sample(&arena);
    assert_eq!(g.dfs_order(), vec!["A", "B", "C", "E", "F", "D"]);
    assert_eq!(called_dfs(g), vec!["A", "B", "C", "E", "F", "D"]);
    assert_eq!(g.dfs_indices(), vec![0, 1, 2, 4, 5, 3]);
}

#[test]
fn sample_breadth_first_order() {
    let arena = Arena::new();
    let g = sample(&arena);
    assert_eq!(g.bfs_order(), vec!["A", "B", "C", "D", "E", "F"]);
    assert_eq!(called_bfs(g), vec!["A", "B", "C", "D", "E", "F"]);
    assert_eq!(g.bfs_indices(), vec![0, 1, 2, 3, 4, 5]);
}

#[test]
fn extra_edge_to_visited_vertex() {
    let arena = Arena::new();
    let g = sample(&arena);
    g.add_edge("D", "E");
    assert_eq!(g.num_edges(), 7);
    assert_eq!(g.num_vertices(), 6);
    assert_eq!(g.dfs_order(), vec!["A", "B", "C", "E", "F", "D"]);
    assert_eq!(g.bfs_order(), vec!["A", "B", "C", "D", "E", "F"]);
}

#[test]
fn registration_order_is_start_then_end() {
    let arena = Arena::new();
    let g = Graph::new(&arena);
    g.add_edge("X", "Y");
    assert_eq!(g.find("X"), Some(0));
    assert_eq!(g.find("Y"), Some(1));
    g.add_edge("Z", "X");
    assert_eq!(g.find("Z"), Some(2));
    assert_eq!(g.find("X"), Some(0));
    assert_eq!(g.find("W"), None);
    assert_eq!(g.num_vertices(), 3);
}

#[test]
fn vertex_count_grows_by_new_endpoints_only() {
    let arena = Arena::new();
    let g = Graph::new(&arena);
    g.add_edge("A", "B");
    assert_eq!(g.num_vertices(), 2);
    g.add_edge("B", "C");
    assert_eq!(g.num_vertices(), 3);
    g.add_edge("C", "A");
    assert_eq!(g.num_vertices(), 3);
    g.add_edge("D", "D");
    assert_eq!(g.num_vertices(), 4);
    assert_eq!(g.num_edges(), 4);
}

#[test]
fn duplicate_edges_are_counted_and_stored() {
    let arena = Arena::new();
    let g = Graph::new(&arena);
    g.add_edge("A", "B");
    g.add_edge("A", "B");
    g.add_edge("A", "B");
    assert_eq!(g.num_edges(), 3);
    assert_eq!(g.num_vertices(), 2);
    assert_eq!(g.dfs_order(), vec!["A", "B"]);
    assert_eq!(g.bfs_order(), vec!["A", "B"]);
}

#[test]
fn self_loop_terminates() {
    let arena = Arena::new();
    let g = Graph::new(&arena);
    g.add_edge("A", "A");
    assert_eq!(g.num_vertices(), 1);
    assert_eq!(g.num_edges(), 1);
    assert_eq!(g.dfs_order(), vec!["A"]);
    assert_eq!(g.bfs_order(), vec!["A"]);
    assert_eq!(called_dfs(g), vec!["A"]);
    assert_eq!(called_bfs(g), vec!["A"]);
}

#[test]
fn cycle_is_visited_once() {
    let arena = Arena::new();
    let g = Graph::new(&arena);
    g.add_edge("A", "B");
    g.add_edge("B", "C");
    g.add_edge("C", "A");
    assert_eq!(g.dfs_order(), vec!["A", "B", "C"]);
    assert_eq!(g.bfs_order(), vec!["A", "B", "C"]);
}

#[test]
fn disconnected_graph_is_covered() {
    let arena = Arena::new();
    let g = Graph::new(&arena);
    g.add_edge("A", "B");
    g.add_edge("C", "D");
    g.add_edge("E", "C");
    assert_eq!(g.dfs_order(), vec!["A", "B", "C", "D", "E"]);
    assert_eq!(g.bfs_order(), vec!["A", "B", "C", "D", "E"]);
    assert_eq!(called_dfs(g), vec!["A", "B", "C", "D", "E"]);
}

#[test]
fn later_root_reaches_back() {
    let arena = Arena::new();
    let g = Graph::new(&arena);
    g.add_edge("B", "C");
    g.add_edge("A", "B");
    assert_eq!(g.dfs_order(), vec!["B", "C", "A"]);
    assert_eq!(g.bfs_order(), vec!["B", "C", "A"]);
}

#[test]
fn depth_first_differs_from_breadth_first() {
    let arena = Arena::new();
    let g = Graph::new(&arena);
    g.add_edge("A", "B");
    g.add_edge("A", "C");
    g.add_edge("B", "D");
    g.add_edge("C", "E");
    g.add_edge("D", "F");
    assert_eq!(g.dfs_order(), vec!["A", "B", "D", "F", "C", "E"]);
    assert_eq!(g.bfs_order(), vec!["A", "B", "C", "D", "E", "F"]);
}

#[test]
fn breadth_first_goes_level_by_level() {
    let arena = Arena::new();
    let g = Graph::new(&arena);
    g.add_edge("A", "B");
    g.add_edge("B", "C");
    g.add_edge("A", "D");
    g.add_edge("D", "C");
    g.add_edge("C", "E");
    g.add_edge("A", "E");
    assert_eq!(g.bfs_order(), vec!["A", "B", "D", "E", "C"]);
    assert_eq!(g.dfs_order(), vec!["A", "B", "C", "E", "D"]);
}

#[test]
fn vertex_queued_twice_is_visited_once() {
    let arena = Arena::new();
    let g = Graph::new(&arena);
    g.add_edge("A", "B");
    g.add_edge("A", "C");
    g.add_edge("B", "D");
    g.add_edge("C", "D");
    assert_eq!(g.bfs_order(), vec!["A", "B", "C", "D"]);
    assert_eq!(g.dfs_order(), vec!["A", "B", "D", "C"]);
}

#[test]
fn traversal_is_repeatable() {
    let arena = Arena::new();
    let g = sample(&arena);
    assert_eq!(g.dfs_order(), g.dfs_order());
    assert_eq!(g.bfs_order(), g.bfs_order());
    assert_eq!(called_dfs(g), called_dfs(g));
}

#[test]
fn every_vertex_is_visited_exactly_once() {
    let arena = Arena::new();
    let g = sample(&arena);
    g.add_edge("G", "H");
    g.add_edge("H", "G");
    g.add_edge("F", "F");
    for order in [g.dfs_order(), g.bfs_order()] {
        assert_eq!(order.len(), g.num_vertices());
        let mut sorted = order.clone();
        sorted.sort();
        sorted.dedup();
        assert_eq!(sorted, vec!["A", "B", "C", "D", "E", "F", "G", "H"]);
    }
}

#[test]
fn visit_from_a_single_start() {
    let arena = Arena::new();
    let g = sample(&arena);
    let c = g.find("C").unwrap();
    let mut seen = vec![false; g.num_vertices()];
    let mut order: Vec<usize> = Vec::new();
    g.dfs_visit(c, &mut seen, &mut order);
    assert_eq!(order, vec![2, 4, 5, 0, 1, 3]);
    assert_eq!(seen, vec![true; 6]);

    let e = g.find("E").unwrap();
    let mut seen = vec![false; g.num_vertices()];
    let mut order: Vec<usize> = Vec::new();
    g.bfs_visit(e, &mut seen, &mut order);
    assert_eq!(order, vec![4]);
    assert_eq!(seen, vec![false, false, false, false, true, false]);

    let mut seen = vec![false; g.num_vertices()];
    let mut order: Vec<usize> = Vec::new();
    g.bfs_visit(c, &mut seen, &mut order);
    assert_eq!(order, vec![2, 4, 5, 0, 1, 3]);
}

#[test]
fn visit_continues_an_earlier_order() {
    let arena = Arena::new();
    let g = sample(&arena);
    let mut seen = vec![false; g.num_vertices()];
    let mut order: Vec<usize> = Vec::new();
    g.dfs_visit(4, &mut seen, &mut order);
    g.dfs_visit(0, &mut seen, &mut order);
    assert_eq!(order, vec![4, 0, 1, 2, 5, 3]);
    g.dfs_visit(3, &mut seen, &mut order);
    assert_eq!(order, vec![4, 0, 1, 2, 5, 3]);
}

#[test]
fn long_chain_is_walked_without_deep_calls() {
    let names: Vec<&'static str> = (0..2001)
        .map(|i| -> &'static str { Box::leak(format!("v{}", i).into_boxed_str()) })
        .collect();
    let arena = Arena::new();
    let g = Graph::new(&arena);
    for i in 0..2000 {
        g.add_edge(names[i], names[i + 1]);
    }
    assert_eq!(g.num_vertices(), 2001);
    assert_eq!(g.num_edges(), 2000);
    let order = g.dfs_order();
    assert_eq!(order.len(), 2001);
    assert_eq!(order[0], "v0");
    assert_eq!(order[2000], "v2000");
    assert_eq!(g.bfs_order(), order);
}

#[test]
fn node_keeps_name_and_edges() {
    let mut n = Node::new("A");
    assert_eq!(n.name(), "A");
    assert_eq!(n.num_edges(), 0);
    n.add_edge(3);
    n.add_edge(3);
    assert_eq!(n.num_edges(), 2);
    assert_eq!(n.name(), "A");
}

#[test]
fn names_compare_by_characters() {
    assert!(same_name("A", "A"));
    assert!(!same_name("A", "B"));
    assert!(!same_name("A", "AA"));
    assert!(!same_name("AB", "AC"));
    assert!(same_name("", ""));
    assert!(same_name("\u{e9}t\u{e9}", "\u{e9}t\u{e9}"));
    assert!(!same_name("\u{e9}", "e"));
}

#[test]
fn equal_names_from_different_storage_are_one_vertex() {
    let a: &'static str = Box::leak(String::from("node").into_boxed_str());
    let b: &'static str = Box::leak(String::from("node").into_boxed_str());
    let arena = Arena::new();
    let g = Graph::new(&arena);
    g.add_edge(a, b);
    assert_eq!(g.num_vertices(), 1);
    assert_eq!(g.num_edges(), 1);
}

#[test]
fn graphs_of_one_arena_are_independent() {
    let arena = Arena::new();
    let first = Graph::new(&arena);
    let second = Graph::new(&arena);
    first.add_edge("A", "B");
    second.add_edge("C", "C");
    assert_eq!(first.num_vertices(), 2);
    assert_eq!(second.num_vertices(), 1);
    assert_eq!(first.dfs_order(), vec!["A", "B"]);
    assert_eq!(second.dfs_order(), vec!["C"]);
    assert_eq!(arena.len(), 2);
}

const LABELS: [&str; 10] = ["n0", "n1", "n2", "n3", "n4", "n5", "n6", "n7", "n8", "n9"];

fn scrambled_edges(seed: u64, count: usize) -> Vec<(usize, usize)> {
    let mut state = seed;
    let mut edges = Vec::new();
    for _ in 0..count {
        state = state.wrapping_mul(6364136223846793005).wrapping_add(1442695040888963407);
        let a = ((state >> 33) % 10) as usize;
        state = state.wrapping_mul(6364136223846793005).wrapping_add(1442695040888963407);
        let b = ((state >> 33) % 10) as usize;
        edges.push((a, b));
    }
    edges
}

fn walk(v: &'static str, edges: &[(usize, usize)], seen: &mut Vec<&'static str>) {
    if seen.contains(&v) {
        return;
    }
    seen.push(v);
    for &(a, b) in edges {
        if LABELS[a] == v {
            walk(LABELS[b], edges, seen);
        }
    }
}

#[test]
fn depth_first_matches_recursive_walk() {
    for seed in 1..40u64 {
        let edges = scrambled_edges(seed, 14);
        let arena = Arena::new();
        let g = Graph::new(&arena);
        let mut registered: Vec<&'static str> = Vec::new();
        for &(a, b) in &edges {
            g.add_edge(LABELS[a], LABELS[b]);
            for name in [LABELS[a], LABELS[b]] {
                if !registered.contains(&name) {
                    registered.push(name);
                }
            }
        }
        assert_eq!(g.num_edges(), edges.len());
        assert_eq!(g.num_vertices(), registered.len());
        let mut expected: Vec<&'static str> = Vec::new();
        for &root in &registered {
            walk(root, &edges, &mut expected);
        }
        assert_eq!(g.dfs_order(), expected);
        assert_eq!(called_dfs(g), expected);
    }
}

#[test]
fn breadth_first_never_steps_back_a_level() {
    for seed in 1..40u64 {
        let edges = scrambled_edges(seed, 14);
        let arena = Arena::new();
        let g = Graph::new(&arena);
        for &(a, b) in &edges {
            g.add_edge(LABELS[a], LABELS[b]);
        }
        let n = g.num_vertices();
        let index_edges: Vec<(usize, usize)> = edges
            .iter()
            .map(|&(a, b)| (g.find(LABELS[a]).unwrap(), g.find(LABELS[b]).unwrap()))
            .collect();
        for start in 0..n {
            let mut distance: Vec<Option<usize>> = vec![None; n];
            distance[start] = Some(0);
            for round in 0..n {
                for &(a, b) in &index_edges {
                    if distance[a] == Some(round) && distance[b].is_none() {
                        distance[b] = Some(round + 1);
                    }
                }
            }
            let mut seen = vec![false; n];
            let mut order: Vec<usize> = Vec::new();
            g.bfs_visit(start, &mut seen, &mut order);
            assert_eq!(order[0], start);
            let reached = distance.iter().filter(|d| d.is_some()).count();
            assert_eq!(order.len(), reached);
            for pair in order.windows(2) {
                assert!(distance[pair[0]].unwrap() <= distance[pair[1]].unwrap());
            }
            let mut seen = vec![false; n];
            let mut deep: Vec<usize> = Vec::new();
            g.dfs_visit(start, &mut seen, &mut deep);
            let mut a = order.clone();
            let mut b = deep.clone();
            a.sort();
            b.sort();
            assert_eq!(a, b);
        }
    }
}

#[test]
fn sample_graph_is_built_as_described() {
    let arena = Arena::new();
    let g = init_graph(&arena);
    assert_eq!(g.num_vertices(), 6);
    assert_eq!(g.num_edges(), 7);
    assert_eq!(g.dfs_order(), vec!["A", "B", "C", "E", "F", "D"]);
    assert_eq!(g.bfs_order(), vec!["A", "B", "C", "D", "E", "F"]);
    assert_eq!(called_dfs(g), vec!["A", "B", "C", "E", "F", "D"]);
    assert_eq!(called_bfs(g), vec!["A", "B", "C", "D", "E", "F"]);
}

#[test]
fn vertices_can_be_looked_at() {
    let arena = Arena::new();
    let g = init_graph(&arena);
    let a = g.node(0);
    assert_eq!(a.name(), "A");
    assert_eq!(a.num_edges(), 3);
    assert_eq!(a.first(), 1);
    let c = g.node(g.find("C").unwrap());
    assert_eq!(c.name(), "C");
    assert_eq!(c.num_edges(), 3);
    assert_eq!(c.first(), 4);
    assert_eq!(g.node(c.first()).name(), "E");
    assert_eq!(g.node(1).num_edges(), 0);
}

#[test]
fn smaller_sample_graph_has_six_edges() {
    let arena = Arena::new();
    let g = init(&arena);
    assert_eq!(g.num_vertices(), 6);
    assert_eq!(g.num_edges(), 6);
    assert_eq!(g.dfs_order(), vec!["A", "B", "C", "E", "F", "D"]);
    assert_eq!(g.bfs_order(), vec!["A", "B", "C", "D", "E", "F"]);
    assert_eq!(g.node(3).num_edges(), 0);
    g.add_edge("D", "E");
    assert_eq!(g.num_vertices(), 6);
    assert_eq!(g.num_edges(), 7);
    assert_eq!(g.node(3).first(), 4);
    assert_eq!(g.dfs_order(), vec!["A", "B", "C", "E", "F", "D"]);
}
