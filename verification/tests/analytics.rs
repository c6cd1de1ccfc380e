use std::collections::HashSet;

use rand::SeedableRng;
use rand::rngs::StdRng;

use costar_graph::brandes::betweenness_centrality;
use costar_graph::builder::Group;
use costar_graph::builder::build_graph;
use costar_graph::centrality::degree_centrality;
use costar_graph::closeness::closeness_centrality;
use costar_graph::components::connected_components_map;
use costar_graph::components::num_connected_components;
use costar_graph::graph::Graph;
use costar_graph::paths::shortest_path_length;
use costar_graph::ratio::Ratio;
use costar_graph::ratio::ratio_add;
use costar_graph::ratio::ratio_mul;
use costar_graph::sampling::random_actor_subgraph;
use costar_graph::subgraph::extract_subgraph_around_actor;
use costar_graph::table::Record;
use costar_graph::table::tabulate_records;

fn group(id: &str, members: &[&str]) -> Group {
    Group { id: id.to_string(), members: members.iter().map(|m| m.to_string()).collect() }
}

// helper data: four actors in four two-person titles forming a cycle
fn sample_movie_to_actors() -> Vec<Group> {
    vec![
        group("m1", &["a1", "a2"]),
        group("m2", &["a2", "a3"]),
        group("m3", &["a3", "a4"]),
        group("m4", &["a4", "a1"]),
    ]
}

fn id_set(g: &Graph) -> HashSet<String> {
    g.ids.iter().cloned().collect()
}

fn edge_id_pairs(g: &Graph) -> HashSet<(String, String)> {
    g.edge_list
        .iter()
        .map(|&(a, b)| {
            let x = g.ids[a].clone();
            let y = g.ids[b].clone();
            if x <= y { (x, y) } else { (y, x) }
        })
        .collect()
}

#[test]
fn test_build_graph() {
    let data = sample_movie_to_actors();
    let graph = build_graph(&data);
    assert_eq!(graph.node_count(), 4); //expect 4 actors
    assert_eq!(graph.edge_count(), 4); //expect 4 edges
}

#[test]
fn test_degree_centrality() {
    let movie_to_actors = vec![
        group("m1", &["a1", "a2"]),
        group("m2", &["a2", "a3"]),
        group("m3", &["a3", "a1"]),
    ];
    let graph = build_graph(&movie_to_actors);
    let degrees = degree_centrality(&graph);
    //all nodes should have degree 2 in this case
    for (_, d) in degrees.iter() {
        assert_eq!(*d, 2);
    }
    assert_eq!(degrees.len(), 3);
}

#[test]
fn test_closeness_centrality() {
    let data = sample_movie_to_actors();
    let graph = build_graph(&data);
    let closeness = closeness_centrality(&graph);
    // all nodes must have nonzero closeness
    for (_, c) in closeness.iter() {
        assert!(c.num > 0);
    }
}

#[test]
fn test_connected_components() {
    let data = sample_movie_to_actors();
    let graph = build_graph(&data);
    let num = num_connected_components(&graph);
    assert_eq!(num, 1); //expect only one connected component due to shape of the graph
}

#[test]
fn test_connected_components_map() {
    let data = sample_movie_to_actors();
    let graph = build_graph(&data);
    let comp_map = connected_components_map(&graph);
    assert_eq!(comp_map.len(), 1); //one component expected
    assert_eq!(comp_map[0].len(), 4); //component should include all four nodes
}

#[test]
fn test_shortest_path_length() {
    let data = sample_movie_to_actors();
    let graph = build_graph(&data);
    let len = shortest_path_length(&graph, "a1", "a3");
    assert_eq!(len, Some(2)); //path is a1->a2->a3
}

#[test]
fn test_extract_subgraph_around_actor() {
    let mut graph = Graph::new();
    let a = graph.add_node("A".to_string());
    let b = graph.add_node("B".to_string());
    let c = graph.add_node("C".to_string());
    let d = graph.add_node("D".to_string());
    let e = graph.add_node("E".to_string());

    graph.add_edge(a, b);
    graph.add_edge(b, c);
    graph.add_edge(c, d);
    graph.add_edge(d, e);

    //extract graph centered on C with depth 1
    let subgraph = extract_subgraph_around_actor(&graph, "C", 1);
    let names = id_set(&subgraph);
    let expected: HashSet<String> = ["B", "C", "D"].iter().map(|s| s.to_string()).collect(); //shouldnt be able to reach A
    assert_eq!(names, expected);
}

#[test]
fn test_random_actor_subgraph() {
    //seeded so I know what to expect
    let data = sample_movie_to_actors();
    let graph = build_graph(&data);
    let mut rng = StdRng::seed_from_u64(12345); // seed

    let subgraph = random_actor_subgraph(&graph, 3, &mut rng);

    //correct number of nodes
    assert_eq!(subgraph.node_count(), 3);

    // all nodes in subgraph should have names from original graph
    let valid_names = id_set(&graph);
    for name in subgraph.ids.iter() {
        assert!(valid_names.contains(name));
    }

    // edges must only connect valid sampled nodes
    for &(a, b) in subgraph.edge_list.iter() {
        assert_ne!(a, b);
    }
}

// the worked example: a four-cycle has 4 nodes, 4 edges, one component, and
// a1 and a3 sit two steps apart
#[test]
fn four_cycle_worked_example() {
    let graph = build_graph(&sample_movie_to_actors());
    assert_eq!(graph.node_count(), 4);
    assert_eq!(graph.edge_count(), 4);
    assert_eq!(num_connected_components(&graph), 1);
    assert_eq!(shortest_path_length(&graph, "a1", "a3"), Some(2));
}

// edge count stays at or below the sum over groups of the pair counts, and
// a pair shared by two groups is stored once
#[test]
fn edge_budget_with_shared_pair() {
    let data = vec![group("m1", &["a1", "a2"]), group("m2", &["a1", "a2"])];
    let graph = build_graph(&data);
    assert_eq!(graph.node_count(), 2);
    assert_eq!(graph.edge_count(), 1); // <= C(2,2) + C(2,2) = 2
    let wide = vec![group("m1", &["a1", "a2", "a3"])];
    let g2 = build_graph(&wide);
    assert_eq!(g2.edge_count(), 3); // exactly C(3,2) when no overlap
}

// shuffling groups and members leaves the same nodes and edges
#[test]
fn build_graph_order_invariant() {
    let g1 = build_graph(&sample_movie_to_actors());
    let shuffled = vec![
        group("m3", &["a4", "a3"]),
        group("m1", &["a2", "a1"]),
        group("m4", &["a1", "a4"]),
        group("m2", &["a3", "a2"]),
    ];
    let g2 = build_graph(&shuffled);
    assert_eq!(id_set(&g1), id_set(&g2));
    assert_eq!(edge_id_pairs(&g1), edge_id_pairs(&g2));
}

// handshake: degrees sum to twice the edge count
#[test]
fn degree_sum_is_twice_edges() {
    let graph = build_graph(&sample_movie_to_actors());
    let degrees = degree_centrality(&graph);
    let total: usize = degrees.iter().map(|(_, d)| *d).sum();
    assert_eq!(total, 2 * graph.edge_count());
    assert_eq!(total % 2, 0);
}

// an isolated node scores zero closeness; its neighbors score positive
#[test]
fn closeness_isolated_and_exact() {
    let mut graph = Graph::new();
    graph.add_node("solo".to_string());
    let a = graph.add_node("a".to_string());
    let b = graph.add_node("b".to_string());
    graph.add_edge(a, b);
    let closeness = closeness_centrality(&graph);
    // node order: solo, a, b
    assert_eq!(closeness[0].0, "solo");
    assert_eq!(closeness[0].1.num, 0);
    // a reaches one node at distance one: score (2 - 1) / 1
    assert_eq!(closeness[1].1.num, 1);
    assert_eq!(closeness[1].1.den, 1);
}

// betweenness: zero on tiny graphs, positive only on strictly middle nodes
#[test]
fn betweenness_path_and_tiny() {
    let mut tiny = Graph::new();
    let a = tiny.add_node("a".to_string());
    let b = tiny.add_node("b".to_string());
    tiny.add_edge(a, b);
    let scores = betweenness_centrality(&tiny).unwrap();
    for (_, s) in scores.iter() {
        assert_eq!(s.num, 0);
    }

    let mut path = Graph::new();
    let x = path.add_node("x".to_string());
    let y = path.add_node("y".to_string());
    let z = path.add_node("z".to_string());
    path.add_edge(x, y);
    path.add_edge(y, z);
    let scores = betweenness_centrality(&path).unwrap();
    // endpoints lie between no pair; y lies between the one pair (x, z),
    // accumulated once from each endpoint and divided by (3-1)(3-2)/2 = 1
    assert_eq!(scores[0].1.num, 0);
    assert_eq!(scores[2].1.num, 0);
    assert_eq!(scores[1].1.num, 2 * scores[1].1.den);
}

// leaves of a star lie between no pair; only the hub scores
#[test]
fn betweenness_leaf_nodes_score_zero() {
    let data = vec![
        group("m1", &["hub", "l1"]),
        group("m2", &["hub", "l2"]),
        group("m3", &["hub", "l3"]),
    ];
    let graph = build_graph(&data);
    let scores = betweenness_centrality(&graph).unwrap();
    // node order: hub, l1, l2, l3; the hub lies between all three leaf pairs
    assert!(scores[0].1.num > 0);
    assert_eq!(scores[1].1.num, 0);
    assert_eq!(scores[2].1.num, 0);
    assert_eq!(scores[3].1.num, 0);
}

// rational arithmetic is exact, and absent exactly on machine-word overflow
#[test]
fn ratio_ops_exact_and_overflow() {
    let half = Ratio { num: 1, den: 2 };
    let third = Ratio { num: 1, den: 3 };
    let sum = ratio_add(half, third).unwrap();
    assert_eq!((sum.num, sum.den), (5, 6));
    let prod = ratio_mul(half, third).unwrap();
    assert_eq!((prod.num, prod.den), (1, 6));
    let big = Ratio { num: u64::MAX, den: 1 };
    assert!(ratio_add(big, Ratio { num: 1, den: 1 }).is_none());
    assert!(ratio_mul(big, Ratio { num: 2, den: 1 }).is_none());
}

// absence is the answer both for unknown ids and for disconnected nodes,
// and the length is symmetric
#[test]
fn shortest_path_absent_and_symmetric() {
    let data = vec![group("m1", &["a1", "a2"]), group("m2", &["b1", "b2"])];
    let graph = build_graph(&data);
    assert_eq!(shortest_path_length(&graph, "a1", "nobody"), None);
    assert_eq!(shortest_path_length(&graph, "nobody", "a1"), None);
    assert_eq!(shortest_path_length(&graph, "a1", "b1"), None);
    assert_eq!(
        shortest_path_length(&graph, "a1", "a2"),
        shortest_path_length(&graph, "a2", "a1")
    );
}

// depth zero keeps only the center; growing depth never loses nodes and
// stabilizes at the whole component
#[test]
fn extract_depth_zero_and_monotone() {
    let graph = build_graph(&sample_movie_to_actors());
    let zero = extract_subgraph_around_actor(&graph, "a1", 0);
    assert_eq!(zero.node_count(), 1);
    assert_eq!(zero.edge_count(), 0);
    assert_eq!(zero.ids[0], "a1");
    let mut last = 1;
    for depth in 1..6 {
        let sub = extract_subgraph_around_actor(&graph, "a1", depth);
        assert!(sub.node_count() >= last);
        last = sub.node_count();
    }
    assert_eq!(last, 4); // the full component
    // an unknown center yields the empty graph
    let none = extract_subgraph_around_actor(&graph, "nobody", 2);
    assert_eq!(none.node_count(), 0);
}

// sampling caps at the graph size and induces only real edges
#[test]
fn sampling_caps_and_induces() {
    let graph = build_graph(&sample_movie_to_actors());
    let mut rng = StdRng::seed_from_u64(7);
    let all = random_actor_subgraph(&graph, 10, &mut rng);
    assert_eq!(all.node_count(), 4);
    let real = edge_id_pairs(&graph);
    for pair in edge_id_pairs(&all) {
        assert!(real.contains(&pair));
    }
}

// components partition the nodes: every id exactly once over all groups
#[test]
fn components_partition_nodes() {
    let data = vec![
        group("m1", &["a1", "a2"]),
        group("m2", &["b1", "b2"]),
        group("m3", &["c1"]),
    ];
    let graph = build_graph(&data);
    assert_eq!(num_connected_components(&graph), 3);
    let comp_map = connected_components_map(&graph);
    assert_eq!(comp_map.len(), 3);
    let mut seen: Vec<String> = comp_map.into_iter().flatten().collect();
    seen.sort();
    let mut expected = vec!["a1", "a2", "b1", "b2", "c1"];
    expected.sort();
    assert_eq!(seen, expected);
}

// analytics degrade gracefully on the empty graph
#[test]
fn empty_graph_is_fine() {
    let graph = build_graph(&Vec::new());
    assert_eq!(graph.node_count(), 0);
    assert_eq!(degree_centrality(&graph).len(), 0);
    assert_eq!(closeness_centrality(&graph).len(), 0);
    assert_eq!(betweenness_centrality(&graph).unwrap().len(), 0);
    assert_eq!(num_connected_components(&graph), 0);
    assert_eq!(connected_components_map(&graph).len(), 0);
}

// rows group by title, first name wins per actor
#[test]
fn tabulate_groups_rows() {
    let rec = |aid: &str, name: &str, mid: &str| Record {
        actor_id: aid.to_string(),
        actor_name: name.to_string(),
        movie_id: mid.to_string(),
    };
    let rows = vec![
        rec("a1", "Ann", "m1"),
        rec("a2", "Bob", "m1"),
        rec("a1", "Ann Again", "m2"),
    ];
    let (groups, names) = tabulate_records(&rows);
    assert_eq!(groups.len(), 2);
    assert_eq!(groups[0].id, "m1");
    assert_eq!(groups[0].members, vec!["a1".to_string(), "a2".to_string()]);
    assert_eq!(groups[1].id, "m2");
    assert_eq!(groups[1].members, vec!["a1".to_string()]);
    assert_eq!(names.len(), 2);
    assert_eq!(names[0], ("a1".to_string(), "Ann".to_string()));
    assert_eq!(names[1], ("a2".to_string(), "Bob".to_string()));
}
