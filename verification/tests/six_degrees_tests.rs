use six_degrees::compare::{compare_average_shortpaths, AvgOrder};
use six_degrees::graph::Graph;
use six_degrees::sampler::{sample_reviews, sample_reviews_seeded, Review};

fn path_edges() -> Vec<(String, String)> {
    vec![
        ("A".to_string(), "B".to_string()),
        ("B".to_string(), "C".to_string()),
        ("C".to_string(), "D".to_string()),
    ]
}

#[test]
fn test_bfs_shortpath() {
    let edges = path_edges();
    let graph = Graph::create_undirected(&edges);
    let distances = graph.bfs_shortpath(&"A".to_string());
    assert_eq!(distances.get(&"B".to_string()), Some(1));
    assert_eq!(distances.get(&"C".to_string()), Some(2));
    assert_eq!(distances.get(&"D".to_string()), Some(3));
}

#[test]
fn test_average_shortpath() {
    let edges = path_edges();
    let graph = Graph::create_undirected(&edges);
    let stats = graph.average_shortpath().unwrap();
    let avg_shortpath = stats.total as f64 / stats.pairs as f64;
    assert_eq!(avg_shortpath, 20.0 / 12.0);
}

#[test]
fn test_sample_reviews() {
    let reviews = vec![
        Review {
            reviewer_id: "A1".to_string(),
            asin: "B1".to_string(),
        },
        Review {
            reviewer_id: "A2".to_string(),
            asin: "B2".to_string(),
        },
        Review {
            reviewer_id: "A3".to_string(),
            asin: "B3".to_string(),
        },
    ];
    let samples = sample_reviews_seeded(&reviews, 2, 2);
    assert_eq!(samples.len(), 2);
}

#[test]
fn test_compare_average_shortpaths() {
    let edges1 = vec![
        ("A".to_string(), "B".to_string()),
        ("B".to_string(), "C".to_string()),
    ];
    let edges2 = vec![
        ("A".to_string(), "B".to_string()),
        ("B".to_string(), "D".to_string()),
        ("D".to_string(), "E".to_string()),
    ];
    let graph1 = Graph::create_undirected(&edges1);
    let graph2 = Graph::create_undirected(&edges2);
    let stats1 = graph1.average_shortpath().unwrap();
    let stats2 = graph2.average_shortpath().unwrap();
    let avg_length1 = stats1.total as f64 / stats1.pairs as f64;
    let avg_length2 = stats2.total as f64 / stats2.pairs as f64;
    assert!(avg_length1 < avg_length2);
}

#[test]
fn test_bfs_start_distance_zero() {
    let edges = path_edges();
    let graph = Graph::create_undirected(&edges);
    let distances = graph.bfs_shortpath(&"A".to_string());
    assert_eq!(distances.get(&"A".to_string()), Some(0));
    assert_eq!(distances.len(), 4);
}

#[test]
fn test_average_shortpath_totals() {
    // both directions of each unordered pair are counted: 20 / 12, not 10 / 6
    let edges = path_edges();
    let graph = Graph::create_undirected(&edges);
    let stats = graph.average_shortpath().unwrap();
    assert_eq!(stats.total, 20);
    assert_eq!(stats.pairs, 12);
}

#[test]
fn test_symmetry_both_directions() {
    let edges = vec![("U".to_string(), "V".to_string())];
    let graph = Graph::create_undirected(&edges);
    assert!(graph.contains_node(&"U".to_string()));
    assert!(graph.contains_node(&"V".to_string()));
    let from_u = graph.bfs_shortpath(&"U".to_string());
    let from_v = graph.bfs_shortpath(&"V".to_string());
    assert_eq!(from_u.get(&"V".to_string()), Some(1));
    assert_eq!(from_v.get(&"U".to_string()), Some(1));
}

#[test]
fn test_duplicate_edge_idempotent() {
    let once = vec![("A".to_string(), "B".to_string())];
    let twice = vec![
        ("A".to_string(), "B".to_string()),
        ("A".to_string(), "B".to_string()),
    ];
    let g1 = Graph::create_undirected(&once);
    let g2 = Graph::create_undirected(&twice);
    assert_eq!(g1.num_nodes(), g2.num_nodes());
    let d1 = g1.bfs_shortpath(&"A".to_string());
    let d2 = g2.bfs_shortpath(&"A".to_string());
    assert_eq!(d1.get(&"B".to_string()), Some(1));
    assert_eq!(d2.get(&"B".to_string()), Some(1));
    assert_eq!(d1.len(), d2.len());
    assert_eq!(g1.average_shortpath(), g2.average_shortpath());
}

#[test]
fn test_isolated_node() {
    let edges: Vec<(String, String)> = vec![];
    let graph = Graph::create_undirected(&edges);
    let distances = graph.bfs_shortpath(&"X".to_string());
    assert_eq!(distances.get(&"X".to_string()), Some(0));
    assert_eq!(distances.len(), 1);
    assert_eq!(graph.average_shortpath(), None);
}

#[test]
fn test_self_loop_average_undefined() {
    let edges = vec![("A".to_string(), "A".to_string())];
    let graph = Graph::create_undirected(&edges);
    let distances = graph.bfs_shortpath(&"A".to_string());
    assert_eq!(distances.get(&"A".to_string()), Some(0));
    assert_eq!(graph.average_shortpath(), None);
}

#[test]
fn test_sample_is_subset_of_records() {
    let reviews = vec![
        Review {
            reviewer_id: "R1".to_string(),
            asin: "X1".to_string(),
        },
        Review {
            reviewer_id: "R2".to_string(),
            asin: "X2".to_string(),
        },
        Review {
            reviewer_id: "R1".to_string(),
            asin: "X2".to_string(),
        },
    ];
    let samples = sample_reviews(&reviews, 2);
    assert!(samples.len() <= reviews.len());
    for (a, b) in &samples {
        assert!(
            reviews
                .iter()
                .any(|r| &r.reviewer_id == a && &r.asin == b)
        );
    }
}

#[test]
fn test_sample_empty_draw() {
    let reviews = vec![
        Review {
            reviewer_id: "R1".to_string(),
            asin: "X1".to_string(),
        },
        Review {
            reviewer_id: "R2".to_string(),
            asin: "X2".to_string(),
        },
    ];
    let samples = sample_reviews(&reviews, 0);
    assert_eq!(samples.len(), 0);
}

#[test]
fn test_sample_seeded_deterministic() {
    let reviews = vec![
        Review {
            reviewer_id: "R1".to_string(),
            asin: "X1".to_string(),
        },
        Review {
            reviewer_id: "R2".to_string(),
            asin: "X2".to_string(),
        },
        Review {
            reviewer_id: "R3".to_string(),
            asin: "X3".to_string(),
        },
    ];
    let first = sample_reviews_seeded(&reviews, 2, 42);
    let second = sample_reviews_seeded(&reviews, 2, 42);
    assert_eq!(first, second);
}

#[test]
fn test_sample_caps_at_population() {
    let reviews = vec![Review {
        reviewer_id: "R1".to_string(),
        asin: "X1".to_string(),
    }];
    let samples = sample_reviews(&reviews, 100);
    assert_eq!(samples.len(), 1);
    assert_eq!(samples[0], ("R1".to_string(), "X1".to_string()));
}

#[test]
fn test_compare_reports_smaller_graph() {
    let edges1 = vec![
        ("A".to_string(), "B".to_string()),
        ("B".to_string(), "C".to_string()),
    ];
    let edges2 = vec![
        ("A".to_string(), "B".to_string()),
        ("B".to_string(), "D".to_string()),
        ("D".to_string(), "E".to_string()),
    ];
    let graph1 = Graph::create_undirected(&edges1);
    let graph2 = Graph::create_undirected(&edges2);
    let report = compare_average_shortpaths(&graph1, &graph2);
    assert_eq!(report.order, Some(AvgOrder::FirstSmaller));
    assert_eq!(report.within_six_1, Some(true));
    assert_eq!(report.within_six_2, Some(true));
    let s1 = report.stats1.unwrap();
    assert_eq!(s1.total, 8);
    assert_eq!(s1.pairs, 6);
}

#[test]
fn test_compare_equal_graphs() {
    let edges = vec![("A".to_string(), "B".to_string())];
    let graph1 = Graph::create_undirected(&edges);
    let graph2 = Graph::create_undirected(&edges);
    let report = compare_average_shortpaths(&graph1, &graph2);
    assert_eq!(report.order, Some(AvgOrder::Equal));
}

#[test]
fn test_compare_undefined_average() {
    let empty: Vec<(String, String)> = vec![];
    let edges = vec![("A".to_string(), "B".to_string())];
    let graph1 = Graph::create_undirected(&empty);
    let graph2 = Graph::create_undirected(&edges);
    let report = compare_average_shortpaths(&graph1, &graph2);
    assert_eq!(report.stats1, None);
    assert_eq!(report.within_six_1, None);
    assert_eq!(report.order, None);
    assert_eq!(report.within_six_2, Some(true));
}

#[test]
fn test_long_path_statistics() {
    let names: Vec<String> = (0..9).map(|i| format!("N{}", i)).collect();
    let mut edges: Vec<(String, String)> = Vec::new();
    for i in 0..8 {
        edges.push((names[i].clone(), names[i + 1].clone()));
    }
    let graph = Graph::create_undirected(&edges);
    let stats = graph.average_shortpath().unwrap();
    // ordered pairs of 9 nodes: 72; total = 2 * sum over unordered pairs
    assert_eq!(stats.pairs, 72);
    let avg = stats.total as f64 / stats.pairs as f64;
    assert!(avg > 3.0 && avg < 4.0);
}
