use dag_statistics::parse::{parse_number, parse_pair, split_text_lines, split_words_of};
use dag_statistics::{DirectedAcyclicGraph, ParseError, ORIGIN};

const SAMPLE: &str = "5
1 1
1 2
2 2
3 6
3 3";

fn sample() -> DirectedAcyclicGraph {
    DirectedAcyclicGraph::from_bytes(SAMPLE.as_bytes()).unwrap()
}

fn sorted_paths(mut paths: Vec<Vec<usize>>) -> Vec<Vec<usize>> {
    paths.sort();
    paths
}

#[test]
fn test_if_dag_constructed_correctly() {
    let database = "5
1 1
1 2
2 2
3 6
3 3";

    let nodes = vec![1, 2, 3, 4, 5, 6];
    let edges = vec![(6, 3), (4, 2), (5, 3), (5, 6), (3, 2), (2, 1), (3, 1)];

    let dag = DirectedAcyclicGraph::from_bytes(database.as_bytes()).unwrap();

    assert_eq!(dag.nodes().len(), nodes.len());
    assert_eq!(dag.edges().len(), edges.len());

    for node in dag.nodes() {
        assert!(nodes.contains(node));
    }

    for edge in dag.edges() {
        assert!(edges.contains(&edge));
    }

    assert_eq!(dag.max_depth(), 5);
}

#[test]
fn new_graph_is_empty() {
    let dag = DirectedAcyclicGraph::new();
    assert!(dag.nodes().is_empty());
    assert!(dag.edges().is_empty());
    assert_eq!(dag.max_depth(), 0);
    assert_eq!(dag.in_ref_total(), 0);
    assert_eq!(dag.depth_sum(), Some(0));
    assert_eq!(dag.depth_buckets(), (0, 0));
}

#[test]
fn counts_are_deduplicated() {
    // node 2 names parent 1 twice, node 3 names itself twice
    let dag = DirectedAcyclicGraph::from_bytes(b"2\n1 1\n3 3\n").unwrap();
    assert_eq!(dag.nodes().len(), 3);
    assert_eq!(dag.edges().len(), 1);
    assert_eq!(dag.edges()[0], (2, 1));
}

#[test]
fn add_edge_to_self_is_refused() {
    let mut dag = sample();
    let nodes = dag.nodes().clone();
    let edges = dag.edges().clone();
    assert!(!dag.add_edge(4, 4));
    assert!(!dag.add_edge(9, 9));
    assert_eq!(dag.nodes(), &nodes);
    assert_eq!(dag.edges(), &edges);
}

#[test]
fn add_edge_reports_growth() {
    let mut dag = DirectedAcyclicGraph::new();
    assert!(dag.add_edge(2, 1));
    assert!(!dag.add_edge(2, 1));
    assert!(dag.add_edge(3, 2));
    assert_eq!(dag.nodes().len(), 3);
    assert_eq!(dag.edges().len(), 2);
    assert!(dag.contains_edge(3, 2));
    assert!(!dag.contains_edge(2, 3));
    assert!(dag.contains_node(3));
}

#[test]
fn remove_node_clears_its_edges() {
    let mut dag = sample();
    assert!(dag.remove_node(6));
    assert!(!dag.contains_node(6));
    for &(from, to) in dag.edges() {
        assert!(from != 6 && to != 6);
    }
    assert_eq!(dag.edges().len(), 5);
    assert_eq!(dag.nodes().len(), 5);
}

#[test]
fn remove_node_cascades_to_orphans() {
    let mut dag = DirectedAcyclicGraph::new();
    dag.add_edge(2, 1);
    dag.add_edge(3, 2);
    assert!(dag.remove_node(2));
    assert!(dag.edges().is_empty());
    // node 3 has lost its only edge, the origin stays
    assert_eq!(dag.nodes(), &vec![1]);
}

#[test]
fn remove_node_refuses_origin_and_missing() {
    let mut dag = sample();
    let nodes = dag.nodes().clone();
    let edges = dag.edges().clone();
    assert!(!dag.remove_node(ORIGIN));
    assert!(!dag.remove_node(42));
    assert_eq!(dag.nodes(), &nodes);
    assert_eq!(dag.edges(), &edges);

    let mut empty = DirectedAcyclicGraph::new();
    assert!(!empty.remove_node(1));
    assert!(empty.nodes().is_empty());
}

#[test]
fn remove_edge_purges_orphans() {
    let mut dag = sample();
    // (4, 2) is the only edge that touches node 4
    assert!(dag.remove_edge(4, 2));
    assert!(!dag.contains_node(4));
    assert!(!dag.contains_edge(4, 2));
    assert_eq!(dag.nodes().len(), 5);
    assert_eq!(dag.edges().len(), 6);
    assert!(!dag.remove_edge(4, 2));
}

#[test]
fn remove_edge_keeps_origin() {
    let mut dag = DirectedAcyclicGraph::new();
    dag.add_edge(2, 1);
    assert!(dag.remove_edge(2, 1));
    assert_eq!(dag.nodes(), &vec![1]);
    assert!(dag.edges().is_empty());
}

#[test]
fn remove_missing_edge_changes_nothing() {
    let mut dag = sample();
    let nodes = dag.nodes().clone();
    assert!(!dag.remove_edge(1, 2));
    assert_eq!(dag.nodes(), &nodes);
    assert_eq!(dag.edges().len(), 7);
}

#[test]
fn depths_of_origin() {
    assert_eq!(sample().depths(1), vec![vec![1]]);
    assert_eq!(DirectedAcyclicGraph::new().depths(1), vec![vec![1]]);
}

#[test]
fn depths_lists_every_route() {
    let dag = sample();
    assert_eq!(
        sorted_paths(dag.depths(5)),
        vec![vec![1, 2, 3, 5], vec![1, 2, 3, 6, 5], vec![1, 3, 5], vec![1, 3, 6, 5]]
    );
    assert_eq!(sorted_paths(dag.depths(3)), vec![vec![1, 2, 3], vec![1, 3]]);
    assert!(dag.depths(42).is_empty());
}

#[test]
fn depths_survives_a_cycle() {
    let mut dag = DirectedAcyclicGraph::new();
    dag.add_edge(2, 1);
    dag.add_edge(3, 2);
    dag.add_edge(2, 3);
    assert_eq!(sorted_paths(dag.depths(3)), vec![vec![1, 2, 3]]);
    assert_eq!(sorted_paths(dag.depths(2)), vec![vec![1, 2]]);
}

#[test]
fn max_depth_of_sample() {
    assert_eq!(sample().max_depth(), 5);
}

#[test]
fn in_ref_total_of_sample() {
    let dag = sample();
    assert_eq!(dag.in_ref_total(), 7);
    let avg = dag.in_ref_total() as f64 / dag.nodes().len() as f64;
    assert!((avg - 7.0 / 6.0).abs() < 1e-9);
}

#[test]
fn depth_sum_of_sample() {
    let dag = sample();
    // depths 0, 1, 1, 2, 2, 2
    assert_eq!(dag.depth_sum(), Some(8));
}

#[test]
fn depth_sum_without_route() {
    let dag = DirectedAcyclicGraph::from_bytes(b"2\n1 1\n3 3").unwrap();
    assert_eq!(dag.depth_sum(), None);
}

#[test]
fn depth_buckets_of_sample() {
    // ten routes, of lengths 2, 3, 4 and 5
    assert_eq!(sample().depth_buckets(), (10, 4));
}

#[test]
fn statistics_repeat() {
    let dag = sample();
    assert_eq!(dag.max_depth(), dag.max_depth());
    assert_eq!(dag.in_ref_total(), dag.in_ref_total());
    assert_eq!(dag.depth_sum(), dag.depth_sum());
    assert_eq!(dag.depth_buckets(), dag.depth_buckets());
}

#[test]
fn parse_rejects_bad_token() {
    assert_eq!(
        DirectedAcyclicGraph::from_bytes(b"2\n1 1\n1 x\n").err(),
        Some(ParseError { line: 3 })
    );
}

#[test]
fn parse_rejects_wrong_count() {
    assert_eq!(DirectedAcyclicGraph::from_bytes(b"1\n1 1 1").err(), Some(ParseError { line: 2 }));
    assert_eq!(DirectedAcyclicGraph::from_bytes(b"1\n1").err(), Some(ParseError { line: 2 }));
    assert_eq!(DirectedAcyclicGraph::from_bytes(b"2\n1 1\n\n").err(), Some(ParseError { line: 3 }));
}

#[test]
fn parse_rejects_overflow() {
    assert_eq!(
        DirectedAcyclicGraph::from_bytes(b"1\n1 99999999999999999999999").err(),
        Some(ParseError { line: 2 })
    );
}

#[test]
fn parse_accepts_loose_spacing() {
    let dag = DirectedAcyclicGraph::from_bytes(b"3\r\n  1\t1 \r\n+1   2\r\n").unwrap();
    assert_eq!(dag.nodes().len(), 3);
    assert_eq!(dag.edges().len(), 3);
    assert!(dag.contains_edge(3, 2));
}

#[test]
fn parse_empty_text() {
    let dag = DirectedAcyclicGraph::from_bytes(b"").unwrap();
    assert!(dag.nodes().is_empty());
    let dag = DirectedAcyclicGraph::from_bytes(b"0\n").unwrap();
    assert!(dag.nodes().is_empty());
}

#[test]
fn parse_helpers() {
    assert_eq!(parse_number(b"0042"), Some(42));
    assert_eq!(parse_number(b"+7"), Some(7));
    assert_eq!(parse_number(b"+"), None);
    assert_eq!(parse_number(b"-1"), None);
    assert_eq!(parse_pair(b" 3  4 "), Some((3, 4)));
    assert_eq!(split_text_lines(b"a\n\nb\n"), vec![b"a".to_vec(), vec![], b"b".to_vec()]);
    assert_eq!(split_words_of(b" ab  c "), vec![b"ab".to_vec(), b"c".to_vec()]);
}
