use dataspringflow_rs::backend::memory::MemoryBackend;
use dataspringflow_rs::backend::router::{StackedBackend, StackedBackendConfig};
use dataspringflow_rs::backend::sqlite_config::SqliteConfig;
use dataspringflow_rs::backend::{DatasetBackend, IoKind};
use dataspringflow_rs::dag::{DatasetGraph, DatasetGraphError};
use dataspringflow_rs::dataset::{DataSetBusyStatus, DataSetStatus, MetaData};

fn meta(name: &str, tag: &str, deps: &[&str]) -> MetaData {
    MetaData {
        name: name.to_string(),
        tag: tag.to_string(),
        hash: format!("hash-of-{}-{}", name, tag),
        path: format!("/data/{}_{}", name, tag),
        description_path: format!("/data/{}_{}/desc.md", name, tag),
        script_path: format!("/data/{}_{}/run.py", name, tag),
        owner: "root$DSFAdmin".to_string(),
        dependencies: deps.iter().map(|s| s.to_string()).collect(),
        merkle_tree_path: format!("/data/{}@{}.merkle.bin", name, tag),
        busy_status: DataSetBusyStatus::Free,
    }
}

fn stacked(datasets: &[(&str, &str, &[&str])]) -> StackedBackend<MemoryBackend> {
    let mut store = MemoryBackend::new();
    for (name, tag, deps) in datasets {
        store.save_metadata(&meta(name, tag, deps)).unwrap();
    }
    let cfg = StackedBackendConfig::new(SqliteConfig::new("test_dsf.db".to_string()), vec![]);
    StackedBackend::assemble(cfg, store, vec![])
}

fn current_hashes(datasets: &[(&str, &str, &[&str])]) -> Vec<(String, String)> {
    datasets
        .iter()
        .map(|(n, t, _)| (format!("{}@{}", n, t), format!("hash-of-{}-{}", n, t)))
        .collect()
}

#[test]
fn dag_tests_test_from_root_and_cycle_ok_for_acyclic_graph() {
    let backend = stacked(&[("C", "v1", &[]), ("D", "v1", &[]), ("B", "v1", &["D@v1"]), ("A", "v1", &["B@v1", "C@v1"])]);
    let graph_res = DatasetGraph::from_root("A@v1", &backend);
    assert!(graph_res.is_ok(), "Failed to load graph from root: {:?}", graph_res.err());
    let graph = graph_res.unwrap();
    assert_eq!(graph.datasets.len(), 4);
    let cycle_res = graph.check_cycle();
    assert!(cycle_res.is_ok(), "Acyclic graph should not trigger cycle error");
}

#[test]
fn dag_tests_test_cycle_detects_simple_cycle() {
    // A cycle stored in the backend.
    let backend = stacked(&[("A", "v1", &["B@v1"]), ("B", "v1", &["A@v1"])]);
    let graph = DatasetGraph::from_root("A@v1", &backend).unwrap();
    match graph.check_cycle() {
        Err(DatasetGraphError::CycleDetected { node, dep }) => {
            let pairs = [(node.as_str(), dep.as_str()), (dep.as_str(), node.as_str())];
            assert!(pairs.contains(&("A@v1", "B@v1")), "Unexpected cycle pair: {} -> {}", node, dep);
        }
        other => panic!("Expected CycleDetected from check_cycle, got: {:?}", other),
    }

    // A cycle made by registering B@v1 again, now depending on A@v1.
    let backend = stacked(&[("B", "v1", &[]), ("A", "v1", &["B@v1"])]);
    let graph_res = DatasetGraph::from_root_with_deps("B", "v1", &vec!["A@v1".to_string()], &backend);
    assert!(graph_res.is_ok(), "Memory graph construction should succeed");
    let graph = graph_res.unwrap();
    match graph.check_cycle() {
        Err(DatasetGraphError::CycleDetected { node, dep }) => {
            let pairs = [(node.as_str(), dep.as_str()), (dep.as_str(), node.as_str())];
            assert!(pairs.contains(&("A@v1", "B@v1")), "Unexpected cycle pair: {} -> {}", node, dep);
        }
        other => panic!("Expected CycleDetected from check_cycle, got: {:?}", other),
    }
}

#[test]
fn dag_tests_test_cycle_detects_self_cycle() {
    let backend = stacked(&[("A", "v1", &["A@v1"])]);
    let graph = DatasetGraph::from_root("A@v1", &backend).unwrap();
    match graph.check_cycle() {
        Err(DatasetGraphError::CycleDetected { node, dep }) => {
            assert_eq!(node, "A@v1");
            assert_eq!(dep, "A@v1");
        }
        other => panic!("Expected self-loop CycleDetected from check_cycle, got: {:?}", other),
    }

    let backend = stacked(&[("A", "v1", &[])]);
    let graph_res = DatasetGraph::from_root_with_deps("A", "v1", &vec!["A@v1".to_string()], &backend);
    assert!(graph_res.is_ok());
    let graph = graph_res.unwrap();
    match graph.check_cycle() {
        Err(DatasetGraphError::CycleDetected { node, dep }) => {
            assert_eq!(node, "A@v1");
            assert_eq!(dep, "A@v1");
        }
        other => panic!("Expected self-loop CycleDetected from check_cycle, got: {:?}", other),
    }
}

#[test]
fn test_topo_sort_and_verify_subgraph() {
    let sets: &[(&str, &str, &[&str])] = &[("C", "v1", &[]), ("B", "v1", &["C@v1"]), ("A", "v1", &["B@v1"])];
    let backend = stacked(sets);
    let mut graph = DatasetGraph::from_root("A@v1", &backend).unwrap();
    let verify_res = graph.verify_subgraph("A@v1", &current_hashes(sets));
    assert!(verify_res.is_ok(), "Deep subgraph verification failed: {:?}", verify_res.err());
    assert_eq!(verify_res.unwrap().status, DataSetStatus::Healthy);
}

#[test]
fn test_topo_sort_order() {
    let backend = stacked(&[("C", "v1", &[]), ("B", "v1", &["C@v1"]), ("A", "v1", &["B@v1"])]);
    let _graph = DatasetGraph::from_root("A@v1", &backend).unwrap();
}

#[test]
fn dag_tests_default_equals_new() {
    let a = DatasetGraph::new();
    let b = DatasetGraph::default();
    assert_eq!(a.adj_list.len(), b.adj_list.len());
    assert_eq!(a.datasets.len(), b.datasets.len());
}

#[test]
fn from_root_reports_missing_dependency() {
    let backend = stacked(&[("A", "v1", &["ghost@v1"])]);
    match DatasetGraph::from_root("A@v1", &backend) {
        Err(DatasetGraphError::DatasetNotFound { node_id }) => assert_eq!(node_id, "ghost@v1"),
        Err(other) => panic!("unexpected error: {:?}", other),
        Ok(_) => panic!("a missing dependency must be reported"),
    }
}

#[test]
fn from_root_with_deps_rejects_at_in_name() {
    let backend = stacked(&[]);
    match DatasetGraph::from_root_with_deps("a@b", "v1", &vec![], &backend) {
        Err(DatasetGraphError::Io(kind, m)) => {
            assert_eq!(kind, IoKind::InvalidInput);
            assert_eq!(m, "name/tag must not contain '@'");
        },
        _ => panic!("an '@' in the name must be refused"),
    }
}

#[test]
fn verify_subgraph_reports_broken_and_broken_deps() {
    let sets: &[(&str, &str, &[&str])] = &[("C", "v1", &[]), ("B", "v1", &["C@v1"])];
    let backend = stacked(sets);
    let mut graph = DatasetGraph::from_root("B@v1", &backend).unwrap();
    let hashes = vec![
        ("C@v1".to_string(), "tampered".to_string()),
        ("B@v1".to_string(), "hash-of-B-v1".to_string()),
    ];
    let res = graph.verify_subgraph("B@v1", &hashes).unwrap();
    assert_eq!(res.status, DataSetStatus::BrokenDeps);
    assert_eq!(res.dep_status, vec![DataSetStatus::Broken]);
}
