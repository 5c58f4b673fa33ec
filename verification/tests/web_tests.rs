use dataspringflow_rs::backend::memory::MemoryBackend;
use dataspringflow_rs::backend::router::{StackedBackend, StackedBackendConfig};
use dataspringflow_rs::backend::sqlite_config::SqliteConfig;
use dataspringflow_rs::service::{DSFService, RegisterOptions, ServiceError};

fn service() -> DSFService<MemoryBackend> {
    let cfg = StackedBackendConfig::new(SqliteConfig::new("web.db".to_string()), vec![]);
    DSFService::new(StackedBackend::assemble(cfg, MemoryBackend::new(), vec![]))
}

fn register(s: &mut DSFService<MemoryBackend>, name: &str, tag: &str, deps: &[&str]) {
    let hashes: Vec<(String, String)> = deps.iter().map(|d| (d.to_string(), format!("h-{}", d))).collect();
    let opts = RegisterOptions {
        name: name.to_string(),
        tag: tag.to_string(),
        path: format!("/data/{}", name),
        description_path: None,
        script_path: format!("/scripts/{}.py", name),
        owner_nickname: None,
        dependencies: deps.iter().map(|d| d.to_string()).collect(),
        force_heal: false,
        yes: false,
    };
    let id = format!("{}@{}", name, tag);
    s.register_with_user(&opts, None, format!("h-{}", id), format!("/desc/{}.md", id), format!("/merkle/{}", id), &hashes, Ok("alice".to_string()))
        .unwrap();
}

fn populated() -> DSFService<MemoryBackend> {
    let mut s = service();
    register(&mut s, "base", "v1", &[]);
    register(&mut s, "mid", "v1", &["base@v1"]);
    s
}

#[test]
fn listing_has_one_entry_per_dataset() {
    let s = populated();
    let mut ids: Vec<String> = s.dataset_listing().unwrap().into_iter().map(|d| d.id).collect();
    ids.sort();
    assert_eq!(ids, vec!["base@v1".to_string(), "mid@v1".to_string()]);
    let index = s.index_view();
    assert_eq!(index.datasets.len(), 2);
    assert!(index.datasets.iter().all(|d| d.owner.as_deref() == Some("alice")));
    let ws = s.workspace_view(Some("mid@v1".to_string()));
    assert_eq!(ws.active_id.as_deref(), Some("mid@v1"));
    assert_eq!(ws.datasets.len(), 2);
}

#[test]
fn meta_details_show_every_field() {
    let s = populated();
    let d = s.meta_details("mid@v1").unwrap();
    assert_eq!(d.len(), 1);
    assert_eq!(d[0].id, "mid@v1");
    assert_eq!(d[0].hash, "h-mid@v1");
    assert_eq!(d[0].dependencies, vec!["base@v1".to_string()]);
    assert_eq!(d[0].busy_status, "free");
    assert_eq!(d[0].owner, "alice");
    assert!(matches!(s.meta_details("nothing@v1"), Err(ServiceError::Backend(_))));
    assert!(matches!(s.meta_details("no-tag"), Err(ServiceError::InvalidInput(_))));
}

#[test]
fn detail_panel_lists_upstreams() {
    let s = populated();
    let p = s.detailed_panel("mid@v1").unwrap();
    assert_eq!(p.detail.id, "mid@v1");
    let up: Vec<&str> = p.upstreams.iter().map(|d| d.id.as_str()).collect();
    assert_eq!(up, vec!["base@v1"]);
    let base = s.detailed_panel("base@v1").unwrap();
    assert!(base.upstreams.is_empty());
    assert!(s.detailed_panel("ghost@v1").is_err());
}

#[test]
fn dependency_graph_view_draws_nodes_and_edges() {
    let s = populated();
    let w = s.dependency_graph_view("mid@v1").unwrap();
    let mut nodes: Vec<&str> = w.nodes.iter().map(|n| n.id.as_str()).collect();
    nodes.sort();
    assert_eq!(nodes, vec!["base@v1", "mid@v1"]);
    let edges: Vec<(&str, &str)> = w.edges.iter().map(|e| (e.source.as_str(), e.target.as_str())).collect();
    assert_eq!(edges, vec![("mid@v1", "base@v1")]);
    assert!(s.dependency_graph_view("ghost@v1").is_err());
}

#[test]
fn referrers_are_listed_with_their_store() {
    let s = populated();
    let r = s.referrer_list_with_user("base@v1", Ok("alice".to_string())).unwrap();
    assert_eq!(r.len(), 1);
    assert_eq!(r[0].backend_name, "Private(owner: alice)");
    assert_eq!(r[0].referrer_id, "Private(owner: alice):mid@v1");
    let v = s.referrers_view_with_user("base@v1", Ok("alice".to_string()));
    assert_eq!(v.referrers.len(), 1);
    let none = s.referrers_view_with_user("base@v1", Err("no user".to_string()));
    assert!(none.referrers.is_empty());
    assert!(s.referrer_list_with_user("mid@v1", Ok("alice".to_string())).unwrap().is_empty());
}
