use dataspringflow_rs::api::{DatasetMetaDto, WebGraphEdge, WebGraphNode, WebGraphResponse};
use dataspringflow_rs::frontend::{dataset_row_class, filter_datasets, lineage_layout, status_badge, str_contains};

fn ds(id: &str, name: &str) -> DatasetMetaDto {
    DatasetMetaDto { id: id.to_string(), name: name.to_string(), tag: "v1".to_string(), owner: None }
}

fn node(id: &str) -> WebGraphNode {
    WebGraphNode { id: id.to_string(), status: "Healthy".to_string(), owner: None }
}

fn edge(source: &str, target: &str) -> WebGraphEdge {
    WebGraphEdge { source: source.to_string(), target: target.to_string() }
}

#[test]
fn str_contains_finds_runs() {
    assert!(str_contains("mnist@v1", "ist@"));
    assert!(str_contains("mnist", ""));
    assert!(str_contains("abc", "abc"));
    assert!(!str_contains("abc", "abcd"));
    assert!(!str_contains("abcabd", "abe"));
    assert!(str_contains("abcabd", "abd"));
}

#[test]
fn filter_is_case_insensitive_on_name_and_id() {
    let all = vec![ds("Mnist@v1", "Mnist"), ds("cifar@v2", "CIFAR"), ds("imagenet@v1", "ImageNet")];
    let kept = filter_datasets(all, "IST");
    assert_eq!(kept.len(), 1);
    assert_eq!(kept[0].id, "Mnist@v1");

    let all = vec![ds("Mnist@v1", "Mnist"), ds("cifar@v2", "CIFAR"), ds("imagenet@v1", "ImageNet")];
    let kept = filter_datasets(all, "@V1");
    let ids: Vec<&str> = kept.iter().map(|d| d.id.as_str()).collect();
    assert_eq!(ids, vec!["Mnist@v1", "imagenet@v1"]);
}

#[test]
fn filter_with_empty_query_keeps_everything_in_order() {
    let all = vec![ds("b@1", "b"), ds("a@1", "a")];
    let kept = filter_datasets(all, "");
    let ids: Vec<&str> = kept.iter().map(|d| d.id.as_str()).collect();
    assert_eq!(ids, vec!["b@1", "a@1"]);
}

#[test]
fn layout_of_empty_graph_is_none() {
    let g = WebGraphResponse { nodes: vec![], edges: vec![edge("a", "b")] };
    assert!(lineage_layout(&g).is_none());
}

#[test]
fn layout_places_nodes_and_drops_dangling_edges() {
    let g = WebGraphResponse {
        nodes: vec![node("a"), node("b"), node("c")],
        edges: vec![edge("a", "b"), edge("a", "zzz"), edge("c", "a")],
    };
    let l = lineage_layout(&g).unwrap();
    assert_eq!(l.height, 3 * 80 + 80);
    assert_eq!(l.node_y, vec![40, 120, 200]);
    assert_eq!(l.edges, vec![(40, 120), (200, 40)]);
}

#[test]
fn badge_texts() {
    assert_eq!(status_badge(Some("reading")).1, "🟢 读取中");
    assert_eq!(status_badge(Some("modifying")).1, "🟡 修改中");
    assert_eq!(status_badge(Some("creating")).1, "🔵 创建中");
    assert_eq!(status_badge(Some("deleting")).1, "🔴 删除中");
    assert_eq!(status_badge(Some("free")).1, "⚪ 空闲");
    assert_eq!(status_badge(None).1, "⚪ 空闲");
    assert!(status_badge(Some("modifying")).0.contains("animate-pulse"));
    assert!(!status_badge(Some("reading")).0.contains("animate-pulse"));
}

#[test]
fn row_is_highlighted_only_when_selected() {
    assert_eq!(
        dataset_row_class("a@1", Some("a@1")),
        "p-3 rounded-lg border cursor-pointer transition-all duration-150 bg-blue-50 border-blue-200 text-blue-900 shadow-sm"
    );
    assert_eq!(
        dataset_row_class("a@1", Some("b@1")),
        "p-3 rounded-lg border cursor-pointer transition-all duration-150 hover:bg-slate-50 border-transparent text-slate-700"
    );
    assert_eq!(dataset_row_class("a@1", None), dataset_row_class("a@1", Some("b@1")));
}
