//! The shapes in which the service answers a web front end, and how they are built.
use crate::backend::router::{addr_text, ScopedId};
use crate::dag::DatasetGraph;
use crate::dataset::{busy_text, status_text, strings_view, DSFDataSet, MetaData};
use vstd::prelude::*;
use vstd::string::StringExecFns;

verus! {

/// A request naming one dataset.
#[derive(Debug)]
pub struct IdQuery {
    pub id: String,
}

/// Everything recorded of a dataset, as text.
#[derive(Debug)]
pub struct MetaDetailDto {
    pub id: String,
    pub name: String,
    pub tag: String,
    pub hash: String,
    pub path: String,
    pub description_path: String,
    pub script_path: String,
    pub owner: String,
    pub dependencies: Vec<String>,
    pub merkle_tree_path: String,
    pub busy_status: String,
}

/// A dataset that depends on another, and the store it was found in.
#[derive(Debug)]
pub struct ReferrerDto {
    pub backend_name: String,
    pub referrer_id: String,
}

/// A request for the dependency graph under a dataset.
#[derive(Debug)]
pub struct GraphQuery {
    pub root_id: String,
}

/// A dataset in a listing.
#[derive(Debug)]
pub struct DatasetMetaDto {
    pub id: String,
    pub name: String,
    pub tag: String,
    pub owner: Option<String>,
}

/// A node of a drawn dependency graph.
#[derive(Debug)]
pub struct WebGraphNode {
    pub id: String,
    pub status: String,
    pub owner: Option<String>,
}

/// An edge of a drawn dependency graph: `source` depends on `target`.
#[derive(Debug)]
pub struct WebGraphEdge {
    pub source: String,
    pub target: String,
}

/// A drawn dependency graph.
#[derive(Debug)]
pub struct WebGraphResponse {
    pub nodes: Vec<WebGraphNode>,
    pub edges: Vec<WebGraphEdge>,
}

/// A node, over views: id, status text, owner.
pub open spec fn node_view(n: WebGraphNode) -> (Seq<char>, Seq<char>, Option<Seq<char>>) {
    (n.id@, n.status@, match n.owner {
        Some(o) => Some(o@),
        None => None,
    })
}

/// The node drawn for a dataset entry.
pub open spec fn node_of(e: (String, DSFDataSet)) -> (Seq<char>, Seq<char>, Option<Seq<char>>) {
    (e.0@, status_text(e.1.detailed_status.status), Some(e.1.metadata.owner@))
}

pub open spec fn edge_view(e: WebGraphEdge) -> (Seq<char>, Seq<char>) {
    (e.source@, e.target@)
}

/// The edges of an adjacency list: each node to each of its dependencies, in order.
pub open spec fn edges_of(adj: Seq<(String, Vec<String>)>) -> Seq<(Seq<char>, Seq<char>)>
    decreases adj.len(),
{
    if adj.len() == 0 {
        Seq::empty()
    } else {
        edges_of(adj.drop_last()) + strings_view(adj.last().1@).map_values(|d: Seq<char>| (adj.last().0@, d))
    }
}

/// The home page: every dataset.
#[derive(Debug)]
pub struct IndexView {
    pub datasets: Vec<DatasetMetaDto>,
}

/// The workspace page: every dataset, and the one being looked at.
#[derive(Debug)]
pub struct DatasetWorkspaceView {
    pub datasets: Vec<DatasetMetaDto>,
    pub active_id: Option<String>,
}

/// The detail panel of a dataset, with the datasets it depends on.
#[derive(Debug)]
pub struct DetailedPanelView {
    pub detail: MetaDetailDto,
    pub upstreams: Vec<DatasetMetaDto>,
}

/// The metadata part of the detail panel.
#[derive(Debug)]
pub struct DetailedMetaView {
    pub detail: MetaDetailDto,
    pub upstreams: Vec<DatasetMetaDto>,
}

/// The datasets that depend on one.
#[derive(Debug)]
pub struct ReferrersView {
    pub referrers: Vec<ReferrerDto>,
}

impl DatasetMetaDto {
    /// A dataset in a listing: its id, name, tag and owner.
    pub fn from_metadata(meta: &MetaData) -> (r: Self)
        ensures
            r.id@ == meta.spec_id(),
            r.name@ == meta.name@,
            r.tag@ == meta.tag@,
            r.owner matches Some(o) && o@ == meta.owner@,
    {
        DatasetMetaDto { id: meta.id(), name: meta.name.clone(), tag: meta.tag.clone(), owner: Some(meta.owner.clone()) }
    }
}

impl ReferrerDto {
    /// A referring dataset: the store's text and `store:id`.
    pub fn from_scoped(s: &ScopedId) -> (r: Self)
        ensures
            r.backend_name@ == addr_text(s.0@),
            r.referrer_id@ == addr_text(s.0@) + ":"@ + s.1@,
    {
        ReferrerDto { backend_name: s.0.to_text(), referrer_id: s.to_text() }
    }
}

impl MetaDetailDto {
    /// Everything recorded of a dataset, with its id and its busy status as text.
    pub fn from_metadata(meta: MetaData) -> (r: Self)
        ensures
            r.id@ == meta.spec_id(),
            r.name@ == meta.name@,
            r.tag@ == meta.tag@,
            r.hash@ == meta.hash@,
            r.path@ == meta.path@,
            r.description_path@ == meta.description_path@,
            r.script_path@ == meta.script_path@,
            r.owner@ == meta.owner@,
            r.dependencies@ == meta.dependencies@,
            r.merkle_tree_path@ == meta.merkle_tree_path@,
            r.busy_status@ == busy_text(meta.busy_status),
    {
        let id = meta.id();
        let busy_status = String::from_str(meta.busy_status.as_str());
        MetaDetailDto {
            id,
            name: meta.name,
            tag: meta.tag,
            hash: meta.hash,
            path: meta.path,
            description_path: meta.description_path,
            script_path: meta.script_path,
            owner: meta.owner,
            dependencies: meta.dependencies,
            merkle_tree_path: meta.merkle_tree_path,
            busy_status,
        }
    }
}

impl WebGraphResponse {
    /// One node per dataset entry, with its verdict and owner, and one edge from each node
    /// to each of its dependencies.
    pub fn from_graph(value: DatasetGraph) -> (r: Self)
        ensures
            r.nodes@.map_values(|n: WebGraphNode| node_view(n)) == value.datasets@.map_values(|e: (String, DSFDataSet)| node_of(e)),
            r.edges@.map_values(|e: WebGraphEdge| edge_view(e)) == edges_of(value.adj_list@),
    {
        let mut nodes: Vec<WebGraphNode> = Vec::new();
        let mut i: usize = 0;
        while i < value.datasets.len()
            invariant
                i <= value.datasets@.len(),
                nodes@.map_values(|n: WebGraphNode| node_view(n)) == value.datasets@.subrange(0, i as int).map_values(|e: (String, DSFDataSet)| node_of(e)),
            decreases value.datasets@.len() - i,
        {
            let e = &value.datasets[i];
            let node = WebGraphNode {
                id: e.0.clone(),
                status: String::from_str(e.1.detailed_status.status.as_str()),
                owner: Some(e.1.metadata.owner.clone()),
            };
            let ghost pre = nodes@;
            nodes.push(node);
            proof {
                assert(value.datasets@.subrange(0, i + 1) =~= value.datasets@.subrange(0, i as int).push(value.datasets@[i as int]));
                assert(nodes@.map_values(|n: WebGraphNode| node_view(n)) =~= pre.map_values(|n: WebGraphNode| node_view(n)).push(node_view(node)));
                assert(value.datasets@.subrange(0, i + 1).map_values(|e: (String, DSFDataSet)| node_of(e)) =~= value.datasets@.subrange(0, i as int).map_values(|e: (String, DSFDataSet)| node_of(e)).push(node_of(value.datasets@[i as int])));
            }
            i = i + 1;
        }
        assert(value.datasets@.subrange(0, value.datasets@.len() as int) =~= value.datasets@);
        let mut edges: Vec<WebGraphEdge> = Vec::new();
        let ghost adj = value.adj_list@;
        let mut j: usize = 0;
        while j < value.adj_list.len()
            invariant
                adj == value.adj_list@,
                j <= adj.len(),
                edges@.map_values(|e: WebGraphEdge| edge_view(e)) == edges_of(adj.subrange(0, j as int)),
            decreases adj.len() - j,
        {
            let entry = &value.adj_list[j];
            let ghost base = edges@.map_values(|e: WebGraphEdge| edge_view(e));
            let ghost deps = strings_view(entry.1@);
            let mut k: usize = 0;
            while k < entry.1.len()
                invariant
                    k <= entry.1@.len(),
                    deps == strings_view(entry.1@),
                    edges@.map_values(|e: WebGraphEdge| edge_view(e)) == base + deps.subrange(0, k as int).map_values(|d: Seq<char>| (entry.0@, d)),
                decreases entry.1@.len() - k,
            {
                let ed = WebGraphEdge { source: entry.0.clone(), target: entry.1[k].clone() };
                let ghost pre = edges@;
                edges.push(ed);
                proof {
                    assert(edges@.map_values(|e: WebGraphEdge| edge_view(e)) =~= pre.map_values(|e: WebGraphEdge| edge_view(e)).push(edge_view(ed)));
                    assert(deps.subrange(0, k + 1) =~= deps.subrange(0, k as int).push(deps[k as int]));
                    assert(deps.subrange(0, k + 1).map_values(|d: Seq<char>| (entry.0@, d)) =~= deps.subrange(0, k as int).map_values(|d: Seq<char>| (entry.0@, d)).push((entry.0@, deps[k as int])));
                }
                k = k + 1;
            }
            proof {
                assert(deps.subrange(0, deps.len() as int) =~= deps);
                let t = adj.subrange(0, j + 1);
                assert(t.drop_last() =~= adj.subrange(0, j as int));
                assert(t.last() == adj[j as int]);
            }
            j = j + 1;
        }
        assert(adj.subrange(0, adj.len() as int) =~= adj);
        WebGraphResponse { nodes, edges }
    }
}

} // verus!
