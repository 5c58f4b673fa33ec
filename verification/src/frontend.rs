//! What the web front end computes before drawing: the dataset list filtered by a search,
//! the layout of a lineage graph, the badge of a busy status and the style of a row.
use crate::api::{DatasetMetaDto, WebGraphEdge, WebGraphNode, WebGraphResponse};
use crate::text::chars_of;
use vstd::prelude::*;

verus! {

/// What `str::to_lowercase` returns for a string.
pub uninterp spec fn lowercase_of(s: Seq<char>) -> Seq<char>;

/// `str::to_lowercase`: the string with every character in lower case, named by
/// `lowercase_of`.
#[verifier::external_body]
fn to_lowercase(s: &str) -> (r: String)
    ensures
        r@ == lowercase_of(s@),
{
    s.to_lowercase()
}

/// `needle` occurs in `hay` as a contiguous run.
pub open spec fn occurs_in(needle: Seq<char>, hay: Seq<char>) -> bool {
    exists|i: int| 0 <= i && i + needle.len() <= hay.len() && #[trigger] hay.subrange(i, i + needle.len()) == needle
}

/// Whether `n` occurs in `h` starting at index `i`.
fn occurs_at(h: &Vec<char>, n: &Vec<char>, i: usize) -> (r: bool)
    requires
        i + n@.len() <= h@.len(),
    ensures
        r == (h@.subrange(i as int, i + n@.len()) == n@),
{
    let hl = h.len();
    let mut j: usize = 0;
    while j < n.len()
        invariant
            hl == h@.len(),
            i + n@.len() <= h@.len(),
            j <= n@.len(),
            forall|m: int| 0 <= m < j ==> h@[i + m] == n@[m],
        decreases n@.len() - j,
    {
        if h[i + j] != n[j] {
            assert(h@.subrange(i as int, i + n@.len())[j as int] != n@[j as int]);
            return false;
        }
        j = j + 1;
    }
    assert(h@.subrange(i as int, i + n@.len()) =~= n@);
    true
}

/// Whether `needle` occurs in `hay`.
pub fn str_contains(hay: &str, needle: &str) -> (r: bool)
    ensures
        r == occurs_in(needle@, hay@),
{
    let h = chars_of(hay);
    let n = chars_of(needle);
    if n.len() > h.len() {
        return false;
    }
    let last = h.len() - n.len();
    let mut i: usize = 0;
    loop
        invariant
            h@ == hay@,
            n@ == needle@,
            last == h@.len() - n@.len(),
            n@.len() <= h@.len(),
            i <= last,
            forall|k: int| 0 <= k < i ==> #[trigger] hay@.subrange(k, k + needle@.len()) != needle@,
        decreases last - i,
    {
        if occurs_at(&h, &n, i) {
            return true;
        }
        if i == last {
            assert forall|k: int| 0 <= k && k + needle@.len() <= hay@.len() implies #[trigger] hay@.subrange(k, k + needle@.len()) != needle@ by {
                assert(k <= i);
            }
            return false;
        }
        i = i + 1;
    }
}

/// A dataset matches a search when the query, in lower case, occurs in its name or its
/// id, in lower case.
pub open spec fn matches_query(ds: DatasetMetaDto, query: Seq<char>) -> bool {
    occurs_in(lowercase_of(query), lowercase_of(ds.name@)) || occurs_in(lowercase_of(query), lowercase_of(ds.id@))
}

/// The datasets among the first `n` that match the query, in order.
pub open spec fn matching(s: Seq<DatasetMetaDto>, query: Seq<char>, n: int) -> Seq<DatasetMetaDto>
    decreases n,
{
    if n <= 0 || n > s.len() {
        Seq::empty()
    } else if matches_query(s[n - 1], query) {
        matching(s, query, n - 1).push(s[n - 1])
    } else {
        matching(s, query, n - 1)
    }
}

/// The datasets a search for `query` shows, in their order.
pub fn filter_datasets(datasets: Vec<DatasetMetaDto>, query: &str) -> (r: Vec<DatasetMetaDto>)
    ensures
        r@ == matching(datasets@, query@, datasets@.len() as int),
{
    let ghost all = datasets@;
    let q = to_lowercase(query);
    let mut input = datasets;
    let mut kept: Vec<DatasetMetaDto> = Vec::new();
    let mut i: usize = 0;
    let n = input.len();
    assert(all.subrange(0, n as int) =~= all);
    while i < n
        invariant
            n == all.len(),
            i <= n,
            q@ == lowercase_of(query@),
            input@ == all.subrange(i as int, n as int),
            kept@ == matching(all, query@, i as int),
        decreases n - i,
    {
        let ds = input.remove(0);
        proof {
            assert(input@ =~= all.subrange(i + 1, n as int));
        }
        let name = to_lowercase(ds.name.as_str());
        let id = to_lowercase(ds.id.as_str());
        if str_contains(name.as_str(), q.as_str()) || str_contains(id.as_str(), q.as_str()) {
            kept.push(ds);
        }
        i = i + 1;
    }
    kept
}

/// Vertical distance between nodes of a drawn lineage graph.
pub open spec fn spacing() -> int {
    80
}

/// Where a drawn lineage graph puts things: its height, the vertical centre of each node,
/// and each edge as the centres of its two ends.
pub struct LineageLayout {
    pub height: i32,
    pub node_y: Vec<i32>,
    pub edges: Vec<(i32, i32)>,
}

/// The index of the first node with the given id.
pub open spec fn first_node(nodes: Seq<WebGraphNode>, id: Seq<char>, n: int) -> Option<int>
    decreases n,
{
    if n <= 0 || n > nodes.len() {
        None
    } else {
        match first_node(nodes, id, n - 1) {
            Some(k) => Some(k),
            None => if nodes[n - 1].id@ == id {
                Some(n - 1)
            } else {
                None
            },
        }
    }
}

/// The drawn edges among the first `n`: each edge whose ends are both nodes, from the centre
/// of its source to the centre of its target; edges with a missing end are left out.
pub open spec fn drawn_edges(nodes: Seq<WebGraphNode>, edges: Seq<WebGraphEdge>, n: int) -> Seq<(int, int)>
    decreases n,
{
    if n <= 0 || n > edges.len() {
        Seq::empty()
    } else {
        let rest = drawn_edges(nodes, edges, n - 1);
        match (first_node(nodes, edges[n - 1].source@, nodes.len() as int), first_node(nodes, edges[n - 1].target@, nodes.len() as int)) {
            (Some(a), Some(b)) => rest.push((a * spacing() + 40, b * spacing() + 40)),
            _ => rest,
        }
    }
}

/// The index of the first node with the given id.
fn position_of(nodes: &Vec<WebGraphNode>, id: &String) -> (r: Option<usize>)
    ensures
        match r {
            Some(k) => k < nodes@.len() && first_node(nodes@, id@, nodes@.len() as int) == Some(k as int),
            None => first_node(nodes@, id@, nodes@.len() as int) is None,
        },
{
    let mut i: usize = 0;
    while i < nodes.len()
        invariant
            i <= nodes@.len(),
            first_node(nodes@, id@, i as int) is None,
        decreases nodes@.len() - i,
    {
        if nodes[i].id == *id {
            proof {
                lemma_first_node_stays(nodes@, id@, i as int + 1, nodes@.len() as int);
            }
            return Some(i);
        }
        i = i + 1;
    }
    None
}

proof fn lemma_first_node_stays(nodes: Seq<WebGraphNode>, id: Seq<char>, m: int, n: int)
    requires
        0 < m <= n <= nodes.len(),
        first_node(nodes, id, m) is Some,
    ensures
        first_node(nodes, id, n) == first_node(nodes, id, m),
    decreases n - m,
{
    if n > m {
        lemma_first_node_stays(nodes, id, m, n - 1);
    }
}

/// The layout of a lineage graph with at least one node: nodes one under another, 80 apart,
/// the first centred at 40.
pub fn lineage_layout(graph: &WebGraphResponse) -> (r: Option<LineageLayout>)
    requires
        graph.nodes@.len() * 80 + 80 <= i32::MAX,
    ensures
        graph.nodes@.len() == 0 <==> r is None,
        r matches Some(l) ==> {
            &&& l.height == graph.nodes@.len() * spacing() + 80
            &&& l.node_y@.len() == graph.nodes@.len()
            &&& forall|i: int| 0 <= i < l.node_y@.len() ==> #[trigger] l.node_y@[i] == i * spacing() + 40
            &&& l.edges@.map_values(|e: (i32, i32)| (e.0 as int, e.1 as int)) == drawn_edges(graph.nodes@, graph.edges@, graph.edges@.len() as int)
        },
{
    let n = graph.nodes.len();
    if n == 0 {
        return None;
    }
    let height: i32 = (n * 80 + 80) as i32;
    let mut node_y: Vec<i32> = Vec::new();
    let mut i: usize = 0;
    while i < n
        invariant
            n == graph.nodes@.len(),
            n * 80 + 80 <= i32::MAX,
            i <= n,
            node_y@.len() == i,
            forall|k: int| 0 <= k < i ==> #[trigger] node_y@[k] == k * spacing() + 40,
        decreases n - i,
    {
        node_y.push((i * 80 + 40) as i32);
        i = i + 1;
    }
    let mut edges: Vec<(i32, i32)> = Vec::new();
    let mut j: usize = 0;
    while j < graph.edges.len()
        invariant
            n == graph.nodes@.len(),
            n * 80 + 80 <= i32::MAX,
            j <= graph.edges@.len(),
            edges@.map_values(|e: (i32, i32)| (e.0 as int, e.1 as int)) == drawn_edges(graph.nodes@, graph.edges@, j as int),
        decreases graph.edges@.len() - j,
    {
        let e = &graph.edges[j];
        let src = position_of(&graph.nodes, &e.source);
        let dst = position_of(&graph.nodes, &e.target);
        let ghost pre = edges@;
        match (src, dst) {
            (Some(a), Some(b)) => {
                proof {
                    assert(a * 80 + 40 < n * 80 + 80) by (nonlinear_arith)
                        requires a < n;
                    assert(b * 80 + 40 < n * 80 + 80) by (nonlinear_arith)
                        requires b < n;
                }
                let pair = ((a * 80 + 40) as i32, (b * 80 + 40) as i32);
                edges.push(pair);
                proof {
                    assert(edges@.map_values(|e: (i32, i32)| (e.0 as int, e.1 as int)) =~= pre.map_values(|e: (i32, i32)| (e.0 as int, e.1 as int)).push((pair.0 as int, pair.1 as int)));
                }
            },
            _ => {},
        }
        j = j + 1;
    }
    Some(LineageLayout { height, node_y, edges })
}

/// The style and text of the badge of a busy status: reading, modifying, creating and
/// deleting each have their own; anything else (free, or none) shows as idle.
pub open spec fn badge_of(status: Option<Seq<char>>) -> (Seq<char>, Seq<char>) {
    if status == Some("reading"@) {
        ("px-2.5 py-1 text-xs font-semibold bg-emerald-100 text-emerald-800 border border-emerald-300 rounded-full"@, "🟢 读取中"@)
    } else if status == Some("modifying"@) {
        ("px-2.5 py-1 text-xs font-semibold bg-amber-100 text-amber-800 border border-amber-300 rounded-full animate-pulse"@, "🟡 修改中"@)
    } else if status == Some("creating"@) {
        ("px-2.5 py-1 text-xs font-semibold bg-blue-100 text-blue-800 border border-blue-300 rounded-full animate-pulse"@, "🔵 创建中"@)
    } else if status == Some("deleting"@) {
        ("px-2.5 py-1 text-xs font-semibold bg-rose-100 text-rose-800 border border-rose-300 rounded-full animate-pulse"@, "🔴 删除中"@)
    } else {
        ("px-2.5 py-1 text-xs font-semibold bg-slate-100 text-slate-600 border border-slate-200 rounded-full"@, "⚪ 空闲"@)
    }
}

/// The style and text of the badge of a busy status.
pub fn status_badge(busy_status: Option<&str>) -> (r: (&'static str, &'static str))
    ensures
        (r.0@, r.1@) == badge_of(
            match busy_status {
                Some(s) => Some(s@),
                None => None,
            },
        ),
{
    proof {
        reveal_strlit("reading");
        reveal_strlit("modifying");
        reveal_strlit("creating");
        reveal_strlit("deleting");
        assert("reading"@.len() == 7 && "modifying"@.len() == 9 && "creating"@.len() == 8 && "deleting"@.len() == 8);
        assert("creating"@[0] != "deleting"@[0]);
    }
    let base = "px-2.5 py-1 text-xs font-semibold bg-slate-100 text-slate-600 border border-slate-200 rounded-full";
    match busy_status {
        Some(s) => {
            if crate::text::str_eq(s, "reading") {
                ("px-2.5 py-1 text-xs font-semibold bg-emerald-100 text-emerald-800 border border-emerald-300 rounded-full", "🟢 读取中")
            } else if crate::text::str_eq(s, "modifying") {
                ("px-2.5 py-1 text-xs font-semibold bg-amber-100 text-amber-800 border border-amber-300 rounded-full animate-pulse", "🟡 修改中")
            } else if crate::text::str_eq(s, "creating") {
                ("px-2.5 py-1 text-xs font-semibold bg-blue-100 text-blue-800 border border-blue-300 rounded-full animate-pulse", "🔵 创建中")
            } else if crate::text::str_eq(s, "deleting") {
                ("px-2.5 py-1 text-xs font-semibold bg-rose-100 text-rose-800 border border-rose-300 rounded-full animate-pulse", "🔴 删除中")
            } else {
                (base, "⚪ 空闲")
            }
        },
        None => (base, "⚪ 空闲"),
    }
}

/// The style of a dataset's row in the list: highlighted when it is the selected one.
pub open spec fn row_class_of(dataset_id: Seq<char>, selected_id: Option<Seq<char>>) -> Seq<char> {
    "p-3 rounded-lg border cursor-pointer transition-all duration-150 "@ + if selected_id == Some(dataset_id) {
        "bg-blue-50 border-blue-200 text-blue-900 shadow-sm"@
    } else {
        "hover:bg-slate-50 border-transparent text-slate-700"@
    }
}

/// The style of a dataset's row in the list.
pub fn dataset_row_class(dataset_id: &str, selected_id: Option<&str>) -> (r: String)
    ensures
        r@ == row_class_of(
            dataset_id@,
            match selected_id {
                Some(s) => Some(s@),
                None => None,
            },
        ),
{
    let selected = match selected_id {
        Some(s) => crate::text::str_eq(s, dataset_id),
        None => false,
    };
    let style = if selected {
        "bg-blue-50 border-blue-200 text-blue-900 shadow-sm"
    } else {
        "hover:bg-slate-50 border-transparent text-slate-700"
    };
    proof {
        reveal_strlit("");
        assert(style@ + ""@ =~= style@);
    }
    crate::text::concat3("p-3 rounded-lg border cursor-pointer transition-all duration-150 ", style, "")
}

} // verus!
