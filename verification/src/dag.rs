//! The dependency graph of datasets: cycle detection and bottom-up verification.
use crate::assoc::{
    assoc_find, contains_string, keys, lemma_lookup_first, lemma_lookup_none, lemma_lookup_push,
    lemma_lookup_some, lemma_lookup_step, lookup,
};
use crate::text::{concat3, contains_char};
use crate::dataset::{
    clone_strings,
    single_status, spec_is_open, strings_view, DSFDataSet, DataSetStatus, DataSetVerifyRes,
    DataSetView, MetaDataView, VerifyResView,
};
use crate::backend::router::StackedBackend;
use crate::backend::{DatasetBackend, IoKind};
use vstd::prelude::*;
use vstd::pervasive::VecAdditionalExecFns;
use vstd::string::StringExecFns;

verus! {

/// A graph of datasets: each node id maps to the ids of the datasets it depends on.
/// Both lists are association lists: the first entry with a key is the one that counts.
pub struct DatasetGraph {
    /// The datasets that take part in this graph, by id.
    pub datasets: Vec<(String, DSFDataSet)>,
    /// Node id, then the ids of its dependencies.
    pub adj_list: Vec<(String, Vec<String>)>,
}

#[derive(Debug)]
pub enum DatasetGraphError {
    /// An underlying storage or I/O failure: its kind and its text.
    Io(IoKind, String),
    /// `node` depends on `dep`, and `dep` reaches `node`.
    CycleDetected { node: String, dep: String },
    /// A dataset in the graph has no entity.
    DatasetNotFound { node_id: String },
    /// A node reached in topological order has no adjacency entry.
    GraphCorruption { node_id: String },
    /// A dependency was processed after the node depending on it.
    DependencyStatusMissing { node_id: String, dep_id: String },
    /// The requested root received no result.
    RootResultNotFound { root_id: String },
}

/// The text of a graph error.
pub open spec fn graph_error_text(e: DatasetGraphError) -> Seq<char> {
    match e {
        DatasetGraphError::Io(_, m) => "Infrastructure or I/O error occurred: "@ + m@,
        DatasetGraphError::CycleDetected { node, dep } => "Circular dependency detected: node '"@ + node@ + "' and dependency '"@ + dep@ + "' form a cycle"@,
        DatasetGraphError::DatasetNotFound { node_id } => "Data integrity violation: Dataset entity for node '"@ + node_id@ + "' could not be found"@,
        DatasetGraphError::GraphCorruption { node_id } => "Fatal graph corruption: Node '"@ + node_id@ + "' exists in topological order but is missing from adjacency list"@,
        DatasetGraphError::DependencyStatusMissing { node_id, dep_id } => "Fatal scheduling breach: Verification status for dependency '"@ + dep_id@ + "' of node '"@ + node_id@ + "' is missing from cache"@,
        DatasetGraphError::RootResultNotFound { root_id } => "Fatal post-condition failure: Failed to retrieve or extract the final verification result for root node '"@ + root_id@ + "'"@,
    }
}

impl DatasetGraphError {
    /// The human-readable text of this error.
    pub fn message(&self) -> (r: String)
        ensures
            r@ == graph_error_text(*self),
    {
        proof {
            reveal_strlit("");
            assert(forall|x: Seq<char>| x + ""@ =~= x);
        }
        match self {
            DatasetGraphError::Io(_, m) => concat3("Infrastructure or I/O error occurred: ", m.as_str(), ""),
            DatasetGraphError::CycleDetected { node, dep } => {
                let head = concat3("Circular dependency detected: node '", node.as_str(), "' and dependency '");
                concat3(head.as_str(), dep.as_str(), "' form a cycle")
            },
            DatasetGraphError::DatasetNotFound { node_id } => concat3("Data integrity violation: Dataset entity for node '", node_id.as_str(), "' could not be found"),
            DatasetGraphError::GraphCorruption { node_id } => concat3("Fatal graph corruption: Node '", node_id.as_str(), "' exists in topological order but is missing from adjacency list"),
            DatasetGraphError::DependencyStatusMissing { node_id, dep_id } => {
                let head = concat3("Fatal scheduling breach: Verification status for dependency '", dep_id.as_str(), "' of node '");
                concat3(head.as_str(), node_id.as_str(), "' is missing from cache")
            },
            DatasetGraphError::RootResultNotFound { root_id } => concat3("Fatal post-condition failure: Failed to retrieve or extract the final verification result for root node '", root_id.as_str(), "'"),
        }
    }
}

/// The adjacency list over views.
pub type AdjView = Seq<(Seq<char>, Seq<Seq<char>>)>;

pub open spec fn adj_view(adj: Seq<(String, Vec<String>)>) -> AdjView {
    adj.map_values(|e: (String, Vec<String>)| (e.0@, strings_view(e.1@)))
}

pub open spec fn datasets_view(d: Seq<(String, DSFDataSet)>) -> Seq<(Seq<char>, DataSetView)> {
    d.map_values(|e: (String, DSFDataSet)| (e.0@, e.1@))
}

/// `u` depends directly on `v`.
pub open spec fn edge(adj: AdjView, u: Seq<char>, v: Seq<char>) -> bool {
    lookup(adj, u) matches Some(ds) && ds.contains(v)
}

/// Consecutive elements of `p` are joined by edges.
pub open spec fn is_path(adj: AdjView, p: Seq<Seq<char>>) -> bool {
    &&& p.len() >= 1
    &&& forall|i: int| 0 <= i < p.len() - 1 ==> edge(adj, #[trigger] p[i], p[i + 1])
}

/// `a` reaches `b` along zero or more edges.
pub open spec fn reaches(adj: AdjView, a: Seq<char>, b: Seq<char>) -> bool {
    exists|p: Seq<Seq<char>>| #[trigger] is_path(adj, p) && p[0] == a && p.last() == b
}

/// Some node reaches itself along one or more edges.
pub open spec fn has_cycle(adj: AdjView) -> bool {
    exists|u: Seq<char>, v: Seq<char>| #[trigger] edge(adj, u, v) && reaches(adj, v, u)
}

/// Every node mentioned by the adjacency list: keys and dependencies.
pub open spec fn universe(adj: AdjView) -> Seq<Seq<char>>
    decreases adj.len(),
{
    if adj.len() == 0 {
        Seq::empty()
    } else {
        seq![adj[0].0] + adj[0].1 + universe(adj.drop_first())
    }
}

/// Each node in `black` has all its successors earlier in `black`.
pub open spec fn black_closed(adj: AdjView, black: Seq<Seq<char>>) -> bool {
    forall|i: int, v: Seq<char>|
        0 <= i < black.len() && #[trigger] edge(adj, black[i], v) ==> exists|j: int|
            0 <= j < i && black[j] == v
}

proof fn lemma_universe_contains(adj: AdjView, k: Seq<char>)
    ensures
        lookup(adj, k) is Some ==> universe(adj).contains(k),
        lookup(adj, k) matches Some(ds) ==> forall|d: Seq<char>| #[trigger]
            ds.contains(d) ==> universe(adj).contains(d),
    decreases adj.len(),
{
    if adj.len() > 0 {
        lemma_universe_contains(adj.drop_first(), k);
        let u = universe(adj);
        let rest = universe(adj.drop_first());
        assert(u =~= seq![adj[0].0] + adj[0].1 + rest);
        if adj[0].0 == k {
            assert(u[0] == k);
            assert forall|d: Seq<char>| #[trigger] adj[0].1.contains(d) implies u.contains(d) by {
                let i = choose|i: int| 0 <= i < adj[0].1.len() && adj[0].1[i] == d;
                assert(u[1 + i] == d);
            }
        } else {
            if lookup(adj, k) is Some {
                let i = choose|i: int| 0 <= i < rest.len() && rest[i] == k;
                assert(u[1 + adj[0].1.len() + i] == k);
                assert forall|d: Seq<char>| #[trigger]
                    lookup(adj, k).unwrap().contains(d) implies u.contains(d) by {
                    let i = choose|i: int| 0 <= i < rest.len() && rest[i] == d;
                    assert(u[1 + adj[0].1.len() + i] == d);
                }
            }
        }
    }
}

proof fn lemma_deps_in_universe(adj: AdjView, k: Seq<char>, ds: Seq<Seq<char>>)
    requires
        lookup(adj, k) == Some(ds),
    ensures
        forall|d: Seq<char>| #[trigger] ds.contains(d) ==> universe(adj).contains(d),
    decreases adj.len(),
{
    let u = universe(adj);
    let rest = universe(adj.drop_first());
    assert(u =~= seq![adj[0].0] + adj[0].1 + rest);
    if adj[0].0 == k {
        assert forall|d: Seq<char>| #[trigger] ds.contains(d) implies u.contains(d) by {
            let i = choose|i: int| 0 <= i < ds.len() && ds[i] == d;
            assert(u[1 + i] == d);
        }
    } else {
        lemma_deps_in_universe(adj.drop_first(), k, ds);
        assert forall|d: Seq<char>| #[trigger] ds.contains(d) implies u.contains(d) by {
            assert(rest.contains(d));
            let i = choose|i: int| 0 <= i < rest.len() && rest[i] == d;
            assert(u[1 + adj[0].1.len() + i] == d);
        }
    }
}

proof fn lemma_prefix_index(a: Seq<Seq<char>>, b: Seq<Seq<char>>, i: int)
    requires
        a.is_prefix_of(b),
        0 <= i < a.len(),
    ensures
        a[i] == b[i],
        a.len() <= b.len(),
{
    assert(a =~= b.subrange(0, a.len() as int));
    assert(b.subrange(0, a.len() as int)[i] == b[i]);
}

proof fn lemma_prefix_len(a: Seq<Seq<char>>, b: Seq<Seq<char>>)
    requires
        a.is_prefix_of(b),
    ensures
        a.len() <= b.len(),
{
}

proof fn lemma_prefix_push(a: Seq<Seq<char>>, b: Seq<Seq<char>>, x: Seq<char>)
    requires
        a.is_prefix_of(b),
    ensures
        a.is_prefix_of(b.push(x)),
{
    assert forall|i: int| 0 <= i < a.len() implies a[i] == b.push(x)[i] by {
        lemma_prefix_index(a, b, i);
    }
    assert(a =~= b.push(x).subrange(0, a.len() as int));
}

proof fn lemma_prefix_trans(a: Seq<Seq<char>>, b: Seq<Seq<char>>, c: Seq<Seq<char>>)
    requires
        a.is_prefix_of(b),
        b.is_prefix_of(c),
    ensures
        a.is_prefix_of(c),
{
    assert forall|i: int| 0 <= i < a.len() implies a[i] == c[i] by {
        lemma_prefix_index(a, b, i);
        lemma_prefix_index(b, c, i);
    }
    assert(a =~= c.subrange(0, a.len() as int));
}

/// A duplicate-free list drawn from the universe is no longer than the universe.
proof fn lemma_distinct_bound(s: Seq<Seq<char>>, u: Seq<Seq<char>>)
    requires
        s.no_duplicates(),
        forall|x: Seq<char>| #[trigger] s.contains(x) ==> u.contains(x),
    ensures
        s.len() <= u.len(),
{
    s.unique_seq_to_set();
    u.lemma_cardinality_of_set();
    assert(s.to_set().subset_of(u.to_set()));
    vstd::set_lib::lemma_len_subset(s.to_set(), u.to_set());
}

/// Along a path from a node of a closed `black` list, every node sits at an index no later.
proof fn lemma_path_descends(adj: AdjView, black: Seq<Seq<char>>, p: Seq<Seq<char>>, i0: int)
    requires
        black_closed(adj, black),
        is_path(adj, p),
        0 <= i0 < black.len(),
        black[i0] == p[0],
    ensures
        exists|j: int| 0 <= j <= i0 && black[j] == p.last(),
        p.len() > 1 ==> exists|j: int| 0 <= j < i0 && black[j] == p.last(),
    decreases p.len(),
{
    if p.len() > 1 {
        let q = p.drop_last();
        assert(is_path(adj, q)) by {
            assert forall|i: int| 0 <= i < q.len() - 1 implies edge(adj, #[trigger] q[i], q[i + 1]) by {
                assert(q[i] == p[i] && q[i + 1] == p[i + 1]);
            }
        }
        lemma_path_descends(adj, black, q, i0);
        let j1 = choose|j: int| 0 <= j <= i0 && black[j] == q.last();
        assert(edge(adj, p[p.len() - 2], p[p.len() - 1]));
        assert(edge(adj, black[j1], p.last()));
        let j2 = choose|j: int| 0 <= j < j1 && black[j] == p.last();
        assert(black[j2] == p.last());
    }
}

/// When every key is in a closed, duplicate-free `black` list, there is no cycle.
proof fn lemma_closed_acyclic(adj: AdjView, black: Seq<Seq<char>>)
    requires
        black_closed(adj, black),
        black.no_duplicates(),
        forall|k: Seq<char>| #[trigger] keys(adj).contains(k) ==> black.contains(k),
    ensures
        !has_cycle(adj),
{
    if has_cycle(adj) {
        let (u, v) = choose|u: Seq<char>, v: Seq<char>| #[trigger] edge(adj, u, v) && reaches(adj, v, u);
        lemma_lookup_some(adj, u);
        assert(black.contains(u));
        let iu = choose|i: int| 0 <= i < black.len() && black[i] == u;
        let iv = choose|j: int| 0 <= j < iu && black[j] == v;
        let p = choose|p: Seq<Seq<char>>| #[trigger] is_path(adj, p) && p[0] == v && p.last() == u;
        lemma_path_descends(adj, black, p, iv);
        let j = choose|j: int| 0 <= j <= iv && black[j] == p.last();
        assert(black[j] == black[iu]);
    }
}

/// The metadata of each dataset entry, by id.
pub type MetaMapView = Seq<(Seq<char>, MetaDataView)>;

pub open spec fn metas_view(d: Seq<(String, DSFDataSet)>) -> MetaMapView {
    d.map_values(|e: (String, DSFDataSet)| (e.0@, e.1.metadata@))
}

/// Content hashes as they are now on disk, by dataset id.
pub type HashMapView = Seq<(Seq<char>, Seq<char>)>;

pub open spec fn hashes_view(h: Seq<(String, String)>) -> HashMapView {
    h.map_values(|e: (String, String)| (e.0@, e.1@))
}

/// The current hash recorded for `n` (empty when none is).
pub open spec fn hash_of(h: HashMapView, n: Seq<char>) -> Seq<char> {
    match lookup(h, n) {
        Some(x) => x,
        None => Seq::empty(),
    }
}

/// Bottom-up verification of node `n`, looking at most `fuel` levels down: each node's
/// verdict is `single_status` of its metadata, its current hash and its dependencies' verdicts.
pub open spec fn eval(adj: AdjView, ms: MetaMapView, h: HashMapView, n: Seq<char>, fuel: nat) -> Option<VerifyResView>
    decreases fuel, 0nat,
{
    if fuel == 0 {
        None
    } else {
        match lookup(adj, n) {
            None => None,
            Some(deps) => match lookup(ms, n) {
                None => None,
                Some(m) => match dep_verdicts(adj, ms, h, deps, (fuel - 1) as nat) {
                    None => None,
                    Some(st) => Some(VerifyResView { status: single_status(m, hash_of(h, n), st), dep_status: st }),
                },
            },
        }
    }
}

/// The verdicts of a list of dependencies, when each is reached with the given fuel.
pub open spec fn dep_verdicts(adj: AdjView, ms: MetaMapView, h: HashMapView, deps: Seq<Seq<char>>, fuel: nat) -> Option<Seq<DataSetStatus>>
    decreases fuel, deps.len() + 1,
{
    if deps.len() == 0 {
        Some(Seq::empty())
    } else {
        match (eval(adj, ms, h, deps[0], fuel), dep_verdicts(adj, ms, h, deps.drop_first(), fuel)) {
            (Some(r), Some(rest)) => Some(seq![r.status] + rest),
            _ => None,
        }
    }
}

/// The verdict of `n` in an acyclic graph: every path is shorter than the universe.
pub open spec fn verdict(adj: AdjView, ms: MetaMapView, h: HashMapView, n: Seq<char>) -> Option<VerifyResView> {
    eval(adj, ms, h, n, (universe(adj).len() + 1) as nat)
}

/// Every node reached is a key with a dataset, every open dataset has a current hash, and
/// the root is a node.
pub open spec fn graph_complete(adj: AdjView, ms: MetaMapView, h: HashMapView, root: Seq<char>) -> bool {
    &&& keys(adj).contains(root)
    &&& forall|x: Seq<char>| #[trigger] universe(adj).contains(x) ==> keys(adj).contains(x)
    &&& forall|x: Seq<char>| #[trigger] keys(adj).contains(x) ==> lookup(ms, x) is Some
    &&& forall|x: Seq<char>| #[trigger] keys(adj).contains(x) && lookup(ms, x) is Some && spec_is_open(lookup(ms, x).unwrap().busy_status) ==> lookup(h, x) is Some
}

/// `dep_verdicts` lists each dependency's status when every dependency has a verdict.
pub proof fn lemma_dep_verdicts(adj: AdjView, ms: MetaMapView, h: HashMapView, deps: Seq<Seq<char>>, fuel: nat)
    ensures
        dep_verdicts(adj, ms, h, deps, fuel) is Some <==> forall|k: int| 0 <= k < deps.len() ==> #[trigger] eval(adj, ms, h, deps[k], fuel) is Some,
        dep_verdicts(adj, ms, h, deps, fuel) matches Some(st) ==> st.len() == deps.len() && forall|k: int| 0 <= k < deps.len() ==> st[k] == #[trigger] eval(adj, ms, h, deps[k], fuel).unwrap().status,
    decreases deps.len(),
{
    if deps.len() > 0 {
        lemma_dep_verdicts(adj, ms, h, deps.drop_first(), fuel);
        assert forall|k: int| 0 < k < deps.len() implies deps.drop_first()[k - 1] == #[trigger] deps[k] by {}
        if forall|k: int| 0 <= k < deps.len() ==> #[trigger] eval(adj, ms, h, deps[k], fuel) is Some {
            assert forall|k: int| 0 <= k < deps.drop_first().len() implies #[trigger] eval(adj, ms, h, deps.drop_first()[k], fuel) is Some by {
                assert(deps.drop_first()[k] == deps[k + 1]);
            }
        }
        if dep_verdicts(adj, ms, h, deps, fuel) is Some {
            assert forall|k: int| 0 <= k < deps.len() implies #[trigger] eval(adj, ms, h, deps[k], fuel) is Some by {
                if k > 0 {
                    assert(deps.drop_first()[k - 1] == deps[k]);
                }
            }
            let st = dep_verdicts(adj, ms, h, deps, fuel).unwrap();
            let rest = dep_verdicts(adj, ms, h, deps.drop_first(), fuel).unwrap();
            assert(st == seq![eval(adj, ms, h, deps[0], fuel).unwrap().status] + rest);
            assert forall|k: int| 0 <= k < deps.len() implies st[k] == #[trigger] eval(adj, ms, h, deps[k], fuel).unwrap().status by {
                if k > 0 {
                    assert(st[k] == rest[k - 1]);
                    assert(deps.drop_first()[k - 1] == deps[k]);
                }
            }
        }
    }
}

/// `n` has open metadata but no current hash.
pub open spec fn open_without_hash(ms: MetaMapView, h: HashMapView, n: Seq<char>) -> bool {
    &&& lookup(ms, n) is Some
    &&& spec_is_open(lookup(ms, n).unwrap().busy_status)
    &&& lookup(h, n) is None
}

/// More fuel does not change a verdict that is already reached.
pub proof fn lemma_eval_mono(adj: AdjView, ms: MetaMapView, h: HashMapView, n: Seq<char>, f: nat, f2: nat)
    requires
        eval(adj, ms, h, n, f) is Some,
        f <= f2,
    ensures
        eval(adj, ms, h, n, f2) == eval(adj, ms, h, n, f),
    decreases f, 0nat,
{
    let deps = lookup(adj, n).unwrap();
    lemma_dep_verdicts_mono(adj, ms, h, deps, (f - 1) as nat, (f2 - 1) as nat);
}

pub proof fn lemma_dep_verdicts_mono(adj: AdjView, ms: MetaMapView, h: HashMapView, deps: Seq<Seq<char>>, f: nat, f2: nat)
    requires
        dep_verdicts(adj, ms, h, deps, f) is Some,
        f <= f2,
    ensures
        dep_verdicts(adj, ms, h, deps, f2) == dep_verdicts(adj, ms, h, deps, f),
    decreases f, deps.len() + 1,
{
    if deps.len() > 0 {
        lemma_eval_mono(adj, ms, h, deps[0], f, f2);
        lemma_dep_verdicts_mono(adj, ms, h, deps.drop_first(), f, f2);
    }
}

proof fn lemma_topo_enter(adj: AdjView, stack: Seq<Seq<char>>, node: Seq<char>, v0: Seq<Seq<char>>, v1: Seq<Seq<char>>, o0: Seq<Seq<char>>)
    requires
        v1 == v0.push(node),
        !v0.contains(node),
        forall|x: Seq<char>| #[trigger] v0.contains(x) <==> (stack.contains(x) || o0.contains(x)),
        v0.no_duplicates(),
        stack.no_duplicates(),
        forall|x: Seq<char>| stack.contains(x) ==> !o0.contains(x),
        stack.len() == 0 || is_path(adj, stack),
        stack.len() > 0 ==> edge(adj, stack.last(), node),
        forall|x: Seq<char>| #[trigger] v0.contains(x) ==> universe(adj).contains(x),
        universe(adj).contains(node),
    ensures
        is_path(adj, stack.push(node)),
        stack.push(node).no_duplicates(),
        stack.push(node).last() == node,
        v1.no_duplicates(),
        forall|x: Seq<char>| #[trigger] v1.contains(x) <==> (stack.push(node).contains(x) || o0.contains(x)),
        forall|x: Seq<char>| #[trigger] v1.contains(x) ==> universe(adj).contains(x),
        forall|x: Seq<char>| stack.push(node).contains(x) ==> !o0.contains(x),
        v0.is_prefix_of(v1),
{
    let st1 = stack.push(node);
    let node_ = node;
        let ghost st1 = stack.push(node_);
        assert(is_path(adj, st1)) by {
            assert forall|i: int| 0 <= i < st1.len() - 1 implies edge(adj, #[trigger] st1[i], st1[i + 1]) by {
                if i < st1.len() - 2 {
                    assert(st1[i] == stack[i] && st1[i + 1] == stack[i + 1]);
                }
            }
        }
        assert(st1.no_duplicates()) by {
            assert(!stack.contains(node_));
        }
        assert forall|x: Seq<char>| #[trigger] v1.contains(x) <==> (st1.contains(x) || o0.contains(x)) by {
            if v1.contains(x) && x != node_ {
                let k = choose|k: int| 0 <= k < v1.len() && v1[k] == x;
                assert(v0[k] == x);
            }
            if st1.contains(x) && x != node_ {
                let k = choose|k: int| 0 <= k < st1.len() && st1[k] == x;
                assert(stack[k] == x);
            }
            if x == node_ {
                assert(v1[v0.len() as int] == x);
                assert(st1[stack.len() as int] == x);
            }
            if v0.contains(x) {
                let k = choose|k: int| 0 <= k < v0.len() && v0[k] == x;
                assert(v1[k] == x);
            }
            if stack.contains(x) {
                let k = choose|k: int| 0 <= k < stack.len() && stack[k] == x;
                assert(st1[k] == x);
            }
        }
        assert forall|x: Seq<char>| #[trigger] v1.contains(x) implies universe(adj).contains(x) by {
            if x != node_ {
                let k = choose|k: int| 0 <= k < v1.len() && v1[k] == x;
                assert(v0[k] == x);
                assert(v0.contains(x));
            }
        }
        assert(forall|x: Seq<char>| st1.contains(x) ==> !o0.contains(x)) by {
            assert forall|x: Seq<char>| st1.contains(x) implies !o0.contains(x) by {
                if x == node_ {
                    assert(!v0.contains(x));
                } else {
                    let k = choose|k: int| 0 <= k < st1.len() && st1[k] == x;
                    assert(stack[k] == x);
                }
            }
        }
    assert(v0 =~= v1.subrange(0, v0.len() as int));
}

proof fn lemma_topo_exit(adj: AdjView, stack: Seq<Seq<char>>, node: Seq<char>, v0: Seq<Seq<char>>, v1: Seq<Seq<char>>, vf: Seq<Seq<char>>, o0: Seq<Seq<char>>, o1: Seq<Seq<char>>)
    requires
        v0.is_prefix_of(v1),
        v1.is_prefix_of(vf),
        o0.is_prefix_of(o1),
        black_closed(adj, o1),
        o1.no_duplicates(),
        forall|v: Seq<char>| edge(adj, node, v) ==> o1.contains(v),
        forall|x: Seq<char>| #[trigger] vf.contains(x) <==> (stack.push(node).contains(x) || o1.contains(x)),
        forall|x: Seq<char>| stack.push(node).contains(x) ==> !o1.contains(x),
        !stack.contains(node),
    ensures
        black_closed(adj, o1.push(node)),
        o0.is_prefix_of(o1.push(node)),
        v0.is_prefix_of(vf),
        o1.push(node).contains(node),
        o1.push(node).no_duplicates(),
        forall|x: Seq<char>| #[trigger] vf.contains(x) <==> (stack.contains(x) || o1.push(node).contains(x)),
        forall|x: Seq<char>| stack.contains(x) ==> !o1.push(node).contains(x),
{
    let o2 = o1.push(node);
    let st1 = stack.push(node);
    assert(st1[stack.len() as int] == node);
    assert(st1.contains(node));
    assert(!o1.contains(node));
    assert(black_closed(adj, o2)) by {
        assert forall|i: int, v: Seq<char>| 0 <= i < o2.len() && #[trigger] edge(adj, o2[i], v) implies exists|j: int| 0 <= j < i && o2[j] == v by {
            if i < o1.len() {
                assert(o2[i] == o1[i]);
                let j = choose|j: int| 0 <= j < i && o1[j] == v;
                assert(o2[j] == v);
            } else {
                assert(o1.contains(v));
                let j = choose|j: int| 0 <= j < o1.len() && o1[j] == v;
                assert(o2[j] == v);
            }
        }
    }
    lemma_prefix_push(o0, o1, node);
    lemma_prefix_trans(v0, v1, vf);
    assert(o2[o2.len() - 1] == node);
    assert forall|x: Seq<char>| #[trigger] vf.contains(x) <==> (stack.contains(x) || o2.contains(x)) by {
        if o2.contains(x) && x != node {
            let k = choose|k: int| 0 <= k < o2.len() && o2[k] == x;
            assert(o1[k] == x);
            assert(o1.contains(x));
        }
        if o1.contains(x) {
            let k = choose|k: int| 0 <= k < o1.len() && o1[k] == x;
            assert(o2[k] == x);
        }
        if stack.contains(x) {
            let k = choose|k: int| 0 <= k < stack.len() && stack[k] == x;
            assert(st1[k] == x);
        }
        if st1.contains(x) && x != node {
            let k = choose|k: int| 0 <= k < st1.len() && st1[k] == x;
            assert(stack[k] == x);
        }
    }
    assert forall|x: Seq<char>| stack.contains(x) implies !o2.contains(x) by {
        let k = choose|k: int| 0 <= k < stack.len() && stack[k] == x;
        assert(st1[k] == x);
        assert(st1.contains(x));
        if o2.contains(x) {
            let t = choose|t: int| 0 <= t < o2.len() && o2[t] == x;
            if t < o1.len() {
                assert(o1[t] == x);
                assert(o1.contains(x));
            }
        }
    }
    assert(o2.no_duplicates());
}

/// Replacing the entry at `di` (whose key is `n`) leaves the lookup of any other key alone.
proof fn lemma_lookup_update(pre: Seq<(String, DSFDataSet)>, di: int, k: Seq<char>, n: Seq<char>, post: Seq<(String, DSFDataSet)>)
    requires
        0 <= di < pre.len(),
        post.len() == pre.len(),
        pre[di].0@ == n,
        post[di].0@ == n,
        forall|j: int| 0 <= j < pre.len() && j != di ==> post[j] == pre[j],
        k != n,
    ensures
        lookup(datasets_view(post), k) == lookup(datasets_view(pre), k),
    decreases pre.len(),
{
    let a = datasets_view(pre);
    let b = datasets_view(post);
    if pre.len() > 0 {
        if di == 0 {
            assert(b.drop_first() =~= a.drop_first()) by {
                assert forall|j: int| 0 <= j < a.drop_first().len() implies b.drop_first()[j] == a.drop_first()[j] by {
                    assert(post[j + 1] == pre[j + 1]);
                }
            }
        } else {
            assert(post[0] == pre[0]);
            assert(a.drop_first() == datasets_view(pre.drop_first()));
            assert(b.drop_first() == datasets_view(post.drop_first()));
            lemma_lookup_update(pre.drop_first(), di - 1, k, n, post.drop_first());
        }
    }
}

impl DatasetGraph {
    pub open spec fn adj(&self) -> AdjView {
        adj_view(self.adj_list@)
    }

    /// An empty graph.
    pub fn new() -> (r: Self)
        ensures
            r.datasets@.len() == 0,
            r.adj_list@.len() == 0,
    {
        DatasetGraph { datasets: Vec::new(), adj_list: Vec::new() }
    }

    /// The dependencies recorded for `node`, by the first matching entry.
    pub fn deps_of(&self, node: &String) -> (r: Option<&Vec<String>>)
        ensures
            match r {
                Some(v) => lookup(self.adj(), node@) == Some(strings_view(v@)),
                None => lookup(self.adj(), node@) is None,
            },
    {
        let ghost a = self.adj();
        let mut i: usize = 0;
        assert(a.subrange(0, a.len() as int) =~= a);
        while i < self.adj_list.len()
            invariant
                a == self.adj(),
                a.len() == self.adj_list@.len(),
                i <= a.len(),
                lookup(a, node@) == lookup(a.subrange(i as int, a.len() as int), node@),
            decreases a.len() - i,
        {
            proof {
                lemma_lookup_step(a, i as int, node@);
            }
            if self.adj_list[i].0 == *node {
                return Some(&self.adj_list[i].1);
            }
            i = i + 1;
        }
        assert(a.subrange(a.len() as int, a.len() as int).len() == 0);
        None
    }

    /// Depth-first search from a white node; `gray` is the current DFS path and `black`
    /// lists finished nodes in the order they finished.
    fn dfs_cycle(&self, node: &String, gray: &mut Vec<String>, black: &mut Vec<String>) -> (r: Result<(), DatasetGraphError>)
        requires
            !strings_view(old(gray)@).contains(node@),
            !strings_view(old(black)@).contains(node@),
            is_path(self.adj(), strings_view(old(gray)@)) || old(gray)@.len() == 0,
            old(gray)@.len() > 0 ==> edge(self.adj(), strings_view(old(gray)@).last(), node@),
            black_closed(self.adj(), strings_view(old(black)@)),
            (strings_view(old(gray)@) + strings_view(old(black)@)).no_duplicates(),
            forall|x: Seq<char>| #[trigger] (strings_view(old(gray)@) + strings_view(old(black)@)).contains(x) ==> universe(self.adj()).contains(x),
            universe(self.adj()).contains(node@),
        ensures
            r is Ok ==> {
                &&& strings_view(final(gray)@) == strings_view(old(gray)@)
                &&& black_closed(self.adj(), strings_view(final(black)@))
                &&& strings_view(old(black)@).is_prefix_of(strings_view(final(black)@))
                &&& strings_view(final(black)@).contains(node@)
                &&& (strings_view(final(gray)@) + strings_view(final(black)@)).no_duplicates()
                &&& forall|x: Seq<char>| #[trigger] (strings_view(final(gray)@) + strings_view(final(black)@)).contains(x) ==> universe(self.adj()).contains(x)
            },
            r matches Err(e) ==> e matches DatasetGraphError::CycleDetected { node: n, dep: d } && edge(self.adj(), n@, d@) && reaches(self.adj(), d@, n@),
        decreases universe(self.adj()).len() - old(gray)@.len() - old(black)@.len(),
    {
        let ghost adj = self.adj();
        let ghost g0 = strings_view(gray@);
        let ghost b0 = strings_view(black@);
        proof {
            lemma_distinct_bound(g0 + b0, universe(adj));
        }
        gray.push(node.clone());
        assert(strings_view(gray@) =~= g0.push(node@));
        let ghost g1 = strings_view(gray@);
        assert(is_path(adj, g1)) by {
            assert forall|i: int| 0 <= i < g1.len() - 1 implies edge(adj, #[trigger] g1[i], g1[i + 1]) by {
                if i < g1.len() - 2 {
                    assert(g1[i] == g0[i] && g1[i + 1] == g0[i + 1]);
                }
            }
        }
        assert((g1 + b0).no_duplicates()) by {
            assert forall|i: int, j: int| 0 <= i < j < (g1 + b0).len() implies (g1 + b0)[i] != (g1 + b0)[j] by {
                let s = g0 + b0;
                if i < g0.len() && j < g0.len() {
                    assert((g1 + b0)[i] == s[i] && (g1 + b0)[j] == s[j]);
                } else if i < g0.len() && j == g0.len() {
                    assert((g1 + b0)[i] == s[i]);
                    assert(s.contains(s[i]));
                    if i < g0.len() { assert(g0[i] == s[i]); assert(g0.contains(s[i])); }
                } else if i < g0.len() {
                    assert((g1 + b0)[i] == s[i] && (g1 + b0)[j] == s[j - 1]);
                } else if i == g0.len() {
                    assert((g1 + b0)[j] == b0[j - g1.len()]);
                    assert(b0.contains(b0[j - g1.len()]));
                } else {
                    assert((g1 + b0)[i] == s[i - 1] && (g1 + b0)[j] == s[j - 1]);
                }
            }
        }
        assert forall|x: Seq<char>| #[trigger] (g1 + b0).contains(x) implies universe(adj).contains(x) by {
            let k = choose|k: int| 0 <= k < (g1 + b0).len() && (g1 + b0)[k] == x;
            if k < g0.len() {
                assert((g0 + b0)[k] == x);
                assert((g0 + b0).contains(x));
            } else if k > g0.len() {
                assert((g0 + b0)[k - 1] == x);
                assert((g0 + b0).contains(x));
            } else {
                assert(x == node@);
            }
        }
        proof {
            lemma_distinct_bound(g1 + b0, universe(adj));
        }
        let deps_opt = self.deps_of(node);
        proof {
            lemma_universe_contains(adj, node@);
        }
        match deps_opt {
            None => {},
            Some(deps) => {
                let ghost dv = strings_view(deps@);
                proof {
                    lemma_deps_in_universe(adj, node@, dv);
                }
                let mut j: usize = 0;
                while j < deps.len()
                    invariant
                        adj == self.adj(),
                        lookup(adj, node@) == Some(dv),
                        dv == strings_view(deps@),
                        j <= deps@.len(),
                        forall|d: Seq<char>| #[trigger] dv.contains(d) ==> universe(adj).contains(d),
                        strings_view(gray@) == g1,
                        is_path(adj, g1),
                        g1.last() == node@,
                        g1.len() == g0.len() + 1,
                        b0.is_prefix_of(strings_view(black@)),
                        black_closed(adj, strings_view(black@)),
                        (g1 + strings_view(black@)).no_duplicates(),
                        forall|x: Seq<char>| #[trigger] (g1 + strings_view(black@)).contains(x) ==> universe(adj).contains(x),
                        forall|k: int| 0 <= k < j ==> strings_view(black@).contains(#[trigger] dv[k]),
                        universe(adj).len() - g0.len() - b0.len() > 0,
                        g0.len() == old(gray)@.len(),
                        b0.len() == old(black)@.len(),
                    decreases deps@.len() - j,
                {
                    let dep = &deps[j];
                    assert(dv[j as int] == dep@);
                    assert(dv.contains(dep@));
                    if contains_string(gray, dep) {
                        let ghost gk = choose|k: int| 0 <= k < g1.len() && g1[k] == dep@;
                        let ghost p = g1.subrange(gk, g1.len() as int);
                        assert(is_path(adj, p)) by {
                            assert forall|i: int| 0 <= i < p.len() - 1 implies edge(adj, #[trigger] p[i], p[i + 1]) by {
                                assert(p[i] == g1[gk + i] && p[i + 1] == g1[gk + i + 1]);
                            }
                        }
                        assert(p[0] == dep@ && p.last() == node@);
                        assert(edge(adj, node@, dep@));
                        return Err(DatasetGraphError::CycleDetected { node: node.clone(), dep: dep.clone() });
                    } else if contains_string(black, dep) {
                    } else {
                        let ghost bl = strings_view(black@);
                        assert((g1 + bl).len() == g1.len() + bl.len());
                        proof {
                            lemma_distinct_bound(g1 + bl, universe(adj));
                            assert(b0.len() <= bl.len());
                        }
                        assert(!strings_view(gray@).contains(dep@));
                        assert(gray@.len() == g0.len() + 1);
                        assert(black@.len() == bl.len());
                        assert(g0.len() == old(gray)@.len());
                        assert(b0.len() == old(black)@.len());
                        assert(universe(self.adj()).len() - gray@.len() - black@.len() < universe(self.adj()).len() - old(gray)@.len() - old(black)@.len());
                        assert(universe(self.adj()).len() - gray@.len() - black@.len() >= 0);
                        assert(edge(adj, g1.last(), dep@));
                        self.dfs_cycle(dep, gray, black)?;
                        proof {
                            let bl2 = strings_view(black@);
                            lemma_prefix_trans(b0, bl, bl2);
                            assert forall|k: int| 0 <= k < j implies bl2.contains(#[trigger] dv[k]) by {
                                let t = choose|t: int| 0 <= t < bl.len() && bl[t] == dv[k];
                                lemma_prefix_index(bl, bl2, t);
                            }
                        }
                    }
                    j = j + 1;
                }
                assert forall|v: Seq<char>| edge(adj, node@, v) implies strings_view(black@).contains(v) by {
                    let k = choose|k: int| 0 <= k < dv.len() && dv[k] == v;
                }
            },
        }
        let ghost b1 = strings_view(black@);
        let ghost gv = gray@;
        assert(strings_view(gv) == g1);
        gray.pop();
        assert(gray@ =~= gv.drop_last());
        assert(strings_view(gray@) =~= g0) by {
            assert forall|i: int| 0 <= i < g0.len() implies strings_view(gray@)[i] == g0[i] by {
                assert(gray@[i] == gv[i]);
                assert(strings_view(gv)[i] == g1[i]);
            }
        }
        black.push(node.clone());
        let ghost b2 = strings_view(black@);
        assert(b2 =~= b1.push(node@));
        assert(black_closed(adj, b2)) by {
            assert forall|i: int, v: Seq<char>| 0 <= i < b2.len() && #[trigger] edge(adj, b2[i], v) implies exists|j: int| 0 <= j < i && b2[j] == v by {
                if i < b1.len() {
                    assert(b2[i] == b1[i]);
                    let j = choose|j: int| 0 <= j < i && b1[j] == v;
                    assert(b2[j] == v);
                } else {
                    assert(b1.contains(v));
                    let j = choose|j: int| 0 <= j < b1.len() && b1[j] == v;
                    assert(b2[j] == v);
                }
            }
        }
        assert(b0.is_prefix_of(b2)) by {
            assert forall|i: int| 0 <= i < b0.len() implies b0[i] == b2[i] by {
                assert(b0[i] == b1[i]);
            }
        }
        assert(b2[b2.len() - 1] == node@);
        assert((g0 + b2).no_duplicates()) by {
            let s1 = g1 + b1;
            let s2 = g0 + b2;
            assert forall|i: int, j: int| 0 <= i < j < s2.len() implies s2[i] != s2[j] by {
                if j < s2.len() - 1 {
                    if i < g0.len() {
                        assert(s2[i] == s1[i]);
                    } else {
                        assert(s2[i] == s1[i + 1]);
                    }
                    if j < g0.len() {
                        assert(s2[j] == s1[j]);
                    } else {
                        assert(s2[j] == s1[j + 1]);
                    }
                } else {
                    assert(s2[j] == node@);
                    assert(s1[g0.len() as int] == node@);
                    if i < g0.len() {
                        assert(s2[i] == s1[i]);
                    } else {
                        assert(s2[i] == s1[i + 1]);
                    }
                }
            }
        }
        assert forall|x: Seq<char>| #[trigger] (g0 + b2).contains(x) implies universe(adj).contains(x) by {
            let s1 = g1 + b1;
            let s2 = g0 + b2;
            let k = choose|k: int| 0 <= k < s2.len() && s2[k] == x;
            if k == s2.len() - 1 {
                assert(x == node@);
            } else if k < g0.len() {
                assert(s1[k] == x);
                assert(s1.contains(x));
            } else {
                assert(s1[k + 1] == x);
                assert(s1.contains(x));
            }
        }
        Ok(())
    }

    /// Post-order depth-first search from an unvisited node of an acyclic graph: every
    /// node is appended to `order` after all its dependencies. `stack` is the current path.
    fn dfs_topo(&self, node: &String, visited: &mut Vec<String>, order: &mut Vec<String>, Ghost(stack): Ghost<Seq<Seq<char>>>)
        requires
            !has_cycle(self.adj()),
            !strings_view(old(visited)@).contains(node@),
            forall|x: Seq<char>| #[trigger] strings_view(old(visited)@).contains(x) <==> (stack.contains(x) || strings_view(old(order)@).contains(x)),
            strings_view(old(visited)@).no_duplicates(),
            strings_view(old(order)@).no_duplicates(),
            stack.no_duplicates(),
            forall|x: Seq<char>| stack.contains(x) ==> !strings_view(old(order)@).contains(x),
            stack.len() == 0 || is_path(self.adj(), stack),
            stack.len() > 0 ==> edge(self.adj(), stack.last(), node@),
            black_closed(self.adj(), strings_view(old(order)@)),
            forall|x: Seq<char>| #[trigger] strings_view(old(visited)@).contains(x) ==> universe(self.adj()).contains(x),
            universe(self.adj()).contains(node@),
        ensures
            strings_view(old(order)@).is_prefix_of(strings_view(final(order)@)),
            strings_view(old(visited)@).is_prefix_of(strings_view(final(visited)@)),
            strings_view(final(order)@).contains(node@),
            strings_view(final(order)@).no_duplicates(),
            strings_view(final(visited)@).no_duplicates(),
            black_closed(self.adj(), strings_view(final(order)@)),
            forall|x: Seq<char>| #[trigger] strings_view(final(visited)@).contains(x) <==> (stack.contains(x) || strings_view(final(order)@).contains(x)),
            forall|x: Seq<char>| stack.contains(x) ==> !strings_view(final(order)@).contains(x),
            forall|x: Seq<char>| #[trigger] strings_view(final(visited)@).contains(x) ==> universe(self.adj()).contains(x),
        decreases universe(self.adj()).len() - old(visited)@.len(),
    {
        let ghost adj = self.adj();
        let ghost v0 = strings_view(visited@);
        let ghost o0 = strings_view(order@);
        proof {
            lemma_distinct_bound(v0, universe(adj));
        }
        visited.push(node.clone());
        let ghost v1 = strings_view(visited@);
        assert(v1 =~= v0.push(node@));
        let ghost st1 = stack.push(node@);
        proof {
            lemma_topo_enter(adj, stack, node@, v0, v1, o0);
        }
        assert(o0.is_prefix_of(o0)) by {
            assert(o0 =~= o0.subrange(0, o0.len() as int));
        }
        assert(v1.is_prefix_of(v1)) by {
            assert(v1 =~= v1.subrange(0, v1.len() as int));
        }
        proof {
            lemma_distinct_bound(v1, universe(adj));
        }
        let deps_opt = self.deps_of(node);
        match deps_opt {
            None => {},
            Some(deps) => {
                let ghost dv = strings_view(deps@);
                proof {
                    lemma_deps_in_universe(adj, node@, dv);
                }
                let mut j: usize = 0;
                while j < deps.len()
                    invariant
                        adj == self.adj(),
                        !has_cycle(adj),
                        lookup(adj, node@) == Some(dv),
                        dv == strings_view(deps@),
                        j <= deps@.len(),
                        forall|d: Seq<char>| #[trigger] dv.contains(d) ==> universe(adj).contains(d),
                        is_path(adj, st1),
                        st1.no_duplicates(),
                        st1.last() == node@,
                        v1.is_prefix_of(strings_view(visited@)),
                        o0.is_prefix_of(strings_view(order@)),
                        strings_view(order@).no_duplicates(),
                        strings_view(visited@).no_duplicates(),
                        black_closed(adj, strings_view(order@)),
                        forall|x: Seq<char>| #[trigger] strings_view(visited@).contains(x) <==> (st1.contains(x) || strings_view(order@).contains(x)),
                        forall|x: Seq<char>| st1.contains(x) ==> !strings_view(order@).contains(x),
                        forall|x: Seq<char>| #[trigger] strings_view(visited@).contains(x) ==> universe(adj).contains(x),
                        forall|k: int| 0 <= k < j ==> strings_view(order@).contains(#[trigger] dv[k]),
                        v0.len() == old(visited)@.len(),
                        v1.len() == v0.len() + 1,
                    decreases deps@.len() - j,
                {
                    let dep = &deps[j];
                    assert(dv[j as int] == dep@);
                    assert(dv.contains(dep@));
                    let ghost vb = strings_view(visited@);
                    let ghost ob = strings_view(order@);
                    if !contains_string(visited, dep) {
                        proof {
                            lemma_distinct_bound(vb, universe(adj));
                            lemma_prefix_len(v1, vb);
                        }
                        assert(edge(adj, st1.last(), dep@));
                        assert(visited@.len() == vb.len());
                        assert(v1.len() == v0.len() + 1);
                        self.dfs_topo(dep, visited, order, Ghost(st1));
                        proof {
                            let ob2 = strings_view(order@);
                            let vb2 = strings_view(visited@);
                            lemma_prefix_trans(o0, ob, ob2);
                            lemma_prefix_trans(v1, vb, vb2);
                            assert forall|k: int| 0 <= k < j + 1 implies ob2.contains(#[trigger] dv[k]) by {
                                if k < j {
                                    let t = choose|t: int| 0 <= t < ob.len() && ob[t] == dv[k];
                                    lemma_prefix_index(ob, ob2, t);
                                }
                            }
                        }
                    } else {
                        proof {
                            if st1.contains(dep@) {
                                let gk = choose|k: int| 0 <= k < st1.len() && st1[k] == dep@;
                                let p = st1.subrange(gk, st1.len() as int);
                                assert(is_path(adj, p)) by {
                                    assert forall|i: int| 0 <= i < p.len() - 1 implies edge(adj, #[trigger] p[i], p[i + 1]) by {
                                        assert(p[i] == st1[gk + i] && p[i + 1] == st1[gk + i + 1]);
                                    }
                                }
                                assert(p[0] == dep@ && p.last() == node@);
                                assert(edge(adj, node@, dep@) && reaches(adj, dep@, node@));
                                assert(has_cycle(adj));
                            }
                            assert(ob.contains(dep@));
                        }
                    }
                    j = j + 1;
                }
                assert forall|v: Seq<char>| edge(adj, node@, v) implies strings_view(order@).contains(v) by {
                    let k = choose|k: int| 0 <= k < dv.len() && dv[k] == v;
                }
            },
        }
        let ghost o1 = strings_view(order@);
        let ghost vf = strings_view(visited@);
        order.push(node.clone());
        let ghost o2 = strings_view(order@);
        assert(o2 =~= o1.push(node@));
        assert(!stack.contains(node@));
        proof {
            lemma_prefix_len(v0, v1);
            lemma_topo_exit(adj, stack, node@, v0, v1, vf, o0, o1);
        }
    }

    /// All nodes reachable from the keys, each after its dependencies.
    fn topo_order(&self) -> (order: Vec<String>)
        requires
            !has_cycle(self.adj()),
        ensures
            black_closed(self.adj(), strings_view(order@)),
            strings_view(order@).no_duplicates(),
            forall|x: Seq<char>| #[trigger] strings_view(order@).contains(x) ==> universe(self.adj()).contains(x),
            forall|k: Seq<char>| #[trigger] keys(self.adj()).contains(k) ==> strings_view(order@).contains(k),
    {
        let ghost adj = self.adj();
        let mut visited: Vec<String> = Vec::new();
        let mut order: Vec<String> = Vec::new();
        let mut i: usize = 0;
        while i < self.adj_list.len()
            invariant
                adj == self.adj(),
                !has_cycle(adj),
                adj.len() == self.adj_list@.len(),
                i <= adj.len(),
                forall|x: Seq<char>| #[trigger] strings_view(visited@).contains(x) <==> strings_view(order@).contains(x),
                strings_view(visited@).no_duplicates(),
                strings_view(order@).no_duplicates(),
                black_closed(adj, strings_view(order@)),
                forall|x: Seq<char>| #[trigger] strings_view(visited@).contains(x) ==> universe(adj).contains(x),
                forall|k: int| 0 <= k < i ==> strings_view(order@).contains(#[trigger] keys(adj)[k]),
            decreases adj.len() - i,
        {
            let key = &self.adj_list[i].0;
            assert(keys(adj)[i as int] == key@);
            let ghost ob = strings_view(order@);
            if !contains_string(&visited, key) {
                proof {
                    assert(keys(adj).contains(key@));
                    lemma_lookup_some(adj, key@);
                    lemma_universe_contains(adj, key@);
                }
                self.dfs_topo(key, &mut visited, &mut order, Ghost(Seq::empty()));
                proof {
                    let ob2 = strings_view(order@);
                    assert forall|k: int| 0 <= k < i implies ob2.contains(#[trigger] keys(adj)[k]) by {
                        let t = choose|t: int| 0 <= t < ob.len() && ob[t] == keys(adj)[k];
                        lemma_prefix_index(ob, ob2, t);
                    }
                }
            }
            i = i + 1;
        }
        assert forall|k: Seq<char>| #[trigger] keys(adj).contains(k) implies strings_view(order@).contains(k) by {
            let t = choose|t: int| 0 <= t < keys(adj).len() && keys(adj)[t] == k;
        }
        proof {
            assert forall|x: Seq<char>| #[trigger] strings_view(order@).contains(x) implies universe(adj).contains(x) by {
                assert(strings_view(visited@).contains(x));
            }
        }
        order
    }

    /// The statuses already computed for the dependencies of `order[t]`.
    fn collect_dep_statuses(
        results: &Vec<(String, DataSetVerifyRes)>,
        deps: &Vec<String>,
        Ghost(adj): Ghost<AdjView>,
        Ghost(ms): Ghost<MetaMapView>,
        Ghost(h): Ghost<HashMapView>,
        Ghost(ov): Ghost<Seq<Seq<char>>>,
        Ghost(t): Ghost<int>,
    ) -> (r: Result<Vec<DataSetStatus>, String>)
        requires
            0 <= t < ov.len(),
            ov.no_duplicates(),
            results@.len() == t,
            forall|i: int| 0 <= i < t ==> #[trigger] results@[i].0@ == ov[i],
            forall|i: int| 0 <= i < t ==> eval(adj, ms, h, ov[i], (i + 1) as nat) == Some(#[trigger] results@[i].1@),
            forall|d: Seq<char>| #[trigger] strings_view(deps@).contains(d) ==> exists|j: int| 0 <= j < t && ov[j] == d,
        ensures
            r matches Ok(st) && dep_verdicts(adj, ms, h, strings_view(deps@), t as nat) == Some(st@),
    {
        let ghost dv = strings_view(deps@);
        let mut st: Vec<DataSetStatus> = Vec::new();
        let mut k: usize = 0;
        while k < deps.len()
            invariant
                0 <= t < ov.len(),
                ov.no_duplicates(),
                results@.len() == t,
                forall|i: int| 0 <= i < t ==> #[trigger] results@[i].0@ == ov[i],
                forall|i: int| 0 <= i < t ==> eval(adj, ms, h, ov[i], (i + 1) as nat) == Some(#[trigger] results@[i].1@),
                forall|d: Seq<char>| #[trigger] dv.contains(d) ==> exists|j: int| 0 <= j < t && ov[j] == d,
                dv == strings_view(deps@),
                k <= deps@.len(),
                st@.len() == k,
                forall|q: int| 0 <= q < k ==> #[trigger] eval(adj, ms, h, dv[q], t as nat) is Some && st@[q] == eval(adj, ms, h, dv[q], t as nat).unwrap().status,
            decreases deps@.len() - k,
        {
            let dep = &deps[k];
            assert(dv[k as int] == dep@);
            assert(dv.contains(dep@));
            let ghost j = choose|j: int| 0 <= j < t && ov[j] == dep@;
            match assoc_find(results, dep) {
                Some(i) => {
                    assert(results@[i as int].0@ == ov[i as int]);
                    assert(ov[i as int] == ov[j]);
                    assert(i as int == j);
                    proof {
                        assert(eval(adj, ms, h, ov[j], (j + 1) as nat) == Some(results@[j].1@));
                        lemma_eval_mono(adj, ms, h, ov[j], (j + 1) as nat, t as nat);
                    }
                    st.push(results[i].1.status);
                },
                None => {
                    assert(results@[j].0@ == ov[j]);
                    return Err(dep.clone());
                },
            }
            k = k + 1;
        }
        proof {
            lemma_dep_verdicts(adj, ms, h, dv, t as nat);
            assert(forall|q: int| 0 <= q < dv.len() ==> #[trigger] eval(adj, ms, h, dv[q], t as nat) is Some);
            let sv = dep_verdicts(adj, ms, h, dv, t as nat).unwrap();
            assert forall|q: int| 0 <= q < dv.len() implies sv[q] == st@[q] by {
                assert(eval(adj, ms, h, dv[q], t as nat) is Some);
            }
            assert(sv =~= st@);
        }
        Ok(st)
    }

    /// Verifies the whole graph bottom up, then reports the result of `root_id`.
    /// `current_hashes` gives, by dataset id, the hash of each dataset's content as it is
    /// now on disk; it is read only for datasets that are not fenced.
    /// The result is the `verdict` of the root: a node is Healthy only when its own hash
    /// matches and all its dependencies are Healthy.
    #[verifier::rlimit(40)]
    pub fn verify_subgraph(&mut self, root_id: &str, current_hashes: &Vec<(String, String)>) -> (r: Result<DataSetVerifyRes, DatasetGraphError>)
        ensures
            final(self).adj_list@ == old(self).adj_list@,
            metas_view(final(self).datasets@) == metas_view(old(self).datasets@),
            (!has_cycle(old(self).adj()) && graph_complete(old(self).adj(), metas_view(old(self).datasets@), hashes_view(current_hashes@), root_id@)) ==> r is Ok,
            r matches Ok(v) ==> !has_cycle(old(self).adj()) && verdict(old(self).adj(), metas_view(old(self).datasets@), hashes_view(current_hashes@), root_id@) == Some(v@),
            r is Ok ==> forall|k: Seq<char>| #[trigger] keys(old(self).adj()).contains(k) && lookup(datasets_view(final(self).datasets@), k) is Some ==> Some(lookup(datasets_view(final(self).datasets@), k).unwrap().detailed_status) == verdict(old(self).adj(), metas_view(old(self).datasets@), hashes_view(current_hashes@), k),
            r matches Err(DatasetGraphError::CycleDetected { .. }) ==> datasets_view(final(self).datasets@) == datasets_view(old(self).datasets@),
            r matches Err(e) ==> match e {
                DatasetGraphError::CycleDetected { node: n, dep: d } => edge(old(self).adj(), n@, d@) && reaches(old(self).adj(), d@, n@),
                DatasetGraphError::GraphCorruption { node_id: n } => !has_cycle(old(self).adj()) && universe(old(self).adj()).contains(n@) && !keys(old(self).adj()).contains(n@),
                DatasetGraphError::DatasetNotFound { node_id: n } => !has_cycle(old(self).adj()) && keys(old(self).adj()).contains(n@) && lookup(metas_view(old(self).datasets@), n@) is None,
                DatasetGraphError::Io(_, _) => !has_cycle(old(self).adj()) && exists|n: Seq<char>| #[trigger] keys(old(self).adj()).contains(n) && open_without_hash(metas_view(old(self).datasets@), hashes_view(current_hashes@), n),
                DatasetGraphError::RootResultNotFound { .. } => !has_cycle(old(self).adj()) && !keys(old(self).adj()).contains(root_id@),
                DatasetGraphError::DependencyStatusMissing { .. } => false,
            },
    {
        self.check_cycle()?;
        let ghost adj = self.adj();
        let ghost ms = metas_view(self.datasets@);
        let ghost hv = hashes_view(current_hashes@);
        let order = self.topo_order();
        let ghost ov = strings_view(order@);
        proof {
            lemma_distinct_bound(ov, universe(adj));
        }
        let mut results: Vec<(String, DataSetVerifyRes)> = Vec::new();
        let mut t: usize = 0;
        while t < order.len()
            invariant
                adj == self.adj(),
                self.adj_list@ == old(self).adj_list@,
                ms == metas_view(self.datasets@),
                ms == metas_view(old(self).datasets@),
                hv == hashes_view(current_hashes@),
                !has_cycle(adj),
                ov == strings_view(order@),
                ov.len() <= universe(adj).len(),
                black_closed(adj, ov),
                ov.no_duplicates(),
                forall|x: Seq<char>| #[trigger] ov.contains(x) ==> universe(adj).contains(x),
                forall|k: Seq<char>| #[trigger] keys(adj).contains(k) ==> ov.contains(k),
                t <= ov.len(),
                results@.len() == t,
                forall|i: int| 0 <= i < t ==> #[trigger] results@[i].0@ == ov[i],
                forall|i: int| 0 <= i < t ==> eval(adj, ms, hv, ov[i], (i + 1) as nat) == Some(#[trigger] results@[i].1@),
                forall|i: int| 0 <= i < t ==> (lookup(datasets_view(self.datasets@), ov[i]) matches Some(dv) ==> dv.detailed_status == #[trigger] results@[i].1@),
            decreases ov.len() - t,
        {
            let node_id = &order[t];
            assert(ov[t as int] == node_id@);
            assert(ov.contains(node_id@));
            let deps = match self.deps_of(node_id) {
                Some(d) => d,
                None => {
                    proof {
                        lemma_lookup_some(adj, node_id@);
                    }
                    return Err(DatasetGraphError::GraphCorruption { node_id: node_id.clone() });
                },
            };
            let ghost dv = strings_view(deps@);
            proof {
                lemma_lookup_some(adj, node_id@);
                assert forall|d: Seq<char>| #[trigger] dv.contains(d) implies exists|j: int| 0 <= j < t && ov[j] == d by {
                    assert(edge(adj, ov[t as int], d));
                }
            }
            let st = match Self::collect_dep_statuses(&results, deps, Ghost(adj), Ghost(ms), Ghost(hv), Ghost(ov), Ghost(t as int)) {
                Ok(v) => v,
                Err(d) => {
                    return Err(DatasetGraphError::DependencyStatusMissing { node_id: node_id.clone(), dep_id: d });
                },
            };
            let di = match assoc_find(&self.datasets, node_id) {
                Some(i) => i,
                None => {
                    proof {
                        let mv = metas_view(self.datasets@);
                        assert forall|j: int| 0 <= j < mv.len() implies mv[j].0 != node_id@ by {
                            assert(mv[j].0 == self.datasets@[j].0@);
                        }
                        lemma_lookup_none(mv, node_id@);
                    }
                    return Err(DatasetGraphError::DatasetNotFound { node_id: node_id.clone() });
                },
            };
            proof {
                let mv = metas_view(self.datasets@);
                assert(mv[di as int].0 == node_id@);
                assert forall|j: int| 0 <= j < di implies mv[j].0 != node_id@ by {
                    assert(mv[j].0 == self.datasets@[j].0@);
                }
                lemma_lookup_first(mv, di as int, node_id@);
                let dsv = datasets_view(self.datasets@);
                assert forall|j: int| 0 <= j < di implies dsv[j].0 != node_id@ by {
                    assert(dsv[j].0 == self.datasets@[j].0@);
                }
                lemma_lookup_first(dsv, di as int, node_id@);
            }
            let empty = String::new();
            let hash: &String = if self.datasets[di].1.metadata.busy_status.is_open() {
                match assoc_find(current_hashes, node_id) {
                    Some(hi) => {
                        proof {
                            assert forall|j: int| 0 <= j < hi implies hv[j].0 != node_id@ by {
                                assert(hv[j].0 == current_hashes@[j].0@);
                            }
                            lemma_lookup_first(hv, hi as int, node_id@);
                        }
                        &current_hashes[hi].1
                    },
                    None => {
                        proof {
                            assert forall|j: int| 0 <= j < hv.len() implies hv[j].0 != node_id@ by {
                                assert(hv[j].0 == current_hashes@[j].0@);
                            }
                            lemma_lookup_none(hv, node_id@);
                            assert(keys(adj).contains(node_id@));
                        }
                        return Err(DatasetGraphError::Io(IoKind::NotFound, String::from_str("current content hash unavailable")));
                    },
                }
            } else {
                &empty
            };
            let ghost pre_ds = self.datasets@;
            let mut entry = self.datasets[di].1.clone();
            let res = entry.verify_single(hash.as_str(), st.as_slice());
            let key = self.datasets[di].0.clone();
            self.datasets.set(di, (key, entry));
            proof {
                let m = ms[di as int].1;
                assert(lookup(ms, node_id@) == Some(m));
                assert(eval(adj, ms, hv, node_id@, (t + 1) as nat) == Some(res@)) by {
                    assert(dep_verdicts(adj, ms, hv, dv, t as nat) == Some(st@));
                    if spec_is_open(m.busy_status) {
                        assert(hash_of(hv, node_id@) == hash@);
                    }
                }
                assert(metas_view(self.datasets@) =~= ms) by {
                    assert forall|j: int| 0 <= j < ms.len() implies metas_view(self.datasets@)[j] == ms[j] by {
                        if j != di {
                            assert(self.datasets@[j] == pre_ds[j]);
                        }
                    }
                }
                let dsv2 = datasets_view(self.datasets@);
                assert forall|j: int| 0 <= j < di implies dsv2[j].0 != node_id@ by {
                    assert(dsv2[j].0 == self.datasets@[j].0@);
                    assert(self.datasets@[j] == pre_ds[j]);
                }
                lemma_lookup_first(dsv2, di as int, node_id@);
            }
            results.push((node_id.clone(), res));
            proof {
                assert forall|i: int| 0 <= i < t + 1 implies (lookup(datasets_view(self.datasets@), ov[i]) matches Some(dv) ==> dv.detailed_status == #[trigger] results@[i].1@) by {
                    if i < t {
                        let dsv_pre = datasets_view(pre_ds);
                        let dsv2 = datasets_view(self.datasets@);
                        assert(ov[i] != node_id@);
                        lemma_lookup_update(pre_ds, di as int, ov[i], node_id@, self.datasets@);
                    }
                }
            }
            t = t + 1;
        }
        let root = String::from_str(root_id);
        match assoc_find(&results, &root) {
            Some(i) => {
                proof {
                    assert(results@[i as int].0@ == ov[i as int]);
                    assert(eval(adj, ms, hv, ov[i as int], (i + 1) as nat) == Some(results@[i as int].1@));
                    lemma_eval_mono(adj, ms, hv, ov[i as int], (i + 1) as nat, (universe(adj).len() + 1) as nat);
                    assert forall|k: Seq<char>| #[trigger] keys(adj).contains(k) && lookup(datasets_view(self.datasets@), k) is Some implies Some(lookup(datasets_view(self.datasets@), k).unwrap().detailed_status) == verdict(adj, ms, hv, k) by {
                        assert(ov.contains(k));
                        let q = choose|q: int| 0 <= q < ov.len() && ov[q] == k;
                        assert(results@[q].0@ == ov[q]);
                        assert(eval(adj, ms, hv, ov[q], (q + 1) as nat) == Some(results@[q].1@));
                        lemma_eval_mono(adj, ms, hv, ov[q], (q + 1) as nat, (universe(adj).len() + 1) as nat);
                    }
                }
                Ok(results[i].1.clone())
            },
            None => {
                proof {
                    if keys(adj).contains(root_id@) {
                        let q = choose|q: int| 0 <= q < ov.len() && ov[q] == root_id@;
                        assert(results@[q].0@ == ov[q]);
                    }
                }
                Err(DatasetGraphError::RootResultNotFound { root_id: root })
            },
        }
    }

    /// Detects a dependency cycle: `Ok` exactly when there is none; otherwise the reported
    /// pair is an edge `node -> dep` with `dep` reaching back to `node`.
    pub fn check_cycle(&self) -> (r: Result<(), DatasetGraphError>)
        ensures
            r is Ok <==> !has_cycle(self.adj()),
            r matches Err(e) ==> e matches DatasetGraphError::CycleDetected { node: n, dep: d } && edge(self.adj(), n@, d@) && reaches(self.adj(), d@, n@),
    {
        let ghost adj = self.adj();
        let mut gray: Vec<String> = Vec::new();
        let mut black: Vec<String> = Vec::new();
        let mut i: usize = 0;
        while i < self.adj_list.len()
            invariant
                adj == self.adj(),
                adj.len() == self.adj_list@.len(),
                i <= adj.len(),
                gray@.len() == 0,
                black_closed(adj, strings_view(black@)),
                strings_view(black@).no_duplicates(),
                forall|x: Seq<char>| #[trigger] strings_view(black@).contains(x) ==> universe(adj).contains(x),
                forall|k: int| 0 <= k < i ==> strings_view(black@).contains(#[trigger] keys(adj)[k]),
            decreases adj.len() - i,
        {
            let key = &self.adj_list[i].0;
            assert(keys(adj)[i as int] == key@);
            if !contains_string(&black, key) {
                assert(strings_view(gray@) =~= Seq::<Seq<char>>::empty());
                assert(strings_view(gray@) + strings_view(black@) =~= strings_view(black@));
                proof {
                    assert(keys(adj).contains(key@));
                    lemma_lookup_some(adj, key@);
                    lemma_universe_contains(adj, key@);
                }
                let ghost bl = strings_view(black@);
                match self.dfs_cycle(key, &mut gray, &mut black) {
                    Ok(()) => {},
                    Err(e) => {
                        return Err(e);
                    },
                }
                proof {
                    let b2 = strings_view(black@);
                    assert(strings_view(gray@) + b2 =~= b2);
                    assert forall|k: int| 0 <= k < i implies b2.contains(#[trigger] keys(adj)[k]) by {
                        let t = choose|t: int| 0 <= t < bl.len() && bl[t] == keys(adj)[k];
                        assert(b2[t] == bl[t]);
                    }
                }
            }
            i = i + 1;
        }
        proof {
            assert forall|k: Seq<char>| #[trigger] keys(adj).contains(k) implies strings_view(black@).contains(k) by {
                let t = choose|t: int| 0 <= t < keys(adj).len() && keys(adj)[t] == k;
            }
            lemma_closed_acyclic(adj, strings_view(black@));
        }
        Ok(())
    }
}

/// A path of one node.
proof fn lemma_reaches_refl(adj: AdjView, a: Seq<char>)
    ensures
        reaches(adj, a, a),
{
    let p = seq![a];
    assert(is_path(adj, p));
}

/// A path followed by an edge is a path.
proof fn lemma_reaches_step(adj: AdjView, a: Seq<char>, b: Seq<char>, c: Seq<char>)
    requires
        reaches(adj, a, b),
        edge(adj, b, c),
    ensures
        reaches(adj, a, c),
{
    let p = choose|p: Seq<Seq<char>>| #[trigger] is_path(adj, p) && p[0] == a && p.last() == b;
    let q = p.push(c);
    assert forall|i: int| 0 <= i < q.len() - 1 implies edge(adj, #[trigger] q[i], q[i + 1]) by {
        if i < p.len() - 1 {
            assert(q[i] == p[i] && q[i + 1] == p[i + 1]);
        }
    }
    assert(is_path(adj, q));
}

/// Adding an entry for a new key keeps every edge.
proof fn lemma_edge_extend(adj: AdjView, e: (Seq<char>, Seq<Seq<char>>), u: Seq<char>, v: Seq<char>)
    requires
        !keys(adj).contains(e.0),
        edge(adj, u, v),
    ensures
        edge(adj.push(e), u, v),
{
    lemma_lookup_push(adj, e, u);
}

/// Adding an entry for a new key keeps every path.
proof fn lemma_reaches_extend(adj: AdjView, e: (Seq<char>, Seq<Seq<char>>), a: Seq<char>, b: Seq<char>)
    requires
        !keys(adj).contains(e.0),
        reaches(adj, a, b),
    ensures
        reaches(adj.push(e), a, b),
{
    let p = choose|p: Seq<Seq<char>>| #[trigger] is_path(adj, p) && p[0] == a && p.last() == b;
    assert forall|i: int| 0 <= i < p.len() - 1 implies edge(adj.push(e), #[trigger] p[i], p[i + 1]) by {
        lemma_edge_extend(adj, e, p[i], p[i + 1]);
    }
    assert(is_path(adj.push(e), p));
}

/// The entry for `k` holds metadata that a store on this machine holds for `k`, and the
/// adjacency entry for `k` lists that metadata's dependencies.
pub open spec fn entry_found<B: DatasetBackend>(backend: StackedBackend<B>, adj: AdjView, ms: MetaMapView, k: Seq<char>) -> bool {
    &&& lookup(ms, k) is Some
    &&& backend.local_holds(k, lookup(ms, k).unwrap())
    &&& lookup(adj, k) == Some(lookup(ms, k).unwrap().dependencies)
}

/// What a depth-first exploration from `start` through the stores on this machine yields:
/// one entry per dataset met, holding a copy of its metadata from one of those stores and its
/// dependencies; every dependency is itself an entry; every start node is an entry; every
/// entry is reached from a start node.
pub open spec fn explored<B: DatasetBackend>(backend: StackedBackend<B>, start: Seq<Seq<char>>, adj: AdjView, ms: MetaMapView) -> bool {
    &&& keys(adj).no_duplicates()
    &&& keys(ms) == keys(adj)
    &&& forall|k: Seq<char>| #[trigger] keys(adj).contains(k) ==> entry_found(backend, adj, ms, k)
    &&& forall|u: Seq<char>, v: Seq<char>| #[trigger] edge(adj, u, v) ==> keys(adj).contains(v)
    &&& forall|s: Seq<char>| #[trigger] start.contains(s) ==> keys(adj).contains(s)
    &&& forall|k: Seq<char>| #[trigger] keys(adj).contains(k) ==> exists|s: Seq<char>| #[trigger] start.contains(s) && reaches(adj, s, k)
}

/// The copy of `k` that the stores on this machine give first: the private store's, else
/// the local global store's.
pub open spec fn local_copy<B: DatasetBackend>(backend: StackedBackend<B>, k: Seq<char>) -> MetaDataView {
    if backend.private_be.contents().contains_key(k) {
        backend.private_be.contents()[k]
    } else {
        backend.local_global_be.unwrap().1.contents()[k]
    }
}

/// `p` is a chain of datasets held on this machine, each listing the next among the
/// dependencies of its first copy (see `local_copy`).
pub open spec fn held_path<B: DatasetBackend>(backend: StackedBackend<B>, p: Seq<Seq<char>>) -> bool {
    &&& p.len() >= 1
    &&& forall|i: int| 0 <= i < p.len() - 1 ==> backend.local_ids().contains(#[trigger] p[i]) && local_copy(backend, p[i]).dependencies.contains(p[i + 1])
}

/// `x` is one of `start`, or a dependency reached from one of them through datasets held on
/// this machine.
#[verifier::opaque]
pub open spec fn held_reaches<B: DatasetBackend>(backend: StackedBackend<B>, start: Seq<Seq<char>>, x: Seq<char>) -> bool {
    exists|p: Seq<Seq<char>>| #[trigger] held_path(backend, p) && start.contains(p[0]) && p.last() == x
}

/// A dependency of a held dataset reached from `start` is reached from `start` too.
proof fn lemma_held_extend<B: DatasetBackend>(backend: StackedBackend<B>, start: Seq<Seq<char>>, c: Seq<char>, d: Seq<char>)
    requires
        held_reaches(backend, start, c),
        backend.local_ids().contains(c),
        local_copy(backend, c).dependencies.contains(d),
    ensures
        held_reaches(backend, start, d),
{
    reveal(held_reaches);
    let p = choose|p: Seq<Seq<char>>| #[trigger] held_path(backend, p) && start.contains(p[0]) && p.last() == c;
    let q = p.push(d);
    assert forall|i: int| 0 <= i < q.len() - 1 implies backend.local_ids().contains(#[trigger] q[i]) && local_copy(backend, q[i]).dependencies.contains(q[i + 1]) by {
        if i < p.len() - 1 {
            assert(q[i] == p[i] && q[i + 1] == p[i + 1]);
        } else {
            assert(q[i] == c && q[i + 1] == d);
        }
    }
    assert(held_path(backend, q) && q[0] == p[0] && q.last() == d);
}

/// Each of `start` is reached from `start`.
proof fn lemma_held_start<B: DatasetBackend>(backend: StackedBackend<B>, start: Seq<Seq<char>>, s: Seq<char>)
    requires
        start.contains(s),
    ensures
        held_reaches(backend, start, s),
{
    reveal(held_reaches);
    let p = seq![s];
    assert(held_path(backend, p) && p[0] == s && p.last() == s);
}

/// Each dataset of `ms` that the private store holds carries the private store's copy.
#[verifier::opaque]
pub open spec fn private_copies<B: DatasetBackend>(backend: StackedBackend<B>, ms: MetaMapView) -> bool {
    forall|i: int| 0 <= i < ms.len() && backend.private_be.contents().contains_key(#[trigger] ms[i].0)
        ==> ms[i].1 == backend.private_be.contents()[ms[i].0]
}

/// The graph for a new node `root` with dependencies `deps`: the exploration from `deps`,
/// with `root` listing `deps`, whether or not the exploration met a stored `root`.
pub open spec fn with_new_root<B: DatasetBackend>(backend: StackedBackend<B>, root: Seq<char>, deps: Seq<Seq<char>>, adj: AdjView, ms: MetaMapView) -> bool {
    ||| (keys(ms).contains(root) && exists|i: int| 0 <= i < adj.len() && #[trigger] adj[i] == (root, deps)
            && explored(backend, deps, adj.update(i, (root, lookup(ms, root).unwrap().dependencies)), ms))
    ||| (!keys(ms).contains(root) && adj.len() > 0 && adj.last() == (root, deps) && explored(backend, deps, adj.drop_last(), ms))
}

/// The keys of a list of entries, over views.
proof fn lemma_assoc_key(m: Seq<(String, Vec<String>)>, k: Seq<char>)
    ensures
        (exists|j: int| 0 <= j < m.len() && m[j].0@ == k) <==> keys(adj_view(m)).contains(k),
{
    let km = keys(adj_view(m));
    if exists|j: int| 0 <= j < m.len() && m[j].0@ == k {
        let j = choose|j: int| 0 <= j < m.len() && m[j].0@ == k;
        assert(km[j] == k);
    }
    if km.contains(k) {
        let j = choose|j: int| 0 <= j < km.len() && km[j] == k;
        assert(m[j].0@ == k);
    }
}

/// Every dataset entry is not yet verified.
pub open spec fn all_unverified(d: Seq<(String, DSFDataSet)>) -> bool {
    forall|i: int| 0 <= i < d.len() ==> (#[trigger] d[i]).1.detailed_status.status == DataSetStatus::Unverified && d[i].1.detailed_status.dep_status@.len() == 0
}

/// The state of the exploration: entries for the visited nodes, in order, and a stack of
/// nodes still to visit.
spec fn explore_inv<B: DatasetBackend>(backend: StackedBackend<B>, start: Seq<Seq<char>>, adj: AdjView, ms: MetaMapView, vis: Seq<Seq<char>>, pending: Seq<Seq<char>>) -> bool {
    &&& keys(adj) == vis
    &&& keys(ms) == vis
    &&& vis.no_duplicates()
    &&& forall|i: int| 0 <= i < vis.len() ==> backend.local_holds(vis[i], #[trigger] ms[i].1) && adj[i].1 == ms[i].1.dependencies
    &&& forall|i: int, d: Seq<char>| 0 <= i < vis.len() && (#[trigger] adj[i].1.contains(d)) ==> vis.contains(d) || pending.contains(d)
    &&& forall|s: Seq<char>| #[trigger] start.contains(s) ==> vis.contains(s) || pending.contains(s)
    &&& forall|k: Seq<char>| #[trigger] vis.contains(k) ==> exists|s: Seq<char>| #[trigger] start.contains(s) && reaches(adj, s, k)
    &&& forall|t: Seq<char>| #[trigger] pending.contains(t) ==> start.contains(t) || exists|i: int| 0 <= i < vis.len() && #[trigger] adj[i].1.contains(t)
}

/// With nothing left to visit, the exploration is done.
proof fn lemma_explore_done<B: DatasetBackend>(backend: StackedBackend<B>, start: Seq<Seq<char>>, adj: AdjView, ms: MetaMapView, vis: Seq<Seq<char>>)
    requires
        explore_inv(backend, start, adj, ms, vis, Seq::empty()),
    ensures
        explored(backend, start, adj, ms),
{
    assert forall|k: Seq<char>| #[trigger] keys(adj).contains(k) implies entry_found(backend, adj, ms, k) by {
        let i = choose|i: int| 0 <= i < vis.len() && vis[i] == k;
        assert(keys(adj)[i] == k && keys(ms)[i] == k);
        assert forall|j: int| 0 <= j < i implies adj[j].0 != k by {
            assert(keys(adj)[j] == vis[j]);
        }
        assert forall|j: int| 0 <= j < i implies ms[j].0 != k by {
            assert(keys(ms)[j] == vis[j]);
        }
        lemma_lookup_first(adj, i, k);
        lemma_lookup_first(ms, i, k);
        assert(backend.local_holds(vis[i], ms[i].1));
    }
    assert forall|u: Seq<char>, v: Seq<char>| #[trigger] edge(adj, u, v) implies keys(adj).contains(v) by {
        lemma_lookup_some(adj, u);
        let i = choose|i: int| 0 <= i < adj.len() && adj[i].0 == u && lookup(adj, u) == Some(adj[i].1) && forall|j: int| 0 <= j < i ==> adj[j].0 != u;
        assert(adj[i].1.contains(v));
    }
}

/// Visiting a new node `c`, found with metadata `m`, and stacking the dependencies `pushed`.
proof fn lemma_explore_visit<B: DatasetBackend>(backend: StackedBackend<B>, start: Seq<Seq<char>>, adj: AdjView, ms: MetaMapView, vis: Seq<Seq<char>>, rest: Seq<Seq<char>>, c: Seq<char>, m: MetaDataView, pushed: Seq<Seq<char>>)
    requires
        explore_inv(backend, start, adj, ms, vis, rest.push(c)),
        !vis.contains(c),
        backend.local_holds(c, m),
        forall|d: Seq<char>| #[trigger] m.dependencies.contains(d) ==> vis.push(c).contains(d) || pushed.contains(d),
        forall|d: Seq<char>| #[trigger] pushed.contains(d) ==> m.dependencies.contains(d),
    ensures
        explore_inv(backend, start, adj.push((c, m.dependencies)), ms.push((c, m)), vis.push(c), rest + pushed),
{
    let adj2 = adj.push((c, m.dependencies));
    let ms2 = ms.push((c, m));
    let vis2 = vis.push(c);
    let pending = rest.push(c);
    let pending2 = rest + pushed;
    assert(keys(adj2) =~= vis2);
    assert(keys(ms2) =~= vis2);
    assert forall|x: Seq<char>| #[trigger] pending.contains(x) implies x == c || pending2.contains(x) by {
        if x != c {
            let j = choose|j: int| 0 <= j < pending.len() && pending[j] == x;
            assert(pending2[j] == x);
        }
    }
    assert forall|x: Seq<char>| #[trigger] pushed.contains(x) implies pending2.contains(x) by {
        let j = choose|j: int| 0 <= j < pushed.len() && pushed[j] == x;
        assert(pending2[rest.len() + j] == x);
    }
    assert forall|x: Seq<char>| #[trigger] vis.contains(x) implies vis2.contains(x) by {
        let j = choose|j: int| 0 <= j < vis.len() && vis[j] == x;
        assert(vis2[j] == x);
    }
    assert(vis2[vis.len() as int] == c);
    assert forall|i: int| 0 <= i < vis2.len() implies backend.local_holds(vis2[i], #[trigger] ms2[i].1) && adj2[i].1 == ms2[i].1.dependencies by {
        if i < vis.len() {
            assert(backend.local_holds(vis[i], ms[i].1));
        }
    }
    assert forall|i: int, d: Seq<char>| 0 <= i < vis2.len() && (#[trigger] adj2[i].1.contains(d)) implies vis2.contains(d) || pending2.contains(d) by {
        if i < vis.len() {
            assert(adj[i].1.contains(d));
        }
    }
    assert forall|k: Seq<char>| #[trigger] vis2.contains(k) implies exists|s: Seq<char>| #[trigger] start.contains(s) && reaches(adj2, s, k) by {
        if vis.contains(k) {
            let s = choose|s: Seq<char>| #[trigger] start.contains(s) && reaches(adj, s, k);
            lemma_reaches_extend(adj, (c, m.dependencies), s, k);
        } else {
            assert(k == c);
            assert(pending.contains(c)) by {
                assert(pending[rest.len() as int] == c);
            }
            if start.contains(c) {
                lemma_reaches_refl(adj2, c);
            } else {
                let i = choose|i: int| 0 <= i < vis.len() && #[trigger] adj[i].1.contains(c);
                let u = vis[i];
                assert(vis.contains(u));
                let s = choose|s: Seq<char>| #[trigger] start.contains(s) && reaches(adj, s, u);
                lemma_reaches_extend(adj, (c, m.dependencies), s, u);
                assert(keys(adj)[i] == u);
                assert forall|j: int| 0 <= j < i implies adj[j].0 != u by {
                    assert(keys(adj)[j] == vis[j]);
                }
                lemma_lookup_first(adj, i, u);
                lemma_lookup_push(adj, (c, m.dependencies), u);
                assert(edge(adj2, u, c));
                lemma_reaches_step(adj2, s, u, c);
            }
        }
    }
    assert forall|t: Seq<char>| #[trigger] pending2.contains(t) implies start.contains(t) || exists|i: int| 0 <= i < vis2.len() && #[trigger] adj2[i].1.contains(t) by {
        let j = choose|j: int| 0 <= j < pending2.len() && pending2[j] == t;
        if j < rest.len() {
            assert(pending[j] == t);
            assert(pending.contains(t));
            if !start.contains(t) {
                let i = choose|i: int| 0 <= i < vis.len() && #[trigger] adj[i].1.contains(t);
                assert(adj2[i].1.contains(t));
            }
        } else {
            assert(pushed[j - rest.len()] == t);
            assert(pushed.contains(t));
            assert(adj2[vis.len() as int].1.contains(t));
        }
    }
}

/// Popping a node that was already visited.
proof fn lemma_explore_skip<B: DatasetBackend>(backend: StackedBackend<B>, start: Seq<Seq<char>>, adj: AdjView, ms: MetaMapView, vis: Seq<Seq<char>>, rest: Seq<Seq<char>>, c: Seq<char>)
    requires
        explore_inv(backend, start, adj, ms, vis, rest.push(c)),
        vis.contains(c),
    ensures
        explore_inv(backend, start, adj, ms, vis, rest),
{
    let pending = rest.push(c);
    assert forall|x: Seq<char>| #[trigger] pending.contains(x) implies x == c || rest.contains(x) by {
        if x != c {
            let j = choose|j: int| 0 <= j < pending.len() && pending[j] == x;
            assert(rest[j] == x);
        }
    }
    assert forall|t: Seq<char>| #[trigger] rest.contains(t) implies start.contains(t) || exists|i: int| 0 <= i < vis.len() && #[trigger] adj[i].1.contains(t) by {
        let j = choose|j: int| 0 <= j < rest.len() && rest[j] == t;
        assert(pending[j] == t);
        assert(pending.contains(t));
    }
}

/// The node on top of the stack was asked for: it is a start node or a dependency of a
/// visited node.
proof fn lemma_explore_asked<B: DatasetBackend>(backend: StackedBackend<B>, start: Seq<Seq<char>>, adj: AdjView, ms: MetaMapView, vis: Seq<Seq<char>>, rest: Seq<Seq<char>>, c: Seq<char>)
    requires
        explore_inv(backend, start, adj, ms, vis, rest.push(c)),
    ensures
        start.contains(c) || exists|k: Seq<char>, m: MetaDataView| #[trigger] backend.local_holds(k, m) && m.dependencies.contains(c),
{
    let pending = rest.push(c);
    assert(pending[rest.len() as int] == c);
    assert(pending.contains(c));
    if !start.contains(c) {
        let i = choose|i: int| 0 <= i < vis.len() && #[trigger] adj[i].1.contains(c);
        assert(backend.local_holds(vis[i], ms[i].1));
    }
}

impl DatasetGraph {
    /// Explores, depth first from the nodes of `start`, the datasets held in the stores on
    /// this machine, recording for each dataset met its metadata and its dependencies.
    fn explore<B: DatasetBackend>(start: Vec<String>, backend: &StackedBackend<B>) -> (r: Result<Self, DatasetGraphError>)
        ensures
            r matches Ok(g) ==> explored(*backend, strings_view(start@), g.adj(), metas_view(g.datasets@)) && all_unverified(g.datasets@),
            r matches Err(DatasetGraphError::DatasetNotFound { node_id }) ==> strings_view(start@).contains(node_id@)
                || exists|k: Seq<char>, m: MetaDataView| #[trigger] backend.local_holds(k, m) && m.dependencies.contains(node_id@),
            r matches Err(e) ==> e is DatasetNotFound || e is Io,
            backend.reliable() && backend.locally_closed() && (forall|s: Seq<char>| #[trigger] strings_view(start@).contains(s) ==> backend.local_ids().contains(s)) ==> r is Ok,
            backend.reliable() ==> (r matches Err(e) ==> (e matches DatasetGraphError::DatasetNotFound { node_id } && !backend.local_ids().contains(node_id@))),
            backend.private_be.reliable() ==> (r matches Ok(g) ==> private_copies(*backend, metas_view(g.datasets@))),
            backend.reliable() ==> (r matches Err(DatasetGraphError::DatasetNotFound { node_id }) ==> held_reaches(*backend, strings_view(start@), node_id@)),
    {
        let ghost st = strings_view(start@);
        let mut graph = Self::new();
        let mut to_visit = start;
        proof {
            reveal(private_copies);
            assert forall|t: Seq<char>| #[trigger] strings_view(to_visit@).contains(t) implies held_reaches(*backend, st, t) by {
                lemma_held_start(*backend, st, t);
            }
        }
        let mut visited: Vec<String> = Vec::new();
        proof {
            backend.lemma_local_ids_finite();
            assert(keys(graph.adj()) =~= strings_view(visited@));
            assert(keys(metas_view(graph.datasets@)) =~= strings_view(visited@));
        }
        let ghost u = backend.local_ids();
        while to_visit.len() > 0
            invariant
                st == strings_view(start@),
                u == backend.local_ids(),
                u.finite(),
                forall|id: Seq<char>, m: MetaDataView| #[trigger] backend.local_holds(id, m) ==> u.contains(id),
                explore_inv(*backend, st, graph.adj(), metas_view(graph.datasets@), strings_view(visited@), strings_view(to_visit@)),
                all_unverified(graph.datasets@),
                backend.private_be.reliable() ==> private_copies(*backend, metas_view(graph.datasets@)),
                backend.reliable() ==> forall|t: Seq<char>| #[trigger] strings_view(to_visit@).contains(t) ==> held_reaches(*backend, st, t),
            decreases u.len() - visited@.len(), to_visit@.len(),
        {
            let ghost adj0 = graph.adj();
            let ghost ms0 = metas_view(graph.datasets@);
            let ghost vis0 = strings_view(visited@);
            let ghost pending0 = to_visit@;
            let curr = to_visit.pop().unwrap();
            let ghost rest = strings_view(to_visit@);
            assert(strings_view(pending0) =~= rest.push(curr@));
            proof {
                lemma_explore_asked(*backend, st, adj0, ms0, vis0, rest, curr@);
                if backend.reliable() {
                    assert(strings_view(pending0)[pending0.len() - 1] == curr@);
                    assert(strings_view(pending0).contains(curr@));
                    assert(held_reaches(*backend, st, curr@));
                    assert forall|t: Seq<char>| #[trigger] rest.contains(t) implies held_reaches(*backend, st, t) by {
                        let y = choose|y: int| 0 <= y < rest.len() && rest[y] == t;
                        assert(strings_view(pending0)[y] == t);
                        assert(strings_view(pending0).contains(t));
                    }
                }
            }
            if contains_string(&visited, &curr) {
                proof {
                    lemma_explore_skip(*backend, st, adj0, ms0, vis0, rest, curr@);
                }
            } else {
                visited.push(curr.clone());
                proof {
                    if backend.reliable() && backend.locally_closed() && (forall|s: Seq<char>| #[trigger] st.contains(s) ==> backend.local_ids().contains(s)) {
                        if !st.contains(curr@) {
                            let (k, mm) = choose|k: Seq<char>, mm: MetaDataView| #[trigger] backend.local_holds(k, mm) && mm.dependencies.contains(curr@);
                            assert(mm.dependencies.contains(curr@));
                        }
                        assert(backend.local_ids().contains(curr@));
                    }
                }
                let target_be = match backend.resolve_local_backend(curr.as_str()) {
                    Ok(b) => b,
                    Err(e) => {
                        return Err(e.to_dag_error());
                    },
                };
                let dataset = match DSFDataSet::load_from_id(curr.as_str(), target_be) {
                    Ok(d) => d,
                    Err((kind, message)) => {
                        if kind == IoKind::NotFound {
                            return Err(DatasetGraphError::DatasetNotFound { node_id: curr });
                        }
                        return Err(DatasetGraphError::Io(kind, message));
                    },
                };
                let ghost m = dataset.metadata@;
                assert(backend.local_holds(curr@, m));
                assert(backend.private_be.reliable() && backend.private_be.contents().contains_key(curr@) ==> m == backend.private_be.contents()[curr@]);
                assert(backend.reliable() ==> m == local_copy(*backend, curr@) && backend.local_ids().contains(curr@));
                let deps = dataset.metadata.dependencies.clone();
                assert(strings_view(deps@) == m.dependencies);
                let ghost base = to_visit@;
                let mut j: usize = 0;
                while j < deps.len()
                    invariant
                        j <= deps@.len(),
                        base == to_visit@.subrange(0, base.len() as int),
                        base.len() <= to_visit@.len(),
                        forall|d: Seq<char>| #[trigger] strings_view(deps@.subrange(0, j as int)).contains(d) ==> strings_view(visited@).contains(d) || strings_view(to_visit@.subrange(base.len() as int, to_visit@.len() as int)).contains(d),
                        forall|d: Seq<char>| #[trigger] strings_view(to_visit@.subrange(base.len() as int, to_visit@.len() as int)).contains(d) ==> strings_view(deps@).contains(d),
                    decreases deps@.len() - j,
                {
                    let ghost before = to_visit@;
                    let seen = contains_string(&visited, &deps[j]);
                    if !seen {
                        to_visit.push(deps[j].clone());
                    }
                    proof {
                        let pushed = strings_view(to_visit@.subrange(base.len() as int, to_visit@.len() as int));
                        let pushed0 = strings_view(before.subrange(base.len() as int, before.len() as int));
                        let dj = strings_view(deps@)[j as int];
                        assert(to_visit@.subrange(0, base.len() as int) =~= base);
                        if seen {
                            assert(pushed =~= pushed0);
                        } else {
                            assert(pushed =~= pushed0.push(dj));
                        }
                        assert forall|d: Seq<char>| #[trigger] pushed0.contains(d) implies pushed.contains(d) by {
                            let k = choose|k: int| 0 <= k < pushed0.len() && pushed0[k] == d;
                            assert(pushed[k] == d);
                        }
                        let upto = strings_view(deps@.subrange(0, j + 1));
                        let upto0 = strings_view(deps@.subrange(0, j as int));
                        assert forall|d: Seq<char>| #[trigger] upto.contains(d) implies strings_view(visited@).contains(d) || pushed.contains(d) by {
                            let k = choose|k: int| 0 <= k < upto.len() && upto[k] == d;
                            if k < j {
                                assert(upto0[k] == d);
                                assert(upto0.contains(d));
                                if pushed0.contains(d) {
                                    assert(pushed.contains(d));
                                }
                            } else {
                                assert(d == dj);
                                if !seen {
                                    assert(pushed[pushed.len() - 1] == d);
                                }
                            }
                        }
                        assert forall|d: Seq<char>| #[trigger] pushed.contains(d) implies strings_view(deps@).contains(d) by {
                            let k = choose|k: int| 0 <= k < pushed.len() && pushed[k] == d;
                            if k < pushed0.len() {
                                assert(pushed0[k] == d);
                                assert(pushed0.contains(d));
                            } else {
                                assert(strings_view(deps@)[j as int] == d);
                            }
                        }
                    }
                    j = j + 1;
                }
                let ghost pushed = strings_view(to_visit@.subrange(base.len() as int, to_visit@.len() as int));
                proof {
                    assert(deps@.subrange(0, deps@.len() as int) =~= deps@);
                    assert(strings_view(visited@) =~= vis0.push(curr@));
                    assert(strings_view(to_visit@) =~= rest + pushed) by {
                        assert(to_visit@ =~= base + to_visit@.subrange(base.len() as int, to_visit@.len() as int));
                    }
                    lemma_explore_visit(*backend, st, adj0, ms0, vis0, rest, curr@, m, pushed);
                    if backend.reliable() {
                        assert forall|t: Seq<char>| #[trigger] (rest + pushed).contains(t) implies held_reaches(*backend, st, t) by {
                            let y = choose|y: int| 0 <= y < (rest + pushed).len() && (rest + pushed)[y] == t;
                            if y < rest.len() {
                                assert(rest[y] == t);
                                assert(rest.contains(t));
                            } else {
                                assert(pushed[y - rest.len()] == t);
                                assert(pushed.contains(t));
                                assert(m.dependencies.contains(t));
                                lemma_held_extend(*backend, st, curr@, t);
                            }
                        }
                    }
                    vis0.unique_seq_to_set();
                    assert(vis0.to_set().subset_of(u)) by {
                        assert forall|x: Seq<char>| #[trigger] vis0.to_set().contains(x) implies u.contains(x) by {
                            let i = choose|i: int| 0 <= i < vis0.len() && vis0[i] == x;
                            assert(backend.local_holds(vis0[i], ms0[i].1));
                        }
                    }
                    vstd::set_lib::lemma_len_subset(vis0.to_set().insert(curr@), u);
                    assert(!vis0.to_set().contains(curr@));
                }
                graph.adj_list.push((curr.clone(), deps));
                graph.datasets.push((curr, dataset));
                proof {
                    reveal(private_copies);
                    assert(graph.adj() =~= adj0.push((curr@, m.dependencies)));
                    assert(metas_view(graph.datasets@) =~= ms0.push((curr@, m)));
                }
            }
        }
        proof {
            assert(strings_view(to_visit@) =~= Seq::<Seq<char>>::empty());
            lemma_explore_done(*backend, st, graph.adj(), metas_view(graph.datasets@), strings_view(visited@));
        }
        Ok(graph)
    }

    /// The subgraph reachable from `root_id` through the stores on this machine, each node
    /// holding its dataset, not yet verified.
    pub fn from_root<B: DatasetBackend>(root_id: &str, backend: &StackedBackend<B>) -> (r: Result<Self, DatasetGraphError>)
        ensures
            r matches Ok(g) ==> explored(*backend, seq![root_id@], g.adj(), metas_view(g.datasets@)) && all_unverified(g.datasets@),
            r matches Err(DatasetGraphError::DatasetNotFound { node_id }) ==> node_id@ == root_id@
                || exists|k: Seq<char>, m: MetaDataView| #[trigger] backend.local_holds(k, m) && m.dependencies.contains(node_id@),
            r matches Err(e) ==> e is DatasetNotFound || e is Io,
            backend.reliable() && backend.locally_closed() && backend.local_ids().contains(root_id@) ==> r is Ok,
            backend.private_be.reliable() ==> (r matches Ok(g) ==> private_copies(*backend, metas_view(g.datasets@))),
            backend.reliable() ==> (r matches Err(DatasetGraphError::DatasetNotFound { node_id }) ==> held_reaches(*backend, seq![root_id@], node_id@)),
            backend.reliable() ==> (r matches Err(e) ==> (e matches DatasetGraphError::DatasetNotFound { node_id } && !backend.local_ids().contains(node_id@))),
    {
        let mut start: Vec<String> = Vec::new();
        start.push(String::from_str(root_id));
        proof {
            assert(strings_view(start@) =~= seq![root_id@]);
            assert forall|s: Seq<char>| #[trigger] strings_view(start@).contains(s) implies s == root_id@ by {
                let k = choose|k: int| 0 <= k < strings_view(start@).len() && strings_view(start@)[k] == s;
            }
        }
        Self::explore(start, backend)
    }

    /// The graph for registering a new dataset `name@tag` depending on `dependencies`: the
    /// new node, with those dependencies, and every dataset they reach through the stores on
    /// this machine. Should the exploration meet a stored dataset with the new node's id, its
    /// entry keeps the stored dataset but lists the new dependencies.
    pub fn from_root_with_deps<B: DatasetBackend>(name: &str, tag: &str, dependencies: &Vec<String>, backend: &StackedBackend<B>) -> (r: Result<Self, DatasetGraphError>)
        ensures
            (name@.contains('@') || tag@.contains('@')) ==> (r matches Err(DatasetGraphError::Io(k, m)) && k == IoKind::InvalidInput && m@ == "name/tag must not contain '@'"@),
            r matches Ok(g) ==> with_new_root(*backend, name@ + "@"@ + tag@, strings_view(dependencies@), g.adj(), metas_view(g.datasets@)) && all_unverified(g.datasets@)
                && lookup(g.adj(), name@ + "@"@ + tag@) == Some(strings_view(dependencies@)),
            backend.private_be.reliable() ==> (r matches Ok(g) ==> private_copies(*backend, metas_view(g.datasets@))),
            r matches Err(DatasetGraphError::DatasetNotFound { node_id }) ==> strings_view(dependencies@).contains(node_id@)
                || exists|k: Seq<char>, m: MetaDataView| #[trigger] backend.local_holds(k, m) && m.dependencies.contains(node_id@),
            r matches Err(e) ==> e is DatasetNotFound || e is Io,
            !name@.contains('@') && !tag@.contains('@') && backend.reliable() && backend.locally_closed()
                && (forall|d: Seq<char>| #[trigger] strings_view(dependencies@).contains(d) ==> backend.local_ids().contains(d)) ==> r is Ok,
            backend.reliable() && !name@.contains('@') && !tag@.contains('@') ==> (r matches Err(e) ==> (e matches DatasetGraphError::DatasetNotFound { node_id } && !backend.local_ids().contains(node_id@))),
            backend.reliable() ==> (r matches Err(DatasetGraphError::DatasetNotFound { node_id }) ==> held_reaches(*backend, strings_view(dependencies@), node_id@)),
    {
        if contains_char(name, '@') || contains_char(tag, '@') {
            return Err(DatasetGraphError::Io(IoKind::InvalidInput, String::from_str("name/tag must not contain '@'")));
        }
        let root_id = concat3(name, "@", tag);
        let graph = Self::explore(clone_strings(dependencies), backend)?;
        Ok(graph.with_root_entry(root_id, dependencies, backend))
    }

    /// The explored graph with the new node `root_id` listing `dependencies`: its entry is
    /// replaced when the exploration met a stored dataset with that id, else appended.
    fn with_root_entry<B: DatasetBackend>(self, root_id: String, dependencies: &Vec<String>, backend: &StackedBackend<B>) -> (g: Self)
        requires
            explored(*backend, strings_view(dependencies@), self.adj(), metas_view(self.datasets@)),
        ensures
            with_new_root(*backend, root_id@, strings_view(dependencies@), g.adj(), metas_view(g.datasets@)),
            lookup(g.adj(), root_id@) == Some(strings_view(dependencies@)),
            g.datasets == self.datasets,
    {
        let mut graph = self;
        let ghost adj0 = graph.adj();
        let ghost ms = metas_view(graph.datasets@);
        match assoc_find(&graph.adj_list, &root_id) {
            Some(idx) => {
                proof {
                    lemma_assoc_key(graph.adj_list@, root_id@);
                    assert(keys(adj0)[idx as int] == root_id@);
                    assert forall|j: int| 0 <= j < idx implies adj0[j].0 != root_id@ by {}
                    lemma_lookup_first(adj0, idx as int, root_id@);
                }
                graph.adj_list.set(idx, (root_id, clone_strings(dependencies)));
                proof {
                    assert(graph.adj() =~= adj0.update(idx as int, (root_id@, strings_view(dependencies@))));
                    assert(graph.adj().update(idx as int, (root_id@, lookup(ms, root_id@).unwrap().dependencies)) =~= adj0);
                    assert(graph.adj()[idx as int] == (root_id@, strings_view(dependencies@)));
                    assert forall|j: int| 0 <= j < idx implies graph.adj()[j].0 != root_id@ by {
                        assert(graph.adj()[j] == adj0[j]);
                    }
                    lemma_lookup_first(graph.adj(), idx as int, root_id@);
                }
            },
            None => {
                proof {
                    lemma_assoc_key(graph.adj_list@, root_id@);
                }
                graph.adj_list.push((root_id, clone_strings(dependencies)));
                proof {
                    assert(graph.adj() =~= adj0.push((root_id@, strings_view(dependencies@))));
                    assert(graph.adj().drop_last() =~= adj0);
                    assert forall|j: int| 0 <= j < adj0.len() implies graph.adj()[j].0 != root_id@ by {
                        assert(graph.adj()[j] == adj0[j]);
                        assert(keys(adj0)[j] == adj0[j].0);
                    }
                    lemma_lookup_first(graph.adj(), adj0.len() as int, root_id@);
                }
            },
        }
        graph
    }
}

proof fn lemma_universe_members(adj: AdjView, x: Seq<char>)
    requires
        universe(adj).contains(x),
    ensures
        exists|i: int| #![trigger adj[i]] 0 <= i < adj.len() && (adj[i].0 == x || adj[i].1.contains(x)),
    decreases adj.len(),
{
    if adj.len() > 0 {
        let head = seq![adj[0].0] + adj[0].1;
        let rest = universe(adj.drop_first());
        assert(universe(adj) == head + rest);
        let j = choose|j: int| 0 <= j < universe(adj).len() && universe(adj)[j] == x;
        if j == 0 {
            assert(adj[0].0 == x);
            assert(adj[0] == adj[0]);
        } else if j < head.len() {
            assert(adj[0].1[j - 1] == x);
            assert(adj[0].1.contains(x));
            assert(adj[0] == adj[0]);
        } else {
            assert(rest[j - head.len()] == x);
            lemma_universe_members(adj.drop_first(), x);
            let t = adj.drop_first();
            let i = choose|i: int| #![trigger t[i]] 0 <= i < t.len() && (t[i].0 == x || t[i].1.contains(x));
            assert(adj[i + 1] == t[i]);
        }
    }
}

/// Every dependency reached has a current hash when it is open.
pub open spec fn hashes_cover<B: DatasetBackend>(store: StackedBackend<B>, h: HashMapView) -> bool {
    forall|k: Seq<char>, m: MetaDataView| #[trigger] store.local_holds(k, m) && spec_is_open(m.busy_status) ==> lookup(h, k) is Some
}

/// An explored graph is complete when every open dataset on this machine has a current hash.
proof fn lemma_explored_complete<B: DatasetBackend>(store: StackedBackend<B>, root: Seq<char>, adj: AdjView, ms: MetaMapView, h: HashMapView)
    requires
        explored(store, seq![root], adj, ms),
        hashes_cover(store, h),
    ensures
        graph_complete(adj, ms, h, root),
{
    assert(seq![root].contains(root)) by {
        assert(seq![root][0] == root);
    }
    assert forall|x: Seq<char>| #[trigger] universe(adj).contains(x) implies keys(adj).contains(x) by {
        lemma_universe_members(adj, x);
        let i = choose|i: int| #![trigger adj[i]] 0 <= i < adj.len() && (adj[i].0 == x || adj[i].1.contains(x));
        assert(keys(adj)[i] == adj[i].0);
        if adj[i].0 != x {
            assert forall|j: int| 0 <= j < i implies adj[j].0 != adj[i].0 by {
                assert(keys(adj)[j] == adj[j].0);
            }
            crate::assoc::lemma_lookup_first(adj, i, adj[i].0);
            assert(edge(adj, adj[i].0, x));
        }
    }
    assert forall|x: Seq<char>| #[trigger] keys(adj).contains(x) implies lookup(ms, x) is Some by {
        assert(entry_found(store, adj, ms, x));
    }
    assert forall|x: Seq<char>| #[trigger] keys(adj).contains(x) && lookup(ms, x) is Some && spec_is_open(lookup(ms, x).unwrap().busy_status) implies lookup(h, x) is Some by {
        assert(entry_found(store, adj, ms, x));
        assert(store.local_holds(x, lookup(ms, x).unwrap()));
    }
}

impl DSFDataSet {
    /// Verifies this dataset against the datasets it depends on, as held in the stores on
    /// this machine, given the hash of each dataset's content as it is now on disk, and
    /// records the outcome.
    pub fn verify<B: DatasetBackend>(&mut self, backend: &StackedBackend<B>, current_hashes: &Vec<(String, String)>) -> (r: Result<DataSetVerifyRes, DatasetGraphError>)
        ensures
            final(self).metadata@ == old(self).metadata@,
            r is Err ==> final(self)@ == old(self)@,
            r matches Ok(v) ==> final(self).detailed_status@ == v@ && exists|adj: AdjView, ms: MetaMapView|
                #![trigger explored(*backend, seq![old(self).metadata@.spec_id()], adj, ms)]
                explored(*backend, seq![old(self).metadata@.spec_id()], adj, ms) && !has_cycle(adj)
                    && verdict(adj, ms, hashes_view(current_hashes@), old(self).metadata@.spec_id()) == Some(v@),
            r matches Err(DatasetGraphError::CycleDetected { node, dep }) ==> exists|adj: AdjView, ms: MetaMapView|
                #![trigger explored(*backend, seq![old(self).metadata@.spec_id()], adj, ms)]
                explored(*backend, seq![old(self).metadata@.spec_id()], adj, ms) && edge(adj, node@, dep@) && reaches(adj, dep@, node@),
            backend.reliable() && backend.locally_closed() && backend.local_ids().contains(old(self).metadata@.spec_id())
                && hashes_cover(*backend, hashes_view(current_hashes@))
                && (forall|adj: AdjView, ms: MetaMapView| #[trigger] explored(*backend, seq![old(self).metadata@.spec_id()], adj, ms) ==> !has_cycle(adj))
                ==> r is Ok,
    {
        let root_id = self.metadata.id();
        let mut graph = DatasetGraph::from_root(root_id.as_str(), backend)?;
        let ghost adj = graph.adj();
        let ghost ms = metas_view(graph.datasets@);
        proof {
            assert(root_id@ == old(self).metadata@.spec_id());
        }
        proof {
            if backend.reliable() && backend.locally_closed() && backend.local_ids().contains(old(self).metadata@.spec_id())
                && hashes_cover(*backend, hashes_view(current_hashes@)) {
                lemma_explored_complete(*backend, root_id@, adj, ms, hashes_view(current_hashes@));
            }
        }
        let res = match graph.verify_subgraph(root_id.as_str(), current_hashes) {
            Ok(v) => v,
            Err(e) => {
                assert(explored(*backend, seq![old(self).metadata@.spec_id()], adj, ms));
                return Err(e);
            },
        };
        self.detailed_status = res.clone();
        proof {
            assert(root_id@ == old(self).metadata@.spec_id());
            assert(explored(*backend, seq![old(self).metadata@.spec_id()], adj, ms));
        }
        Ok(res)
    }
}

impl Default for DatasetGraph {
    fn default() -> (r: Self)
        ensures
            r.datasets@.len() == 0,
            r.adj_list@.len() == 0,
    {
        Self::new()
    }
}

} // verus!
