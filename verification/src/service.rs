//! The dataset service: registration, queries, verification and deletion over a stacked store.
use crate::backend::router::{BackendAddr, Layer, ScopedId, ScopedMetaData, StackedBackend, scoped_view};
use crate::backend::{backend_error_text, metadata_error_text, BackendError, BackendResult, DatasetBackend, IoKind};
use crate::dataset::{
    busy_text, clone_strings, id_of, merge_owner_spec, owner_nickname_view, single_status, spec_is_open, strings_view, DSFDataSet, DataSetBusyStatus, DataSetStatus,
    DataSetVerifyRes, MetaData, MetaDataError, MetaDataView, RefreshError,
};
use crate::utils::{input_error_text, is_dataset_id, validate_dataset_id, validate_name_tag, InputError};
use crate::assoc::{assoc_find, lemma_lookup_first, lookup};
use crate::text::concat3;
use crate::utils::os_username;
use crate::dag::{explored, graph_error_text, has_cycle, hashes_view, verdict, with_new_root, AdjView, DatasetGraph, DatasetGraphError, HashMapView, MetaMapView};
use vstd::prelude::*;

verus! {

/// Why a service operation failed.
#[derive(Debug)]
pub enum ServiceError {
    /// An id, name or tag that is not well formed.
    InvalidInput(InputError),
    /// A store failed, or none could be picked.
    Backend(BackendError),
    /// A dataset could not be loaded: the I/O error kind and text.
    Load(IoKind, String),
    /// A dataset is held by an operation that forbids refreshing its hash.
    Busy(RefreshError),
    /// Datasets still depend on the one to delete.
    DeletionBlocked(Vec<String>),
    /// A dependency is not registered in any store.
    DependencyMissing(String),
    /// Dependencies that did not verify as healthy.
    UnhealthyDependencies(Vec<String>),
    /// Building, checking or verifying a dependency graph failed.
    Graph(DatasetGraphError),
    /// The new dataset's metadata could not be built.
    MetaData(MetaDataError),
}

/// A list of ids as written in messages: each in double quotes, separated by `, `.
pub open spec fn quoted_items(v: Seq<Seq<char>>) -> Seq<char>
    decreases v.len(),
{
    if v.len() == 0 {
        Seq::empty()
    } else if v.len() == 1 {
        "\""@ + v[0] + "\""@
    } else {
        quoted_items(v.drop_last()) + ", \""@ + v.last() + "\""@
    }
}

/// A list of ids as written in messages, in brackets.
pub open spec fn quoted_list(v: Seq<Seq<char>>) -> Seq<char> {
    "["@ + quoted_items(v) + "]"@
}

/// The text of a service error.
pub open spec fn service_error_text(e: ServiceError) -> Seq<char> {
    match e {
        ServiceError::InvalidInput(i) => input_error_text(i),
        ServiceError::Backend(b) => backend_error_text(b),
        ServiceError::Load(_, m) => m@,
        ServiceError::Busy(RefreshError::ResourceBusy(s)) => "Cannot refresh merkle tree: Dataset is currently in busy status: "@ + busy_text(s),
        ServiceError::DeletionBlocked(v) => "Deletion blocked, dataset is referenced by: "@ + quoted_list(strings_view(v@)) + ". Use force=true."@,
        ServiceError::DependencyMissing(d) => "Dependency dataset does not exist: "@ + d@,
        ServiceError::UnhealthyDependencies(v) => "Unhealthy dependencies found:\n "@ + quoted_list(strings_view(v@)) + ". \nRe-run with force_heal/yes to ignore broken deps."@,
        ServiceError::Graph(g) => graph_error_text(g),
        ServiceError::MetaData(m) => metadata_error_text(m),
    }
}

/// Writes a list of ids as messages do (see `quoted_list`).
fn quote_list(v: &Vec<String>) -> (r: String)
    ensures
        r@ == quoted_list(strings_view(v@)),
{
    proof {
        reveal_strlit("");
    }
    let mut out = String::from_str("");
    let mut i: usize = 0;
    while i < v.len()
        invariant
            i <= v@.len(),
            out@ == quoted_items(strings_view(v@.subrange(0, i as int))),
        decreases v@.len() - i,
    {
        let ghost before = out@;
        if i == 0 {
            out = concat3("\"", v[i].as_str(), "\"");
        } else {
            let head = concat3(out.as_str(), ", \"", v[i].as_str());
            out = concat3(head.as_str(), "\"", "");
        }
        proof {
            reveal_strlit("");
            let w = strings_view(v@.subrange(0, i + 1));
            assert(strings_view(v@.subrange(0, i as int)) =~= w.drop_last());
            assert(w.last() == v@[i as int]@);
            assert(w[0] == v@[0]@);
            assert(out@ =~= quoted_items(w));
        }
        i = i + 1;
    }
    assert(v@.subrange(0, v@.len() as int) =~= v@);
    concat3("[", out.as_str(), "]")
}

impl ServiceError {
    /// The human-readable text of this error.
    pub fn message(&self) -> (r: String)
        ensures
            r@ == service_error_text(*self),
    {
        proof {
            reveal_strlit("");
            assert(forall|x: Seq<char>| x + ""@ =~= x);
        }
        match self {
            ServiceError::InvalidInput(i) => i.message(),
            ServiceError::Backend(b) => b.message(),
            ServiceError::Load(_, m) => m.clone(),
            ServiceError::Busy(RefreshError::ResourceBusy(s)) => concat3("Cannot refresh merkle tree: Dataset is currently in busy status: ", s.as_str(), ""),
            ServiceError::DeletionBlocked(v) => {
                let l = quote_list(v);
                concat3("Deletion blocked, dataset is referenced by: ", l.as_str(), ". Use force=true.")
            },
            ServiceError::DependencyMissing(d) => concat3("Dependency dataset does not exist: ", d.as_str(), ""),
            ServiceError::UnhealthyDependencies(v) => {
                let l = quote_list(v);
                concat3("Unhealthy dependencies found:\n ", l.as_str(), ". \nRe-run with force_heal/yes to ignore broken deps.")
            },
            ServiceError::Graph(g) => g.message(),
            ServiceError::MetaData(m) => m.message(),
        }
    }
}

/// What a registration asks for.
pub struct RegisterOptions {
    pub name: String,
    pub tag: String,
    pub path: String,
    pub description_path: Option<String>,
    pub script_path: String,
    pub owner_nickname: Option<String>,
    pub dependencies: Vec<String>,
    /// Register even when dependencies are unhealthy, refreshing their hashes first.
    pub force_heal: bool,
    /// Assume yes to every question; acts as `force_heal`.
    pub yes: bool,
}

/// The service over a stacked store.
pub struct DSFService<B> {
    backend: StackedBackend<B>,
}

/// `m` is the metadata a registration with `opts` records: its name, tag, paths and
/// dependencies, the given hash, free.
pub open spec fn registered_as(m: MetaDataView, opts: RegisterOptions, dataset_hash: Seq<char>, description_path: Seq<char>, merkle_tree_path: Seq<char>) -> bool {
    &&& m.name == opts.name@
    &&& m.tag == opts.tag@
    &&& m.hash == dataset_hash
    &&& m.path == opts.path@
    &&& m.description_path == description_path
    &&& m.script_path == opts.script_path@
    &&& m.dependencies == strings_view(opts.dependencies@)
    &&& m.merkle_tree_path == merkle_tree_path
    &&& m.busy_status == DataSetBusyStatus::Free
}

/// The name and tag of a registration are non-empty and hold no `@`.
pub open spec fn name_tag_ok(opts: RegisterOptions) -> bool {
    opts.name@.len() > 0 && opts.tag@.len() > 0 && !opts.name@.contains('@') && !opts.tag@.contains('@')
}

/// The layer picked by `target` is the same map in both stores.
pub open spec fn same_layer<B: DatasetBackend>(a: StackedBackend<B>, b: StackedBackend<B>, target: Option<&BackendAddr>) -> bool {
    match a.route(target) {
        Some(l) => b.route(target) == Some(l) && a.layer_contents(l) == b.layer_contents(l),
        None => b.route(target) is None,
    }
}

/// Every dependency of `opts` is held by some store of `store`.
#[verifier::opaque]
pub open spec fn deps_registered<B: DatasetBackend>(store: StackedBackend<B>, opts: RegisterOptions) -> bool {
    forall|i: int| 0 <= i < opts.dependencies@.len() ==> store.hits(#[trigger] opts.dependencies@[i]@).len() > 0
}

/// `d` verifies healthy over the stores of `store` against the current hashes `h`: the graph
/// explored from it has no cycle and gives it a healthy verdict.
pub open spec fn verified_healthy<B: DatasetBackend>(store: StackedBackend<B>, d: Seq<char>, h: HashMapView) -> bool {
    exists|adj: AdjView, ms: MetaMapView|
        #[trigger] explored(store, seq![d], adj, ms) && !has_cycle(adj) && (verdict(adj, ms, h, d) matches Some(v) && v.status == DataSetStatus::Healthy)
}

/// `d` verifies, over the stores of `store` against the current hashes `h`, with a verdict
/// other than healthy: the graph explored from it has no cycle and gives it that verdict.
pub open spec fn verified_unhealthy<B: DatasetBackend>(store: StackedBackend<B>, d: Seq<char>, h: HashMapView) -> bool {
    exists|adj: AdjView, ms: MetaMapView|
        #[trigger] explored(store, seq![d], adj, ms) && !has_cycle(adj) && (verdict(adj, ms, h, d) matches Some(v) && v.status != DataSetStatus::Healthy)
}

/// In the store picked as `l`, `d` was held open in `before`, and `after` holds the same
/// metadata with its hash set to the current one from `h`.
pub open spec fn refreshed<B: DatasetBackend>(before: StackedBackend<B>, after: StackedBackend<B>, l: Layer, d: Seq<char>, h: HashMapView) -> bool {
    &&& before.layer_contents(l).contains_key(d)
    &&& spec_is_open(before.layer_contents(l)[d].busy_status)
    &&& lookup(h, d) is Some
    &&& after.layer_contents(l).contains_key(d)
    &&& after.layer_contents(l)[d] == MetaDataView { hash: lookup(h, d).unwrap(), ..before.layer_contents(l)[d] }
}

/// Each dataset of `ds` is held open in the store picked as `l` and has a current hash in `h`.
pub open spec fn heal_owed<B: DatasetBackend>(store: StackedBackend<B>, l: Layer, ds: Seq<Seq<char>>, h: HashMapView) -> bool {
    forall|x: int| 0 <= x < ds.len() ==> store.layer_contents(l).contains_key(#[trigger] ds[x])
        && spec_is_open(store.layer_contents(l)[ds[x]].busy_status) && lookup(h, ds[x]) is Some
}

/// Every dataset that the store picked as `l` held busy (not open) in `before` is held
/// unchanged in `after`, but for the id `except`.
pub open spec fn busy_kept<B: DatasetBackend>(before: StackedBackend<B>, after: StackedBackend<B>, l: Layer, except: Option<Seq<char>>) -> bool {
    forall|key: Seq<char>|
        #[trigger] before.layer_contents(l).contains_key(key) && !spec_is_open(before.layer_contents(l)[key].busy_status) && except != Some(key)
            ==> after.layer_contents(l).contains_key(key) && after.layer_contents(l)[key] == before.layer_contents(l)[key]
}

/// What a successful registration of `opts` settles of each dependency: it is the new
/// dataset itself, or it verified healthy, or (with `force_heal` or `yes`) it was held open
/// in the picked store and its hash was refreshed there.
pub open spec fn dependencies_settled<B: DatasetBackend>(old: StackedBackend<B>, new: StackedBackend<B>, opts: RegisterOptions, l: Layer, h: HashMapView) -> bool {
    forall|i: int| 0 <= i < opts.dependencies@.len() ==> {
        let d = #[trigger] opts.dependencies@[i]@;
        ||| d == id_of(opts.name@, opts.tag@)
        ||| verified_healthy(old, d, h)
        ||| ((opts.force_heal || opts.yes) && refreshed(old, new, l, d, h))
    }
}

/// Every copy of `d` in the stores on this machine is held by an operation other than
/// reading.
pub open spec fn busy_everywhere<B: DatasetBackend>(store: StackedBackend<B>, d: Seq<char>) -> bool {
    forall|m: MetaDataView| #[trigger] store.local_holds(d, m) ==> !spec_is_open(m.busy_status)
}

/// What a registration of `opts` in the store `target` picks settles of its dependencies,
/// `old` before and `new` after, answering `r`, against the current hashes `h`:
/// - on success, each dependency is settled (see `dependencies_settled`);
/// - whatever the outcome, a dataset held busy in the picked store is left as it was;
/// - with a valid name, tag and dependency ids, a dependency held by no store makes it fail
///   with `DependencyMissing` for one of the dependencies;
/// - `DependencyMissing` names a dependency whose id and those of the dependencies before it
///   are valid;
/// - a dependency (other than the new dataset) held busy wherever it is held makes it fail;
/// - unhealthy dependencies are refused only without `force_heal` and `yes`, and each one
///   refused verified unhealthy;
/// - a busy refusal comes only with `force_heal` or `yes`, for a dependency held busy in the
///   picked store.
pub open spec fn registration_settles<B: DatasetBackend>(old: StackedBackend<B>, new: StackedBackend<B>, opts: RegisterOptions, target: Option<&BackendAddr>, h: HashMapView, r: Result<(), ServiceError>) -> bool {
    &&& (r is Ok ==> (old.route(target) matches Some(l) && dependencies_settled(old, new, opts, l, h)))
    &&& (old.route(target) matches Some(l) ==> busy_kept(old, new, l, Some(id_of(opts.name@, opts.tag@))))
    &&& (name_tag_ok(opts) && (forall|i: int| 0 <= i < opts.dependencies@.len() ==> is_dataset_id(#[trigger] opts.dependencies@[i]@))
            && !deps_registered(old, opts) ==> (r matches Err(ServiceError::DependencyMissing(d)) && strings_view(opts.dependencies@).contains(d@)))
    &&& (r matches Err(ServiceError::DependencyMissing(d)) ==> exists|k: int| 0 <= k < opts.dependencies@.len() && #[trigger] opts.dependencies@[k]@ == d@
            && forall|j: int| 0 <= j <= k ==> is_dataset_id(#[trigger] opts.dependencies@[j]@))
    &&& (forall|i: int| 0 <= i < opts.dependencies@.len() && #[trigger] opts.dependencies@[i]@ != id_of(opts.name@, opts.tag@)
            && busy_everywhere(old, opts.dependencies@[i]@) ==> r is Err)
    &&& (r matches Err(ServiceError::UnhealthyDependencies(v)) ==> !(opts.force_heal || opts.yes) && v@.len() > 0
            && forall|k: int| 0 <= k < v@.len() ==> strings_view(opts.dependencies@).contains(#[trigger] v@[k]@) && verified_unhealthy(old, v@[k]@, h))
    &&& (r matches Err(ServiceError::Busy(RefreshError::ResourceBusy(st))) ==> (opts.force_heal || opts.yes) && !spec_is_open(st)
            && (old.route(target) matches Some(l) && exists|k: int| 0 <= k < opts.dependencies@.len()
                && old.layer_contents(l).contains_key(#[trigger] opts.dependencies@[k]@) && old.layer_contents(l)[opts.dependencies@[k]@].busy_status == st))
}

/// A registration of `opts` with no dependencies, in the store `target` picks of `old`, has
/// nothing to fail on but the stores and the owner: the stores never fail, every dependency
/// of a dataset held on this machine is held on this machine, the name and tag are valid,
/// and the address picks a store.
pub open spec fn plain_registration_ready<B: DatasetBackend>(old: StackedBackend<B>, opts: RegisterOptions, target: Option<&BackendAddr>) -> bool {
    &&& old.reliable()
    &&& old.locally_closed()
    &&& name_tag_ok(opts)
    &&& opts.dependencies@.len() == 0
    &&& old.route(target) is Some
}

/// A registration as in `plain_registration_ready`, with the OS user name `user`, whose
/// owner can be resolved as well: nothing is left to fail on but the stores.
pub open spec fn plain_registration_owed<B: DatasetBackend>(old: StackedBackend<B>, opts: RegisterOptions, target: Option<&BackendAddr>, user: Result<String, String>) -> bool {
    &&& plain_registration_ready(old, opts, target)
    &&& merge_owner_spec(user, owner_nickname_view(opts.owner_nickname)) is Ok
}

/// A graph with no cycle gives no node an edge to itself.
proof fn lemma_acyclic_no_self_edge(adj: AdjView, root: Seq<char>, deps: Seq<Seq<char>>)
    requires
        lookup(adj, root) == Some(deps),
        !has_cycle(adj),
    ensures
        !deps.contains(root),
{
    if deps.contains(root) {
        assert(crate::dag::edge(adj, root, root));
        assert(crate::dag::is_path(adj, seq![root]));
        assert(crate::dag::reaches(adj, root, root));
    }
}

/// The graph of a registration without dependencies is the new node alone, with no edge.
proof fn lemma_no_deps_no_cycle<B: DatasetBackend>(store: StackedBackend<B>, root: Seq<char>, adj: AdjView, ms: MetaMapView)
    requires
        with_new_root(store, root, Seq::empty(), adj, ms),
    ensures
        !has_cycle(adj),
{
    let none = Seq::<Seq<char>>::empty();
    if crate::assoc::keys(ms).contains(root) {
        let i = choose|i: int| 0 <= i < adj.len() && #[trigger] adj[i] == (root, none)
            && explored(store, none, adj.update(i, (root, lookup(ms, root).unwrap().dependencies)), ms);
        let a2 = adj.update(i, (root, lookup(ms, root).unwrap().dependencies));
        assert(crate::assoc::keys(a2).contains(root));
        assert(false);
    } else {
        let a0 = adj.drop_last();
        if a0.len() > 0 {
            assert(crate::assoc::keys(a0).contains(a0[0].0)) by {
                assert(crate::assoc::keys(a0)[0] == a0[0].0);
            }
            assert(false);
        }
        assert(adj =~= seq![(root, none)]);
        if has_cycle(adj) {
            let (u, v) = choose|u: Seq<char>, v: Seq<char>| #[trigger] crate::dag::edge(adj, u, v) && crate::dag::reaches(adj, v, u);
            assert(lookup(adj, u) matches Some(ds) && ds.contains(v));
            if u == root {
                assert(lookup(adj, u) == Some(none));
            } else {
                assert(lookup(adj.drop_first(), u) is None);
            }
            assert(false);
        }
    }
}

/// A dependency `d` of a registration of `opts` is ready: every graph explored from it gives
/// it a healthy verdict, or (with `force_heal` or `yes`) it is held open in the picked store
/// and has a current hash.
pub open spec fn dep_ready<B: DatasetBackend>(old: StackedBackend<B>, opts: RegisterOptions, l: Layer, d: Seq<char>, h: HashMapView) -> bool {
    ||| (forall|adj: AdjView, ms: MetaMapView| #[trigger] explored(old, seq![d], adj, ms) ==> (verdict(adj, ms, h, d) matches Some(v) && v.status == DataSetStatus::Healthy))
    ||| ((opts.force_heal || opts.yes) && spec_is_open(old.layer_contents(l)[d].busy_status) && lookup(h, d) is Some)
}

/// A registration of `opts` in the store `target` picks of `old`, against the current hashes
/// `h`, has nothing to fail on but the stores, which never fail, and the owner: every
/// dependency of a dataset held on this machine is held on this machine; the name and tag
/// are valid; the address picks a store that holds every dependency, each a valid id and
/// ready (see `dep_ready`); every open dataset on this machine has a current hash; and no
/// graph the registration or a dependency's verification can explore has a cycle.
pub open spec fn registration_ready<B: DatasetBackend>(old: StackedBackend<B>, opts: RegisterOptions, target: Option<&BackendAddr>, h: HashMapView) -> bool {
    &&& old.reliable()
    &&& old.locally_closed()
    &&& name_tag_ok(opts)
    &&& (old.route(target) matches Some(l) && forall|i: int| 0 <= i < opts.dependencies@.len() ==> old.layer_contents(l).contains_key(#[trigger] opts.dependencies@[i]@)
            && is_dataset_id(opts.dependencies@[i]@) && dep_ready(old, opts, l, opts.dependencies@[i]@, h))
    &&& crate::dag::hashes_cover(old, h)
    &&& (forall|adj: AdjView, ms: MetaMapView| #[trigger] with_new_root(old, id_of(opts.name@, opts.tag@), strings_view(opts.dependencies@), adj, ms) ==> !has_cycle(adj))
    &&& (forall|d: Seq<char>, adj: AdjView, ms: MetaMapView| strings_view(opts.dependencies@).contains(d) && #[trigger] explored(old, seq![d], adj, ms) ==> !has_cycle(adj))
}

/// A registration as in `registration_ready`, with the OS user name `user`, whose owner can
/// be resolved as well: nothing is left to fail on but the stores, which never fail.
pub open spec fn registration_owed<B: DatasetBackend>(old: StackedBackend<B>, opts: RegisterOptions, target: Option<&BackendAddr>, h: HashMapView, user: Result<String, String>) -> bool {
    &&& registration_ready(old, opts, target, h)
    &&& merge_owner_spec(user, owner_nickname_view(opts.owner_nickname)) is Ok
}

/// A dataset held in the store picked as `l` is found by a lookup over every store, and is
/// held on this machine.
proof fn lemma_layer_hit<B: DatasetBackend>(store: StackedBackend<B>, target: Option<&BackendAddr>, l: Layer, d: Seq<char>)
    requires
        store.route(target) == Some(l),
        store.layer_contents(l).contains_key(d),
    ensures
        store.hits(d).len() > 0,
        store.local_ids().contains(d),
{
    match l {
        Layer::Private => {},
        Layer::LocalGlobal => {},
    }
}

/// The copy of `d` in the store picked as `l` is a copy on this machine.
proof fn lemma_layer_copy_is_local<B: DatasetBackend>(store: StackedBackend<B>, target: Option<&BackendAddr>, l: Layer, d: Seq<char>)
    requires
        store.route(target) == Some(l),
        store.layer_contents(l).contains_key(d),
    ensures
        store.local_holds(d, store.layer_contents(l)[d]),
{
}

/// A dataset that verifies healthy has a copy, in one of the stores on this machine, that is
/// open.
pub proof fn lemma_healthy_has_open_copy<B: DatasetBackend>(store: StackedBackend<B>, d: Seq<char>, h: HashMapView)
    requires
        verified_healthy(store, d, h),
    ensures
        exists|m: MetaDataView| #[trigger] store.local_holds(d, m) && spec_is_open(m.busy_status),
{
    let (adj, ms) = choose|adj: AdjView, ms: MetaMapView|
        #[trigger] explored(store, seq![d], adj, ms) && !has_cycle(adj) && (verdict(adj, ms, h, d) matches Some(v) && v.status == DataSetStatus::Healthy);
    lemma_verdict_status(store, adj, ms, h, d);
}

proof fn lemma_verdict_status<B: DatasetBackend>(store: StackedBackend<B>, adj: AdjView, ms: MetaMapView, h: HashMapView, d: Seq<char>)
    requires
        explored(store, seq![d], adj, ms),
        verdict(adj, ms, h, d) matches Some(v) && v.status == DataSetStatus::Healthy,
    ensures
        exists|m: MetaDataView| #[trigger] store.local_holds(d, m) && spec_is_open(m.busy_status),
{
    assert(seq![d].contains(d)) by {
        assert(seq![d][0] == d);
    }
    assert(crate::assoc::keys(adj).contains(d));
    assert(crate::dag::entry_found(store, adj, ms, d));
    let m = lookup(ms, d).unwrap();
    assert(store.local_holds(d, m));
    let fuel = (crate::dag::universe(adj).len() + 1) as nat;
    let deps = lookup(adj, d).unwrap();
    let st = crate::dag::dep_verdicts(adj, ms, h, deps, (fuel - 1) as nat).unwrap();
    assert(verdict(adj, ms, h, d).unwrap().status == single_status(m, crate::dag::hash_of(h, d), st));
}

proof fn lemma_prefix_keys<B: DatasetBackend>(broken: Seq<String>, k: int, s0: StackedBackend<B>, cur: StackedBackend<B>, l: Layer)
    requires
        0 <= k <= broken.len(),
        forall|key: Seq<char>| !strings_view(broken.subrange(0, k)).contains(key) ==>
            (#[trigger] cur.layer_contents(l).contains_key(key) == s0.layer_contents(l).contains_key(key)
            && cur.layer_contents(l)[key] == s0.layer_contents(l)[key]),
    ensures
        forall|key: Seq<char>| !strings_view(broken).contains(key) ==>
            (#[trigger] cur.layer_contents(l).contains_key(key) == s0.layer_contents(l).contains_key(key)
            && cur.layer_contents(l)[key] == s0.layer_contents(l)[key]),
{
    assert forall|key: Seq<char>| !strings_view(broken).contains(key) implies
        (#[trigger] cur.layer_contents(l).contains_key(key) == s0.layer_contents(l).contains_key(key)
        && cur.layer_contents(l)[key] == s0.layer_contents(l)[key]) by {
        let p = strings_view(broken.subrange(0, k));
        assert(!p.contains(key)) by {
            if p.contains(key) {
                let y = choose|y: int| 0 <= y < p.len() && p[y] == key;
                assert(p[y] == broken[y]@);
                assert(strings_view(broken)[y] == key);
            }
        }
        assert(cur.layer_contents(l).contains_key(key) == s0.layer_contents(l).contains_key(key));
        assert(cur.layer_contents(l)[key] == s0.layer_contents(l)[key]);
    }
}

/// The graph of a registration of `opts` over `store`, as explored, is `adj` and has no
/// cycle.
#[verifier::opaque]
pub open spec fn acyclic_registration<B: DatasetBackend>(store: StackedBackend<B>, opts: RegisterOptions, adj: AdjView, ms: MetaMapView) -> bool {
    with_new_root(store, id_of(opts.name@, opts.tag@), strings_view(opts.dependencies@), adj, ms) && !has_cycle(adj)
}

/// The outcome of a registration with `opts` in the store `target` picks, `old` before and
/// `new` after, answering `r`.
pub open spec fn registration<B: DatasetBackend>(old: StackedBackend<B>, new: StackedBackend<B>, opts: RegisterOptions, target: Option<&BackendAddr>, dataset_hash: Seq<char>, description_path: Seq<char>, merkle_tree_path: Seq<char>, r: Result<(), ServiceError>) -> bool {
    &&& (!(name_tag_ok(opts)) ==> (r matches Err(ServiceError::InvalidInput(_))))
    &&& (r matches Err(ServiceError::InvalidInput(_)) ==> !(name_tag_ok(opts))
                || exists|i: int| 0 <= i < opts.dependencies@.len() && !is_dataset_id(#[trigger] opts.dependencies@[i]@))
    &&& (forall|k: int| 0 <= k < opts.dependencies@.len() && name_tag_ok(opts) && !is_dataset_id(#[trigger] opts.dependencies@[k]@)
            && (forall|j: int| 0 <= j < k ==> is_dataset_id(#[trigger] opts.dependencies@[j]@) && old.reliable() && old.hits(opts.dependencies@[j]@).len() > 0)
            ==> r matches Err(ServiceError::InvalidInput(_)))
    &&& (forall|k: int| 0 <= k < opts.dependencies@.len() && name_tag_ok(opts) && is_dataset_id(#[trigger] opts.dependencies@[k]@) && old.hits(opts.dependencies@[k]@).len() == 0
            && (forall|j: int| 0 <= j < k ==> is_dataset_id(#[trigger] opts.dependencies@[j]@) && old.reliable() && old.hits(opts.dependencies@[j]@).len() > 0)
            ==> (r matches Err(ServiceError::DependencyMissing(d)) && d@ == opts.dependencies@[k]@))
    &&& (r matches Err(ServiceError::DependencyMissing(d)) ==> strings_view(opts.dependencies@).contains(d@))
    &&& (r matches Err(ServiceError::UnhealthyDependencies(v)) ==> !(opts.force_heal || opts.yes) && v@.len() > 0)
    &&& (r matches Err(e) && (e is InvalidInput || e is DependencyMissing || e is Graph || e is UnhealthyDependencies) ==> same_layer(new, old, target))
    &&& (r is Err && !(opts.force_heal || opts.yes) ==> same_layer(new, old, target))
    &&& (r is Err ==> (old.route(target) matches Some(l) ==> new.route(target) == Some(l)
            && new.layer_contents(l).contains_key(id_of(opts.name@, opts.tag@)) == old.layer_contents(l).contains_key(id_of(opts.name@, opts.tag@))
            && new.layer_contents(l)[id_of(opts.name@, opts.tag@)] == old.layer_contents(l)[id_of(opts.name@, opts.tag@)]))
    &&& (r is Ok ==> exists|adj: AdjView, ms: MetaMapView| #[trigger] acyclic_registration(old, opts, adj, ms))
    &&& (r is Ok ==> deps_registered(old, opts))
    &&& (r is Ok ==> {
                &&& name_tag_ok(opts)
                &&& forall|i: int| 0 <= i < opts.dependencies@.len() ==> is_dataset_id(#[trigger] opts.dependencies@[i]@)
                &&& old.route(target) matches Some(l) && new.route(target) == Some(l)
                    && new.layer_contents(l).contains_key(id_of(opts.name@, opts.tag@))
                    && registered_as(new.layer_contents(l)[id_of(opts.name@, opts.tag@)], opts, dataset_hash, description_path, merkle_tree_path)
                    && forall|k: Seq<char>| k != id_of(opts.name@, opts.tag@) && !strings_view(opts.dependencies@).contains(k) ==>
                        (#[trigger] new.layer_contents(l).contains_key(k) == old.layer_contents(l).contains_key(k)
                        && new.layer_contents(l)[k] == old.layer_contents(l)[k])
            })
}

impl<B: DatasetBackend> DSFService<B> {
    /// The store the service works on.
    pub closed spec fn store(&self) -> StackedBackend<B> {
        self.backend
    }

    pub fn new(backend: StackedBackend<B>) -> (r: Self)
        ensures
            r.store() == backend,
    {
        DSFService { backend }
    }

    /// The store the service worked on, handed back.
    pub fn into_backend(self) -> (r: StackedBackend<B>)
        ensures
            r == self.store(),
    {
        self.backend
    }

    /// Looks the metadata of a dataset up, as the stacked store's `get_metadata` does, once
    /// the id is checked to be `name@tag`.
    pub fn query_meta(&self, id: &str, target: Option<&BackendAddr>) -> (r: Result<Vec<ScopedMetaData>, ServiceError>)
        ensures
            !is_dataset_id(id@) ==> r matches Err(ServiceError::InvalidInput(InputError::IllegalId(_))),
            is_dataset_id(id@) ==> (r is Err ==> r->Err_0 is Backend),
            target matches Some(a) ==> match self.store().route(target) {
                None => r is Err,
                Some(l) => (r matches Ok(v) ==> self.store().layer_contents(l).contains_key(id@) && scoped_view(v@) == seq![(a@, self.store().layer_contents(l)[id@])]),
            },
            target is None ==> (r matches Ok(v) ==> scoped_view(v@) == self.store().hits(id@) && v@.len() > 0),
            is_dataset_id(id@) && target is None ==> (r matches Err(ServiceError::Backend(BackendError::DatasetNotFound { .. })) ==> self.store().hits(id@).len() == 0),
            self.store().reliable() && is_dataset_id(id@) && target is None ==> (r is Ok <==> self.store().hits(id@).len() > 0),
            self.store().reliable() && is_dataset_id(id@) && target is Some ==> (self.store().route(target) matches Some(l) ==> (r is Ok <==> self.store().layer_contents(l).contains_key(id@))),
    {
        match validate_dataset_id(id) {
            Ok(()) => {},
            Err(e) => return Err(ServiceError::InvalidInput(e)),
        }
        match self.backend.get_metadata(id, target) {
            Ok(v) => Ok(v),
            Err(e) => Err(ServiceError::Backend(e)),
        }
    }

    /// Records the busy status of a dataset in the store an address picks.
    pub fn mark_status(&mut self, id: &str, status: DataSetBusyStatus, target: Option<&BackendAddr>) -> (r: Result<(), ServiceError>)
        ensures
            !is_dataset_id(id@) ==> (r matches Err(ServiceError::InvalidInput(InputError::IllegalId(_))) && final(self).store() == old(self).store()),
            is_dataset_id(id@) ==> (r is Err ==> r->Err_0 is Backend),
            old(self).store().route(target) is None ==> r is Err && final(self).store() == old(self).store(),
            old(self).store().route(target) matches Some(l) ==> {
                &&& (r is Ok ==> old(self).store().layer_contents(l).contains_key(id@) && final(self).store().layer_contents(l) == old(self).store().layer_contents(l).insert(id@, MetaDataView { busy_status: status, ..old(self).store().layer_contents(l)[id@] }))
                &&& (r matches Err(ServiceError::Backend(BackendError::DatasetNotFound { .. })) ==> !old(self).store().layer_contents(l).contains_key(id@))
                &&& (r is Err ==> final(self).store().layer_contents(l) == old(self).store().layer_contents(l))
                &&& (old(self).store().reliable() && is_dataset_id(id@) ==> (r is Ok <==> old(self).store().layer_contents(l).contains_key(id@)))
            },
            old(self).store().reliable() ==> final(self).store().reliable(),
    {
        match validate_dataset_id(id) {
            Ok(()) => {},
            Err(e) => return Err(ServiceError::InvalidInput(e)),
        }
        match self.backend.mark_status(id, status, target) {
            Ok(()) => Ok(()),
            Err(e) => Err(ServiceError::Backend(e)),
        }
    }

    /// Lists every dataset of every store (see the stacked store's `list_all_metadata`).
    pub fn list_all_metadata(&self) -> (r: BackendResult<Vec<ScopedMetaData>>)
        ensures
            r is Ok,
            r matches Ok(v) ==> exists|p: Seq<MetaData>, l: Seq<MetaData>, rp: Seq<Seq<MetaData>>|
                #![trigger self.store().listing_parts(p, l, rp)]
                self.store().listing_parts(p, l, rp) && scoped_view(v@) == self.store().stacked_listing(p, l, rp),
    {
        self.backend.list_all_metadata()
    }

    /// The datasets that depend on `target_id`, from every store (see the stacked store's
    /// `check_is_referenced`).
    pub fn check_is_referenced(&self, target_id: &str) -> (r: Result<Vec<ScopedId>, MetaDataError>)
        ensures
            r matches Ok(v) ==> exists|user: Seq<char>, p: Seq<String>, l: Seq<String>, rp: Seq<Seq<String>>|
                #![trigger self.store().referrer_parts(target_id@, p, l, rp), self.store().referrer_listing(user, p, l, rp)]
                self.store().referrer_parts(target_id@, p, l, rp) && crate::backend::router::scoped_ids_view(v@) == self.store().referrer_listing(user, p, l, rp),
            r matches Err(e) ==> e is OwnerResolveFailed,
    {
        self.backend.check_is_referenced(target_id)
    }

    /// The datasets that depend on `target_id`, from every store, the OS user name given
    /// as `user` (see the stacked store's `check_is_referenced_with_user`).
    pub fn check_is_referenced_with_user(&self, target_id: &str, user: Result<String, String>) -> (r: Result<Vec<ScopedId>, MetaDataError>)
        ensures
            user is Ok <==> r is Ok,
            r matches Ok(v) ==> exists|p: Seq<String>, l: Seq<String>, rp: Seq<Seq<String>>|
                #![trigger self.store().referrer_parts(target_id@, p, l, rp)]
                self.store().referrer_parts(target_id@, p, l, rp) && crate::backend::router::scoped_ids_view(v@) == self.store().referrer_listing(user->Ok_0@, p, l, rp),
            user matches Err(m) ==> (r matches Err(MetaDataError::OwnerResolveFailed(t)) && t@ == "OS username unavailable: "@ + m@),
    {
        self.backend.check_is_referenced_with_user(target_id, user)
    }

    /// Removes a dataset's registration from the store an address picks; its data on disk
    /// is left alone. Unless `force`, the deletion is refused while the store reports
    /// datasets depending on it.
    pub fn delete_metadata(&mut self, id: &str, force: bool, target: Option<&BackendAddr>) -> (r: Result<(), ServiceError>)
        ensures
            !is_dataset_id(id@) ==> r matches Err(ServiceError::InvalidInput(InputError::IllegalId(_))),
            r is Err ==> final(self).store() == old(self).store() || r->Err_0 is Backend,
            old(self).store().route(target) is None ==> r is Err && final(self).store() == old(self).store(),
            old(self).store().route(target) matches Some(l) ==> {
                &&& (r is Ok ==> old(self).store().layer_contents(l).contains_key(id@)
                    && final(self).store().layer_contents(l) == old(self).store().layer_contents(l).remove(id@)
                    && (!force ==> old(self).store().layer_referrers(l, id@).len() == 0))
                &&& (r matches Err(ServiceError::DeletionBlocked(v)) ==> !force && v@.len() > 0 && strings_view(v@) == old(self).store().layer_referrers(l, id@))
                &&& (r is Err ==> final(self).store().layer_contents(l) == old(self).store().layer_contents(l))
                &&& (old(self).store().reliable() && is_dataset_id(id@) ==> (r is Ok <==>
                        (old(self).store().layer_contents(l).contains_key(id@) && (force || old(self).store().layer_referrers(l, id@).len() == 0))))
                &&& (old(self).store().reliable() && is_dataset_id(id@) && !force && old(self).store().layer_referrers(l, id@).len() > 0
                        ==> r matches Err(ServiceError::DeletionBlocked(_)))
                &&& (old(self).store().reliable() && is_dataset_id(id@) && (force || old(self).store().layer_referrers(l, id@).len() == 0)
                        && !old(self).store().layer_contents(l).contains_key(id@)
                        ==> (r matches Err(ServiceError::Backend(BackendError::DatasetNotFound { .. }))))
            },
            old(self).store().reliable() ==> final(self).store().reliable(),
    {
        match validate_dataset_id(id) {
            Ok(()) => {},
            Err(e) => return Err(ServiceError::InvalidInput(e)),
        }
        let store = match self.backend.get_backend_by_addr(target) {
            Ok(b) => b,
            Err(e) => return Err(ServiceError::Backend(e)),
        };
        if !force {
            match store.check_is_referenced(id) {
                Ok(referrers) => {
                    if referrers.len() > 0 {
                        return Err(ServiceError::DeletionBlocked(referrers));
                    }
                },
                Err(e) => return Err(ServiceError::Backend(e)),
            }
        }
        match store.get_metadata(id) {
            Ok(_) => {},
            Err(e) => return Err(ServiceError::Backend(e)),
        }
        match self.backend.delete_metadata_at(id, target) {
            Ok(()) => Ok(()),
            Err(e) => Err(ServiceError::Backend(e)),
        }
    }

    /// The dependency graph under a dataset, through the stores on this machine.
    pub fn query_dependency_graph(&self, root_id: &str) -> (r: Result<DatasetGraph, DatasetGraphError>)
        ensures
            r matches Ok(g) ==> explored(self.store(), seq![root_id@], g.adj(), crate::dag::metas_view(g.datasets@)),
            r matches Err(DatasetGraphError::DatasetNotFound { node_id }) ==> node_id@ == root_id@
                || exists|k: Seq<char>, m: MetaDataView| #[trigger] self.store().local_holds(k, m) && m.dependencies.contains(node_id@),
            r matches Err(e) ==> e is DatasetNotFound || e is Io,
            self.store().reliable() && self.store().locally_closed() && self.store().local_ids().contains(root_id@) ==> r is Ok,
            self.store().private_be.reliable() ==> (r matches Ok(g) ==> crate::dag::private_copies(self.store(), crate::dag::metas_view(g.datasets@))),
            self.store().reliable() ==> (r matches Err(DatasetGraphError::DatasetNotFound { node_id }) ==> crate::dag::held_reaches(self.store(), seq![root_id@], node_id@)),
            self.store().reliable() ==> (r matches Err(e) ==> (e matches DatasetGraphError::DatasetNotFound { node_id } && !self.store().local_ids().contains(node_id@))),
    {
        DatasetGraph::from_root(root_id, &self.backend)
    }

    /// Verifies a dataset alone, against the hash of its content as it is now on disk,
    /// as held in the store an address picks.
    pub fn verify_self(&self, id: &str, current_hash: &str, target: Option<&BackendAddr>) -> (r: Result<DataSetVerifyRes, ServiceError>)
        ensures
            !is_dataset_id(id@) ==> r matches Err(ServiceError::InvalidInput(InputError::IllegalId(_))),
            self.store().route(target) is None ==> r is Err,
            r matches Err(e) ==> e is InvalidInput || e is Backend || e is Load,
            r matches Ok(v) ==> self.store().route(target) matches Some(l) && self.store().layer_contents(l).contains_key(id@)
                && v.status == single_status(self.store().layer_contents(l)[id@], current_hash@, Seq::empty()) && v.dep_status@.len() == 0,
            self.store().reliable() && is_dataset_id(id@) ==> (self.store().route(target) matches Some(l) ==> (r is Ok <==> self.store().layer_contents(l).contains_key(id@))),
    {
        match validate_dataset_id(id) {
            Ok(()) => {},
            Err(e) => return Err(ServiceError::InvalidInput(e)),
        }
        let store = match self.backend.get_backend_by_addr(target) {
            Ok(b) => b,
            Err(e) => return Err(ServiceError::Backend(e)),
        };
        let mut ds = match DSFDataSet::load_from_id(id, store) {
            Ok(d) => d,
            Err((k, m)) => return Err(ServiceError::Load(k, m)),
        };
        let none: Vec<DataSetStatus> = Vec::new();
        Ok(ds.verify_single(current_hash, none.as_slice()))
    }

    /// Verifies a dataset with everything it depends on, given the hash of each dataset's
    /// content as it is now on disk.
    pub fn verify_deep(&self, id: &str, current_hashes: &Vec<(String, String)>, target: Option<&BackendAddr>) -> (r: Result<DataSetVerifyRes, DatasetGraphError>)
        ensures
            self.store().route(target) is None ==> r is Err,
            r matches Ok(v) ==> self.store().route(target) matches Some(l) && self.store().layer_contents(l).contains_key(id@)
                && exists|adj: AdjView, ms: MetaMapView|
                    #![trigger explored(self.store(), seq![self.store().layer_contents(l)[id@].spec_id()], adj, ms)]
                    explored(self.store(), seq![self.store().layer_contents(l)[id@].spec_id()], adj, ms) && !has_cycle(adj)
                        && verdict(adj, ms, hashes_view(current_hashes@), self.store().layer_contents(l)[id@].spec_id()) == Some(v@),
            r matches Err(DatasetGraphError::CycleDetected { node, dep }) ==> self.store().route(target) matches Some(l)
                && self.store().layer_contents(l).contains_key(id@)
                && exists|adj: AdjView, ms: MetaMapView|
                    #![trigger explored(self.store(), seq![self.store().layer_contents(l)[id@].spec_id()], adj, ms)]
                    explored(self.store(), seq![self.store().layer_contents(l)[id@].spec_id()], adj, ms)
                        && crate::dag::edge(adj, node@, dep@) && crate::dag::reaches(adj, dep@, node@),
            self.store().reliable() && self.store().locally_closed() && crate::dag::hashes_cover(self.store(), hashes_view(current_hashes@))
                && (self.store().route(target) matches Some(l) && self.store().layer_contents(l).contains_key(id@))
                && (forall|adj: AdjView, ms: MetaMapView| #[trigger] explored(self.store(), seq![id@], adj, ms) ==> !has_cycle(adj))
                ==> r is Ok,
    {
        let store = match self.backend.get_backend_by_addr(target) {
            Ok(b) => b,
            Err(e) => return Err(e.to_dag_error()),
        };
        let mut ds = match DSFDataSet::load_from_id(id, store) {
            Ok(d) => d,
            Err((k, m)) => return Err(DatasetGraphError::Io(k, m)),
        };
        proof {
            store.lemma_keys_are_ids();
        }
        ds.verify(&self.backend, current_hashes)
    }

    /// Records the hash of a dataset's content as it is now on disk, unless the dataset is
    /// held by an operation other than reading.
    pub fn update_merkle(&mut self, id: &str, new_hash: String, target: Option<&BackendAddr>) -> (r: Result<(), ServiceError>)
        ensures
            !is_dataset_id(id@) ==> r matches Err(ServiceError::InvalidInput(InputError::IllegalId(_))),
            r is Err ==> final(self).store() == old(self).store() || r->Err_0 is Backend,
            old(self).store().route(target) is None ==> r is Err && final(self).store() == old(self).store(),
            old(self).store().route(target) matches Some(l) ==> {
                &&& (r is Ok ==> old(self).store().layer_contents(l).contains_key(id@)
                    && spec_is_open(old(self).store().layer_contents(l)[id@].busy_status)
                    && final(self).store().layer_contents(l) == old(self).store().layer_contents(l).insert(
                        old(self).store().layer_contents(l)[id@].spec_id(),
                        MetaDataView { hash: new_hash@, ..old(self).store().layer_contents(l)[id@] }))
                &&& (r matches Err(ServiceError::Busy(RefreshError::ResourceBusy(s))) ==> old(self).store().layer_contents(l).contains_key(id@)
                    && s == old(self).store().layer_contents(l)[id@].busy_status && !spec_is_open(s))
                &&& (r is Err ==> final(self).store().layer_contents(l) == old(self).store().layer_contents(l))
                &&& (old(self).store().reliable() && is_dataset_id(id@) ==> (r is Ok <==>
                        (old(self).store().layer_contents(l).contains_key(id@) && spec_is_open(old(self).store().layer_contents(l)[id@].busy_status))))
                &&& (old(self).store().reliable() && is_dataset_id(id@) && old(self).store().layer_contents(l).contains_key(id@)
                        && !spec_is_open(old(self).store().layer_contents(l)[id@].busy_status)
                        ==> (r matches Err(ServiceError::Busy(RefreshError::ResourceBusy(s))) && s == old(self).store().layer_contents(l)[id@].busy_status))
                &&& (old(self).store().reliable() && is_dataset_id(id@) && !old(self).store().layer_contents(l).contains_key(id@)
                        ==> (r matches Err(ServiceError::Load(k, _)) && k == IoKind::NotFound))
            },
            old(self).store().reliable() ==> final(self).store().reliable(),
    {
        match validate_dataset_id(id) {
            Ok(()) => {},
            Err(e) => return Err(ServiceError::InvalidInput(e)),
        }
        let mut ds = {
            let store = match self.backend.get_backend_by_addr(target) {
                Ok(b) => b,
                Err(e) => return Err(ServiceError::Backend(e)),
            };
            match DSFDataSet::load_from_id(id, store) {
                Ok(d) => d,
                Err((k, m)) => return Err(ServiceError::Load(k, m)),
            }
        };
        match ds.refresh_hash_and_merkle(new_hash) {
            Ok(()) => {},
            Err(e) => return Err(ServiceError::Busy(e)),
        }
        match self.backend.save_metadata(&ds.metadata, target) {
            Ok(()) => Ok(()),
            Err(e) => Err(ServiceError::Backend(e)),
        }
    }

    /// Verifies each dependency, loaded from the store `target` picks, and lists those that
    /// did not verify healthy.
    fn unhealthy_dependencies(&self, deps: &Vec<String>, target: Option<&BackendAddr>, current_hashes: &Vec<(String, String)>) -> (r: Result<Vec<String>, ServiceError>)
        ensures
            r matches Ok(b) ==> (forall|x: int| 0 <= x < deps@.len() ==> verified_healthy(self.store(), #[trigger] deps@[x]@, hashes_view(current_hashes@))
                    || strings_view(b@).contains(deps@[x]@))
                && (forall|k: int| 0 <= k < b@.len() ==> strings_view(deps@).contains(#[trigger] b@[k]@))
                && (forall|k: int| 0 <= k < b@.len() ==> verified_unhealthy(self.store(), #[trigger] b@[k]@, hashes_view(current_hashes@))),
            r matches Err(e) ==> e is Backend || e is Load || e is Graph,
            deps@.len() == 0 ==> (r matches Ok(b) && b@.len() == 0),
            self.store().reliable() && self.store().locally_closed() && crate::dag::hashes_cover(self.store(), hashes_view(current_hashes@))
                && (self.store().route(target) matches Some(l) && forall|x: int| 0 <= x < deps@.len() ==> self.store().layer_contents(l).contains_key(#[trigger] deps@[x]@))
                && (forall|d: Seq<char>, adj: AdjView, ms: MetaMapView| strings_view(deps@).contains(d) && #[trigger] explored(self.store(), seq![d], adj, ms) ==> !has_cycle(adj))
                ==> r is Ok,
    {
        let ghost owed = self.store().reliable() && self.store().locally_closed() && crate::dag::hashes_cover(self.store(), hashes_view(current_hashes@))
            && (self.store().route(target) matches Some(l) && forall|x: int| 0 <= x < deps@.len() ==> self.store().layer_contents(l).contains_key(#[trigger] deps@[x]@))
            && (forall|d: Seq<char>, adj: AdjView, ms: MetaMapView| strings_view(deps@).contains(d) && #[trigger] explored(self.store(), seq![d], adj, ms) ==> !has_cycle(adj));
        let mut broken: Vec<String> = Vec::new();
        let mut j: usize = 0;
        while j < deps.len()
            invariant
                j <= deps@.len(),
                forall|x: int| 0 <= x < j ==> verified_healthy(self.store(), #[trigger] deps@[x]@, hashes_view(current_hashes@))
                    || strings_view(broken@).contains(deps@[x]@),
                forall|k: int| 0 <= k < broken@.len() ==> strings_view(deps@).contains(#[trigger] broken@[k]@),
                forall|k: int| 0 <= k < broken@.len() ==> verified_unhealthy(self.store(), #[trigger] broken@[k]@, hashes_view(current_hashes@)),
                broken@.len() <= j,
                owed == (self.store().reliable() && self.store().locally_closed() && crate::dag::hashes_cover(self.store(), hashes_view(current_hashes@))
                    && (self.store().route(target) matches Some(l) && forall|x: int| 0 <= x < deps@.len() ==> self.store().layer_contents(l).contains_key(#[trigger] deps@[x]@))
                    && (forall|d: Seq<char>, adj: AdjView, ms: MetaMapView| strings_view(deps@).contains(d) && #[trigger] explored(self.store(), seq![d], adj, ms) ==> !has_cycle(adj))),
            decreases deps@.len() - j,
        {
            let store = match self.backend.get_backend_by_addr(target) {
                Ok(b) => b,
                Err(e) => return Err(ServiceError::Backend(e)),
            };
            proof {
                if owed {
                    assert(store.reliable());
                    assert(store.contents() == self.store().layer_contents(self.store().route(target).unwrap()));
                    assert(store.contents().contains_key(deps@[j as int]@));
                }
            }
            let mut ds = match DSFDataSet::load_from_id(deps[j].as_str(), store) {
                Ok(d) => d,
                Err((k, m)) => return Err(ServiceError::Load(k, m)),
            };
            proof {
                store.lemma_keys_are_ids();
                assert(ds.metadata@.spec_id() == deps@[j as int]@);
                if owed {
                    let l = self.store().route(target).unwrap();
                    assert(self.store().layer_contents(l).contains_key(deps@[j as int]@));
                    assert(self.store().local_ids().contains(deps@[j as int]@));
                    assert(strings_view(deps@)[j as int] == deps@[j as int]@);
                    assert(strings_view(deps@).contains(deps@[j as int]@));
                }
            }
            let ghost b0 = broken@;
            proof {
                if owed {
                    let d = ds.metadata@.spec_id();
                    assert(self.backend.local_ids().contains(d));
                    assert(strings_view(deps@).contains(d));
                    assert(forall|adj: AdjView, ms: MetaMapView| #[trigger] explored(self.backend, seq![d], adj, ms) ==> !has_cycle(adj));
                }
            }
            let res = match ds.verify(&self.backend, current_hashes) {
                Ok(v) => v,
                Err(e) => return Err(ServiceError::Graph(e)),
            };
            match res.status {
                DataSetStatus::Healthy => {
                    assert(verified_healthy(self.store(), deps@[j as int]@, hashes_view(current_hashes@)));
                },
                _ => {
                    assert(strings_view(deps@)[j as int] == deps@[j as int]@);
                    assert(verified_unhealthy(self.store(), deps@[j as int]@, hashes_view(current_hashes@)));
                    broken.push(deps[j].clone());
                    proof {
                        assert(strings_view(broken@)[b0.len() as int] == deps@[j as int]@);
                        assert forall|x: int| 0 <= x < j implies verified_healthy(self.store(), #[trigger] deps@[x]@, hashes_view(current_hashes@))
                            || strings_view(broken@).contains(deps@[x]@) by {
                            if strings_view(b0).contains(deps@[x]@) {
                                let y = choose|y: int| 0 <= y < b0.len() && strings_view(b0)[y] == deps@[x]@;
                                assert(strings_view(broken@)[y] == deps@[x]@);
                            }
                        }
                    }
                },
            }
            j = j + 1;
        }
        Ok(broken)
    }

    /// Refreshes, in the store `target` picks, the hash of each dataset of `broken` to its
    /// current one, unless it is held by an operation other than reading.
    fn heal_dependencies(&mut self, broken: &Vec<String>, target: Option<&BackendAddr>, current_hashes: &Vec<(String, String)>) -> (r: Result<(), ServiceError>)
        requires
            old(self).store().route(target) is Some,
        ensures
            final(self).store().route(target) == old(self).store().route(target),
            ({
                let l = old(self).store().route(target).unwrap();
                &&& forall|key: Seq<char>| !strings_view(broken@).contains(key) ==>
                        (#[trigger] final(self).store().layer_contents(l).contains_key(key) == old(self).store().layer_contents(l).contains_key(key)
                        && final(self).store().layer_contents(l)[key] == old(self).store().layer_contents(l)[key])
                &&& busy_kept(old(self).store(), final(self).store(), l, None)
                &&& (r is Ok ==> forall|x: int| 0 <= x < broken@.len() ==> refreshed(old(self).store(), final(self).store(), l, #[trigger] broken@[x]@, hashes_view(current_hashes@)))
            }),
            r matches Err(e) ==> e is Backend || e is Load || e is Busy,
            old(self).store().reliable() ==> final(self).store().reliable(),
            r matches Err(ServiceError::Busy(RefreshError::ResourceBusy(st))) ==> exists|x: int| 0 <= x < broken@.len()
                && old(self).store().layer_contents(old(self).store().route(target).unwrap()).contains_key(#[trigger] broken@[x]@)
                && old(self).store().layer_contents(old(self).store().route(target).unwrap())[broken@[x]@].busy_status == st
                && !spec_is_open(st),
            old(self).store().reliable() && heal_owed(old(self).store(), old(self).store().route(target).unwrap(), strings_view(broken@), hashes_view(current_hashes@)) ==> r is Ok,
    {
        let ghost s0 = self.backend;
        let ghost l = s0.route(target).unwrap();
        let ghost hv = hashes_view(current_hashes@);
        let ghost owed = s0.reliable() && heal_owed(s0, l, strings_view(broken@), hv);
        let mut k: usize = 0;
        while k < broken.len()
            invariant
                s0 == old(self).store(),
                s0.route(target) == Some(l),
                s0.reliable() ==> self.backend.reliable(),
                hv == hashes_view(current_hashes@),
                k <= broken@.len(),
                self.backend.route(target) == Some(l),
                forall|key: Seq<char>| !strings_view(broken@.subrange(0, k as int)).contains(key) ==>
                    (#[trigger] self.backend.layer_contents(l).contains_key(key) == s0.layer_contents(l).contains_key(key)
                    && self.backend.layer_contents(l)[key] == s0.layer_contents(l)[key]),
                busy_kept(s0, self.backend, l, None),
                forall|x: int| 0 <= x < k ==> refreshed(s0, self.backend, l, #[trigger] broken@[x]@, hv),
                owed == (s0.reliable() && heal_owed(s0, l, strings_view(broken@), hv)),
            decreases broken@.len() - k,
        {
            let ghost cur = self.backend;
            let d = &broken[k];
            proof {
                if owed {
                    assert(strings_view(broken@)[k as int] == d@);
                    let pre = strings_view(broken@.subrange(0, k as int));
                    if pre.contains(d@) {
                        let y = choose|y: int| 0 <= y < pre.len() && pre[y] == d@;
                        assert(broken@[y]@ == d@);
                        assert(refreshed(s0, cur, l, broken@[y]@, hv));
                    }
                    assert(cur.layer_contents(l).contains_key(d@));
                    assert(cur.layer_contents(l)[d@].busy_status == s0.layer_contents(l)[d@].busy_status);
                }
            }
            let mut ds = {
                let store = match self.backend.get_backend_by_addr(target) {
                    Ok(b) => b,
                    Err(e) => {
                        proof { lemma_prefix_keys(broken@, k as int, s0, self.backend, l); }
                        return Err(ServiceError::Backend(e));
                    },
                };
                proof {
                    store.lemma_keys_are_ids();
                }
                match DSFDataSet::load_from_id(d.as_str(), store) {
                    Ok(x) => x,
                    Err((kind, m)) => {
                        proof { lemma_prefix_keys(broken@, k as int, s0, self.backend, l); }
                        return Err(ServiceError::Load(kind, m));
                    },
                }
            };
            let new_hash = match assoc_find(current_hashes, d) {
                Some(x) => {
                    proof {
                        assert(hv[x as int].0 == d@);
                        assert forall|y: int| 0 <= y < x implies hv[y].0 != d@ by {}
                        lemma_lookup_first(hv, x as int, d@);
                    }
                    current_hashes[x].1.clone()
                },
                None => {
                    proof {
                        lemma_prefix_keys(broken@, k as int, s0, self.backend, l);
                        if owed {
                            crate::assoc::lemma_lookup_some(hv, d@);
                            let y = choose|y: int| 0 <= y < hv.len() && hv[y].0 == d@;
                            assert(current_hashes@[y].0@ == d@);
                        }
                    }
                    return Err(ServiceError::Load(IoKind::NotFound, concat3("no current content hash for ", d.as_str(), "")));
                },
            };
            let ghost loaded = ds.metadata@;
            match ds.refresh_hash_and_merkle(new_hash) {
                Ok(()) => {},
                Err(e) => {
                    proof {
                        lemma_prefix_keys(broken@, k as int, s0, self.backend, l);
                        assert(loaded == cur.layer_contents(l)[d@]);
                        let pre = strings_view(broken@.subrange(0, k as int));
                        if pre.contains(d@) {
                            let y = choose|y: int| 0 <= y < pre.len() && pre[y] == d@;
                            assert(broken@[y]@ == d@);
                            assert(refreshed(s0, cur, l, broken@[y]@, hv));
                        }
                        assert(s0.layer_contents(l)[broken@[k as int]@].busy_status == loaded.busy_status);
                    }
                    return Err(ServiceError::Busy(e));
                },
            }
            match self.backend.save_metadata(&ds.metadata, target) {
                Ok(()) => {},
                Err(e) => {
                    proof {
                        assert(self.backend.layer_contents(l) == cur.layer_contents(l));
                        assert forall|key: Seq<char>| !strings_view(broken@.subrange(0, k as int)).contains(key) implies
                            (#[trigger] self.backend.layer_contents(l).contains_key(key) == s0.layer_contents(l).contains_key(key)
                            && self.backend.layer_contents(l)[key] == s0.layer_contents(l)[key]) by {
                            assert(cur.layer_contents(l).contains_key(key) == s0.layer_contents(l).contains_key(key));
                            assert(cur.layer_contents(l)[key] == s0.layer_contents(l)[key]);
                        }
                        lemma_prefix_keys(broken@, k as int, s0, self.backend, l);
                    }
                    return Err(ServiceError::Backend(e));
                },
            }
            proof {
                assert(ds.metadata@.spec_id() == d@);
                assert(loaded == cur.layer_contents(l)[d@]);
                assert(self.backend.layer_contents(l) == cur.layer_contents(l).insert(d@, ds.metadata@));
                let pre = strings_view(broken@.subrange(0, k as int));
                let post = strings_view(broken@.subrange(0, k + 1));
                assert(post =~= pre.push(d@));
                assert forall|key: Seq<char>| !post.contains(key) implies
                    (#[trigger] self.backend.layer_contents(l).contains_key(key) == s0.layer_contents(l).contains_key(key)
                    && self.backend.layer_contents(l)[key] == s0.layer_contents(l)[key]) by {
                    assert(!pre.contains(key)) by {
                        if pre.contains(key) {
                            let y = choose|y: int| 0 <= y < pre.len() && pre[y] == key;
                            assert(post[y] == key);
                        }
                    }
                    assert(key != d@) by {
                        assert(post[k as int] == d@);
                    }
                    assert(self.backend.layer_contents(l).contains_key(key) == s0.layer_contents(l).contains_key(key));
                    assert(self.backend.layer_contents(l)[key] == s0.layer_contents(l)[key]);
                }
                if !pre.contains(d@) {
                    assert(cur.layer_contents(l)[d@] == s0.layer_contents(l)[d@]);
                } else {
                    let y = choose|y: int| 0 <= y < pre.len() && pre[y] == d@;
                    assert(broken@[y]@ == d@);
                    assert(refreshed(s0, cur, l, broken@[y]@, hv));
                }
                assert(refreshed(s0, self.backend, l, d@, hv));
                assert forall|x: int| 0 <= x < k + 1 implies refreshed(s0, self.backend, l, #[trigger] broken@[x]@, hv) by {
                    if x < k && broken@[x]@ != d@ {
                        assert(refreshed(s0, cur, l, broken@[x]@, hv));
                    }
                }
                assert forall|key: Seq<char>| #[trigger] s0.layer_contents(l).contains_key(key) && !spec_is_open(s0.layer_contents(l)[key].busy_status) && None::<Seq<char>> != Some(key)
                    implies self.backend.layer_contents(l).contains_key(key) && self.backend.layer_contents(l)[key] == s0.layer_contents(l)[key] by {
                    if key == d@ {
                        assert(cur.layer_contents(l)[key] == s0.layer_contents(l)[key]);
                    }
                }
            }
            k = k + 1;
        }
        proof {
            assert(broken@.subrange(0, k as int) =~= broken@);
        }
        Ok(())
    }

    /// Registers a new dataset (see `register_with_user`), its owner taken from the OS user
    /// running this process.
    pub fn register(&mut self, opts: &RegisterOptions, target: Option<&BackendAddr>, dataset_hash: String, description_path: String, merkle_tree_path: String, current_hashes: &Vec<(String, String)>) -> (r: Result<(), ServiceError>)
        ensures
            registration(old(self).store(), final(self).store(), *opts, target, dataset_hash@, description_path@, merkle_tree_path@, r),
            registration_settles(old(self).store(), final(self).store(), *opts, target, hashes_view(current_hashes@), r),
            registration_ready(old(self).store(), *opts, target, hashes_view(current_hashes@)) || plain_registration_ready(old(self).store(), *opts, target)
                ==> (r is Ok || (r matches Err(ServiceError::MetaData(e)) && (e is OwnerResolveFailed || e is InvalidNickname))),
            old(self).store().reliable() ==> final(self).store().reliable(),
            r is Ok ==> (old(self).store().route(target) matches Some(l) && exists|u: String|
                merge_owner_spec(Ok(u), owner_nickname_view(opts.owner_nickname)) == Ok::<Seq<char>, MetaDataError>(#[trigger] final(self).store().layer_contents(l)[id_of(opts.name@, opts.tag@)].owner)),
    {
        let user = os_username();
        let ghost u0 = user;
        let r = self.register_with_user(opts, target, dataset_hash, description_path, merkle_tree_path, current_hashes, user);
        proof {
            if r is Ok {
                let l = old(self).store().route(target).unwrap();
                let u = u0->Ok_0;
                assert(merge_owner_spec(Ok(u), owner_nickname_view(opts.owner_nickname)) == Ok::<Seq<char>, MetaDataError>(self.store().layer_contents(l)[id_of(opts.name@, opts.tag@)].owner));
            }
        }
        r
    }

    /// Registers a new dataset in the store an address picks, once its name and tag are
    /// valid, its dependencies are registered somewhere, the dependency graph has no cycle
    /// and the dependencies verify as healthy; with `force_heal` or `yes`, unhealthy
    /// dependencies have their hashes refreshed first. `dataset_hash` is the hash of the new
    /// dataset's content, `description_path` and `merkle_tree_path` where its description and
    /// its tree are kept, and `current_hashes` the hash of each dataset's content as it is
    /// now on disk.
    pub fn register_with_user(&mut self, opts: &RegisterOptions, target: Option<&BackendAddr>, dataset_hash: String, description_path: String, merkle_tree_path: String, current_hashes: &Vec<(String, String)>, user: Result<String, String>) -> (r: Result<(), ServiceError>)
        ensures
            registration(old(self).store(), final(self).store(), *opts, target, dataset_hash@, description_path@, merkle_tree_path@, r),
            registration_settles(old(self).store(), final(self).store(), *opts, target, hashes_view(current_hashes@), r),
            plain_registration_owed(old(self).store(), *opts, target, user) ==> r is Ok,
            registration_owed(old(self).store(), *opts, target, hashes_view(current_hashes@), user) ==> r is Ok,
            registration_ready(old(self).store(), *opts, target, hashes_view(current_hashes@)) || plain_registration_ready(old(self).store(), *opts, target)
                ==> (r is Ok || (r matches Err(ServiceError::MetaData(e)) && (e is OwnerResolveFailed || e is InvalidNickname))),
            old(self).store().reliable() ==> final(self).store().reliable(),
            r is Ok ==> (old(self).store().route(target) matches Some(l) && merge_owner_spec(user, owner_nickname_view(opts.owner_nickname)) == Ok::<Seq<char>, MetaDataError>(final(self).store().layer_contents(l)[id_of(opts.name@, opts.tag@)].owner)),
    {
        let ghost owed = registration_ready(old(self).store(), *opts, target, hashes_view(current_hashes@));
        match validate_name_tag(opts.name.as_str(), opts.tag.as_str()) {
            Ok(()) => {},
            Err(e) => return Err(ServiceError::InvalidInput(e)),
        }
        let deps = &opts.dependencies;
        let mut i: usize = 0;
        while i < deps.len()
            invariant
                deps@ == opts.dependencies@,
                name_tag_ok(*opts),
                i <= deps@.len(),
                forall|k: int| 0 <= k < i ==> is_dataset_id(#[trigger] deps@[k]@),
                forall|k: int| 0 <= k < i ==> self.backend.hits(#[trigger] deps@[k]@).len() > 0,
                self.backend == old(self).store(),
                owed == registration_ready(old(self).store(), *opts, target, hashes_view(current_hashes@)),
            decreases deps@.len() - i,
        {
            match validate_dataset_id(deps[i].as_str()) {
                Ok(()) => {},
                Err(e) => {
                    assert(!is_dataset_id(opts.dependencies@[i as int]@));
                    assert forall|k: int| 0 <= k < opts.dependencies@.len() && name_tag_ok(*opts) && is_dataset_id(#[trigger] opts.dependencies@[k]@)
                        && old(self).store().hits(opts.dependencies@[k]@).len() == 0
                        implies !(forall|j: int| 0 <= j < k ==> is_dataset_id(#[trigger] opts.dependencies@[j]@) && old(self).store().reliable() && old(self).store().hits(opts.dependencies@[j]@).len() > 0) by {
                        if k < i {
                            assert(self.backend.hits(deps@[k]@).len() > 0);
                        }
                    }
                    return Err(ServiceError::InvalidInput(e));
                },
            }
            proof {
                if owed {
                    let l = old(self).store().route(target).unwrap();
                    assert(old(self).store().layer_contents(l).contains_key(opts.dependencies@[i as int]@));
                    lemma_layer_hit(old(self).store(), target, l, deps@[i as int]@);
                }
            }
            if self.backend.get_metadata(deps[i].as_str(), None).is_err() {
                assert(strings_view(deps@)[i as int] == deps@[i as int]@);
                let missing = deps[i].clone();
                proof {
                    assert(opts.dependencies@[i as int]@ == missing@);
                    assert forall|j: int| 0 <= j <= i implies is_dataset_id(#[trigger] opts.dependencies@[j]@) by {}
                    assert forall|k: int| 0 <= k < opts.dependencies@.len() && name_tag_ok(*opts) && !is_dataset_id(#[trigger] opts.dependencies@[k]@)
                        implies !(forall|j: int| 0 <= j < k ==> is_dataset_id(#[trigger] opts.dependencies@[j]@) && old(self).store().reliable() && old(self).store().hits(opts.dependencies@[j]@).len() > 0) by {
                        if k > i {
                            assert(is_dataset_id(opts.dependencies@[i as int]@));
                        }
                    }
                    assert forall|k: int| 0 <= k < opts.dependencies@.len() && name_tag_ok(*opts) && is_dataset_id(#[trigger] opts.dependencies@[k]@)
                        && old(self).store().hits(opts.dependencies@[k]@).len() == 0
                        && (forall|j: int| 0 <= j < k ==> is_dataset_id(#[trigger] opts.dependencies@[j]@) && old(self).store().reliable() && old(self).store().hits(opts.dependencies@[j]@).len() > 0)
                        implies k == i by {
                        if k > i {
                            assert(is_dataset_id(opts.dependencies@[i as int]@));
                        }
                        if k < i {
                            assert(self.backend.hits(deps@[k]@).len() > 0);
                        }
                    }
                }
                return Err(ServiceError::DependencyMissing(missing));
            }
            i = i + 1;
        }
        assert(deps_registered(old(self).store(), *opts)) by {
            reveal(deps_registered);
        }
        match self.backend.route_addr(target) {
            Ok(_) => {},
            Err(e) => return Err(ServiceError::Backend(e)),
        }
        proof {
            if owed {
                let l = old(self).store().route(target).unwrap();
                assert forall|d: Seq<char>| #[trigger] strings_view(deps@).contains(d) implies self.backend.local_ids().contains(d) by {
                    let y = choose|y: int| 0 <= y < strings_view(deps@).len() && strings_view(deps@)[y] == d;
                    assert(deps@[y]@ == d);
                    assert(old(self).store().layer_contents(l).contains_key(opts.dependencies@[y]@));
                    lemma_layer_hit(old(self).store(), target, l, d);
                }
            }
        }
        let graph = match DatasetGraph::from_root_with_deps(opts.name.as_str(), opts.tag.as_str(), deps, &self.backend) {
            Ok(g) => g,
            Err(e) => return Err(ServiceError::Graph(e)),
        };
        let ghost g_adj = graph.adj();
        let ghost g_ms = crate::dag::metas_view(graph.datasets@);
        proof {
            reveal_strlit("@");
            assert(opts.name@ + "@"@ + opts.tag@ =~= id_of(opts.name@, opts.tag@));
        }
        proof {
            if deps@.len() == 0 {
                assert(strings_view(opts.dependencies@) =~= Seq::<Seq<char>>::empty());
                lemma_no_deps_no_cycle(old(self).store(), id_of(opts.name@, opts.tag@), g_adj, g_ms);
            }
        }
        match graph.check_cycle() {
            Ok(()) => {},
            Err(e) => return Err(ServiceError::Graph(e)),
        }
        assert(acyclic_registration(old(self).store(), *opts, g_adj, g_ms)) by {
            reveal(acyclic_registration);
        }
        proof {
            lemma_acyclic_no_self_edge(g_adj, id_of(opts.name@, opts.tag@), strings_view(opts.dependencies@));
        }
        proof {
            if owed {
                let l = old(self).store().route(target).unwrap();
                assert forall|x: int| 0 <= x < deps@.len() implies self.store().layer_contents(l).contains_key(#[trigger] deps@[x]@) by {
                    assert(old(self).store().layer_contents(l).contains_key(opts.dependencies@[x]@));
                }
            }
        }
        let broken = match self.unhealthy_dependencies(deps, target, current_hashes) {
            Ok(b) => b,
            Err(e) => return Err(e),
        };
        proof {
            if owed {
                let l = old(self).store().route(target).unwrap();
                let hv = hashes_view(current_hashes@);
                assert forall|x: int| 0 <= x < broken@.len() implies (opts.force_heal || opts.yes)
                    && old(self).store().layer_contents(l).contains_key(#[trigger] strings_view(broken@)[x])
                    && spec_is_open(old(self).store().layer_contents(l)[strings_view(broken@)[x]].busy_status)
                    && lookup(hv, strings_view(broken@)[x]) is Some by {
                    let b = broken@[x]@;
                    assert(strings_view(deps@).contains(b));
                    let y = choose|y: int| 0 <= y < strings_view(deps@).len() && strings_view(deps@)[y] == b;
                    assert(deps@[y]@ == b);
                    assert(old(self).store().layer_contents(l).contains_key(opts.dependencies@[y]@));
                    assert(verified_unhealthy(old(self).store(), b, hv));
                    let (adj, ms) = choose|adj: AdjView, ms: MetaMapView|
                        #[trigger] explored(old(self).store(), seq![b], adj, ms) && !has_cycle(adj) && (verdict(adj, ms, hv, b) matches Some(v) && v.status != DataSetStatus::Healthy);
                    assert(dep_ready(old(self).store(), *opts, l, b, hv));
                }
            }
        }
        let ghost s0 = self.backend;
        let ghost l = s0.route(target).unwrap();
        let ghost hv = hashes_view(current_hashes@);
        proof {
            s0.private_be.lemma_keys_are_ids();
            if s0.local_global_be is Some {
                s0.local_global_be.unwrap().1.lemma_keys_are_ids();
            }
        }
        if broken.len() > 0 {
            if !(opts.force_heal || opts.yes) {
                proof {
                    if owed {
                        assert(strings_view(broken@)[0] == broken@[0]@);
                    }
                }
                return Err(ServiceError::UnhealthyDependencies(broken));
            }
            match self.heal_dependencies(&broken, target, current_hashes) {
                Ok(()) => {},
                Err(e) => {
                    proof {
                        let nid = id_of(opts.name@, opts.tag@);
                        if strings_view(broken@).contains(nid) {
                            let y = choose|y: int| 0 <= y < broken@.len() && strings_view(broken@)[y] == nid;
                            assert(strings_view(deps@).contains(broken@[y]@));
                        }
                        assert(!strings_view(broken@).contains(nid));
                        assert(self.backend.route(target) == Some(l));
                        assert(self.backend.layer_contents(l).contains_key(nid) == s0.layer_contents(l).contains_key(nid));
                        assert(self.backend.layer_contents(l)[nid] == s0.layer_contents(l)[nid]);
                        assert(s0 == old(self).store());
                    }
                    return Err(e);
                },
            }
        }
        proof {
            assert forall|key: Seq<char>| !strings_view(deps@).contains(key) implies
                (#[trigger] self.backend.layer_contents(l).contains_key(key) == s0.layer_contents(l).contains_key(key)
                && self.backend.layer_contents(l)[key] == s0.layer_contents(l)[key]) by {
                if strings_view(broken@).contains(key) {
                    let y = choose|y: int| 0 <= y < broken@.len() && strings_view(broken@)[y] == key;
                    assert(strings_view(deps@).contains(broken@[y]@));
                }
                assert(self.backend.layer_contents(l).contains_key(key) == s0.layer_contents(l).contains_key(key));
                assert(self.backend.layer_contents(l)[key] == s0.layer_contents(l)[key]);
            }
            assert(self.backend.layer_contents(l).contains_key(id_of(opts.name@, opts.tag@)) == s0.layer_contents(l).contains_key(id_of(opts.name@, opts.tag@)));
            assert(self.backend.layer_contents(l)[id_of(opts.name@, opts.tag@)] == s0.layer_contents(l)[id_of(opts.name@, opts.tag@)]);
            assert forall|i: int| 0 <= i < deps@.len() implies verified_healthy(s0, #[trigger] deps@[i]@, hv)
                || ((opts.force_heal || opts.yes) && refreshed(s0, self.backend, l, deps@[i]@, hv)) by {
                if !verified_healthy(s0, deps@[i]@, hv) {
                    let y = choose|y: int| 0 <= y < broken@.len() && strings_view(broken@)[y] == deps@[i]@;
                    assert(refreshed(s0, self.backend, l, broken@[y]@, hv));
                }
            }
        }
        let ghost s2 = self.backend;
        let meta = match MetaData::new_with_user(
            opts.name.as_str(),
            opts.tag.as_str(),
            dataset_hash,
            opts.path.clone(),
            description_path,
            opts.script_path.clone(),
            opts.owner_nickname.clone(),
            clone_strings(deps),
            merkle_tree_path,
            DataSetBusyStatus::Free,
            user,
        ) {
            Ok(m) => m,
            Err(e) => return Err(ServiceError::MetaData(e)),
        };
        let ghost s1 = self.backend;
        match self.backend.save_metadata(&meta, target) {
            Ok(()) => {},
            Err(e) => return Err(ServiceError::Backend(e)),
        }
        proof {
            assert(meta@.spec_id() == id_of(opts.name@, opts.tag@));
            assert(self.backend.layer_contents(l) == s1.layer_contents(l).insert(id_of(opts.name@, opts.tag@), meta@));
            assert(registered_as(meta@, *opts, dataset_hash@, description_path@, merkle_tree_path@));
            let nid = id_of(opts.name@, opts.tag@);
            assert forall|i: int| 0 <= i < opts.dependencies@.len() implies {
                let d = #[trigger] opts.dependencies@[i]@;
                ||| d == nid
                ||| verified_healthy(s0, d, hv)
                ||| ((opts.force_heal || opts.yes) && refreshed(s0, self.backend, l, d, hv))
            } by {
                assert(opts.dependencies@[i] == deps@[i]);
            }
            assert(dependencies_settled(s0, self.backend, *opts, l, hv));
            assert forall|i: int| 0 <= i < opts.dependencies@.len() && #[trigger] opts.dependencies@[i]@ != nid
                && busy_everywhere(s0, opts.dependencies@[i]@) implies false by {
                let d = opts.dependencies@[i]@;
                if verified_healthy(s0, d, hv) {
                    lemma_healthy_has_open_copy(s0, d, hv);
                } else {
                    lemma_layer_copy_is_local(s0, target, l, d);
                }
            }
        }
        Ok(())
    }
}

} // verus!
