//! The stacked store: a private store, an optional local global store and remote stores.
use crate::backend::remote::RemoteBackend;
use crate::backend::sqlite_config::SqliteConfig;
use crate::backend::{BackendError, BackendResult, DatasetBackend, listing_matches};
use crate::dataset::{DataSetBusyStatus, MetaData, MetaDataError, MetaDataView, strings_view};
use crate::text::concat3;
use crate::utils::os_username;
use vstd::prelude::*;
use vstd::string::StringExecFns;

verus! {

/// Where a global store is found.
#[derive(Debug)]
pub enum GlobalBackendAddr {
    /// A store on this machine, described by the configuration file at `config_path`.
    Sqlite { config_path: String },
    /// A store on a remote server.
    Remote { server_url: String },
}

/// Which store a dataset lives in.
#[derive(Debug)]
pub enum BackendAddr {
    Private { username: String },
    Global { addr: GlobalBackendAddr },
}

/// An address, over views.
pub enum AddrView {
    Private(Seq<char>),
    GlobalSqlite(Seq<char>),
    GlobalRemote(Seq<char>),
}

impl View for GlobalBackendAddr {
    type V = AddrView;

    open spec fn view(&self) -> AddrView {
        match self {
            GlobalBackendAddr::Sqlite { config_path } => AddrView::GlobalSqlite(config_path@),
            GlobalBackendAddr::Remote { server_url } => AddrView::GlobalRemote(server_url@),
        }
    }
}

impl View for BackendAddr {
    type V = AddrView;

    open spec fn view(&self) -> AddrView {
        match self {
            BackendAddr::Private { username } => AddrView::Private(username@),
            BackendAddr::Global { addr } => addr@,
        }
    }
}

impl Clone for GlobalBackendAddr {
    fn clone(&self) -> (r: Self)
        ensures
            r == *self,
    {
        match self {
            GlobalBackendAddr::Sqlite { config_path } => GlobalBackendAddr::Sqlite { config_path: config_path.clone() },
            GlobalBackendAddr::Remote { server_url } => GlobalBackendAddr::Remote { server_url: server_url.clone() },
        }
    }
}

impl Clone for BackendAddr {
    fn clone(&self) -> (r: Self)
        ensures
            r == *self,
    {
        match self {
            BackendAddr::Private { username } => BackendAddr::Private { username: username.clone() },
            BackendAddr::Global { addr } => BackendAddr::Global { addr: addr.clone() },
        }
    }
}

/// The text of an address.
pub open spec fn addr_text(a: AddrView) -> Seq<char> {
    match a {
        AddrView::Private(u) => "Private(owner: "@ + u + ")"@,
        AddrView::GlobalSqlite(p) => "Global(Sqlite: "@ + p + ")"@,
        AddrView::GlobalRemote(u) => "Global(Remote: "@ + u + ")"@,
    }
}

impl GlobalBackendAddr {
    /// The human-readable text of this address.
    pub fn to_text(&self) -> (r: String)
        ensures
            r@ == addr_text(self@),
    {
        match self {
            GlobalBackendAddr::Sqlite { config_path } => concat3("Global(Sqlite: ", config_path.as_str(), ")"),
            GlobalBackendAddr::Remote { server_url } => concat3("Global(Remote: ", server_url.as_str(), ")"),
        }
    }
}

impl BackendAddr {
    /// The human-readable text of this address.
    pub fn to_text(&self) -> (r: String)
        ensures
            r@ == addr_text(self@),
    {
        match self {
            BackendAddr::Private { username } => concat3("Private(owner: ", username.as_str(), ")"),
            BackendAddr::Global { addr } => addr.to_text(),
        }
    }
}

/// Settings of the stacked store: the private store, and the global stores to mount.
#[derive(Debug)]
pub struct StackedBackendConfig {
    pub private_sqlite_cfg: SqliteConfig,
    pub global_repos: Vec<GlobalBackendAddr>,
}

impl StackedBackendConfig {
    pub fn new(private_sqlite_cfg: SqliteConfig, global_repos: Vec<GlobalBackendAddr>) -> (r: Self)
        ensures
            r.private_sqlite_cfg == private_sqlite_cfg,
            r.global_repos == global_repos,
    {
        StackedBackendConfig { private_sqlite_cfg, global_repos }
    }
}

/// Metadata together with the store it was found in.
pub struct ScopedMetaData(pub BackendAddr, pub MetaData);

/// A dataset id together with the store it was found in.
pub struct ScopedId(pub BackendAddr, pub String);

impl ScopedId {
    /// `address:id`.
    pub fn to_text(&self) -> (r: String)
        ensures
            r@ == addr_text(self.0@) + ":"@ + self.1@,
    {
        let a = self.0.to_text();
        concat3(a.as_str(), ":", self.1.as_str())
    }
}

/// A store kept in YAML files under a directory (not implemented).
pub struct YamlBackend {
    pub workspace_dir: String,
}

/// A global store, once resolved.
pub enum GlobalBackend<B> {
    Sqlite(B),
    Remote(RemoteBackend),
}

/// A store picked by an address.
pub enum Layer {
    Private,
    LocalGlobal,
}

/// Datasets found under `id` in remote stores, with their addresses.
pub open spec fn remote_hits<B: DatasetBackend>(rs: Seq<(GlobalBackendAddr, GlobalBackend<B>)>, id: Seq<char>) -> Seq<(AddrView, MetaDataView)>
    decreases rs.len(),
{
    if rs.len() == 0 {
        Seq::empty()
    } else {
        let rest = remote_hits(rs.drop_last(), id);
        match rs.last().1 {
            GlobalBackend::Sqlite(b) => if b.contents().contains_key(id) {
                rest.push((rs.last().0@, b.contents()[id]))
            } else {
                rest
            },
            GlobalBackend::Remote(_) => rest,
        }
    }
}

pub open spec fn scoped_view(v: Seq<ScopedMetaData>) -> Seq<(AddrView, MetaDataView)> {
    v.map_values(|s: ScopedMetaData| (s.0@, s.1@))
}

/// Both absent, or both present with the same address and the same contents.
pub open spec fn same_local<B: DatasetBackend>(a: Option<(GlobalBackendAddr, B)>, b: Option<(GlobalBackendAddr, B)>) -> bool {
    match (a, b) {
        (None, None) => true,
        (Some((x, p)), Some((y, q))) => x == y && p.contents() == q.contents(),
        _ => false,
    }
}

/// `b` is the local store `a` with the dataset `id` removed.
pub open spec fn removed_from<B: DatasetBackend>(a: GlobalBackend<B>, b: GlobalBackend<B>, id: Seq<char>) -> bool {
    a matches GlobalBackend::Sqlite(x) && b matches GlobalBackend::Sqlite(y) && y.contents() == x.contents().remove(id)
}

/// Among the reachable stores, `new` is `old` with `id` removed from the first store that
/// holds it, the one at `k`, and every other store as it was.
pub open spec fn removed_at<B: DatasetBackend>(old: Seq<(GlobalBackendAddr, GlobalBackend<B>)>, new: Seq<(GlobalBackendAddr, GlobalBackend<B>)>, id: Seq<char>, k: int) -> bool {
    &&& 0 <= k < old.len()
    &&& new.len() == old.len()
    &&& global_has(old[k].1, id)
    &&& forall|j: int| 0 <= j < k ==> !global_has(#[trigger] old[j].1, id)
    &&& new[k].0 == old[k].0
    &&& removed_from(old[k].1, new[k].1, id)
    &&& forall|j: int| 0 <= j < old.len() && j != k ==> (#[trigger] new[j]).0 == old[j].0 && same_global(new[j].1, old[j].1)
}

/// Two global stores hold the same: both local with the same contents, or both remote.
pub open spec fn same_global<B: DatasetBackend>(a: GlobalBackend<B>, b: GlobalBackend<B>) -> bool {
    match (a, b) {
        (GlobalBackend::Sqlite(x), GlobalBackend::Sqlite(y)) => x.contents() == y.contents() && (x.reliable() == y.reliable()),
        (GlobalBackend::Remote(_), GlobalBackend::Remote(_)) => true,
        _ => false,
    }
}

/// A resolved global store is a local store that holds `id`.
pub open spec fn global_has<B: DatasetBackend>(g: GlobalBackend<B>, id: Seq<char>) -> bool {
    match g {
        GlobalBackend::Sqlite(b) => b.contents().contains_key(id),
        GlobalBackend::Remote(_) => false,
    }
}

/// A store's answer to a lookup failed for a reason other than "not found".
pub open spec fn is_failure(a: BackendResult<MetaData>) -> bool {
    a is Err && !(a->Err_0 is DatasetNotFound)
}

/// The first failed answer among remote answers, in order.
pub open spec fn first_remote_failure(rs: Seq<(GlobalBackendAddr, BackendResult<MetaData>)>) -> Option<BackendError>
    decreases rs.len(),
{
    if rs.len() == 0 {
        None
    } else {
        match first_remote_failure(rs.drop_last()) {
            Some(e) => Some(e),
            None => if is_failure(rs.last().1) {
                Some(rs.last().1->Err_0)
            } else {
                None
            },
        }
    }
}

/// The first failed answer, in store order: private, local global, then remote.
pub open spec fn first_failure(p: BackendResult<MetaData>, l: Option<(GlobalBackendAddr, BackendResult<MetaData>)>, rs: Seq<(GlobalBackendAddr, BackendResult<MetaData>)>) -> Option<BackendError> {
    if is_failure(p) {
        Some(p->Err_0)
    } else if l matches Some((_, a)) && is_failure(a) {
        Some(l->Some_0.1->Err_0)
    } else {
        first_remote_failure(rs)
    }
}

/// The datasets found among remote answers, each with its store's address, in order.
pub open spec fn remote_found(rs: Seq<(GlobalBackendAddr, BackendResult<MetaData>)>) -> Seq<(AddrView, MetaDataView)>
    decreases rs.len(),
{
    if rs.len() == 0 {
        Seq::empty()
    } else {
        let rest = remote_found(rs.drop_last());
        match rs.last().1 {
            Ok(m) => rest.push((rs.last().0@, m@)),
            Err(_) => rest,
        }
    }
}

/// The datasets found, in store order, tagged as in `hits`: the private store's under its
/// owner, the others under their addresses.
pub open spec fn found(p: BackendResult<MetaData>, l: Option<(GlobalBackendAddr, BackendResult<MetaData>)>, rs: Seq<(GlobalBackendAddr, BackendResult<MetaData>)>) -> Seq<(AddrView, MetaDataView)> {
    (match p {
        Ok(m) => seq![(AddrView::Private(m.owner@), m@)],
        Err(_) => Seq::empty(),
    }) + (match l {
        Some((a, Ok(m))) => seq![(a@, m@)],
        _ => Seq::empty(),
    }) + remote_found(rs)
}

/// `r` combines the stores' answers to a lookup of `id`: the first failed answer as is;
/// else the datasets found, when there are any; else "not found" for `id`.
pub open spec fn hits_combined(id: Seq<char>, p: BackendResult<MetaData>, l: Option<(GlobalBackendAddr, BackendResult<MetaData>)>, rs: Seq<(GlobalBackendAddr, BackendResult<MetaData>)>, r: BackendResult<Vec<ScopedMetaData>>) -> bool {
    match first_failure(p, l, rs) {
        Some(e) => r == Err::<Vec<ScopedMetaData>, BackendError>(e),
        None => if found(p, l, rs).len() > 0 {
            r matches Ok(v) && scoped_view(v@) == found(p, l, rs)
        } else {
            r matches Err(BackendError::DatasetNotFound { id: i }) && i@ == id
        },
    }
}

/// `a` is an answer that a store holding `contents` may give to a lookup of `id`.
pub open spec fn answer_fits(contents: Map<Seq<char>, MetaDataView>, id: Seq<char>, a: BackendResult<MetaData>) -> bool {
    &&& (a matches Ok(m) ==> contents.contains_key(id) && contents[id] == m@)
    &&& (a matches Err(BackendError::DatasetNotFound { .. }) ==> !contents.contains_key(id))
}

/// A remote store's answer: a local store's as above; a remote server holds nothing here.
pub open spec fn remote_answer_fits<B: DatasetBackend>(g: GlobalBackend<B>, id: Seq<char>, a: BackendResult<MetaData>) -> bool {
    match g {
        GlobalBackend::Sqlite(b) => answer_fits(b.contents(), id, a),
        GlobalBackend::Remote(_) => a is Err && a->Err_0 is DatasetNotFound,
    }
}

/// A remote store's answer to "who refers to `target`", when it answered.
pub open spec fn global_referrers<B: DatasetBackend>(g: GlobalBackend<B>, target: Seq<char>, part: Seq<String>) -> bool {
    match g {
        GlobalBackend::Sqlite(b) => strings_view(part) == b.referrers(target),
        GlobalBackend::Remote(_) => false,
    }
}

/// A remote store's listing, when it answered.
pub open spec fn global_listing<B: DatasetBackend>(g: GlobalBackend<B>, part: Seq<MetaData>) -> bool {
    match g {
        GlobalBackend::Sqlite(b) => listing_matches(part, b.contents()),
        GlobalBackend::Remote(_) => false,
    }
}

/// The first of the reachable stores `rs` mounted at the remote address `url`, if any.
pub open spec fn store_at_url<B: DatasetBackend>(rs: Seq<(GlobalBackendAddr, GlobalBackend<B>)>, url: Seq<char>) -> Option<GlobalBackend<B>>
    decreases rs.len(),
{
    if rs.len() == 0 {
        None
    } else if rs[0].0 matches GlobalBackendAddr::Remote { server_url } && server_url@ == url {
        Some(rs[0].1)
    } else {
        store_at_url(rs.drop_first(), url)
    }
}

/// The private store, a local global store, and the reachable remote stores.
pub struct StackedBackend<B> {
    pub cfg: StackedBackendConfig,
    pub private_be: B,
    pub local_global_be: Option<(GlobalBackendAddr, B)>,
    pub reachable_remote_be: Vec<(GlobalBackendAddr, GlobalBackend<B>)>,
}

impl<B: DatasetBackend> StackedBackend<B> {
    pub closed spec fn config(&self) -> StackedBackendConfig {
        self.cfg
    }

    /// The store an address picks: none (or a private one) picks the private store, the
    /// local global address picks the local global store when one is mounted.
    pub open spec fn route(&self, target: Option<&BackendAddr>) -> Option<Layer> {
        match target {
            None => Some(Layer::Private),
            Some(BackendAddr::Private { .. }) => Some(Layer::Private),
            Some(BackendAddr::Global { addr: GlobalBackendAddr::Sqlite { .. } }) => if self.local_global_be is Some {
                Some(Layer::LocalGlobal)
            } else {
                None
            },
            Some(BackendAddr::Global { addr: GlobalBackendAddr::Remote { .. } }) => None,
        }
    }

    /// `e` is the error reported for an address that picks no store: a machine-wide address
    /// without a mounted local global store, or a remote address.
    pub open spec fn unroutable_error(&self, target: Option<&BackendAddr>, e: BackendError) -> bool {
        match target {
            Some(BackendAddr::Global { addr: GlobalBackendAddr::Sqlite { .. } }) => e matches BackendError::Unsupported { message } && message@ == "Local global sqlite backend is not configured"@,
            Some(BackendAddr::Global { addr: GlobalBackendAddr::Remote { server_url } }) => match store_at_url(self.reachable_remote_be@, server_url@) {
                Some(GlobalBackend::Remote(_)) => e matches BackendError::Unsupported { message } && message@ == "Remote backend is currently unimplemented"@,
                _ => e is BackendNotFound,
            },
            _ => e is BackendNotFound,
        }
    }

    /// The contents of a picked store.
    pub open spec fn layer_contents(&self, l: Layer) -> Map<Seq<char>, MetaDataView> {
        match l {
            Layer::Private => self.private_be.contents(),
            Layer::LocalGlobal => self.local_global_be.unwrap().1.contents(),
        }
    }

    /// What a picked store reports as referring to `target`.
    pub open spec fn layer_referrers(&self, l: Layer, target: Seq<char>) -> Seq<Seq<char>> {
        match l {
            Layer::Private => self.private_be.referrers(target),
            Layer::LocalGlobal => self.local_global_be.unwrap().1.referrers(target),
        }
    }

    /// No store of the stack fails for a reason of its own (see `DatasetBackend::reliable`).
    pub open spec fn reliable(&self) -> bool {
        &&& self.private_be.reliable()
        &&& (self.local_global_be matches Some((_, b)) ==> b.reliable())
        &&& forall|i: int| 0 <= i < self.reachable_remote_be@.len() ==> ((#[trigger] self.reachable_remote_be@[i]).1 matches GlobalBackend::Sqlite(b) ==> b.reliable())
    }

    /// Every dataset found under `id`, private store first, with the store it was found in.
    pub open spec fn hits(&self, id: Seq<char>) -> Seq<(AddrView, MetaDataView)> {
        let p: Seq<(AddrView, MetaDataView)> = if self.private_be.contents().contains_key(id) {
            seq![(AddrView::Private(self.private_be.contents()[id].owner), self.private_be.contents()[id])]
        } else {
            Seq::empty()
        };
        let l: Seq<(AddrView, MetaDataView)> = match self.local_global_be {
            Some((a, b)) => if b.contents().contains_key(id) {
                seq![(a@, b.contents()[id])]
            } else {
                Seq::empty()
            },
            None => Seq::empty(),
        };
        p + l + remote_hits(self.reachable_remote_be@, id)
    }

    /// `p`, `l` and `rs` are answers that the private, the local global and the remote
    /// stores may give to a lookup of `id`, one per store, in order.
    pub open spec fn answers_fit(&self, id: Seq<char>, p: BackendResult<MetaData>, l: Option<(GlobalBackendAddr, BackendResult<MetaData>)>, rs: Seq<(GlobalBackendAddr, BackendResult<MetaData>)>) -> bool {
        &&& answer_fits(self.private_be.contents(), id, p)
        &&& match self.local_global_be {
            Some((a, b)) => l matches Some((a2, x)) && a2 == a && answer_fits(b.contents(), id, x),
            None => l is None,
        }
        &&& rs.len() == self.reachable_remote_be@.len()
        &&& forall|i: int| 0 <= i < rs.len() ==> (#[trigger] rs[i]).0 == self.reachable_remote_be@[i].0 && remote_answer_fits(self.reachable_remote_be@[i].1, id, rs[i].1)
    }

    /// `m` is the metadata that one of the stores on this machine holds for `id`.
    pub open spec fn local_holds(&self, id: Seq<char>, m: MetaDataView) -> bool {
        ||| (self.private_be.contents().contains_key(id) && self.private_be.contents()[id] == m)
        ||| (self.local_global_be matches Some((_, b)) && b.contents().contains_key(id) && b.contents()[id] == m)
    }

    /// The ids of the datasets held in the stores on this machine.
    pub open spec fn local_ids(&self) -> Set<Seq<char>> {
        match self.local_global_be {
            Some((_, b)) => self.private_be.contents().dom().union(b.contents().dom()),
            None => self.private_be.contents().dom(),
        }
    }

    /// Every dependency of a dataset held on this machine is held on this machine.
    pub open spec fn locally_closed(&self) -> bool {
        forall|k: Seq<char>, m: MetaDataView| #[trigger] self.local_holds(k, m) ==>
            forall|d: Seq<char>| #[trigger] m.dependencies.contains(d) ==> self.local_ids().contains(d)
    }

    /// Finitely many datasets are held on this machine.
    pub proof fn lemma_local_ids_finite(&self)
        ensures
            self.local_ids().finite(),
            forall|id: Seq<char>, m: MetaDataView| #[trigger] self.local_holds(id, m) ==> self.local_ids().contains(id),
    {
        self.private_be.lemma_contents_finite();
        match self.local_global_be {
            Some((_, b)) => {
                b.lemma_contents_finite();
            },
            None => {},
        }
    }

    /// `p`, `l` and `rp` are what the private store, the local global store and each remote
    /// store answered when asked who refers to `target`; a store that failed to answer
    /// counts as answering nothing, and a store that never fails always answers.
    pub open spec fn referrer_parts(&self, target: Seq<char>, p: Seq<String>, l: Seq<String>, rp: Seq<Seq<String>>) -> bool {
        &&& (p.len() == 0 || strings_view(p) == self.private_be.referrers(target))
        &&& (self.private_be.reliable() ==> strings_view(p) == self.private_be.referrers(target))
        &&& (l.len() == 0 || (self.local_global_be matches Some((_, b)) && strings_view(l) == b.referrers(target)))
        &&& (self.local_global_be matches Some((_, b)) ==> (b.reliable() ==> strings_view(l) == b.referrers(target)))
        &&& rp.len() == self.reachable_remote_be@.len()
        &&& forall|j: int| 0 <= j < rp.len() ==> (#[trigger] rp[j]).len() == 0 || global_referrers(self.reachable_remote_be@[j].1, target, rp[j])
        &&& forall|j: int| 0 <= j < rp.len() && (self.reachable_remote_be@[j].1 matches GlobalBackend::Sqlite(b) && b.reliable())
                ==> global_referrers(self.reachable_remote_be@[j].1, target, #[trigger] rp[j])
    }

    /// The referrers assembled from the stores' answers, each tagged by its store; the
    /// private store's under the name `user`.
    pub open spec fn referrer_listing(&self, user: Seq<char>, p: Seq<String>, l: Seq<String>, rp: Seq<Seq<String>>) -> Seq<(AddrView, Seq<char>)> {
        tag_ids(AddrView::Private(user), p) + (match self.local_global_be {
            Some((a, _)) => tag_ids(a@, l),
            None => Seq::empty(),
        }) + remote_ids(addrs_of(self.reachable_remote_be@), rp)
    }

    /// `p`, `l` and `rp` are the listings the private store, the local global store and
    /// each remote store answered with; a store that failed to answer counts as listing
    /// nothing, and a store that never fails always answers.
    pub open spec fn listing_parts(&self, p: Seq<MetaData>, l: Seq<MetaData>, rp: Seq<Seq<MetaData>>) -> bool {
        &&& (p.len() == 0 || listing_matches(p, self.private_be.contents()))
        &&& (self.private_be.reliable() ==> listing_matches(p, self.private_be.contents()))
        &&& (l.len() == 0 || (self.local_global_be matches Some((_, b)) && listing_matches(l, b.contents())))
        &&& (self.local_global_be matches Some((_, b)) ==> (b.reliable() ==> listing_matches(l, b.contents())))
        &&& rp.len() == self.reachable_remote_be@.len()
        &&& forall|j: int| 0 <= j < rp.len() ==> (#[trigger] rp[j]).len() == 0 || global_listing(self.reachable_remote_be@[j].1, rp[j])
        &&& forall|j: int| 0 <= j < rp.len() && (self.reachable_remote_be@[j].1 matches GlobalBackend::Sqlite(b) && b.reliable())
                ==> global_listing(self.reachable_remote_be@[j].1, #[trigger] rp[j])
    }

    /// The listing assembled from the stores' answers, each tagged by its store; the private
    /// store's by each dataset's owner.
    pub open spec fn stacked_listing(&self, p: Seq<MetaData>, l: Seq<MetaData>, rp: Seq<Seq<MetaData>>) -> Seq<(AddrView, MetaDataView)> {
        tag_metas(None, p) + (match self.local_global_be {
            Some((a, _)) => tag_metas(Some(a@), l),
            None => Seq::empty(),
        }) + remote_metas(addrs_of(self.reachable_remote_be@), rp)
    }

    /// Assembles the stacked store from its private store and the outcome of resolving each
    /// mounted global address: the first local store resolved becomes the local global store;
    /// addresses that failed to resolve are skipped.
    pub fn assemble(cfg: StackedBackendConfig, private_be: B, resolved: Vec<(GlobalBackendAddr, BackendResult<GlobalBackend<B>>)>) -> (r: Self)
        requires
            forall|i: int| 0 <= i < resolved@.len() ==> !((#[trigger] resolved@[i]).1 matches Ok(GlobalBackend::Remote(_))),
        ensures
            r.config() == cfg,
            r.private_be == private_be,
            r.reachable_remote_be@.len() == 0,
            r.local_global_be matches Some((a, b)) ==> exists|i: int| 0 <= i < resolved@.len() && (#[trigger] resolved@[i]).0 == a && resolved@[i].1 == Ok::<GlobalBackend<B>, BackendError>(GlobalBackend::Sqlite(b)) && forall|j: int| 0 <= j < i ==> !(resolved@[j].1 is Ok),
            r.local_global_be is None ==> forall|i: int| 0 <= i < resolved@.len() ==> !((#[trigger] resolved@[i]).1 is Ok),
    {
        let mut local: Option<(GlobalBackendAddr, B)> = None;
        let mut rest = resolved;
        let ghost all = rest@;
        let mut taken: usize = 0;
        let ghost mut idx: int = 0;
        let n = rest.len();
        // Walk the outcomes in order; `rest` is consumed from the front.
        let mut items: Vec<(GlobalBackendAddr, BackendResult<GlobalBackend<B>>)> = Vec::new();
        let mut i: usize = 0;
        while i < n
            invariant
                n == all.len(),
                i <= n,
                rest@ == all.subrange(i as int, n as int),
                forall|k: int| 0 <= k < all.len() ==> !((#[trigger] all[k]).1 matches Ok(GlobalBackend::Remote(_))),
                local matches Some((a, b)) ==> exists|k: int| 0 <= k < i && (#[trigger] all[k]).0 == a && all[k].1 == Ok::<GlobalBackend<B>, BackendError>(GlobalBackend::Sqlite(b)) && forall|j: int| 0 <= j < k ==> !(all[j].1 is Ok),
                local is None ==> forall|k: int| 0 <= k < i ==> !((#[trigger] all[k]).1 is Ok),
            decreases n - i,
        {
            let ghost pre = rest@;
            let (addr, res) = rest.remove(0);
            assert(pre[0] == all[i as int]);
            assert(rest@ =~= all.subrange(i + 1, n as int));
            if local.is_none() {
                match res {
                    Ok(GlobalBackend::Sqlite(b)) => {
                        local = Some((addr, b));
                    },
                    Ok(GlobalBackend::Remote(_)) => {},
                    Err(_) => {},
                }
            }
            i = i + 1;
        }
        StackedBackend { cfg, private_be, local_global_be: local, reachable_remote_be: Vec::new() }
    }

    /// Picks the store for an address, or says why none can be picked.
    pub fn route_addr(&self, target: Option<&BackendAddr>) -> (r: BackendResult<Layer>)
        ensures
            match self.route(target) {
                Some(l) => r == Ok::<Layer, BackendError>(l),
                None => r is Err,
            },
            r matches Err(e) ==> self.unroutable_error(target, e),
    {
        match target {
            None => Ok(Layer::Private),
            Some(BackendAddr::Private { .. }) => Ok(Layer::Private),
            Some(BackendAddr::Global { addr: GlobalBackendAddr::Sqlite { .. } }) => {
                if self.local_global_be.is_some() {
                    Ok(Layer::LocalGlobal)
                } else {
                    Err(BackendError::Unsupported { message: String::from_str("Local global sqlite backend is not configured") })
                }
            },
            Some(BackendAddr::Global { addr: GlobalBackendAddr::Remote { server_url } }) => {
                let mut i: usize = 0;
                assert(self.reachable_remote_be@.subrange(0, self.reachable_remote_be@.len() as int) =~= self.reachable_remote_be@);
                #[verifier::loop_isolation(false)]
                while i < self.reachable_remote_be.len()
                    invariant
                        i <= self.reachable_remote_be@.len(),
                        store_at_url(self.reachable_remote_be@, server_url@) == store_at_url(self.reachable_remote_be@.subrange(i as int, self.reachable_remote_be@.len() as int), server_url@),
                    decreases self.reachable_remote_be@.len() - i,
                {
                    let ghost rest = self.reachable_remote_be@.subrange(i as int, self.reachable_remote_be@.len() as int);
                    assert(rest[0] == self.reachable_remote_be@[i as int]);
                    assert(rest.drop_first() =~= self.reachable_remote_be@.subrange(i + 1, self.reachable_remote_be@.len() as int));
                    let matched = match &self.reachable_remote_be[i].0 {
                        GlobalBackendAddr::Remote { server_url: cur } => *cur == *server_url,
                        _ => false,
                    };
                    if matched {
                        return match &self.reachable_remote_be[i].1 {
                            GlobalBackend::Remote(_) => Err(BackendError::Unsupported { message: String::from_str("Remote backend is currently unimplemented") }),
                            GlobalBackend::Sqlite(_) => Err(BackendError::BackendNotFound),
                        };
                    }
                    i = i + 1;
                }
                assert(self.reachable_remote_be@.subrange(i as int, self.reachable_remote_be@.len() as int).len() == 0);
                Err(BackendError::BackendNotFound)
            },
        }
    }

    /// The store an address picks.
    pub fn get_backend_by_addr(&self, target: Option<&BackendAddr>) -> (r: BackendResult<&B>)
        ensures
            match self.route(target) {
                Some(Layer::Private) => r == Ok::<&B, BackendError>(&self.private_be),
                Some(Layer::LocalGlobal) => r == Ok::<&B, BackendError>(&self.local_global_be.unwrap().1),
                None => r matches Err(e) && self.unroutable_error(target, e),
            },
    {
        match self.route_addr(target)? {
            Layer::Private => Ok(&self.private_be),
            Layer::LocalGlobal => match &self.local_global_be {
                Some((_, b)) => Ok(b),
                None => Err(BackendError::BackendNotFound),
            },
        }
    }

    /// Records the busy status of a dataset in the store an address picks.
    pub fn mark_status(&mut self, id: &str, busy_status: DataSetBusyStatus, target: Option<&BackendAddr>) -> (r: BackendResult<()>)
        ensures
            old(self).route(target) is None ==> r is Err && *final(self) == *old(self),
            old(self).route(target) matches Some(l) ==> {
                &&& (r is Ok ==> old(self).layer_contents(l).contains_key(id@) && final(self).layer_contents(l) == old(self).layer_contents(l).insert(id@, MetaDataView { busy_status, ..old(self).layer_contents(l)[id@] }))
                &&& (r matches Err(BackendError::DatasetNotFound { .. }) ==> !old(self).layer_contents(l).contains_key(id@))
                &&& (r is Err ==> final(self).layer_contents(l) == old(self).layer_contents(l))
                &&& final(self).route(target) == old(self).route(target)
                &&& (old(self).reliable() ==> (r is Ok <==> old(self).layer_contents(l).contains_key(id@)))
            },
            old(self).route(target) == Some(Layer::Private) ==> final(self).local_global_be == old(self).local_global_be,
            old(self).route(target) == Some(Layer::LocalGlobal) ==> final(self).private_be == old(self).private_be && final(self).local_global_be.unwrap().0 == old(self).local_global_be.unwrap().0,
            final(self).reachable_remote_be == old(self).reachable_remote_be,
            final(self).config() == old(self).config(),
            old(self).reliable() ==> final(self).reliable(),
    {
        match self.route_addr(target)? {
            Layer::Private => self.private_be.mark_status(id, busy_status),
            Layer::LocalGlobal => match &mut self.local_global_be {
                Some((_, b)) => b.mark_status(id, busy_status),
                None => Err(BackendError::BackendNotFound),
            },
        }
    }

    /// Saves metadata to the store an address picks (the private store by default).
    pub fn save_metadata(&mut self, metadata: &MetaData, target: Option<&BackendAddr>) -> (r: BackendResult<()>)
        ensures
            old(self).route(target) is None ==> r is Err && *final(self) == *old(self),
            old(self).route(target) is None ==> (r matches Err(e) && old(self).unroutable_error(target, e)),
            old(self).route(target) matches Some(l) ==> {
                &&& (r is Ok ==> final(self).layer_contents(l) == old(self).layer_contents(l).insert(metadata@.spec_id(), metadata@))
                &&& (r is Err ==> final(self).layer_contents(l) == old(self).layer_contents(l))
                &&& final(self).route(target) == old(self).route(target)
                &&& (old(self).reliable() ==> r is Ok)
            },
            old(self).route(target) == Some(Layer::Private) ==> final(self).local_global_be == old(self).local_global_be,
            old(self).route(target) == Some(Layer::LocalGlobal) ==> final(self).private_be == old(self).private_be && final(self).local_global_be.unwrap().0 == old(self).local_global_be.unwrap().0,
            final(self).reachable_remote_be == old(self).reachable_remote_be,
            final(self).config() == old(self).config(),
            old(self).reliable() ==> final(self).reliable(),
    {
        match self.route_addr(target)? {
            Layer::Private => self.private_be.save_metadata(metadata),
            Layer::LocalGlobal => match &mut self.local_global_be {
                Some((_, b)) => b.save_metadata(metadata),
                None => Err(BackendError::BackendNotFound),
            },
        }
    }

    /// Deletes a dataset's metadata from the store an address picks.
    pub fn delete_metadata_at(&mut self, id: &str, target: Option<&BackendAddr>) -> (r: BackendResult<()>)
        ensures
            old(self).route(target) is None ==> r is Err && *final(self) == *old(self),
            old(self).route(target) matches Some(l) ==> {
                &&& (r is Ok ==> old(self).layer_contents(l).contains_key(id@) && final(self).layer_contents(l) == old(self).layer_contents(l).remove(id@))
                &&& (r matches Err(BackendError::DatasetNotFound { .. }) ==> !old(self).layer_contents(l).contains_key(id@))
                &&& (r is Err ==> final(self).layer_contents(l) == old(self).layer_contents(l))
                &&& final(self).route(target) == old(self).route(target)
                &&& (old(self).reliable() ==> (r is Ok <==> old(self).layer_contents(l).contains_key(id@)))
            },
            old(self).route(target) == Some(Layer::Private) ==> final(self).local_global_be == old(self).local_global_be,
            old(self).route(target) == Some(Layer::LocalGlobal) ==> final(self).private_be == old(self).private_be && final(self).local_global_be.unwrap().0 == old(self).local_global_be.unwrap().0,
            final(self).reachable_remote_be == old(self).reachable_remote_be,
            final(self).config() == old(self).config(),
            old(self).reliable() ==> final(self).reliable(),
    {
        match self.route_addr(target)? {
            Layer::Private => self.private_be.delete_metadata(id),
            Layer::LocalGlobal => match &mut self.local_global_be {
                Some((_, b)) => b.delete_metadata(id),
                None => Err(BackendError::BackendNotFound),
            },
        }
    }

    /// Looks a dataset up. With an address, only the store it picks is asked; without one,
    /// every store is asked and their answers are combined by `scope_hits`: every hit,
    /// private store first.
    pub fn get_metadata(&self, id: &str, target: Option<&BackendAddr>) -> (r: BackendResult<Vec<ScopedMetaData>>)
        ensures
            target is Some && self.route(target) is None ==> (r matches Err(e) && self.unroutable_error(target, e)),
            target matches Some(a) ==> match self.route(target) {
                None => r is Err,
                Some(l) => {
                    &&& (r matches Ok(v) ==> self.layer_contents(l).contains_key(id@) && scoped_view(v@) == seq![(a@, self.layer_contents(l)[id@])])
                    &&& (r matches Err(BackendError::DatasetNotFound { .. }) ==> !self.layer_contents(l).contains_key(id@))
                    &&& exists|ans: BackendResult<MetaData>| #![trigger answer_fits(self.layer_contents(l), id@, ans)]
                        answer_fits(self.layer_contents(l), id@, ans) && match ans {
                            Ok(m) => r matches Ok(v) && scoped_view(v@) == seq![(a@, m@)],
                            Err(e) => r == Err::<Vec<ScopedMetaData>, BackendError>(e),
                        }
                },
            },
            self.reliable() && target is None ==> (r is Ok <==> self.hits(id@).len() > 0)
                && (r matches Err(e) ==> (e matches BackendError::DatasetNotFound { id: i } && i@ == id@)),
            self.reliable() && target is Some ==> (self.route(target) matches Some(l) ==> (r is Ok <==> self.layer_contents(l).contains_key(id@))),
            target is None ==> {
                &&& exists|p: BackendResult<MetaData>, l: Option<(GlobalBackendAddr, BackendResult<MetaData>)>, rs: Seq<(GlobalBackendAddr, BackendResult<MetaData>)>|
                    #![trigger self.answers_fit(id@, p, l, rs)]
                    self.answers_fit(id@, p, l, rs) && hits_combined(id@, p, l, rs, r)
                &&& (r matches Ok(v) ==> scoped_view(v@) == self.hits(id@) && v@.len() > 0)
                &&& (r matches Err(BackendError::DatasetNotFound { id: e }) ==> self.hits(id@).len() == 0 && e@ == id@)
            },
    {
        if let Some(backend_addr) = target {
            let backend = match self.get_backend_by_addr(target) {
                Ok(b) => b,
                Err(e) => return Err(e),
            };
            let ghost l = self.route(target).unwrap();
            let ans = backend.get_metadata(id);
            proof {
                assert(backend.contents() == self.layer_contents(l));
                assert(answer_fits(self.layer_contents(l), id@, ans));
            }
            let meta = match ans {
                Ok(m) => m,
                Err(e) => return Err(e),
            };
            let mut all_meta: Vec<ScopedMetaData> = Vec::new();
            all_meta.push(ScopedMetaData(backend_addr.clone(), meta));
            assert(scoped_view(all_meta@) =~= seq![(backend_addr@, meta@)]);
            return Ok(all_meta);
        }
        let private_ans = self.private_be.get_metadata(id);
        let local_ans = match &self.local_global_be {
            Some((a, b)) => Some((a.clone(), b.get_metadata(id))),
            None => None,
        };
        let ghost bs = self.reachable_remote_be@;
        let mut remote_ans: Vec<(GlobalBackendAddr, BackendResult<MetaData>)> = Vec::new();
        let mut i: usize = 0;
        while i < self.reachable_remote_be.len()
            invariant
                bs == self.reachable_remote_be@,
                i <= bs.len(),
                remote_ans@.len() == i,
                forall|k: int| 0 <= k < i ==> (#[trigger] remote_ans@[k]).0 == bs[k].0 && remote_answer_fits(bs[k].1, id@, remote_ans@[k].1),
                self.reliable() ==> forall|k: int| 0 <= k < i ==> !is_failure(#[trigger] remote_ans@[k].1),
            decreases bs.len() - i,
        {
            let entry = &self.reachable_remote_be[i];
            let ans = match &entry.1 {
                GlobalBackend::Sqlite(b) => b.get_metadata(id),
                GlobalBackend::Remote(_) => Err(BackendError::DatasetNotFound { id: String::from_str(id) }),
            };
            proof {
                if self.reliable() {
                    assert(bs[i as int] == *entry);
                }
            }
            remote_ans.push((entry.0.clone(), ans));
            i = i + 1;
        }
        let ghost pa = private_ans;
        let ghost la = local_ans;
        let ghost ra = remote_ans@;
        assert(self.answers_fit(id@, pa, la, ra));
        let r = scope_hits(id, private_ans, local_ans, remote_ans);
        proof {
            lemma_remote_failure_is_failure(ra);
            if self.reliable() {
                lemma_no_remote_failure(ra);
            }
            if first_failure(pa, la, ra) is None {
                lemma_remote_found_hits(bs, ra, id@);
                assert(found(pa, la, ra) =~= self.hits(id@));
            }
        }
        r
    }

    /// Collects, from every store, the datasets that depend on `target_id`, each tagged by the
    /// store it was found in; the private store's under the OS user's name. A store that fails
    /// to answer is skipped.
    pub fn check_is_referenced(&self, target_id: &str) -> (r: Result<Vec<ScopedId>, MetaDataError>)
        ensures
            r matches Ok(v) ==> exists|user: Seq<char>, p: Seq<String>, l: Seq<String>, rp: Seq<Seq<String>>|
                #![trigger self.referrer_parts(target_id@, p, l, rp), self.referrer_listing(user, p, l, rp)]
                self.referrer_parts(target_id@, p, l, rp) && scoped_ids_view(v@) == self.referrer_listing(user, p, l, rp),
            r matches Err(e) ==> e is OwnerResolveFailed,
    {
        let user = os_username();
        let ghost gu = user;
        let r = self.check_is_referenced_with_user(target_id, user);
        proof {
            if r is Ok {
                let v = r->Ok_0;
                let u = gu->Ok_0@;
                let (p, l, rp) = choose|p: Seq<String>, l: Seq<String>, rp: Seq<Seq<String>>|
                    #![trigger self.referrer_parts(target_id@, p, l, rp)]
                    self.referrer_parts(target_id@, p, l, rp) && scoped_ids_view(v@) == self.referrer_listing(u, p, l, rp);
                assert(self.referrer_parts(target_id@, p, l, rp) && scoped_ids_view(v@) == self.referrer_listing(u, p, l, rp));
            }
        }
        r
    }

    /// Collects the referrers as `check_is_referenced` does, the OS user name given as
    /// `user`; the private store's referrers are tagged with it.
    pub fn check_is_referenced_with_user(&self, target_id: &str, user: Result<String, String>) -> (r: Result<Vec<ScopedId>, MetaDataError>)
        ensures
            user is Ok <==> r is Ok,
            r matches Ok(v) ==> exists|p: Seq<String>, l: Seq<String>, rp: Seq<Seq<String>>|
                #![trigger self.referrer_parts(target_id@, p, l, rp)]
                self.referrer_parts(target_id@, p, l, rp) && scoped_ids_view(v@) == self.referrer_listing(user->Ok_0@, p, l, rp),
            user matches Err(m) ==> (r matches Err(MetaDataError::OwnerResolveFailed(t)) && t@ == "OS username unavailable: "@ + m@),
    {
        let user = match user {
            Ok(u) => u,
            Err(m) => {
                proof {
                    reveal_strlit("");
                }
                return Err(MetaDataError::OwnerResolveFailed(concat3("OS username unavailable: ", m.as_str(), "")));
            },
        };
        let private = self.private_be.check_is_referenced(target_id);
        let local = match &self.local_global_be {
            Some((a, b)) => Some((a.clone(), b.check_is_referenced(target_id))),
            None => None,
        };
        let ghost rs = self.reachable_remote_be@;
        let mut remotes: Vec<(GlobalBackendAddr, BackendResult<Vec<String>>)> = Vec::new();
        let mut i: usize = 0;
        while i < self.reachable_remote_be.len()
            invariant
                rs == self.reachable_remote_be@,
                i <= rs.len(),
                remotes@.len() == i,
                forall|k: int| 0 <= k < i ==> (#[trigger] remotes@[k]).0 == rs[k].0 && (remotes@[k].1 matches Ok(v) ==> global_referrers(rs[k].1, target_id@, v@))
                    && ((rs[k].1 matches GlobalBackend::Sqlite(b) && b.reliable()) ==> remotes@[k].1 is Ok),
            decreases rs.len() - i,
        {
            let entry = &self.reachable_remote_be[i];
            let res = match &entry.1 {
                GlobalBackend::Sqlite(b) => b.check_is_referenced(target_id),
                GlobalBackend::Remote(_) => Err(BackendError::Unsupported { message: String::from_str("Remote backend is currently unimplemented") }),
            };
            remotes.push((entry.0.clone(), res));
            i = i + 1;
        }
        let ghost p = answer(private);
        let ghost l = match &local {
            Some(x) => answer(x.1),
            None => Seq::empty(),
        };
        let ghost rp = answers_of(remotes@);
        proof {
            assert(addrs_of(remotes@) =~= addrs_of(rs));
            assert forall|j: int| 0 <= j < rp.len() implies (#[trigger] rp[j]).len() == 0 || global_referrers(rs[j].1, target_id@, rp[j]) by {
                assert(remotes@[j].0 == rs[j].0);
            }
            assert forall|j: int| 0 <= j < rp.len() && (rs[j].1 matches GlobalBackend::Sqlite(b) && b.reliable())
                implies global_referrers(rs[j].1, target_id@, #[trigger] rp[j]) by {
                assert(remotes@[j].0 == rs[j].0);
            }
        }
        let v = scope_referrers(&user, private, local, remotes);
        proof {
            assert(self.referrer_parts(target_id@, p, l, rp));
            assert(scoped_ids_view(v@) == self.referrer_listing(user@, p, l, rp));
        }
        Ok(v)
    }

    /// Lists every dataset of every store, each tagged by the store it was found in; the
    /// private store's by the dataset's owner. A store that fails to answer is skipped.
    pub fn list_all_metadata(&self) -> (r: BackendResult<Vec<ScopedMetaData>>)
        ensures
            r is Ok,
            r matches Ok(v) ==> exists|p: Seq<MetaData>, l: Seq<MetaData>, rp: Seq<Seq<MetaData>>|
                #![trigger self.listing_parts(p, l, rp)]
                self.listing_parts(p, l, rp) && scoped_view(v@) == self.stacked_listing(p, l, rp),
    {
        let private = self.private_be.list_all_metadata();
        let local = match &self.local_global_be {
            Some((a, b)) => Some((a.clone(), b.list_all_metadata())),
            None => None,
        };
        let ghost rs = self.reachable_remote_be@;
        let mut remotes: Vec<(GlobalBackendAddr, BackendResult<Vec<MetaData>>)> = Vec::new();
        let mut i: usize = 0;
        while i < self.reachable_remote_be.len()
            invariant
                rs == self.reachable_remote_be@,
                i <= rs.len(),
                remotes@.len() == i,
                forall|k: int| 0 <= k < i ==> (#[trigger] remotes@[k]).0 == rs[k].0 && (remotes@[k].1 matches Ok(v) ==> global_listing(rs[k].1, v@))
                    && ((rs[k].1 matches GlobalBackend::Sqlite(b) && b.reliable()) ==> remotes@[k].1 is Ok),
            decreases rs.len() - i,
        {
            let entry = &self.reachable_remote_be[i];
            let res = match &entry.1 {
                GlobalBackend::Sqlite(b) => b.list_all_metadata(),
                GlobalBackend::Remote(_) => Err(BackendError::Unsupported { message: String::from_str("Remote backend is currently unimplemented") }),
            };
            remotes.push((entry.0.clone(), res));
            i = i + 1;
        }
        let ghost p = answer(private);
        let ghost l = match &local {
            Some(x) => answer(x.1),
            None => Seq::empty(),
        };
        let ghost rp = answers_of(remotes@);
        proof {
            assert(addrs_of(remotes@) =~= addrs_of(rs));
            assert forall|j: int| 0 <= j < rp.len() implies (#[trigger] rp[j]).len() == 0 || global_listing(rs[j].1, rp[j]) by {
                assert(remotes@[j].0 == rs[j].0);
            }
            assert forall|j: int| 0 <= j < rp.len() && (rs[j].1 matches GlobalBackend::Sqlite(b) && b.reliable())
                implies global_listing(rs[j].1, #[trigger] rp[j]) by {
                assert(remotes@[j].0 == rs[j].0);
            }
        }
        let v = scope_listing(private, local, remotes);
        proof {
            assert(self.listing_parts(p, l, rp));
            assert(scoped_view(v@) == self.stacked_listing(p, l, rp));
        }
        Ok(v)
    }

    /// Locates a dataset in the stores on this machine: the private store first, then the
    /// local global store.
    pub fn resolve_local_backend(&self, id: &str) -> (r: BackendResult<&B>)
        ensures
            r matches Ok(b) ==> ((*b == self.private_be && self.private_be.contents().contains_key(id@)) || (self.local_global_be is Some && *b == self.local_global_be.unwrap().1 && b.contents().contains_key(id@))),
            r matches Ok(b) ==> b.contents().contains_key(id@),
            r matches Ok(b) ==> (self.reliable() ==> b.reliable()),
            self.reliable() && self.local_ids().contains(id@) ==> r is Ok,
            self.private_be.reliable() && self.private_be.contents().contains_key(id@) ==> (r matches Ok(b) && *b == self.private_be),
            r matches Err(e) ==> e matches BackendError::DatasetNotFound { id: i } && i@ == id@,
    {
        if self.private_be.get_metadata(id).is_ok() {
            return Ok(&self.private_be);
        }
        if let Some((_, sqlite_be)) = &self.local_global_be {
            if sqlite_be.get_metadata(id).is_ok() {
                return Ok(sqlite_be);
            }
        }
        Err(BackendError::DatasetNotFound { id: String::from_str(id) })
    }

    /// Deletes a dataset's metadata from the first store on this machine that holds it.
    pub fn delete_metadata(&mut self, id: &str) -> (r: BackendResult<()>)
        ensures
            final(self).reachable_remote_be@.len() == old(self).reachable_remote_be@.len(),
            final(self).config() == old(self).config(),
            r is Ok ==> {
                ||| (old(self).private_be.contents().contains_key(id@) && final(self).private_be.contents() == old(self).private_be.contents().remove(id@) && final(self).local_global_be == old(self).local_global_be)
                ||| (!old(self).private_be.contents().contains_key(id@) && final(self).private_be.contents() == old(self).private_be.contents() && old(self).local_global_be is Some && final(self).local_global_be is Some && final(self).local_global_be.unwrap().0 == old(self).local_global_be.unwrap().0 && old(self).local_global_be.unwrap().1.contents().contains_key(id@) && final(self).local_global_be.unwrap().1.contents() == old(self).local_global_be.unwrap().1.contents().remove(id@))
                ||| (!old(self).private_be.contents().contains_key(id@) && final(self).private_be.contents() == old(self).private_be.contents() && same_local(final(self).local_global_be, old(self).local_global_be) && (old(self).local_global_be is Some ==> !old(self).local_global_be.unwrap().1.contents().contains_key(id@)) && exists|i: int| #[trigger] removed_at(old(self).reachable_remote_be@, final(self).reachable_remote_be@, id@, i))
            },
            r matches Err(BackendError::DatasetNotFound { .. }) ==> !old(self).private_be.contents().contains_key(id@) && (old(self).local_global_be is Some ==> !old(self).local_global_be.unwrap().1.contents().contains_key(id@)),
            r is Err ==> final(self).private_be.contents() == old(self).private_be.contents() && same_local(final(self).local_global_be, old(self).local_global_be)
                && forall|k: int| 0 <= k < old(self).reachable_remote_be@.len() ==> (#[trigger] final(self).reachable_remote_be@[k]).0 == old(self).reachable_remote_be@[k].0
                    && same_global(final(self).reachable_remote_be@[k].1, old(self).reachable_remote_be@[k].1),
            old(self).reliable() ==> (r is Ok <==> (old(self).private_be.contents().contains_key(id@)
                || (old(self).local_global_be matches Some((_, b)) && b.contents().contains_key(id@))
                || exists|k: int| 0 <= k < old(self).reachable_remote_be@.len() && global_has((#[trigger] old(self).reachable_remote_be@[k]).1, id@))),
            old(self).reliable() ==> (r matches Err(e) ==> (e matches BackendError::DatasetNotFound { id: i } && i@ == id@)),
    {
        let ghost rel = self.reliable();
        match self.private_be.delete_metadata(id) {
            Ok(()) => return Ok(()),
            Err(BackendError::DatasetNotFound { .. }) => {},
            Err(e) => return Err(e),
        }
        match &mut self.local_global_be {
            Some((_, sqlite_be)) => match sqlite_be.delete_metadata(id) {
                Ok(()) => return Ok(()),
                Err(BackendError::DatasetNotFound { .. }) => {},
                Err(e) => return Err(e),
            },
            None => {},
        }
        let mut rs: Vec<(GlobalBackendAddr, GlobalBackend<B>)> = Vec::new();
        std::mem::swap(&mut rs, &mut self.reachable_remote_be);
        let ghost rs0 = rs@;
        let n = rs.len();
        let mut i: usize = 0;
        let mut outcome: BackendResult<()> = Err(BackendError::DatasetNotFound { id: String::from_str(id) });
        let mut done = false;
        while i < n
            invariant
                n == rs@.len(),
                rs@.len() == rs0.len(),
                i <= n,
                done ==> outcome is Ok || !(outcome matches Err(BackendError::DatasetNotFound { .. })),
                !done ==> (outcome matches Err(BackendError::DatasetNotFound { id: d }) && d@ == id@),
                outcome is Ok ==> exists|k: int| #[trigger] removed_at(rs0, rs@, id@, k),
                !done ==> forall|k: int| 0 <= k < i ==> !global_has(#[trigger] rs0[k].1, id@),
                !done ==> forall|k: int| 0 <= k < n ==> (#[trigger] rs@[k]).0 == rs0[k].0 && same_global(rs@[k].1, rs0[k].1),
                done ==> outcome is Ok || forall|k: int| 0 <= k < n ==> (#[trigger] rs@[k]).0 == rs0[k].0 && same_global(rs@[k].1, rs0[k].1),
                forall|k: int| i <= k < n ==> rs@[k] == rs0[k],
                outcome is Err ==> forall|k: int| 0 <= k < n ==> (#[trigger] rs@[k]).0 == rs0[k].0 && same_global(rs@[k].1, rs0[k].1),
                rel ==> forall|k: int| 0 <= k < n ==> ((#[trigger] rs0[k]).1 matches GlobalBackend::Sqlite(b) ==> b.reliable()),
                rel ==> !done ==> forall|k: int| 0 <= k < i ==> !global_has(#[trigger] rs0[k].1, id@),
                rel ==> (outcome matches Err(e) ==> (e matches BackendError::DatasetNotFound { id: d } && d@ == id@)),
            decreases n - i,
        {
            if !done {
                let ghost before = rs@[i as int];
                let ghost rs_pre = rs@;
                let mut entry = rs.remove(i);
                let res = match &mut entry.1 {
                    GlobalBackend::Sqlite(backend) => backend.delete_metadata(id),
                    GlobalBackend::Remote(_) => Err(BackendError::DatasetNotFound { id: String::from_str(id) }),
                };
                rs.insert(i, entry);
                assert forall|k: int| i < k < n implies rs@[k] == rs_pre[k] by {}
                assert(rs@[i as int].0 == before.0);
                assert(res is Err ==> same_global(rs@[i as int].1, before.1));
                match res {
                    Ok(()) => {
                        assert(global_has(rs0[i as int].1, id@));
                        assert(removed_at(rs0, rs@, id@, i as int));
                        outcome = Ok(());
                        done = true;
                    },
                    Err(BackendError::DatasetNotFound { .. }) => {},
                    Err(e) => {
                        outcome = Err(e);
                        done = true;
                    },
                }
            }
            i = i + 1;
        }
        self.reachable_remote_be = rs;
        outcome
    }
}

/// The answer of a store, when it answered.
pub open spec fn answer<T>(r: BackendResult<Vec<T>>) -> Seq<T> {
    match r {
        Ok(v) => v@,
        Err(_) => Seq::empty(),
    }
}

pub open spec fn scoped_ids_view(v: Seq<ScopedId>) -> Seq<(AddrView, Seq<char>)> {
    v.map_values(|s: ScopedId| (s.0@, s.1@))
}

/// Ids tagged with one address.
pub open spec fn tag_ids(a: AddrView, ids: Seq<String>) -> Seq<(AddrView, Seq<char>)> {
    ids.map_values(|s: String| (a, s@))
}

/// Metadata tagged with one address, or, for the private store, with its owner.
pub open spec fn tag_metas(a: Option<AddrView>, ms: Seq<MetaData>) -> Seq<(AddrView, MetaDataView)> {
    ms.map_values(|m: MetaData| (match a {
        Some(x) => x,
        None => AddrView::Private(m@.owner),
    }, m@))
}

/// The addresses of a list of stores (or of their answers).
pub open spec fn addrs_of<T>(rs: Seq<(GlobalBackendAddr, T)>) -> Seq<GlobalBackendAddr> {
    rs.map_values(|x: (GlobalBackendAddr, T)| x.0)
}

/// What each store answered.
pub open spec fn answers_of<T>(rs: Seq<(GlobalBackendAddr, BackendResult<Vec<T>>)>) -> Seq<Seq<T>> {
    rs.map_values(|x: (GlobalBackendAddr, BackendResult<Vec<T>>)| answer(x.1))
}

/// Ids answered by stores, tagged by address, in the order of the stores.
pub open spec fn remote_ids(addrs: Seq<GlobalBackendAddr>, parts: Seq<Seq<String>>) -> Seq<(AddrView, Seq<char>)>
    decreases addrs.len(),
{
    if addrs.len() == 0 {
        Seq::empty()
    } else {
        remote_ids(addrs.drop_last(), parts.drop_last()) + tag_ids(addrs.last()@, parts.last())
    }
}

/// Metadata answered by stores, tagged by address, in the order of the stores.
pub open spec fn remote_metas(addrs: Seq<GlobalBackendAddr>, parts: Seq<Seq<MetaData>>) -> Seq<(AddrView, MetaDataView)>
    decreases addrs.len(),
{
    if addrs.len() == 0 {
        Seq::empty()
    } else {
        remote_metas(addrs.drop_last(), parts.drop_last()) + tag_metas(Some(addrs.last()@), parts.last())
    }
}

proof fn lemma_scoped_ids_push(v: Seq<ScopedId>, x: ScopedId)
    ensures
        scoped_ids_view(v.push(x)) == scoped_ids_view(v).push((x.0@, x.1@)),
{
    assert(scoped_ids_view(v.push(x)) =~= scoped_ids_view(v).push((x.0@, x.1@)));
}

proof fn lemma_tag_ids_push(a: AddrView, s: Seq<String>, i: int)
    requires
        0 <= i < s.len(),
    ensures
        tag_ids(a, s.subrange(0, i + 1)) == tag_ids(a, s.subrange(0, i)).push((a, s[i]@)),
{
    assert(tag_ids(a, s.subrange(0, i + 1)) =~= tag_ids(a, s.subrange(0, i)).push((a, s[i]@)));
}

proof fn lemma_scoped_push(v: Seq<ScopedMetaData>, x: ScopedMetaData)
    ensures
        scoped_view(v.push(x)) == scoped_view(v).push((x.0@, x.1@)),
{
    assert(scoped_view(v.push(x)) =~= scoped_view(v).push((x.0@, x.1@)));
}

proof fn lemma_tag_metas_push(a: Option<AddrView>, s: Seq<MetaData>, i: int)
    requires
        0 <= i < s.len(),
    ensures
        tag_metas(a, s.subrange(0, i + 1)) == tag_metas(a, s.subrange(0, i)).push((match a {
            Some(x) => x,
            None => AddrView::Private(s[i]@.owner),
        }, s[i]@)),
{
    assert(tag_metas(a, s.subrange(0, i + 1)) =~= tag_metas(a, s.subrange(0, i)).push((match a {
        Some(x) => x,
        None => AddrView::Private(s[i]@.owner),
    }, s[i]@)));
}

proof fn lemma_remote_found_hits<B: DatasetBackend>(bs: Seq<(GlobalBackendAddr, GlobalBackend<B>)>, rs: Seq<(GlobalBackendAddr, BackendResult<MetaData>)>, id: Seq<char>)
    requires
        rs.len() == bs.len(),
        forall|i: int| 0 <= i < rs.len() ==> (#[trigger] rs[i]).0 == bs[i].0 && remote_answer_fits(bs[i].1, id, rs[i].1),
        first_remote_failure(rs) is None,
    ensures
        remote_found(rs) == remote_hits(bs, id),
    decreases rs.len(),
{
    if rs.len() > 0 {
        let rd = rs.drop_last();
        let bd = bs.drop_last();
        assert forall|i: int| 0 <= i < rd.len() implies (#[trigger] rd[i]).0 == bd[i].0 && remote_answer_fits(bd[i].1, id, rd[i].1) by {
            assert(rd[i] == rs[i]);
            assert(bd[i] == bs[i]);
        }
        lemma_remote_found_hits(bd, rd, id);
        assert(rs.last() == rs[rs.len() - 1]);
        assert(bs.last() == bs[bs.len() - 1]);
    }
}

proof fn lemma_no_remote_failure(rs: Seq<(GlobalBackendAddr, BackendResult<MetaData>)>)
    requires
        forall|k: int| 0 <= k < rs.len() ==> !is_failure(#[trigger] rs[k].1),
    ensures
        first_remote_failure(rs) is None,
    decreases rs.len(),
{
    if rs.len() > 0 {
        let d = rs.drop_last();
        assert forall|k: int| 0 <= k < d.len() implies !is_failure(#[trigger] d[k].1) by {
            assert(d[k] == rs[k]);
        }
        lemma_no_remote_failure(d);
        assert(rs.last() == rs[rs.len() - 1]);
    }
}

proof fn lemma_remote_failure_is_failure(rs: Seq<(GlobalBackendAddr, BackendResult<MetaData>)>)
    ensures
        first_remote_failure(rs) matches Some(e) ==> !(e is DatasetNotFound),
    decreases rs.len(),
{
    if rs.len() > 0 {
        lemma_remote_failure_is_failure(rs.drop_last());
    }
}

proof fn lemma_first_remote_failure_prefix(rs: Seq<(GlobalBackendAddr, BackendResult<MetaData>)>, k: int)
    requires
        0 <= k <= rs.len(),
        first_remote_failure(rs.subrange(0, k)) is Some,
    ensures
        first_remote_failure(rs) == first_remote_failure(rs.subrange(0, k)),
    decreases rs.len() - k,
{
    if k < rs.len() {
        let t = rs.subrange(0, k + 1);
        assert(t.drop_last() =~= rs.subrange(0, k));
        lemma_first_remote_failure_prefix(rs, k + 1);
    } else {
        assert(rs.subrange(0, k) =~= rs);
    }
}

/// Combines the stores' answers to a lookup of `id`: the first answer that failed for a
/// reason other than "not found" is returned as is; otherwise the datasets found, in store
/// order, the private store's under its owner and the others under their addresses, when
/// there are any; otherwise "not found".
pub fn scope_hits(id: &str, private: BackendResult<MetaData>, local: Option<(GlobalBackendAddr, BackendResult<MetaData>)>, remotes: Vec<(GlobalBackendAddr, BackendResult<MetaData>)>) -> (r: BackendResult<Vec<ScopedMetaData>>)
    ensures
        hits_combined(id@, private, local, remotes@, r),
{
    let ghost p0 = private;
    let ghost l0 = local;
    let ghost rs = remotes@;
    let mut out: Vec<ScopedMetaData> = Vec::new();
    match private {
        Ok(meta) => {
            let addr = BackendAddr::Private { username: meta.owner.clone() };
            out.push(ScopedMetaData(addr, meta));
        },
        Err(BackendError::DatasetNotFound { .. }) => {},
        Err(e) => {
            assert(is_failure(p0));
            return Err(e);
        },
    }
    match local {
        Some((a, Ok(meta))) => {
            out.push(ScopedMetaData(BackendAddr::Global { addr: a }, meta));
        },
        Some((_, Err(BackendError::DatasetNotFound { .. }))) => {},
        Some((_, Err(e))) => {
            assert(!is_failure(p0) && is_failure(l0->Some_0.1));
            return Err(e);
        },
        None => {},
    }
    let ghost head = scoped_view(out@);
    assert(head =~= found(p0, l0, rs.subrange(0, 0)));
    let mut input = remotes;
    let mut i: usize = 0;
    let n = input.len();
    assert(rs.subrange(0, n as int) =~= rs);
    while i < n
        invariant
            n == rs.len(),
            p0 == private,
            l0 == local,
            rs == remotes@,
            i <= n,
            input@ == rs.subrange(i as int, n as int),
            !is_failure(p0),
            !(l0 matches Some((_, a)) && is_failure(a)),
            head == (match p0 {
                Ok(m) => seq![(AddrView::Private(m.owner@), m@)],
                Err(_) => Seq::empty(),
            }) + (match l0 {
                Some((a, Ok(m))) => seq![(a@, m@)],
                _ => Seq::empty(),
            }),
            first_remote_failure(rs.subrange(0, i as int)) is None,
            scoped_view(out@) == head + remote_found(rs.subrange(0, i as int)),
        decreases n - i,
    {
        let entry = input.remove(0);
        proof {
            assert(input@ =~= rs.subrange(i + 1, n as int));
            assert(rs.subrange(0, i + 1).drop_last() =~= rs.subrange(0, i as int));
            assert(rs.subrange(0, i + 1).last() == entry);
        }
        let ghost before = scoped_view(out@);
        let (a, ans) = entry;
        match ans {
            Ok(meta) => {
                out.push(ScopedMetaData(BackendAddr::Global { addr: a }, meta));
                assert(scoped_view(out@) =~= before.push((entry.0@, entry.1->Ok_0@)));
                assert(scoped_view(out@) =~= head + remote_found(rs.subrange(0, i + 1)));
            },
            Err(BackendError::DatasetNotFound { .. }) => {
                assert(scoped_view(out@) =~= head + remote_found(rs.subrange(0, i + 1)));
            },
            Err(e) => {
                proof {
                    let t = rs.subrange(0, i + 1);
                    assert(t.last().1 == Err::<MetaData, BackendError>(e));
                    assert(is_failure(t.last().1));
                    assert(first_remote_failure(t) == Some(e));
                    lemma_first_remote_failure_prefix(rs, i + 1);
                }
                return Err(e);
            },
        }
        i = i + 1;
    }
    assert(scoped_view(out@) =~= found(p0, l0, rs));
    if out.len() > 0 {
        return Ok(out);
    }
    Err(BackendError::DatasetNotFound { id: String::from_str(id) })
}

/// Joins the referrers each store answered with, tagged by store: the private store's under
/// the OS user name. A store that failed contributes nothing.
pub fn scope_referrers(username: &String, private: BackendResult<Vec<String>>, local: Option<(GlobalBackendAddr, BackendResult<Vec<String>>)>, remotes: Vec<(GlobalBackendAddr, BackendResult<Vec<String>>)>) -> (r: Vec<ScopedId>)
    ensures
        scoped_ids_view(r@) == tag_ids(AddrView::Private(username@), answer(private)) + (match local {
            Some((a, l)) => tag_ids(a@, answer(l)),
            None => Seq::empty(),
        }) + remote_ids(addrs_of(remotes@), answers_of(remotes@)),
{
    let mut out: Vec<ScopedId> = Vec::new();
    let ghost g0 = Seq::<(AddrView, Seq<char>)>::empty();
    if let Ok(refs) = private {
        let mut i: usize = 0;
        while i < refs.len()
            invariant
                i <= refs@.len(),
                scoped_ids_view(out@) == tag_ids(AddrView::Private(username@), refs@.subrange(0, i as int)),
            decreases refs@.len() - i,
        {
            let item = ScopedId(BackendAddr::Private { username: username.clone() }, refs[i].clone());
            proof {
                lemma_scoped_ids_push(out@, item);
                lemma_tag_ids_push(AddrView::Private(username@), refs@, i as int);
            }
            out.push(item);
            i = i + 1;
        }
        assert(refs@.subrange(0, refs@.len() as int) =~= refs@);
    } else {
        assert(scoped_ids_view(out@) =~= tag_ids(AddrView::Private(username@), answer(private)));
    }
    let ghost after_private = scoped_ids_view(out@);
    if let Some((a, l)) = local {
        if let Ok(refs) = l {
            let mut i: usize = 0;
            while i < refs.len()
                invariant
                    i <= refs@.len(),
                    scoped_ids_view(out@) == after_private + tag_ids(a@, refs@.subrange(0, i as int)),
                decreases refs@.len() - i,
            {
                let item = ScopedId(BackendAddr::Global { addr: a.clone() }, refs[i].clone());
                proof {
                    lemma_scoped_ids_push(out@, item);
                    lemma_tag_ids_push(a@, refs@, i as int);
                    assert(after_private + tag_ids(a@, refs@.subrange(0, i + 1)) =~= (after_private + tag_ids(a@, refs@.subrange(0, i as int))).push((a@, refs@[i as int]@)));
                }
                out.push(item);
                i = i + 1;
            }
            assert(refs@.subrange(0, refs@.len() as int) =~= refs@);
        } else {
            assert(scoped_ids_view(out@) =~= after_private + tag_ids(a@, answer(l)));
        }
    } else {
        assert(scoped_ids_view(out@) =~= after_private + Seq::<(AddrView, Seq<char>)>::empty());
    }
    let ghost after_local = scoped_ids_view(out@);
    let ghost rs = remotes@;
    let mut j: usize = 0;
    let ghost ads = addrs_of(rs);
    let ghost ans = answers_of(rs);
    assert(after_local =~= after_local + remote_ids(ads.subrange(0, 0), ans.subrange(0, 0)));
    while j < remotes.len()
        invariant
            rs == remotes@,
            j <= rs.len(),
            ads == addrs_of(rs),
            ans == answers_of(rs),
            scoped_ids_view(out@) == after_local + remote_ids(ads.subrange(0, j as int), ans.subrange(0, j as int)),
        decreases rs.len() - j,
    {
        let ghost before = scoped_ids_view(out@);
        let entry = &remotes[j];
        proof {
            assert(ads.subrange(0, j + 1).drop_last() =~= ads.subrange(0, j as int));
            assert(ans.subrange(0, j + 1).drop_last() =~= ans.subrange(0, j as int));
            assert(ads.subrange(0, j + 1).last() == rs[j as int].0);
            assert(ans.subrange(0, j + 1).last() == answer(rs[j as int].1));
        }
        if let Ok(refs) = &entry.1 {
            let mut i: usize = 0;
            while i < refs.len()
                invariant
                    i <= refs@.len(),
                    scoped_ids_view(out@) == before + tag_ids(entry.0@, refs@.subrange(0, i as int)),
                decreases refs@.len() - i,
            {
                let item = ScopedId(BackendAddr::Global { addr: entry.0.clone() }, refs[i].clone());
                proof {
                    lemma_scoped_ids_push(out@, item);
                    lemma_tag_ids_push(entry.0@, refs@, i as int);
                    assert(before + tag_ids(entry.0@, refs@.subrange(0, i + 1)) =~= (before + tag_ids(entry.0@, refs@.subrange(0, i as int))).push((entry.0@, refs@[i as int]@)));
                }
                out.push(item);
                i = i + 1;
            }
            assert(refs@.subrange(0, refs@.len() as int) =~= refs@);
        }
        assert(scoped_ids_view(out@) =~= after_local + remote_ids(ads.subrange(0, j + 1), ans.subrange(0, j + 1)));
        j = j + 1;
    }
    assert(ads.subrange(0, rs.len() as int) =~= ads);
    assert(ans.subrange(0, rs.len() as int) =~= ans);
    out
}

/// Joins the metadata each store answered with, tagged by store: the private store's by
/// each dataset's owner. A store that failed contributes nothing.
pub fn scope_listing(private: BackendResult<Vec<MetaData>>, local: Option<(GlobalBackendAddr, BackendResult<Vec<MetaData>>)>, remotes: Vec<(GlobalBackendAddr, BackendResult<Vec<MetaData>>)>) -> (r: Vec<ScopedMetaData>)
    ensures
        scoped_view(r@) == tag_metas(None, answer(private)) + (match local {
            Some((a, l)) => tag_metas(Some(a@), answer(l)),
            None => Seq::empty(),
        }) + remote_metas(addrs_of(remotes@), answers_of(remotes@)),
{
    let mut out: Vec<ScopedMetaData> = Vec::new();
    if let Ok(metas) = private {
        let mut i: usize = 0;
        while i < metas.len()
            invariant
                i <= metas@.len(),
                scoped_view(out@) == tag_metas(None, metas@.subrange(0, i as int)),
            decreases metas@.len() - i,
        {
            let m = metas[i].clone();
            let owner = m.owner.clone();
            let item = ScopedMetaData(BackendAddr::Private { username: owner }, m);
            proof {
                lemma_scoped_push(out@, item);
                lemma_tag_metas_push(None, metas@, i as int);
            }
            out.push(item);
            i = i + 1;
        }
        assert(metas@.subrange(0, metas@.len() as int) =~= metas@);
    } else {
        assert(scoped_view(out@) =~= tag_metas(None, answer(private)));
    }
    let ghost after_private = scoped_view(out@);
    if let Some((a, l)) = local {
        if let Ok(metas) = l {
            let mut i: usize = 0;
            while i < metas.len()
                invariant
                    i <= metas@.len(),
                    scoped_view(out@) == after_private + tag_metas(Some(a@), metas@.subrange(0, i as int)),
                decreases metas@.len() - i,
            {
                let item = ScopedMetaData(BackendAddr::Global { addr: a.clone() }, metas[i].clone());
                proof {
                    lemma_scoped_push(out@, item);
                    lemma_tag_metas_push(Some(a@), metas@, i as int);
                    assert(after_private + tag_metas(Some(a@), metas@.subrange(0, i + 1)) =~= (after_private + tag_metas(Some(a@), metas@.subrange(0, i as int))).push((a@, metas@[i as int]@)));
                }
                out.push(item);
                i = i + 1;
            }
            assert(metas@.subrange(0, metas@.len() as int) =~= metas@);
        } else {
            assert(scoped_view(out@) =~= after_private + tag_metas(Some(a@), answer(l)));
        }
    } else {
        assert(scoped_view(out@) =~= after_private + Seq::<(AddrView, MetaDataView)>::empty());
    }
    let ghost after_local = scoped_view(out@);
    let ghost rs = remotes@;
    let mut j: usize = 0;
    let ghost ads = addrs_of(rs);
    let ghost ans = answers_of(rs);
    assert(after_local =~= after_local + remote_metas(ads.subrange(0, 0), ans.subrange(0, 0)));
    while j < remotes.len()
        invariant
            rs == remotes@,
            j <= rs.len(),
            ads == addrs_of(rs),
            ans == answers_of(rs),
            scoped_view(out@) == after_local + remote_metas(ads.subrange(0, j as int), ans.subrange(0, j as int)),
        decreases rs.len() - j,
    {
        let ghost before = scoped_view(out@);
        let entry = &remotes[j];
        proof {
            assert(ads.subrange(0, j + 1).drop_last() =~= ads.subrange(0, j as int));
            assert(ans.subrange(0, j + 1).drop_last() =~= ans.subrange(0, j as int));
            assert(ads.subrange(0, j + 1).last() == rs[j as int].0);
            assert(ans.subrange(0, j + 1).last() == answer(rs[j as int].1));
        }
        if let Ok(metas) = &entry.1 {
            let mut i: usize = 0;
            while i < metas.len()
                invariant
                    i <= metas@.len(),
                    scoped_view(out@) == before + tag_metas(Some(entry.0@), metas@.subrange(0, i as int)),
                decreases metas@.len() - i,
            {
                let item = ScopedMetaData(BackendAddr::Global { addr: entry.0.clone() }, metas[i].clone());
                proof {
                    lemma_scoped_push(out@, item);
                    lemma_tag_metas_push(Some(entry.0@), metas@, i as int);
                    assert(before + tag_metas(Some(entry.0@), metas@.subrange(0, i + 1)) =~= (before + tag_metas(Some(entry.0@), metas@.subrange(0, i as int))).push((entry.0@, metas@[i as int]@)));
                }
                out.push(item);
                i = i + 1;
            }
            assert(metas@.subrange(0, metas@.len() as int) =~= metas@);
        }
        assert(scoped_view(out@) =~= after_local + remote_metas(ads.subrange(0, j + 1), ans.subrange(0, j + 1)));
        j = j + 1;
    }
    assert(ads.subrange(0, rs.len() as int) =~= ads);
    assert(ans.subrange(0, rs.len() as int) =~= ans);
    out
}

} // verus!
