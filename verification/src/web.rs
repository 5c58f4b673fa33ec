//! What each page and endpoint of the web interface answers, computed from the service:
//! the listings, the detail panel with the datasets it depends on, the dependency graph and
//! the datasets that depend on one. Serving and rendering them is the program's part.
use crate::api::{
    edges_of, edge_view, node_of, node_view, DatasetMetaDto, DetailedPanelView, DatasetWorkspaceView, IndexView, MetaDetailDto, ReferrerDto,
    ReferrersView, WebGraphEdge, WebGraphNode, WebGraphResponse,
};
use crate::backend::router::{addr_text, scoped_ids_view, scoped_view, AddrView, ScopedId, ScopedMetaData, StackedBackend};
use crate::backend::{BackendError, BackendResult, DatasetBackend};
use crate::dag::{explored, metas_view, DatasetGraph, DatasetGraphError};
use crate::dataset::{busy_text, strings_view, DSFDataSet, MetaData, MetaDataError, MetaDataView};
use crate::service::{DSFService, ServiceError};
use crate::utils::{is_dataset_id, os_username};
use vstd::prelude::*;

verus! {

/// `d` lists the dataset `m`: its id, name, tag and owner.
pub open spec fn dto_matches(d: DatasetMetaDto, m: MetaDataView) -> bool {
    &&& d.id@ == m.spec_id()
    &&& d.name@ == m.name
    &&& d.tag@ == m.tag
    &&& d.owner matches Some(o) && o@ == m.owner
}

/// `ds` lists the datasets of `ms`, one for one, in order.
pub open spec fn dtos_match(ds: Seq<DatasetMetaDto>, ms: Seq<(AddrView, MetaDataView)>) -> bool {
    &&& ds.len() == ms.len()
    &&& forall|i: int| 0 <= i < ds.len() ==> dto_matches(#[trigger] ds[i], ms[i].1)
}

/// `d` shows everything recorded of `m`, with its id and its busy status as text.
pub open spec fn detail_matches(d: MetaDetailDto, m: MetaDataView) -> bool {
    &&& d.id@ == m.spec_id()
    &&& d.name@ == m.name
    &&& d.tag@ == m.tag
    &&& d.hash@ == m.hash
    &&& d.path@ == m.path
    &&& d.description_path@ == m.description_path
    &&& d.script_path@ == m.script_path
    &&& d.owner@ == m.owner
    &&& strings_view(d.dependencies@) == m.dependencies
    &&& d.merkle_tree_path@ == m.merkle_tree_path
    &&& d.busy_status@ == busy_text(m.busy_status)
}

/// `r` lists the referring datasets `ids`, one for one: each with its store's text and
/// `store:id`.
pub open spec fn referrers_match(r: Seq<ReferrerDto>, ids: Seq<(AddrView, Seq<char>)>) -> bool {
    &&& r.len() == ids.len()
    &&& forall|i: int| 0 <= i < r.len() ==> (#[trigger] r[i]).backend_name@ == addr_text(ids[i].0) && r[i].referrer_id@ == addr_text(ids[i].0) + ":"@ + ids[i].1
}

/// The upstream list `u` of a detail panel, for the first `n` dependencies `deps`: each
/// dependency, in order, listed by its first hit when its lookup answered. A dependency
/// that is no id, or that no store holds, is never listed; one whose lookup failed in its
/// store is left out.
pub open spec fn panel_upstreams<B: DatasetBackend>(s: StackedBackend<B>, deps: Seq<Seq<char>>, u: Seq<DatasetMetaDto>, n: int) -> bool
    decreases n,
{
    if n <= 0 || n > deps.len() {
        u.len() == 0
    } else {
        let d = deps[n - 1];
        if !is_dataset_id(d) || s.hits(d).len() == 0 {
            panel_upstreams(s, deps, u, n - 1)
        } else {
            ||| (u.len() > 0 && dto_matches(u.last(), s.hits(d)[0].1) && panel_upstreams(s, deps, u.drop_last(), n - 1))
            ||| panel_upstreams(s, deps, u, n - 1)
        }
    }
}

/// One listing entry per stored dataset, in order.
pub fn listing_dtos(list: &Vec<ScopedMetaData>) -> (r: Vec<DatasetMetaDto>)
    ensures
        dtos_match(r@, scoped_view(list@)),
{
    let mut out: Vec<DatasetMetaDto> = Vec::new();
    let mut i: usize = 0;
    while i < list.len()
        invariant
            i <= list@.len(),
            out@.len() == i,
            forall|k: int| 0 <= k < i ==> dto_matches(#[trigger] out@[k], list@[k].1@),
        decreases list@.len() - i,
    {
        out.push(DatasetMetaDto::from_metadata(&list[i].1));
        i = i + 1;
    }
    out
}

/// One referrer entry per referring dataset, in order.
pub fn referrer_dtos(ids: &Vec<ScopedId>) -> (r: Vec<ReferrerDto>)
    ensures
        referrers_match(r@, scoped_ids_view(ids@)),
{
    let mut out: Vec<ReferrerDto> = Vec::new();
    let mut i: usize = 0;
    while i < ids.len()
        invariant
            i <= ids@.len(),
            out@.len() == i,
            forall|k: int| 0 <= k < i ==> (#[trigger] out@[k]).backend_name@ == addr_text(ids@[k].0@) && out@[k].referrer_id@ == addr_text(ids@[k].0@) + ":"@ + ids@[k].1@,
        decreases ids@.len() - i,
    {
        out.push(ReferrerDto::from_scoped(&ids[i]));
        i = i + 1;
    }
    out
}

impl<B: DatasetBackend> DSFService<B> {
    /// The listing of every dataset of every store (the metadata endpoint).
    pub fn dataset_listing(&self) -> (r: BackendResult<Vec<DatasetMetaDto>>)
        ensures
            r is Ok,
            r matches Ok(v) ==> exists|p: Seq<MetaData>, l: Seq<MetaData>, rp: Seq<Seq<MetaData>>|
                #![trigger self.store().listing_parts(p, l, rp)]
                self.store().listing_parts(p, l, rp) && dtos_match(v@, self.store().stacked_listing(p, l, rp)),
    {
        match self.list_all_metadata() {
            Ok(list) => Ok(listing_dtos(&list)),
            Err(e) => Err(e),
        }
    }

    /// The home page: the listing of every dataset, empty when the stores cannot be listed.
    pub fn index_view(&self) -> (r: IndexView)
        ensures
            exists|p: Seq<MetaData>, l: Seq<MetaData>, rp: Seq<Seq<MetaData>>|
                #![trigger self.store().listing_parts(p, l, rp)]
                self.store().listing_parts(p, l, rp) && dtos_match(r.datasets@, self.store().stacked_listing(p, l, rp)),
    {
        let datasets = match self.dataset_listing() {
            Ok(v) => v,
            Err(_) => Vec::new(),
        };
        IndexView { datasets }
    }

    /// The workspace page: the listing of every dataset, and the dataset being looked at.
    pub fn workspace_view(&self, active_id: Option<String>) -> (r: DatasetWorkspaceView)
        ensures
            r.active_id == active_id,
            exists|p: Seq<MetaData>, l: Seq<MetaData>, rp: Seq<Seq<MetaData>>|
                #![trigger self.store().listing_parts(p, l, rp)]
                self.store().listing_parts(p, l, rp) && dtos_match(r.datasets@, self.store().stacked_listing(p, l, rp)),
    {
        let datasets = match self.dataset_listing() {
            Ok(v) => v,
            Err(_) => Vec::new(),
        };
        DatasetWorkspaceView { datasets, active_id }
    }

    /// Everything recorded of a dataset, one entry per store that holds it (the meta
    /// endpoint).
    pub fn meta_details(&self, id: &str) -> (r: Result<Vec<MetaDetailDto>, ServiceError>)
        ensures
            !is_dataset_id(id@) ==> r matches Err(ServiceError::InvalidInput(_)),
            is_dataset_id(id@) ==> (r is Err ==> r->Err_0 is Backend),
            r matches Err(ServiceError::Backend(BackendError::DatasetNotFound { .. })) ==> self.store().hits(id@).len() == 0,
            r matches Ok(v) ==> v@.len() == self.store().hits(id@).len() && v@.len() > 0
                && forall|i: int| 0 <= i < v@.len() ==> detail_matches(#[trigger] v@[i], self.store().hits(id@)[i].1),
    {
        let found = match self.query_meta(id, None) {
            Ok(v) => v,
            Err(e) => return Err(e),
        };
        let ghost hv = scoped_view(found@);
        let mut out: Vec<MetaDetailDto> = Vec::new();
        let mut i: usize = 0;
        while i < found.len()
            invariant
                hv == scoped_view(found@),
                i <= found@.len(),
                out@.len() == i,
                forall|k: int| 0 <= k < i ==> detail_matches(#[trigger] out@[k], hv[k].1),
            decreases found@.len() - i,
        {
            let m = found[i].1.clone();
            out.push(MetaDetailDto::from_metadata(m));
            i = i + 1;
        }
        Ok(out)
    }

    /// The dependency graph under a dataset, as drawn (the dependencies endpoint).
    pub fn dependency_graph_view(&self, root_id: &str) -> (r: Result<WebGraphResponse, DatasetGraphError>)
        ensures
            r matches Err(DatasetGraphError::DatasetNotFound { node_id }) ==> node_id@ == root_id@
                || exists|k: Seq<char>, m: MetaDataView| #[trigger] self.store().local_holds(k, m) && m.dependencies.contains(node_id@),
            r matches Err(e) ==> e is DatasetNotFound || e is Io,
            self.store().reliable() && self.store().locally_closed() && self.store().local_ids().contains(root_id@) ==> r is Ok,
            self.store().reliable() ==> (r matches Err(e) ==> (e matches DatasetGraphError::DatasetNotFound { node_id } && !self.store().local_ids().contains(node_id@))),
            r matches Ok(w) ==> exists|g: DatasetGraph|
                #![trigger explored(self.store(), seq![root_id@], g.adj(), metas_view(g.datasets@))]
                explored(self.store(), seq![root_id@], g.adj(), metas_view(g.datasets@))
                && w.nodes@.map_values(|n: WebGraphNode| node_view(n)) == g.datasets@.map_values(|e: (String, DSFDataSet)| node_of(e))
                && w.edges@.map_values(|e: WebGraphEdge| edge_view(e)) == edges_of(g.adj_list@),
    {
        match self.query_dependency_graph(root_id) {
            Ok(g) => {
                let ghost g0 = g;
                let w = WebGraphResponse::from_graph(g);
                assert(explored(self.store(), seq![root_id@], g0.adj(), metas_view(g0.datasets@)));
                Ok(w)
            },
            Err(e) => Err(e),
        }
    }

    /// The datasets that depend on `id`, from every store, the OS user name given as
    /// `user` (the referrers endpoint).
    pub fn referrer_list_with_user(&self, id: &str, user: Result<String, String>) -> (r: Result<Vec<ReferrerDto>, MetaDataError>)
        ensures
            user is Ok <==> r is Ok,
            r matches Ok(v) ==> exists|p: Seq<String>, l: Seq<String>, rp: Seq<Seq<String>>|
                #![trigger self.store().referrer_parts(id@, p, l, rp)]
                self.store().referrer_parts(id@, p, l, rp) && referrers_match(v@, self.store().referrer_listing(user->Ok_0@, p, l, rp)),
    {
        match self.check_is_referenced_with_user(id, user) {
            Ok(ids) => Ok(referrer_dtos(&ids)),
            Err(e) => Err(e),
        }
    }

    /// The datasets that depend on `id`, from every store (the referrers endpoint).
    pub fn referrer_list(&self, id: &str) -> (r: Result<Vec<ReferrerDto>, MetaDataError>)
        ensures
            r matches Ok(v) ==> exists|user: Seq<char>, p: Seq<String>, l: Seq<String>, rp: Seq<Seq<String>>|
                #![trigger self.store().referrer_parts(id@, p, l, rp), self.store().referrer_listing(user, p, l, rp)]
                self.store().referrer_parts(id@, p, l, rp) && referrers_match(v@, self.store().referrer_listing(user, p, l, rp)),
    {
        let user = os_username();
        self.referrer_list_with_user(id, user)
    }

    /// The referrers panel, the OS user name given as `user`: the referring datasets, none
    /// when they cannot be found.
    pub fn referrers_view_with_user(&self, id: &str, user: Result<String, String>) -> (r: ReferrersView)
        ensures
            user is Err ==> r.referrers@.len() == 0,
            user matches Ok(u) ==> exists|p: Seq<String>, l: Seq<String>, rp: Seq<Seq<String>>|
                #![trigger self.store().referrer_parts(id@, p, l, rp)]
                self.store().referrer_parts(id@, p, l, rp) && referrers_match(r.referrers@, self.store().referrer_listing(u@, p, l, rp)),
    {
        match self.referrer_list_with_user(id, user) {
            Ok(v) => ReferrersView { referrers: v },
            Err(_) => ReferrersView { referrers: Vec::new() },
        }
    }

    /// The referrers panel: the referring datasets, none when they cannot be found.
    pub fn referrers_view(&self, id: &str) -> (r: ReferrersView)
        ensures
            r.referrers@.len() == 0 || exists|user: Seq<char>, p: Seq<String>, l: Seq<String>, rp: Seq<Seq<String>>|
                #![trigger self.store().referrer_parts(id@, p, l, rp), self.store().referrer_listing(user, p, l, rp)]
                self.store().referrer_parts(id@, p, l, rp) && referrers_match(r.referrers@, self.store().referrer_listing(user, p, l, rp)),
    {
        let user = os_username();
        self.referrers_view_with_user(id, user)
    }

    /// The detail panel of a dataset: everything recorded of its first hit, and the
    /// datasets it depends on (see `panel_upstreams`).
    pub fn detailed_panel(&self, id: &str) -> (r: Result<DetailedPanelView, ServiceError>)
        ensures
            !is_dataset_id(id@) ==> r matches Err(ServiceError::InvalidInput(_)),
            is_dataset_id(id@) ==> (r is Err ==> r->Err_0 is Backend),
            self.store().hits(id@).len() == 0 ==> r is Err,
            r matches Err(ServiceError::Backend(BackendError::DatasetNotFound { .. })) ==> self.store().hits(id@).len() == 0,
            r matches Ok(p) ==> self.store().hits(id@).len() > 0
                && detail_matches(p.detail, self.store().hits(id@)[0].1)
                && panel_upstreams(self.store(), self.store().hits(id@)[0].1.dependencies, p.upstreams@, self.store().hits(id@)[0].1.dependencies.len() as int),
    {
        let found = match self.query_meta(id, None) {
            Ok(v) => v,
            Err(e) => return Err(e),
        };
        if found.len() == 0 {
            return Err(ServiceError::Backend(BackendError::DatasetNotFound { id: String::from_str(id) }));
        }
        let ghost first = found@[0].1@;
        assert(scoped_view(found@)[0].1 == first);
        let detail = MetaDetailDto::from_metadata(found[0].1.clone());
        let ghost deps = strings_view(detail.dependencies@);
        let mut upstreams: Vec<DatasetMetaDto> = Vec::new();
        let mut j: usize = 0;
        while j < detail.dependencies.len()
            invariant
                deps == strings_view(detail.dependencies@),
                deps == first.dependencies,
                j <= deps.len(),
                panel_upstreams(self.store(), deps, upstreams@, j as int),
            decreases deps.len() - j,
        {
            let ghost before = upstreams@;
            let dep = detail.dependencies[j].as_str();
            assert(deps[j as int] == dep@);
            match self.query_meta(dep, None) {
                Ok(metas) => {
                    if metas.len() > 0 {
                        assert(scoped_view(metas@)[0].1 == metas@[0].1@);
                        upstreams.push(DatasetMetaDto::from_metadata(&metas[0].1));
                        assert(upstreams@.drop_last() =~= before);
                    }
                },
                Err(_) => {},
            }
            j = j + 1;
        }
        Ok(DetailedPanelView { detail, upstreams })
    }
}

} // verus!
