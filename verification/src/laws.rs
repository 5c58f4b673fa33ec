//! Properties that hold across the library's operations.
use crate::assoc::lookup;
use crate::dag::{
    dep_verdicts, edge, eval, hash_of, is_path, lemma_dep_verdicts, lemma_eval_mono, reaches, universe,
    verdict, AdjView, HashMapView, MetaMapView,
};
use crate::dataset::{
    busy_text, id_of, MetaData, parse_busy, single_status, spec_is_open, DataSetBusyStatus, DataSetStatus,
    MetaDataView,
};
use crate::utils::{hex_digit, hex_of, is_dataset_id};
use crate::backend::router::{addrs_of, global_listing, global_referrers, remote_ids, remote_metas, tag_ids, tag_metas, AddrView, GlobalBackend, GlobalBackendAddr, StackedBackend};
use crate::dataset::strings_view;
use crate::backend::{listing_matches, DatasetBackend};
use crate::service::{registered_as, registration, RegisterOptions};
use crate::merkle::{leaf_suffix, path_text_spec, LeafContent};
use crate::utils::HashRes;
use crate::frontend::{lowercase_of, matches_query, matching, occurs_in};
use crate::api::DatasetMetaDto;
use vstd::prelude::*;

verus! {

/// A busy status reads back as itself from its text.
pub proof fn law_busy_text_round_trip(b: DataSetBusyStatus)
    ensures
        parse_busy(busy_text(b)) == Some(b),
{
    reveal_strlit("free");
    reveal_strlit("reading");
    reveal_strlit("modifying");
    reveal_strlit("deleting");
    reveal_strlit("creating");
    let f = "free"@;
    let r = "reading"@;
    let m = "modifying"@;
    let d = "deleting"@;
    let c = "creating"@;
    assert(f.len() == 4 && r.len() == 7 && m.len() == 9 && d.len() == 8 && c.len() == 8);
    assert(d[0] != c[0]);
}

/// A name and a tag that pass validation make an id that passes validation.
pub proof fn law_valid_name_tag_gives_valid_id(name: Seq<char>, tag: Seq<char>)
    requires
        name.len() > 0,
        tag.len() > 0,
        !name.contains('@'),
        !tag.contains('@'),
    ensures
        is_dataset_id(id_of(name, tag)),
{
    let id = id_of(name, tag);
    let i = name.len() as int;
    assert(id[i] == '@');
    assert forall|k: int| 0 <= k < id.len() && k != i implies id[k] != '@' by {
        if k < i {
            assert(id[k] == name[k]);
            assert(name.contains(name[k]) ==> name[k] != '@');
        } else {
            assert(id[k] == tag[k - i - 1]);
            assert(tag.contains(tag[k - i - 1]) ==> tag[k - i - 1] != '@');
        }
    }
}

/// A dataset held by an operation other than reading is reported busy with that status,
/// whatever its content and its dependencies.
pub proof fn law_fenced_dataset_is_busy(meta: MetaDataView, current_hash: Seq<char>, deps: Seq<DataSetStatus>)
    requires
        !spec_is_open(meta.busy_status),
    ensures
        single_status(meta, current_hash, deps) == DataSetStatus::Busy(meta.busy_status),
{
}

/// A dataset verified healthy is open, its content has its recorded hash, and each of its
/// dependencies is reported healthy.
pub proof fn law_healthy_means_intact(adj: AdjView, ms: MetaMapView, h: HashMapView, n: Seq<char>)
    requires
        verdict(adj, ms, h, n) matches Some(v) && v.status == DataSetStatus::Healthy,
    ensures
        lookup(ms, n) matches Some(m) && spec_is_open(m.busy_status) && hash_of(h, n) == m.hash,
        forall|k: int| 0 <= k < verdict(adj, ms, h, n).unwrap().dep_status.len() ==> #[trigger] verdict(adj, ms, h, n).unwrap().dep_status[k] == DataSetStatus::Healthy,
{
}

/// A healthy verdict is passed down every dependency edge: the dependency has a verdict,
/// and it is healthy.
pub proof fn law_healthy_dependency(adj: AdjView, ms: MetaMapView, h: HashMapView, n: Seq<char>, d: Seq<char>)
    requires
        verdict(adj, ms, h, n) matches Some(v) && v.status == DataSetStatus::Healthy,
        edge(adj, n, d),
    ensures
        verdict(adj, ms, h, d) matches Some(w) && w.status == DataSetStatus::Healthy,
{
    let f = (universe(adj).len() + 1) as nat;
    let deps = lookup(adj, n).unwrap();
    let k = choose|k: int| 0 <= k < deps.len() && deps[k] == d;
    let st = dep_verdicts(adj, ms, h, deps, (f - 1) as nat).unwrap();
    lemma_dep_verdicts(adj, ms, h, deps, (f - 1) as nat);
    assert(eval(adj, ms, h, deps[k], (f - 1) as nat) is Some);
    assert(st[k] == DataSetStatus::Healthy);
    lemma_eval_mono(adj, ms, h, d, (f - 1) as nat, f);
}

/// Everything a healthy dataset reaches along its dependencies is healthy too.
pub proof fn law_healthy_is_hereditary(adj: AdjView, ms: MetaMapView, h: HashMapView, n: Seq<char>, x: Seq<char>)
    requires
        verdict(adj, ms, h, n) matches Some(v) && v.status == DataSetStatus::Healthy,
        reaches(adj, n, x),
    ensures
        verdict(adj, ms, h, x) matches Some(w) && w.status == DataSetStatus::Healthy,
{
    let p = choose|p: Seq<Seq<char>>| #[trigger] is_path(adj, p) && p[0] == n && p.last() == x;
    lemma_healthy_along(adj, ms, h, p, (p.len() - 1) as int);
}

proof fn lemma_healthy_along(adj: AdjView, ms: MetaMapView, h: HashMapView, p: Seq<Seq<char>>, i: int)
    requires
        is_path(adj, p),
        0 <= i < p.len(),
        verdict(adj, ms, h, p[0]) matches Some(v) && v.status == DataSetStatus::Healthy,
    ensures
        verdict(adj, ms, h, p[i]) matches Some(w) && w.status == DataSetStatus::Healthy,
    decreases i,
{
    if i > 0 {
        lemma_healthy_along(adj, ms, h, p, i - 1);
        assert(edge(adj, p[i - 1], p[i]));
        law_healthy_dependency(adj, ms, h, p[i - 1], p[i]);
    }
}

proof fn lemma_hex_len(a: Seq<u8>)
    ensures
        hex_of(a).len() == 2 * a.len(),
    decreases a.len(),
{
    if a.len() > 0 {
        lemma_hex_len(a.drop_last());
    }
}

proof fn lemma_hex_digit_injective(x: int, y: int)
    requires
        0 <= x < 16,
        0 <= y < 16,
        hex_digit(x) == hex_digit(y),
    ensures
        x == y,
{
    assert((hex_digit(x) as u32) == (hex_digit(y) as u32));
}

/// Two byte strings render to the same hexadecimal text exactly when they are equal, so
/// recorded hash texts compare as the digests they render.
pub proof fn law_hex_is_faithful(a: Seq<u8>, b: Seq<u8>)
    ensures
        hex_of(a) == hex_of(b) <==> a == b,
    decreases a.len(),
{
    if hex_of(a) == hex_of(b) {
        lemma_hex_len(a);
        lemma_hex_len(b);
        if a.len() > 0 {
            let ha = hex_of(a);
            let n = ha.len();
            let pa = hex_of(a.drop_last());
            let pb = hex_of(b.drop_last());
            lemma_hex_len(a.drop_last());
            lemma_hex_len(b.drop_last());
            assert(ha[n - 2] == hex_digit(a.last() as int / 16));
            assert(ha[n - 1] == hex_digit(a.last() as int % 16));
            assert(hex_of(b)[n - 2] == hex_digit(b.last() as int / 16));
            assert(hex_of(b)[n - 1] == hex_digit(b.last() as int % 16));
            lemma_hex_digit_injective(a.last() as int / 16, b.last() as int / 16);
            lemma_hex_digit_injective(a.last() as int % 16, b.last() as int % 16);
            assert(a.last() == b.last());
            assert(pa =~= ha.subrange(0, n - 2));
            assert(pb =~= hex_of(b).subrange(0, n - 2));
            law_hex_is_faithful(a.drop_last(), b.drop_last());
            assert(a =~= a.drop_last().push(a.last()));
            assert(b =~= b.drop_last().push(b.last()));
        } else {
            assert(a =~= b);
        }
    }
}

/// An open dataset whose content is intact but one of whose dependencies is not healthy is
/// reported as having broken dependencies.
pub proof fn law_unhealthy_dependency_breaks(meta: MetaDataView, current_hash: Seq<char>, deps: Seq<DataSetStatus>, k: int)
    requires
        spec_is_open(meta.busy_status),
        current_hash == meta.hash,
        0 <= k < deps.len(),
        deps[k] != DataSetStatus::Healthy,
    ensures
        single_status(meta, current_hash, deps) == DataSetStatus::BrokenDeps,
{
}

/// After a successful save (as `DatasetBackend::save_metadata` states it), the store holds
/// the saved metadata under its id, and every other dataset as before; a store that never
/// fails then answers a lookup of that id with it.
pub proof fn law_save_then_get<B: DatasetBackend>(before: B, after: B, m: MetaDataView, k: Seq<char>)
    requires
        after.contents() == before.contents().insert(m.spec_id(), m),
        k != m.spec_id(),
    ensures
        after.contents().contains_key(m.spec_id()),
        after.contents()[m.spec_id()] == m,
        after.contents().contains_key(k) == before.contents().contains_key(k),
        before.contents().contains_key(k) ==> after.contents()[k] == before.contents()[k],
{
}

/// Saving twice under one id keeps the last save, and holds no more datasets than the
/// first save left.
pub proof fn law_save_replaces<B: DatasetBackend>(s0: B, s1: B, s2: B, m1: MetaDataView, m2: MetaDataView)
    requires
        m1.spec_id() == m2.spec_id(),
        s1.contents() == s0.contents().insert(m1.spec_id(), m1),
        s2.contents() == s1.contents().insert(m2.spec_id(), m2),
    ensures
        s2.contents()[m2.spec_id()] == m2,
        s2.contents().dom() == s1.contents().dom(),
{
    assert(s2.contents().dom() =~= s1.contents().dom());
}

/// After a successful deletion (as `DatasetBackend::delete_metadata` states it), the store
/// no longer holds the dataset, and holds every other one as before.
pub proof fn law_delete_then_get<B: DatasetBackend>(before: B, after: B, id: Seq<char>, k: Seq<char>)
    requires
        after.contents() == before.contents().remove(id),
        k != id,
    ensures
        !after.contents().contains_key(id),
        after.contents().contains_key(k) == before.contents().contains_key(k),
        before.contents().contains_key(k) ==> after.contents()[k] == before.contents()[k],
{
}

/// After a successful status mark (as `DatasetBackend::mark_status` states it), the dataset
/// reads back with that status and every other field as before.
pub proof fn law_mark_then_get<B: DatasetBackend>(before: B, after: B, id: Seq<char>, status: DataSetBusyStatus)
    requires
        before.contents().contains_key(id),
        after.contents() == before.contents().insert(id, MetaDataView { busy_status: status, ..before.contents()[id] }),
    ensures
        after.contents().contains_key(id),
        after.contents()[id].busy_status == status,
        after.contents()[id] == (MetaDataView { busy_status: status, ..before.contents()[id] }),
        after.contents().dom() == before.contents().dom(),
{
    assert(after.contents().dom() =~= before.contents().dom());
}

/// Refreshing a stored dataset's hash to the hash its content has now (what a successful
/// `update_merkle` records) makes it verify healthy on its own against that hash.
pub proof fn law_refresh_then_verify_is_healthy(before: Map<Seq<char>, MetaDataView>, id: Seq<char>, current_hash: Seq<char>)
    requires
        before.contains_key(id),
        before[id].spec_id() == id,
        spec_is_open(before[id].busy_status),
    ensures
        ({
            let after = before.insert(before[id].spec_id(), MetaDataView { hash: current_hash, ..before[id] });
            &&& after.contains_key(id)
            &&& single_status(after[id], current_hash, Seq::empty()) == DataSetStatus::Healthy
        }),
{
}

/// `name@tag` identifies a dataset: two names and tags without `@` that give the same id
/// are the same name and the same tag.
pub proof fn law_id_is_unique(name1: Seq<char>, tag1: Seq<char>, name2: Seq<char>, tag2: Seq<char>)
    requires
        !name1.contains('@'),
        !tag1.contains('@'),
        !name2.contains('@'),
        !tag2.contains('@'),
        id_of(name1, tag1) == id_of(name2, tag2),
    ensures
        name1 == name2,
        tag1 == tag2,
{
    let a = id_of(name1, tag1);
    let b = id_of(name2, tag2);
    if name1.len() < name2.len() {
        assert(a[name1.len() as int] == '@');
        assert(b[name1.len() as int] == name2[name1.len() as int]);
        assert(name2.contains(name2[name1.len() as int]));
    } else if name2.len() < name1.len() {
        assert(b[name2.len() as int] == '@');
        assert(a[name2.len() as int] == name1[name2.len() as int]);
        assert(name1.contains(name1[name2.len() as int]));
    }
    assert(name1 =~= a.subrange(0, name1.len() as int));
    assert(name2 =~= b.subrange(0, name2.len() as int));
    assert(tag1 =~= a.subrange(name1.len() as int + 1, a.len() as int));
    assert(tag2 =~= b.subrange(name2.len() as int + 1, b.len() as int));
}

/// A dataset registered without an address is then found: a lookup of its id without an
/// address lists it first, from the private store, with what the registration recorded (and
/// a store that never fails answers that lookup with it; see `DSFService::query_meta`).
pub proof fn law_registered_is_found<B: DatasetBackend>(
    old: StackedBackend<B>,
    new: StackedBackend<B>,
    opts: RegisterOptions,
    dataset_hash: Seq<char>,
    description_path: Seq<char>,
    merkle_tree_path: Seq<char>,
)
    requires
        registration(old, new, opts, None, dataset_hash, description_path, merkle_tree_path, Ok(())),
    ensures
        new.hits(id_of(opts.name@, opts.tag@)).len() > 0,
        new.hits(id_of(opts.name@, opts.tag@))[0].1 == new.private_be.contents()[id_of(opts.name@, opts.tag@)],
        registered_as(new.hits(id_of(opts.name@, opts.tag@))[0].1, opts, dataset_hash, description_path, merkle_tree_path),
{
}

/// A store's listing holds as many datasets as the store: one per stored id.
pub proof fn law_listing_counts_the_store(v: Seq<MetaData>, contents: Map<Seq<char>, MetaDataView>)
    requires
        listing_matches(v, contents),
    ensures
        v.len() == contents.dom().len(),
{
    let ids = v.map_values(|m: MetaData| m@.spec_id());
    assert(ids.no_duplicates()) by {
        assert forall|i: int, j: int| 0 <= i < ids.len() && 0 <= j < ids.len() && i != j implies ids[i] != ids[j] by {
            if i < j {
                assert(v[i]@.spec_id() != v[j]@.spec_id());
            } else {
                assert(v[j]@.spec_id() != v[i]@.spec_id());
            }
        }
    }
    assert(ids.to_set() =~= contents.dom()) by {
        assert forall|k: Seq<char>| ids.to_set().contains(k) implies contents.dom().contains(k) by {
            let i = choose|i: int| 0 <= i < ids.len() && ids[i] == k;
            assert(contents.contains_key(v[i]@.spec_id()));
        }
        assert forall|k: Seq<char>| contents.dom().contains(k) implies ids.to_set().contains(k) by {
            assert(contents.contains_key(k));
            let i = choose|i: int| 0 <= i < v.len() && v[i]@.spec_id() == k;
            assert(ids[i] == k);
        }
    }
    ids.unique_seq_to_set();
}

/// The stacked listing shows every dataset of a private store that never fails, tagged with
/// its owner, as stored.
pub proof fn law_listing_shows_private_datasets<B: DatasetBackend>(store: StackedBackend<B>, p: Seq<MetaData>, l: Seq<MetaData>, rp: Seq<Seq<MetaData>>, k: Seq<char>)
    requires
        store.private_be.reliable(),
        store.listing_parts(p, l, rp),
        store.private_be.contents().contains_key(k),
    ensures
        exists|i: int| 0 <= i < store.stacked_listing(p, l, rp).len()
            && #[trigger] store.stacked_listing(p, l, rp)[i] == (AddrView::Private(store.private_be.contents()[k].owner), store.private_be.contents()[k]),
{
    let i = choose|i: int| 0 <= i < p.len() && p[i]@.spec_id() == k;
    assert(store.stacked_listing(p, l, rp)[i] == tag_metas(None, p)[i]);
}

/// The stacked referrer query reports every referrer a private store that never fails
/// knows of, under the given user name.
pub proof fn law_referrers_show_private_referrers<B: DatasetBackend>(store: StackedBackend<B>, target: Seq<char>, user: Seq<char>, p: Seq<String>, l: Seq<String>, rp: Seq<Seq<String>>, x: int)
    requires
        store.private_be.reliable(),
        store.referrer_parts(target, p, l, rp),
        0 <= x < store.private_be.referrers(target).len(),
    ensures
        store.referrer_listing(user, p, l, rp)[x] == (AddrView::Private(user), store.private_be.referrers(target)[x]),
{
    assert(strings_view(p)[x] == p[x]@);
    assert(store.referrer_listing(user, p, l, rp)[x] == tag_ids(AddrView::Private(user), p)[x]);
}

/// The stacked listing shows every dataset of a mounted local global store that never fails,
/// tagged with that store's address, as stored, right after the private store's part.
pub proof fn law_listing_shows_local_global_datasets<B: DatasetBackend>(store: StackedBackend<B>, p: Seq<MetaData>, l: Seq<MetaData>, rp: Seq<Seq<MetaData>>, k: Seq<char>)
    requires
        store.local_global_be is Some,
        store.local_global_be.unwrap().1.reliable(),
        store.listing_parts(p, l, rp),
        store.local_global_be.unwrap().1.contents().contains_key(k),
    ensures
        exists|i: int| 0 <= i < l.len() && p.len() + i < store.stacked_listing(p, l, rp).len()
            && #[trigger] store.stacked_listing(p, l, rp)[p.len() + i]
                == (store.local_global_be.unwrap().0@, store.local_global_be.unwrap().1.contents()[k]),
{
    let i = choose|i: int| 0 <= i < l.len() && l[i]@.spec_id() == k;
    let a = store.local_global_be.unwrap().0;
    assert(store.stacked_listing(p, l, rp)[p.len() + i] == tag_metas(Some(a@), l)[i]);
}

/// The stacked referrer query reports every referrer a mounted local global store that never
/// fails knows of, tagged with that store's address, right after the private store's part.
pub proof fn law_referrers_show_local_global_referrers<B: DatasetBackend>(store: StackedBackend<B>, target: Seq<char>, user: Seq<char>, p: Seq<String>, l: Seq<String>, rp: Seq<Seq<String>>, x: int)
    requires
        store.local_global_be is Some,
        store.local_global_be.unwrap().1.reliable(),
        store.referrer_parts(target, p, l, rp),
        0 <= x < store.local_global_be.unwrap().1.referrers(target).len(),
    ensures
        p.len() + x < store.referrer_listing(user, p, l, rp).len(),
        store.referrer_listing(user, p, l, rp)[p.len() + x]
            == (store.local_global_be.unwrap().0@, store.local_global_be.unwrap().1.referrers(target)[x]),
{
    let a = store.local_global_be.unwrap().0;
    assert(strings_view(l)[x] == l[x]@);
    assert(store.referrer_listing(user, p, l, rp)[p.len() + x] == tag_ids(a@, l)[x]);
}

/// The leaf input of a symbolic link to a directory ends with the 32 bytes of the linked
/// tree's root hash, so links to trees with different root hashes get different leaf inputs:
/// a change inside the linked tree changes the leaf.
pub proof fn law_linked_tree_leaf_follows_target(p: Seq<Seq<u8>>, h1: HashRes, h2: HashRes)
    ensures
        ({
            let input = path_text_spec(p) + leaf_suffix(p, LeafContent::LinkedTree(h1));
            &&& input.len() == path_text_spec(p).len() + 32
            &&& input.subrange(path_text_spec(p).len() as int, input.len() as int) == h1@
        }),
        h1@ != h2@ ==> path_text_spec(p) + leaf_suffix(p, LeafContent::LinkedTree(h1)) != path_text_spec(p) + leaf_suffix(p, LeafContent::LinkedTree(h2)),
{
    let t = path_text_spec(p);
    let i1 = t + leaf_suffix(p, LeafContent::LinkedTree(h1));
    let i2 = t + leaf_suffix(p, LeafContent::LinkedTree(h2));
    assert(h1@.len() == 32);
    assert(h2@.len() == 32);
    assert(i1.subrange(t.len() as int, i1.len() as int) =~= h1@);
    assert(i2.subrange(t.len() as int, i2.len() as int) =~= h2@);
}

/// A query occurs in a text that is the query itself.
proof fn lemma_occurs_in_self(x: Seq<char>)
    ensures
        occurs_in(x, x),
{
    let z: int = 0;
    assert(x.subrange(z, z + x.len()) =~= x);
}

/// A dataset at a position below `n` that matches the query is among those shown.
proof fn lemma_matching_keeps(s: Seq<DatasetMetaDto>, query: Seq<char>, n: int, k: int)
    requires
        0 <= k < n <= s.len(),
        matches_query(s[k], query),
    ensures
        matching(s, query, n).contains(s[k]),
    decreases n,
{
    if k < n - 1 {
        lemma_matching_keeps(s, query, n - 1, k);
        let m = matching(s, query, n - 1);
        let j = choose|j: int| 0 <= j < m.len() && m[j] == s[k];
        if matches_query(s[n - 1], query) {
            assert(m.push(s[n - 1])[j] == s[k]);
        }
    } else {
        let m = matching(s, query, n - 1);
        assert(m.push(s[n - 1])[m.len() as int] == s[k]);
    }
}

/// The number of datasets among the first `n` that a search shows depends on each dataset's
/// name and id only up to letter case: a dataset replaced by one whose name and id are the
/// same in lower case leaves it unchanged.
proof fn lemma_matching_case_blind(s: Seq<DatasetMetaDto>, query: Seq<char>, k: int, d: DatasetMetaDto, n: int)
    requires
        0 <= k < s.len(),
        0 <= n <= s.len(),
        lowercase_of(d.name@) == lowercase_of(s[k].name@),
        lowercase_of(d.id@) == lowercase_of(s[k].id@),
    ensures
        matching(s.update(k, d), query, n).len() == matching(s, query, n).len(),
    decreases n,
{
    if n > 0 {
        lemma_matching_case_blind(s, query, k, d, n - 1);
        assert(matches_query(s.update(k, d)[n - 1], query) == matches_query(s[n - 1], query));
    }
}

/// A search keeps every dataset whose name or id is the query up to letter case (they are
/// the same in lower case), and the letter case of a dataset's name and id never changes
/// how many datasets it shows.
pub proof fn law_search_ignores_letter_case(datasets: Seq<DatasetMetaDto>, query: Seq<char>, k: int, d: DatasetMetaDto)
    requires
        0 <= k < datasets.len(),
    ensures
        lowercase_of(datasets[k].name@) == lowercase_of(query) || lowercase_of(datasets[k].id@) == lowercase_of(query)
            ==> matching(datasets, query, datasets.len() as int).contains(datasets[k]),
        lowercase_of(d.name@) == lowercase_of(datasets[k].name@) && lowercase_of(d.id@) == lowercase_of(datasets[k].id@)
            ==> matching(datasets.update(k, d), query, datasets.len() as int).len() == matching(datasets, query, datasets.len() as int).len(),
{
    if lowercase_of(datasets[k].name@) == lowercase_of(query) || lowercase_of(datasets[k].id@) == lowercase_of(query) {
        lemma_occurs_in_self(lowercase_of(query));
        lemma_matching_keeps(datasets, query, datasets.len() as int, k);
    }
    if lowercase_of(d.name@) == lowercase_of(datasets[k].name@) && lowercase_of(d.id@) == lowercase_of(datasets[k].id@) {
        lemma_matching_case_blind(datasets, query, k, d, datasets.len() as int);
    }
}

/// Every answer of the store at position `j` is in the joined remote listing, tagged with
/// that store's address.
proof fn lemma_remote_metas_member(addrs: Seq<GlobalBackendAddr>, parts: Seq<Seq<MetaData>>, j: int, i: int)
    requires
        parts.len() == addrs.len(),
        0 <= j < addrs.len(),
        0 <= i < parts[j].len(),
    ensures
        remote_metas(addrs, parts).contains((addrs[j]@, parts[j][i]@)),
    decreases addrs.len(),
{
    let n = addrs.len() - 1;
    let front = remote_metas(addrs.drop_last(), parts.drop_last());
    let last = tag_metas(Some(addrs.last()@), parts.last());
    if j == n {
        assert((front + last)[front.len() + i] == last[i]);
    } else {
        assert(addrs.drop_last()[j] == addrs[j] && parts.drop_last()[j] == parts[j]);
        lemma_remote_metas_member(addrs.drop_last(), parts.drop_last(), j, i);
        let y = choose|y: int| 0 <= y < front.len() && front[y] == (addrs[j]@, parts[j][i]@);
        assert((front + last)[y] == front[y]);
    }
}

/// Every referrer answered by the store at position `j` is in the joined remote referrers,
/// tagged with that store's address.
proof fn lemma_remote_ids_member(addrs: Seq<GlobalBackendAddr>, parts: Seq<Seq<String>>, j: int, i: int)
    requires
        parts.len() == addrs.len(),
        0 <= j < addrs.len(),
        0 <= i < parts[j].len(),
    ensures
        remote_ids(addrs, parts).contains((addrs[j]@, parts[j][i]@)),
    decreases addrs.len(),
{
    let n = addrs.len() - 1;
    let front = remote_ids(addrs.drop_last(), parts.drop_last());
    let last = tag_ids(addrs.last()@, parts.last());
    if j == n {
        assert((front + last)[front.len() + i] == last[i]);
    } else {
        assert(addrs.drop_last()[j] == addrs[j] && parts.drop_last()[j] == parts[j]);
        lemma_remote_ids_member(addrs.drop_last(), parts.drop_last(), j, i);
        let y = choose|y: int| 0 <= y < front.len() && front[y] == (addrs[j]@, parts[j][i]@);
        assert((front + last)[y] == front[y]);
    }
}

/// The stacked listing shows every dataset of a reachable local store (one mounted by
/// address among the global stores) that never fails, tagged with that store's address.
pub proof fn law_listing_shows_reachable_store_datasets<B: DatasetBackend>(store: StackedBackend<B>, p: Seq<MetaData>, l: Seq<MetaData>, rp: Seq<Seq<MetaData>>, j: int, b: B, k: Seq<char>)
    requires
        0 <= j < store.reachable_remote_be@.len(),
        store.reachable_remote_be@[j].1 == GlobalBackend::Sqlite(b),
        b.reliable(),
        store.listing_parts(p, l, rp),
        b.contents().contains_key(k),
    ensures
        store.stacked_listing(p, l, rp).contains((store.reachable_remote_be@[j].0@, b.contents()[k])),
{
    let rs = store.reachable_remote_be@;
    assert(global_listing(rs[j].1, rp[j]));
    let i = choose|i: int| 0 <= i < rp[j].len() && rp[j][i]@.spec_id() == k;
    let addrs = addrs_of(rs);
    assert(addrs[j] == rs[j].0);
    lemma_remote_metas_member(addrs, rp, j, i);
    let front = tag_metas(None, p) + (match store.local_global_be {
        Some((a, _)) => tag_metas(Some(a@), l),
        None => Seq::empty(),
    });
    let rm = remote_metas(addrs, rp);
    let y = choose|y: int| 0 <= y < rm.len() && rm[y] == (addrs[j]@, rp[j][i]@);
    assert(store.stacked_listing(p, l, rp)[front.len() + y] == rm[y]);
}

/// The stacked referrer query reports every referrer known to a reachable local store (one
/// mounted by address among the global stores) that never fails, tagged with that store's
/// address.
pub proof fn law_referrers_show_reachable_store_referrers<B: DatasetBackend>(store: StackedBackend<B>, target: Seq<char>, user: Seq<char>, p: Seq<String>, l: Seq<String>, rp: Seq<Seq<String>>, j: int, b: B, x: int)
    requires
        0 <= j < store.reachable_remote_be@.len(),
        store.reachable_remote_be@[j].1 == GlobalBackend::Sqlite(b),
        b.reliable(),
        store.referrer_parts(target, p, l, rp),
        0 <= x < b.referrers(target).len(),
    ensures
        store.referrer_listing(user, p, l, rp).contains((store.reachable_remote_be@[j].0@, b.referrers(target)[x])),
{
    let rs = store.reachable_remote_be@;
    assert(global_referrers(rs[j].1, target, rp[j]));
    assert(strings_view(rp[j])[x] == rp[j][x]@);
    let addrs = addrs_of(rs);
    assert(addrs[j] == rs[j].0);
    lemma_remote_ids_member(addrs, rp, j, x);
    let front = tag_ids(AddrView::Private(user), p) + (match store.local_global_be {
        Some((a, _)) => tag_ids(a@, l),
        None => Seq::empty(),
    });
    let ri = remote_ids(addrs, rp);
    let y = choose|y: int| 0 <= y < ri.len() && ri[y] == (addrs[j]@, rp[j][x]@);
    assert(store.referrer_listing(user, p, l, rp)[front.len() + y] == ri[y]);
}

/// A search shows only datasets of its input, each one whose name or id, in lower case,
/// holds the query in lower case.
pub proof fn law_search_shows_only_matches(datasets: Seq<DatasetMetaDto>, query: Seq<char>, n: int, x: DatasetMetaDto)
    requires
        0 <= n <= datasets.len(),
        matching(datasets, query, n).contains(x),
    ensures
        datasets.contains(x),
        occurs_in(lowercase_of(query), lowercase_of(x.name@)) || occurs_in(lowercase_of(query), lowercase_of(x.id@)),
    decreases n,
{
    let m = matching(datasets, query, n - 1);
    let y = choose|y: int| 0 <= y < matching(datasets, query, n).len() && matching(datasets, query, n)[y] == x;
    if matches_query(datasets[n - 1], query) && y == m.len() {
        assert(x == datasets[n - 1]);
    } else {
        if matches_query(datasets[n - 1], query) {
            assert(m.push(datasets[n - 1])[y] == m[y]);
        }
        assert(m[y] == x);
        law_search_shows_only_matches(datasets, query, n - 1, x);
    }
}

} // verus!
