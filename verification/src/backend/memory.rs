//! An in-memory dataset store.
use crate::assoc::{keys, lemma_lookup_first, lemma_lookup_none, lookup};
use crate::backend::{listing_matches, BackendError, BackendResult, DatasetBackend};
use crate::dataset::{strings_view, DataSetBusyStatus, MetaData, MetaDataView};
use vstd::prelude::*;
use vstd::pervasive::VecAdditionalExecFns;

verus! {

/// A store that keeps each dataset's metadata in memory, at most one entry per id.
pub struct MemoryBackend {
    items: Vec<MetaData>,
}

/// The stored entries, keyed by dataset id.
pub open spec fn entries(items: Seq<MetaData>) -> Seq<(Seq<char>, MetaDataView)> {
    items.map_values(|m: MetaData| (m@.spec_id(), m@))
}

/// No two entries share an id.
pub open spec fn distinct_ids(items: Seq<MetaData>) -> bool {
    forall|i: int, j: int| 0 <= i < j < items.len() ==> items[i]@.spec_id() != items[j]@.spec_id()
}

/// The ids, in order, of the entries that list `target` among their dependencies.
pub open spec fn referrers_of(items: Seq<MetaData>, target: Seq<char>) -> Seq<Seq<char>>
    decreases items.len(),
{
    if items.len() == 0 {
        Seq::empty()
    } else {
        let rest = referrers_of(items.drop_last(), target);
        if items.last()@.dependencies.contains(target) {
            rest.push(items.last()@.spec_id())
        } else {
            rest
        }
    }
}

/// An id is a referrer of `target` exactly when some entry under that id lists `target`.
proof fn lemma_referrers_of_members(items: Seq<MetaData>, target: Seq<char>, k: Seq<char>)
    ensures
        referrers_of(items, target).contains(k) <==> exists|i: int| 0 <= i < items.len() && #[trigger] items[i]@.spec_id() == k && items[i]@.dependencies.contains(target),
    decreases items.len(),
{
    if items.len() > 0 {
        let d = items.drop_last();
        let rest = referrers_of(d, target);
        lemma_referrers_of_members(d, target, k);
        if referrers_of(items, target).contains(k) {
            if rest.contains(k) {
                let i = choose|i: int| 0 <= i < d.len() && #[trigger] d[i]@.spec_id() == k && d[i]@.dependencies.contains(target);
                assert(items[i] == d[i]);
            } else {
                let n = items.len() - 1;
                let r = referrers_of(items, target);
                let y = choose|y: int| 0 <= y < r.len() && r[y] == k;
                assert(items.last()@.dependencies.contains(target));
                assert(y == rest.len());
                assert(items[n]@.spec_id() == k);
            }
        }
        if exists|i: int| 0 <= i < items.len() && #[trigger] items[i]@.spec_id() == k && items[i]@.dependencies.contains(target) {
            let i = choose|i: int| 0 <= i < items.len() && #[trigger] items[i]@.spec_id() == k && items[i]@.dependencies.contains(target);
            if i < items.len() - 1 {
                assert(d[i] == items[i]);
                assert(rest.contains(k));
                if items.last()@.dependencies.contains(target) {
                    let y = choose|y: int| 0 <= y < rest.len() && rest[y] == k;
                    assert(rest.push(items.last()@.spec_id())[y] == k);
                }
            } else {
                assert(referrers_of(items, target) == rest.push(k));
                assert(rest.push(k)[rest.len() as int] == k);
            }
        }
    }
}

/// With distinct ids, each referrer is listed once.
proof fn lemma_referrers_of_unique(items: Seq<MetaData>, target: Seq<char>)
    requires
        distinct_ids(items),
    ensures
        referrers_of(items, target).no_duplicates(),
    decreases items.len(),
{
    if items.len() > 0 {
        let d = items.drop_last();
        assert(distinct_ids(d));
        lemma_referrers_of_unique(d, target);
        let last = items.last()@.spec_id();
        lemma_referrers_of_members(d, target, last);
        if referrers_of(d, target).contains(last) {
            let i = choose|i: int| 0 <= i < d.len() && #[trigger] d[i]@.spec_id() == last && d[i]@.dependencies.contains(target);
            assert(items[i]@.spec_id() != items[items.len() - 1]@.spec_id());
        }
    }
}

/// With distinct ids, the referrers of `target` are exactly the stored datasets that list it.
proof fn lemma_referrers_match(items: Seq<MetaData>, target: Seq<char>)
    requires
        distinct_ids(items),
    ensures
        referrers_of(items, target).no_duplicates(),
        forall|k: Seq<char>| #[trigger] referrers_of(items, target).contains(k) <==> (as_map(items).contains_key(k) && as_map(items)[k].dependencies.contains(target)),
{
    lemma_referrers_of_unique(items, target);
    assert forall|k: Seq<char>| #[trigger] referrers_of(items, target).contains(k) <==> (as_map(items).contains_key(k) && as_map(items)[k].dependencies.contains(target)) by {
        lemma_referrers_of_members(items, target, k);
        if referrers_of(items, target).contains(k) {
            let i = choose|i: int| 0 <= i < items.len() && #[trigger] items[i]@.spec_id() == k && items[i]@.dependencies.contains(target);
            lemma_find(items, i);
        }
        if as_map(items).contains_key(k) {
            let e = entries(items);
            let j = choose|j: int| 0 <= j < keys(e).len() && keys(e)[j] == k;
            assert(items[j]@.spec_id() == k);
            lemma_find(items, j);
        }
    }
}

/// The map an association list of distinct keys stands for.
pub open spec fn as_map(items: Seq<MetaData>) -> Map<Seq<char>, MetaDataView> {
    Map::new(|k: Seq<char>| keys(entries(items)).contains(k), |k: Seq<char>| lookup(entries(items), k).unwrap())
}

proof fn lemma_find(items: Seq<MetaData>, i: int)
    requires
        distinct_ids(items),
        0 <= i < items.len(),
    ensures
        as_map(items).contains_key(items[i]@.spec_id()),
        as_map(items)[items[i]@.spec_id()] == items[i]@,
{
    let e = entries(items);
    let k = items[i]@.spec_id();
    assert(e[i].0 == k);
    assert forall|j: int| 0 <= j < i implies e[j].0 != k by {
        assert(e[j].0 == items[j]@.spec_id());
    }
    lemma_lookup_first(e, i, k);
    assert(keys(e)[i] == k);
}

proof fn lemma_absent(items: Seq<MetaData>, k: Seq<char>)
    requires
        forall|j: int| 0 <= j < items.len() ==> items[j]@.spec_id() != k,
    ensures
        !as_map(items).contains_key(k),
{
    let e = entries(items);
    if keys(e).contains(k) {
        let j = choose|j: int| 0 <= j < keys(e).len() && keys(e)[j] == k;
        assert(items[j]@.spec_id() == k);
    }
}

/// Two distinct-key lists with the same entries by id stand for the same map.
proof fn lemma_same_map(a: Seq<MetaData>, b: Seq<MetaData>, m: Map<Seq<char>, MetaDataView>)
    requires
        distinct_ids(b),
        forall|i: int| 0 <= i < b.len() ==> m.contains_key(#[trigger] b[i]@.spec_id()) && m[b[i]@.spec_id()] == b[i]@,
        forall|k: Seq<char>| #[trigger] m.contains_key(k) ==> exists|i: int| 0 <= i < b.len() && b[i]@.spec_id() == k,
    ensures
        as_map(b) == m,
{
    assert forall|k: Seq<char>| #[trigger] as_map(b).contains_key(k) <==> m.contains_key(k) by {
        if m.contains_key(k) {
            let i = choose|i: int| 0 <= i < b.len() && b[i]@.spec_id() == k;
            lemma_find(b, i);
        }
        if as_map(b).contains_key(k) {
            if !m.contains_key(k) {
                lemma_absent(b, k);
            }
        }
    }
    assert forall|k: Seq<char>| #[trigger] as_map(b).contains_key(k) implies as_map(b)[k] == m[k] by {
        let i = choose|i: int| 0 <= i < b.len() && b[i]@.spec_id() == k;
        lemma_find(b, i);
    }
    assert(as_map(b) =~= m);
}

impl MemoryBackend {
    #[verifier::type_invariant]
    spec fn inv(self) -> bool {
        distinct_ids(self.items@)
    }

    pub closed spec fn stored(self) -> Seq<MetaData> {
        self.items@
    }

    /// An empty store.
    pub fn new() -> (r: Self)
        ensures
            r.contents() == Map::<Seq<char>, MetaDataView>::empty(),
    {
        let r = MemoryBackend { items: Vec::new() };
        assert(as_map(r.items@) =~= Map::<Seq<char>, MetaDataView>::empty()) by {
            assert forall|k: Seq<char>| !as_map(r.items@).contains_key(k) by {
                lemma_absent(r.items@, k);
            }
        }
        r
    }

    /// The index of the entry with the given id.
    fn find(items: &Vec<MetaData>, id: &str) -> (r: Option<usize>)
        ensures
            match r {
                Some(i) => i < items@.len() && items@[i as int]@.spec_id() == id@,
                None => forall|j: int| 0 <= j < items@.len() ==> items@[j]@.spec_id() != id@,
            },
    {
        let mut i: usize = 0;
        while i < items.len()
            invariant
                i <= items@.len(),
                forall|j: int| 0 <= j < i ==> items@[j]@.spec_id() != id@,
            decreases items@.len() - i,
        {
            let k = items[i].id();
            if crate::text::str_eq(k.as_str(), id) {
                return Some(i);
            }
            i = i + 1;
        }
        None
    }
}

impl DatasetBackend for MemoryBackend {
    open spec fn contents(&self) -> Map<Seq<char>, MetaDataView> {
        as_map(self.stored())
    }

    open spec fn referrers(&self, target: Seq<char>) -> Seq<Seq<char>> {
        referrers_of(self.stored(), target)
    }

    open spec fn reliable(&self) -> bool {
        true
    }

    proof fn lemma_keys_are_ids(&self) {
        let e = entries(self.stored());
        assert forall|k: Seq<char>| #[trigger] self.contents().contains_key(k) implies self.contents()[k].spec_id() == k by {
            crate::assoc::lemma_lookup_some(e, k);
            let i = choose|i: int| 0 <= i < e.len() && e[i].0 == k && lookup(e, k) == Some(e[i].1) && forall|j: int| 0 <= j < i ==> e[j].0 != k;
            assert(e[i] == (self.stored()[i]@.spec_id(), self.stored()[i]@));
        }
    }

    proof fn lemma_contents_finite(&self) {
        let ks = keys(entries(self.stored()));
        assert(as_map(self.stored()).dom() =~= ks.to_set());
        vstd::seq_lib::seq_to_set_is_finite(ks);
    }

    fn get_metadata(&self, id: &str) -> (r: BackendResult<MetaData>)
        ensures
            r is Ok <==> self.contents().contains_key(id@),
            r matches Err(e) ==> (e matches BackendError::DatasetNotFound { id: i } && i@ == id@),
    {
        proof {
            use_type_invariant(self);
        }
        match Self::find(&self.items, id) {
            Some(i) => {
                proof {
                    lemma_find(self.items@, i as int);
                }
                Ok(self.items[i].clone())
            },
            None => {
                proof {
                    lemma_absent(self.items@, id@);
                }
                Err(BackendError::DatasetNotFound { id: <String as vstd::string::StringExecFns>::from_str(id) })
            },
        }
    }

    fn mark_status(&mut self, id: &str, status: DataSetBusyStatus) -> (r: BackendResult<()>)
        ensures
            r is Ok <==> old(self).contents().contains_key(id@),
            r matches Err(e) ==> (e matches BackendError::DatasetNotFound { id: i } && i@ == id@),
    {
        proof {
            use_type_invariant(&*self);
        }
        let mut items: Vec<MetaData> = Vec::new();
        std::mem::swap(&mut items, &mut self.items);
        let ghost old_items = items@;
        match Self::find(&items, id) {
            Some(i) => {
                proof {
                    lemma_find(old_items, i as int);
                }
                let mut m = items[i].clone();
                m.busy_status = status;
                items.set(i, m);
                proof {
                    let newv = MetaDataView { busy_status: status, ..old_items[i as int]@ };
                    let target = as_map(old_items).insert(id@, newv);
                    assert forall|p: int, q: int| 0 <= p < q < items@.len() implies items@[p]@.spec_id() != items@[q]@.spec_id() by {
                        assert(old_items[p]@.spec_id() != old_items[q]@.spec_id());
                    }
                    assert forall|j: int| 0 <= j < items@.len() implies target.contains_key(#[trigger] items@[j]@.spec_id()) && target[items@[j]@.spec_id()] == items@[j]@ by {
                        if j != i {
                            lemma_find(old_items, j);
                        }
                    }
                    assert forall|k: Seq<char>| #[trigger] target.contains_key(k) implies exists|j: int| 0 <= j < items@.len() && items@[j]@.spec_id() == k by {
                        if k != id@ {
                            let e = entries(old_items);
                            let j = choose|j: int| 0 <= j < keys(e).len() && keys(e)[j] == k;
                            assert(items@[j]@.spec_id() == k);
                        } else {
                            assert(items@[i as int]@.spec_id() == k);
                        }
                    }
                    lemma_same_map(old_items, items@, target);
                }
                self.items = items;
                Ok(())
            },
            None => {
                proof {
                    lemma_absent(old_items, id@);
                }
                self.items = items;
                Err(BackendError::DatasetNotFound { id: <String as vstd::string::StringExecFns>::from_str(id) })
            },
        }
    }

    fn save_metadata(&mut self, metadata: &MetaData) -> (r: BackendResult<()>)
        ensures
            r is Ok,
    {
        proof {
            use_type_invariant(&*self);
        }
        let mut items: Vec<MetaData> = Vec::new();
        std::mem::swap(&mut items, &mut self.items);
        let ghost old_items = items@;
        let id = metadata.id();
        let ghost target = as_map(old_items).insert(metadata@.spec_id(), metadata@);
        match Self::find(&items, id.as_str()) {
            Some(i) => {
                proof {
                    lemma_find(old_items, i as int);
                }
                items.set(i, metadata.clone());
                proof {
                    assert forall|p: int, q: int| 0 <= p < q < items@.len() implies items@[p]@.spec_id() != items@[q]@.spec_id() by {
                        assert(old_items[p]@.spec_id() != old_items[q]@.spec_id());
                    }
                    assert forall|j: int| 0 <= j < items@.len() implies target.contains_key(#[trigger] items@[j]@.spec_id()) && target[items@[j]@.spec_id()] == items@[j]@ by {
                        if j != i {
                            lemma_find(old_items, j);
                        }
                    }
                    assert forall|k: Seq<char>| #[trigger] target.contains_key(k) implies exists|j: int| 0 <= j < items@.len() && items@[j]@.spec_id() == k by {
                        if k != metadata@.spec_id() {
                            let e = entries(old_items);
                            let j = choose|j: int| 0 <= j < keys(e).len() && keys(e)[j] == k;
                            assert(items@[j]@.spec_id() == k);
                        } else {
                            assert(items@[i as int]@.spec_id() == k);
                        }
                    }
                    lemma_same_map(old_items, items@, target);
                }
            },
            None => {
                items.push(metadata.clone());
                proof {
                    let n = old_items.len() as int;
                    assert forall|p: int, q: int| 0 <= p < q < items@.len() implies items@[p]@.spec_id() != items@[q]@.spec_id() by {
                        if q < n {
                            assert(old_items[p]@.spec_id() != old_items[q]@.spec_id());
                        } else {
                            assert(items@[p] == old_items[p]);
                        }
                    }
                    assert forall|j: int| 0 <= j < items@.len() implies target.contains_key(#[trigger] items@[j]@.spec_id()) && target[items@[j]@.spec_id()] == items@[j]@ by {
                        if j < n {
                            assert(items@[j] == old_items[j]);
                            lemma_find(old_items, j);
                        }
                    }
                    assert forall|k: Seq<char>| #[trigger] target.contains_key(k) implies exists|j: int| 0 <= j < items@.len() && items@[j]@.spec_id() == k by {
                        if k != metadata@.spec_id() {
                            let e = entries(old_items);
                            let j = choose|j: int| 0 <= j < keys(e).len() && keys(e)[j] == k;
                            assert(items@[j] == old_items[j]);
                            assert(items@[j]@.spec_id() == k);
                        } else {
                            assert(items@[n]@.spec_id() == k);
                        }
                    }
                    lemma_same_map(old_items, items@, target);
                }
            },
        }
        self.items = items;
        Ok(())
    }

    fn check_is_referenced(&self, target_id: &str) -> (r: BackendResult<Vec<String>>)
        ensures
            r is Ok,
    {
        proof {
            use_type_invariant(self);
            lemma_referrers_match(self.items@, target_id@);
        }
        let mut out: Vec<String> = Vec::new();
        let mut i: usize = 0;
        while i < self.items.len()
            invariant
                i <= self.items@.len(),
                strings_view(out@) == referrers_of(self.items@.subrange(0, i as int), target_id@),
            decreases self.items@.len() - i,
        {
            let m = &self.items[i];
            let target = <String as vstd::string::StringExecFns>::from_str(target_id);
            let hit = crate::assoc::contains_string(&m.dependencies, &target);
            proof {
                let pre = self.items@.subrange(0, i as int);
                let post = self.items@.subrange(0, i + 1);
                assert(post.drop_last() =~= pre);
                assert(post.last() == self.items@[i as int]);
            }
            if hit {
                let id = m.id();
                out.push(id);
                assert(strings_view(out@) =~= referrers_of(self.items@.subrange(0, i + 1), target_id@));
            }
            i = i + 1;
        }
        assert(self.items@.subrange(0, self.items@.len() as int) =~= self.items@);
        Ok(out)
    }

    fn list_all_metadata(&self) -> (r: BackendResult<Vec<MetaData>>)
        ensures
            r is Ok,
    {
        proof {
            use_type_invariant(self);
        }
        let mut out: Vec<MetaData> = Vec::new();
        let mut i: usize = 0;
        while i < self.items.len()
            invariant
                distinct_ids(self.items@),
                i <= self.items@.len(),
                out@.len() == i,
                forall|j: int| 0 <= j < i ==> out@[j]@ == #[trigger] self.items@[j]@,
            decreases self.items@.len() - i,
        {
            out.push(self.items[i].clone());
            i = i + 1;
        }
        proof {
            let items = self.items@;
            assert forall|j: int| 0 <= j < out@.len() implies as_map(items).contains_key(#[trigger] out@[j]@.spec_id()) && as_map(items)[out@[j]@.spec_id()] == out@[j]@ by {
                assert(out@[j]@ == items[j]@);
                lemma_find(items, j);
            }
            assert forall|k: Seq<char>| #[trigger] as_map(items).contains_key(k) implies exists|j: int| 0 <= j < out@.len() && out@[j]@.spec_id() == k by {
                let e = entries(items);
                let j = choose|j: int| 0 <= j < keys(e).len() && keys(e)[j] == k;
                assert(out@[j]@ == items[j]@);
            }
            assert forall|p: int, q: int| 0 <= p < q < out@.len() implies out@[p]@.spec_id() != out@[q]@.spec_id() by {
                assert(out@[p]@ == items[p]@);
                assert(out@[q]@ == items[q]@);
            }
        }
        Ok(out)
    }

    fn delete_metadata(&mut self, id: &str) -> (r: BackendResult<()>)
        ensures
            r is Ok <==> old(self).contents().contains_key(id@),
            r matches Err(e) ==> (e matches BackendError::DatasetNotFound { id: i } && i@ == id@),
    {
        proof {
            use_type_invariant(&*self);
        }
        let mut items: Vec<MetaData> = Vec::new();
        std::mem::swap(&mut items, &mut self.items);
        let ghost old_items = items@;
        match Self::find(&items, id) {
            Some(i) => {
                proof {
                    lemma_find(old_items, i as int);
                }
                let _removed = items.remove(i);
                proof {
                    let target = as_map(old_items).remove(id@);
                    assert forall|j: int| 0 <= j < items@.len() implies #[trigger] items@[j] == if j < i { old_items[j] } else { old_items[j + 1] } by {}
                    assert forall|p: int, q: int| 0 <= p < q < items@.len() implies items@[p]@.spec_id() != items@[q]@.spec_id() by {
                        let pp = if p < i { p } else { p + 1 };
                        let qq = if q < i { q } else { q + 1 };
                        assert(old_items[pp]@.spec_id() != old_items[qq]@.spec_id());
                    }
                    assert forall|j: int| 0 <= j < items@.len() implies target.contains_key(#[trigger] items@[j]@.spec_id()) && target[items@[j]@.spec_id()] == items@[j]@ by {
                        let jj = if j < i { j } else { j + 1 };
                        lemma_find(old_items, jj);
                        assert(old_items[jj]@.spec_id() != old_items[i as int]@.spec_id());
                    }
                    assert forall|k: Seq<char>| #[trigger] target.contains_key(k) implies exists|j: int| 0 <= j < items@.len() && items@[j]@.spec_id() == k by {
                        let e = entries(old_items);
                        let j = choose|j: int| 0 <= j < keys(e).len() && keys(e)[j] == k;
                        assert(old_items[j]@.spec_id() == k);
                        assert(j != i);
                        if j < i {
                            assert(items@[j] == old_items[j]);
                        } else {
                            assert(items@[j - 1] == old_items[j]);
                        }
                    }
                    lemma_same_map(old_items, items@, target);
                }
                self.items = items;
                Ok(())
            },
            None => {
                proof {
                    lemma_absent(old_items, id@);
                }
                self.items = items;
                Err(BackendError::DatasetNotFound { id: <String as vstd::string::StringExecFns>::from_str(id) })
            },
        }
    }
}

} // verus!
