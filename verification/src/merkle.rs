//! The content hash of a directory tree: leaves are hashed from their content, each
//! directory from its children, sorted by name, and the root from the whole tree.
use crate::utils::HashRes;
use vstd::prelude::*;
use vstd::relations::{sorted_by, total_ordering};

verus! {

/// What a walked entry is.
#[derive(Debug, Clone, Copy, PartialEq, Eq, Structural)]
pub enum EntryKind {
    File,
    Dir,
    Symlink,
    Other,
}

/// One entry of a walked tree: its path relative to the root, as path components (the
/// root itself has none), its kind, and its hash.
pub struct FileEntry {
    pub rel_path: Vec<Vec<u8>>,
    pub kind: EntryKind,
    pub hash: HashRes,
}

/// A walked tree: where it is, and its entries.
pub struct FileMerkleTree {
    pub root_path: String,
    pub entries: Vec<FileEntry>,
}

/// What `blake3::hash` returns for `data`.
pub uninterp spec fn blake3_digest(data: Seq<u8>) -> Seq<u8>;

/// `blake3::hash`: the BLAKE3 digest of `data`, named by `blake3_digest`.
#[verifier::external_body]
fn blake3_hash(data: &[u8]) -> (r: HashRes)
    ensures
        r@ == blake3_digest(data@),
{
    *blake3::hash(data).as_bytes()
}

/// The path of an entry, over views.
pub open spec fn path_of(e: FileEntry) -> Seq<Seq<u8>> {
    e.rel_path@.map_values(|c: Vec<u8>| c@)
}

pub open spec fn is_dir(e: FileEntry) -> bool {
    e.kind == EntryKind::Dir
}

/// `q` is the path of a direct child of `p`.
pub open spec fn is_child_path(p: Seq<Seq<u8>>, q: Seq<Seq<u8>>) -> bool {
    q.len() == p.len() + 1 && q.drop_last() == p
}

/// Lexicographic order on byte strings.
pub open spec fn bytes_le(a: Seq<u8>, b: Seq<u8>) -> bool
    decreases a.len(),
{
    if a.len() == 0 {
        true
    } else if b.len() == 0 {
        false
    } else if a[0] < b[0] {
        true
    } else if a[0] > b[0] {
        false
    } else {
        bytes_le(a.drop_first(), b.drop_first())
    }
}

/// What a directory records of a child: its name, whether it is a directory, its hash.
pub type ChildRecord = (Seq<u8>, bool, Seq<u8>);

/// Children are ordered by name (ties, which distinct paths never have, by the rest).
pub open spec fn record_le(a: ChildRecord, b: ChildRecord) -> bool {
    if a.0 != b.0 {
        bytes_le(a.0, b.0)
    } else if a.1 != b.1 {
        !a.1
    } else {
        bytes_le(a.2, b.2)
    }
}

pub open spec fn record_order() -> spec_fn(ChildRecord, ChildRecord) -> bool {
    |a: ChildRecord, b: ChildRecord| record_le(a, b)
}

/// The bytes a child contributes to its directory's hash: name, hash, then 1 for a
/// directory and 0 otherwise.
pub open spec fn record_bytes(r: ChildRecord) -> Seq<u8> {
    r.0 + r.2 + seq![if r.1 { 1u8 } else { 0u8 }]
}

pub open spec fn concat_records(rs: Seq<ChildRecord>) -> Seq<u8>
    decreases rs.len(),
{
    if rs.len() == 0 {
        Seq::empty()
    } else {
        concat_records(rs.drop_last()) + record_bytes(rs.last())
    }
}

/// The hash of a directory with the given children: the digest of their records, by name.
pub open spec fn combine(rs: Seq<ChildRecord>) -> Seq<u8> {
    blake3_digest(concat_records(rs.sort_by(record_order())))
}

/// The records of the children of `p` among the first `n` entries, in entry order; a
/// directory child carries its own directory hash, any other child its stored hash.
/// Entries deeper than `bound` are left out.
pub open spec fn child_records(es: Seq<FileEntry>, p: Seq<Seq<u8>>, bound: int, n: int) -> Seq<ChildRecord>
    decreases bound - p.len(), n,
{
    if n <= 0 || n > es.len() {
        Seq::empty()
    } else {
        let rest = child_records(es, p, bound, n - 1);
        let c = es[n - 1];
        if is_child_path(p, path_of(c)) && path_of(c).len() <= bound {
            rest.push((path_of(c).last(), is_dir(c), if is_dir(c) {
                dir_hash(es, path_of(c), bound)
            } else {
                c.hash@
            }))
        } else {
            rest
        }
    }
}

/// The hash of the directory at `p`, from its children among `es`.
pub open spec fn dir_hash(es: Seq<FileEntry>, p: Seq<Seq<u8>>, bound: int) -> Seq<u8>
    decreases bound - p.len(), es.len() + 1,
{
    combine(child_records(es, p, bound, es.len() as int))
}

/// The greatest path length among the first `n` entries.
pub open spec fn max_depth(es: Seq<FileEntry>, n: int) -> int
    decreases n,
{
    if n <= 0 || n > es.len() {
        0
    } else {
        let m = max_depth(es, n - 1);
        if es[n - 1].rel_path@.len() > m {
            es[n - 1].rel_path@.len() as int
        } else {
            m
        }
    }
}

pub open spec fn zero_hash() -> Seq<u8> {
    Seq::new(32, |i: int| 0u8)
}

/// The bytes of `empty_tree`.
pub open spec fn empty_tree_tag() -> Seq<u8> {
    seq![101u8, 109u8, 112u8, 116u8, 121u8, 95u8, 116u8, 114u8, 101u8, 101u8]
}

/// No two entries share a path.
pub open spec fn distinct_paths(es: Seq<FileEntry>) -> bool {
    forall|i: int, j: int| 0 <= i < j < es.len() ==> path_of(es[i]) != path_of(es[j])
}

/// Deeper entries come first.
pub open spec fn depth_desc(es: Seq<FileEntry>) -> bool {
    forall|i: int, j: int| 0 <= i < j < es.len() ==> es[i].rel_path@.len() >= es[j].rel_path@.len()
}

pub open spec fn has_root(es: Seq<FileEntry>) -> bool {
    exists|i: int| 0 <= i < es.len() && es[i].rel_path@.len() == 0
}

/// The index of the root entry (the entry with an empty path), when there is one.
pub open spec fn root_index(es: Seq<FileEntry>) -> int {
    choose|i: int| 0 <= i < es.len() && es[i].rel_path@.len() == 0
}

pub open spec fn root_is_dir(es: Seq<FileEntry>) -> bool {
    has_root(es) && is_dir(es[root_index(es)])
}

/// The root entry's hash (a directory's from its children), or all zeros without a root.
pub open spec fn root_candidate(es: Seq<FileEntry>) -> Seq<u8> {
    if !has_root(es) {
        zero_hash()
    } else if root_is_dir(es) {
        dir_hash(es, Seq::empty(), max_depth(es, es.len() as int))
    } else {
        es[root_index(es)].hash@
    }
}

/// The root hash of a tree: the root entry's hash (a directory's from its children); when
/// there is no root entry, or its hash is all zeros, the hash of the top-level children
/// (none, for a root directory whose hash was all zeros).
pub open spec fn tree_hash(es: Seq<FileEntry>) -> Seq<u8> {
    if es.len() == 0 {
        blake3_digest(empty_tree_tag())
    } else if root_candidate(es) == zero_hash() {
        combine(if root_is_dir(es) {
            Seq::empty()
        } else {
            child_records(es, Seq::empty(), max_depth(es, es.len() as int), es.len() as int)
        })
    } else {
        root_candidate(es)
    }
}

proof fn lemma_bytes_le_refl(a: Seq<u8>)
    ensures
        bytes_le(a, a),
    decreases a.len(),
{
    if a.len() > 0 {
        lemma_bytes_le_refl(a.drop_first());
    }
}

proof fn lemma_bytes_le_antisym(a: Seq<u8>, b: Seq<u8>)
    requires
        bytes_le(a, b),
        bytes_le(b, a),
    ensures
        a == b,
    decreases a.len(),
{
    if a.len() > 0 && b.len() > 0 {
        lemma_bytes_le_antisym(a.drop_first(), b.drop_first());
        assert(a =~= seq![a[0]] + a.drop_first());
        assert(b =~= seq![b[0]] + b.drop_first());
    }
}

proof fn lemma_bytes_le_trans(a: Seq<u8>, b: Seq<u8>, c: Seq<u8>)
    requires
        bytes_le(a, b),
        bytes_le(b, c),
    ensures
        bytes_le(a, c),
    decreases a.len(),
{
    if a.len() > 0 && b.len() > 0 && c.len() > 0 {
        if a[0] == b[0] && b[0] == c[0] {
            lemma_bytes_le_trans(a.drop_first(), b.drop_first(), c.drop_first());
        }
    }
}

proof fn lemma_bytes_le_total(a: Seq<u8>, b: Seq<u8>)
    ensures
        bytes_le(a, b) || bytes_le(b, a),
    decreases a.len(),
{
    if a.len() > 0 && b.len() > 0 {
        lemma_bytes_le_total(a.drop_first(), b.drop_first());
    }
}

/// Children records are totally ordered.
proof fn lemma_record_order_total()
    ensures
        total_ordering(record_order()),
{
    let f = record_order();
    assert forall|x: ChildRecord| #[trigger] f(x, x) by {
        lemma_bytes_le_refl(x.2);
    }
    assert forall|x: ChildRecord, y: ChildRecord| #[trigger] f(x, y) && #[trigger] f(y, x) implies x == y by {
        if x.0 != y.0 {
            lemma_bytes_le_antisym(x.0, y.0);
        } else if x.1 == y.1 {
            lemma_bytes_le_antisym(x.2, y.2);
        }
    }
    assert forall|x: ChildRecord, y: ChildRecord, z: ChildRecord| #[trigger] f(x, y) && #[trigger] f(y, z) implies f(x, z) by {
        if x.0 != y.0 && y.0 != z.0 {
            lemma_bytes_le_trans(x.0, y.0, z.0);
            if x.0 == z.0 {
                lemma_bytes_le_antisym(x.0, y.0);
            }
        } else if x.0 == y.0 && y.0 == z.0 && x.1 == y.1 && y.1 == z.1 {
            lemma_bytes_le_trans(x.2, y.2, z.2);
        }
    }
    assert forall|x: ChildRecord, y: ChildRecord| #[trigger] f(x, y) || #[trigger] f(y, x) by {
        lemma_bytes_le_total(x.0, y.0);
        lemma_bytes_le_total(x.2, y.2);
    }
}

/// Inserting into a sequence inserts into its multiset.
proof fn lemma_ms_insert<A>(s: Seq<A>, k: int, x: A)
    requires
        0 <= k <= s.len(),
    ensures
        s.insert(k, x).to_multiset() =~= s.to_multiset().insert(x),
{
    broadcast use vstd::seq_lib::group_to_multiset_ensures, vstd::multiset::group_multiset_axioms;
    let t = s.insert(k, x);
    assert(t.remove(k) =~= s);
    assert(t[k] == x);
    assert(t.contains(x));
}

/// Removing the first element of a sequence removes it from its multiset.
proof fn lemma_ms_remove_first<A>(s: Seq<A>)
    requires
        s.len() > 0,
    ensures
        s.remove(0).to_multiset() =~= s.to_multiset().remove(s[0]),
        s.to_multiset() =~= s.remove(0).to_multiset().insert(s[0]),
{
    broadcast use vstd::seq_lib::group_to_multiset_ensures, vstd::multiset::group_multiset_axioms;
    assert(s.contains(s[0]));
}

/// The components of a path, over views.
pub open spec fn comps_view(v: Seq<Vec<u8>>) -> Seq<Seq<u8>> {
    v.map_values(|c: Vec<u8>| c@)
}

/// A child record, over views.
pub open spec fn rec_view(r: (Vec<u8>, bool, HashRes)) -> ChildRecord {
    (r.0@, r.1, r.2@)
}

pub open spec fn recs_view(v: Seq<(Vec<u8>, bool, HashRes)>) -> Seq<ChildRecord> {
    v.map_values(|r: (Vec<u8>, bool, HashRes)| rec_view(r))
}

/// Lexicographic comparison of byte strings.
fn bytes_le_exec(a: &Vec<u8>, b: &Vec<u8>) -> (r: bool)
    ensures
        r == bytes_le(a@, b@),
{
    let mut i: usize = 0;
    assert(a@.subrange(0, a@.len() as int) =~= a@);
    assert(b@.subrange(0, b@.len() as int) =~= b@);
    while i < a.len() && i < b.len() && a[i] == b[i]
        invariant
            i <= a@.len(),
            i <= b@.len(),
            bytes_le(a@, b@) == bytes_le(a@.subrange(i as int, a@.len() as int), b@.subrange(i as int, b@.len() as int)),
        decreases a@.len() - i,
    {
        proof {
            let sa = a@.subrange(i as int, a@.len() as int);
            let sb = b@.subrange(i as int, b@.len() as int);
            assert(sa.drop_first() =~= a@.subrange(i + 1, a@.len() as int));
            assert(sb.drop_first() =~= b@.subrange(i + 1, b@.len() as int));
        }
        i = i + 1;
    }
    if i == a.len() {
        true
    } else if i == b.len() {
        false
    } else {
        a[i] < b[i]
    }
}

/// Equality of byte strings.
fn bytes_eq(a: &Vec<u8>, b: &Vec<u8>) -> (r: bool)
    ensures
        r == (a@ == b@),
{
    if a.len() != b.len() {
        return false;
    }
    let mut i: usize = 0;
    while i < a.len()
        invariant
            a@.len() == b@.len(),
            i <= a@.len(),
            forall|k: int| 0 <= k < i ==> a@[k] == b@[k],
        decreases a@.len() - i,
    {
        if a[i] != b[i] {
            return false;
        }
        i = i + 1;
    }
    assert(a@ =~= b@);
    true
}

/// `q` is the path of a direct child of `p`.
fn is_child_exec(p: &Vec<Vec<u8>>, q: &Vec<Vec<u8>>) -> (r: bool)
    ensures
        r == is_child_path(comps_view(p@), comps_view(q@)),
{
    if q.len() == 0 || q.len() - 1 != p.len() {
        return false;
    }
    let mut i: usize = 0;
    while i < p.len()
        invariant
            q@.len() == p@.len() + 1,
            i <= p@.len(),
            forall|k: int| 0 <= k < i ==> q@[k]@ == p@[k]@,
        decreases p@.len() - i,
    {
        if !bytes_eq(&p[i], &q[i]) {
            assert(comps_view(q@).drop_last()[i as int] != comps_view(p@)[i as int]);
            return false;
        }
        i = i + 1;
    }
    assert(comps_view(q@).drop_last() =~= comps_view(p@));
    true
}

/// Sorts children records by name.
fn sort_records(v: Vec<(Vec<u8>, bool, HashRes)>) -> (r: Vec<(Vec<u8>, bool, HashRes)>)
    ensures
        recs_view(r@).to_multiset() == recs_view(v@).to_multiset(),
        forall|i: int, j: int| 0 <= i < j < r@.len() ==> bytes_le(r@[i].0@, r@[j].0@),
{
    let ghost g0 = recs_view(v@);
    let mut input = v;
    let mut out: Vec<(Vec<u8>, bool, HashRes)> = Vec::new();
    proof {
        assert(recs_view(out@) =~= Seq::<ChildRecord>::empty());
        assert(recs_view(out@).to_multiset() =~= vstd::multiset::Multiset::empty()) by {
            broadcast use vstd::seq_lib::group_to_multiset_ensures;
        }
    }
    while input.len() > 0
        invariant
            recs_view(out@).to_multiset().add(recs_view(input@).to_multiset()) == g0.to_multiset(),
            forall|i: int, j: int| 0 <= i < j < out@.len() ==> bytes_le(out@[i].0@, out@[j].0@),
        decreases input@.len(),
    {
        let ghost gin = recs_view(input@);
        let ghost gout = recs_view(out@);
        let x = input.remove(0);
        proof {
            assert(recs_view(input@) =~= gin.remove(0));
            lemma_ms_remove_first(gin);
        }
        let mut k: usize = 0;
        while k < out.len() && bytes_le_exec(&out[k].0, &x.0)
            invariant
                k <= out@.len(),
                forall|m: int| 0 <= m < k ==> bytes_le(out@[m].0@, x.0@),
            decreases out@.len() - k,
        {
            k = k + 1;
        }
        proof {
            if k < out@.len() {
                lemma_bytes_le_total(out@[k as int].0@, x.0@);
                assert forall|m: int| k <= m < out@.len() implies bytes_le(x.0@, out@[m].0@) by {
                    if m > k {
                        lemma_bytes_le_trans(x.0@, out@[k as int].0@, out@[m].0@);
                    }
                }
            }
        }
        let ghost pre = out@;
        out.insert(k, x);
        proof {
            assert(recs_view(out@) =~= gout.insert(k as int, rec_view(x)));
            lemma_ms_insert(gout, k as int, rec_view(x));
            assert(gin[0] == rec_view(x));
            assert forall|i: int, j: int| 0 <= i < j < out@.len() implies bytes_le(out@[i].0@, out@[j].0@) by {
                if j < k {
                    assert(out@[i] == pre[i] && out@[j] == pre[j]);
                } else if j == k {
                    assert(out@[i] == pre[i]);
                } else if i < k {
                    assert(out@[i] == pre[i] && out@[j] == pre[j - 1]);
                    lemma_bytes_le_trans(pre[i].0@, x.0@, pre[j - 1].0@);
                } else if i == k {
                    assert(out@[j] == pre[j - 1]);
                } else {
                    assert(out@[i] == pre[i - 1] && out@[j] == pre[j - 1]);
                }
            }
            assert(recs_view(out@).to_multiset().add(recs_view(input@).to_multiset()) =~= g0.to_multiset());
        }
    }
    proof {
        assert(recs_view(input@) =~= Seq::<ChildRecord>::empty());
        assert(recs_view(input@).to_multiset() =~= vstd::multiset::Multiset::empty()) by {
            broadcast use vstd::seq_lib::group_to_multiset_ensures;
        }
        assert(recs_view(out@).to_multiset() =~= recs_view(out@).to_multiset().add(recs_view(input@).to_multiset()));
    }
    out
}

/// No two elements of `s` share a key.
pub open spec fn distinct_keys<A, K>(s: Seq<A>, key: spec_fn(A) -> K) -> bool {
    forall|i: int, j: int| 0 <= i < j < s.len() ==> key(s[i]) != key(s[j])
}

/// Rearranging a sequence keeps its keys distinct.
proof fn lemma_distinct_keys_perm<A, K>(a: Seq<A>, b: Seq<A>, key: spec_fn(A) -> K)
    requires
        a.to_multiset() == b.to_multiset(),
        distinct_keys(a, key),
    ensures
        distinct_keys(b, key),
{
    broadcast use vstd::seq_lib::group_to_multiset_ensures, vstd::multiset::group_multiset_axioms;
    assert forall|i: int, j: int| 0 <= i < j < b.len() implies key(b[i]) != key(b[j]) by {
        if key(b[i]) == key(b[j]) {
            let x = b[i];
            let y = b[j];
            assert(b.contains(x));
            assert(b.to_multiset().count(x) > 0);
            assert(a.to_multiset().count(x) > 0);
            assert(a.contains(x));
            let ia = choose|k: int| 0 <= k < a.len() && a[k] == x;
            if x == y {
                assert(b.remove(j)[i] == x);
                assert(b.remove(j).contains(x));
                assert(b.remove(j).to_multiset().count(x) > 0);
                assert(b.remove(j).to_multiset() == b.to_multiset().remove(y));
                assert(b.to_multiset().count(x) >= 2);
                assert(a.remove(ia).to_multiset() == a.to_multiset().remove(x));
                assert(a.remove(ia).to_multiset().count(x) >= 1);
                assert(a.remove(ia).contains(x));
                let m = choose|k: int| 0 <= k < a.remove(ia).len() && a.remove(ia)[k] == x;
                if m < ia {
                    assert(a[m] == x);
                    assert(key(a[m]) != key(a[ia]));
                } else {
                    assert(a[m + 1] == x);
                    assert(key(a[ia]) != key(a[m + 1]));
                }
            } else {
                assert(b.contains(y));
                assert(b.to_multiset().count(y) > 0);
                assert(a.to_multiset().count(y) > 0);
                assert(a.contains(y));
                let ja = choose|k: int| 0 <= k < a.len() && a[k] == y;
                if ia < ja {
                    assert(key(a[ia]) != key(a[ja]));
                } else {
                    assert(key(a[ja]) != key(a[ia]));
                }
            }
        }
    }
}

pub open spec fn rec_name() -> spec_fn(ChildRecord) -> Seq<u8> {
    |r: ChildRecord| r.0
}

/// The bytes a child record contributes, appended to `buf`.
fn push_record(buf: &mut Vec<u8>, r: &(Vec<u8>, bool, HashRes))
    ensures
        final(buf)@ == old(buf)@ + record_bytes(rec_view(*r)),
{
    let ghost b0 = buf@;
    let mut i: usize = 0;
    while i < r.0.len()
        invariant
            buf@ == b0 + r.0@.subrange(0, i as int),
            i <= r.0@.len(),
        decreases r.0@.len() - i,
    {
        buf.push(r.0[i]);
        assert(r.0@.subrange(0, i + 1) =~= r.0@.subrange(0, i as int).push(r.0@[i as int]));
        i = i + 1;
    }
    assert(r.0@.subrange(0, r.0@.len() as int) =~= r.0@);
    let ghost b1 = buf@;
    let mut j: usize = 0;
    while j < 32
        invariant
            buf@ == b1 + r.2@.subrange(0, j as int),
            j <= 32,
            r.2@.len() == 32,
        decreases 32 - j,
    {
        buf.push(r.2[j]);
        assert(r.2@.subrange(0, j + 1) =~= r.2@.subrange(0, j as int).push(r.2@[j as int]));
        j = j + 1;
    }
    assert(r.2@.subrange(0, 32) =~= r.2@);
    if r.1 {
        buf.push(1u8);
    } else {
        buf.push(0u8);
    }
    assert(buf@ =~= b0 + record_bytes(rec_view(*r)));
}

/// The hash of a directory with the given children, when their names are distinct.
fn combine_exec(recs: Vec<(Vec<u8>, bool, HashRes)>) -> (r: HashRes)
    ensures
        distinct_keys(recs_view(recs@), rec_name()) ==> r@ == combine(recs_view(recs@)),
{
    let ghost g = recs_view(recs@);
    let sorted = sort_records(recs);
    let ghost gs = recs_view(sorted@);
    let mut buf: Vec<u8> = Vec::new();
    let mut i: usize = 0;
    while i < sorted.len()
        invariant
            gs == recs_view(sorted@),
            i <= sorted@.len(),
            buf@ == concat_records(gs.subrange(0, i as int)),
        decreases sorted@.len() - i,
    {
        push_record(&mut buf, &sorted[i]);
        proof {
            let t = gs.subrange(0, i + 1);
            assert(t.drop_last() =~= gs.subrange(0, i as int));
            assert(t.last() == rec_view(sorted@[i as int]));
        }
        i = i + 1;
    }
    proof {
        assert(gs.subrange(0, gs.len() as int) =~= gs);
        if distinct_keys(g, rec_name()) {
            lemma_distinct_keys_perm(g, gs, rec_name());
            lemma_record_order_total();
            assert(sorted_by(gs, record_order())) by {
                assert forall|a: int, b: int| 0 <= a < b < gs.len() implies #[trigger] record_order()(gs[a], gs[b]) by {
                    assert(rec_name()(gs[a]) != rec_name()(gs[b]));
                    assert(bytes_le(sorted@[a].0@, sorted@[b].0@));
                }
            }
            g.lemma_sort_by_ensures(record_order());
            vstd::seq_lib::lemma_sorted_unique(gs, g.sort_by(record_order()), record_order());
        }
    }
    blake3_hash(buf.as_slice())
}

/// A copy of a byte string.
fn copy_bytes(v: &Vec<u8>) -> (r: Vec<u8>)
    ensures
        r@ == v@,
{
    let r = v.clone();
    assert(r@ =~= v@);
    r
}

/// The records of the children of `p` among the first `n` entries, each with the hash the
/// entry holds, in entry order.
pub open spec fn held_records(es: Seq<FileEntry>, p: Seq<Seq<u8>>, n: int) -> Seq<ChildRecord>
    decreases n,
{
    if n <= 0 || n > es.len() {
        Seq::empty()
    } else {
        let rest = held_records(es, p, n - 1);
        let c = es[n - 1];
        if is_child_path(p, path_of(c)) {
            rest.push((path_of(c).last(), is_dir(c), c.hash@))
        } else {
            rest
        }
    }
}

/// `name` is the name of a child of `p` among the first `n` entries.
pub open spec fn child_name_among(es: Seq<FileEntry>, p: Seq<Seq<u8>>, n: int, name: Seq<u8>) -> bool {
    exists|idx: int| 0 <= idx < n && #[trigger] is_child_path(p, path_of(es[idx])) && name == path_of(es[idx]).last()
}

/// Each held record comes from a child entry among the first `n`; with distinct paths,
/// their names are distinct.
proof fn lemma_held_records(es: Seq<FileEntry>, p: Seq<Seq<u8>>, n: int)
    requires
        0 <= n <= es.len(),
    ensures
        forall|k: int| 0 <= k < held_records(es, p, n).len() ==> child_name_among(es, p, n, #[trigger] held_records(es, p, n)[k].0),
        distinct_paths(es) ==> distinct_keys(held_records(es, p, n), rec_name()),
    decreases n,
{
    if n > 0 {
        lemma_held_records(es, p, n - 1);
        let rest = held_records(es, p, n - 1);
        let h = held_records(es, p, n);
        let c = es[n - 1];
        assert forall|k: int| 0 <= k < h.len() implies child_name_among(es, p, n, #[trigger] h[k].0) by {
            if k < rest.len() {
                assert(h[k] == rest[k]);
                assert(child_name_among(es, p, n - 1, rest[k].0));
                let idx = choose|idx: int| 0 <= idx < n - 1 && #[trigger] is_child_path(p, path_of(es[idx])) && rest[k].0 == path_of(es[idx]).last();
                assert(is_child_path(p, path_of(es[idx])));
            } else {
                assert(h[k].0 == path_of(es[n - 1]).last());
                assert(is_child_path(p, path_of(es[n - 1])));
            }
        }
        if is_child_path(p, path_of(c)) {
            if distinct_paths(es) {
                assert forall|i: int, j: int| 0 <= i < j < h.len() implies rec_name()(h[i]) != rec_name()(h[j]) by {
                    if j < rest.len() {
                        assert(h[i] == rest[i] && h[j] == rest[j]);
                    } else {
                        assert(h[i] == rest[i]);
                        assert(child_name_among(es, p, n - 1, rest[i].0));
                        let idx = choose|idx: int| 0 <= idx < n - 1 && #[trigger] is_child_path(p, path_of(es[idx])) && rest[i].0 == path_of(es[idx]).last();
                        if rest[i].0 == path_of(c).last() {
                            let a = path_of(es[idx]);
                            let b = path_of(c);
                            assert(a =~= a.drop_last().push(a.last()));
                            assert(b =~= b.drop_last().push(b.last()));
                            assert(a == b);
                        }
                    }
                }
            }
        } else {
            assert(h == rest);
        }
    }
}

/// The hash of the directory at `p`, from the children that `entries` hold.
fn children_hash(entries: &Vec<FileEntry>, p: &Vec<Vec<u8>>) -> (r: HashRes)
    ensures
        distinct_paths(entries@) ==> r@ == combine(held_records(entries@, comps_view(p@), entries@.len() as int)),
{
    let ghost pv = comps_view(p@);
    let mut recs: Vec<(Vec<u8>, bool, HashRes)> = Vec::new();
    let mut j: usize = 0;
    while j < entries.len()
        invariant
            pv == comps_view(p@),
            j <= entries@.len(),
            recs_view(recs@) == held_records(entries@, pv, j as int),
        decreases entries@.len() - j,
    {
        let e = &entries[j];
        if is_child_exec(p, &e.rel_path) {
            let last = e.rel_path.len() - 1;
            let name = copy_bytes(&e.rel_path[last]);
            let rec = (name, e.kind == EntryKind::Dir, e.hash);
            proof {
                assert(path_of(*e) == comps_view(e.rel_path@));
                assert(comps_view(e.rel_path@).last() == e.rel_path@[last as int]@);
                assert(recs_view(recs@.push(rec)) =~= recs_view(recs@).push(rec_view(rec)));
            }
            recs.push(rec);
        }
        j = j + 1;
    }
    proof {
        lemma_held_records(entries@, pv, entries@.len() as int);
    }
    combine_exec(recs)
}

/// Orders entries deepest first.
fn sort_by_depth(v: Vec<FileEntry>) -> (r: Vec<FileEntry>)
    ensures
        r@.to_multiset() == v@.to_multiset(),
        depth_desc(r@),
{
    let ghost g0 = v@;
    let mut input = v;
    let mut out: Vec<FileEntry> = Vec::new();
    proof {
        assert(out@.to_multiset() =~= vstd::multiset::Multiset::empty()) by {
            broadcast use vstd::seq_lib::group_to_multiset_ensures;
        }
    }
    while input.len() > 0
        invariant
            out@.to_multiset().add(input@.to_multiset()) == g0.to_multiset(),
            depth_desc(out@),
        decreases input@.len(),
    {
        let ghost gin = input@;
        let x = input.remove(0);
        proof {
            lemma_ms_remove_first(gin);
        }
        let d = x.rel_path.len();
        let mut k: usize = 0;
        while k < out.len() && out[k].rel_path.len() >= d
            invariant
                k <= out@.len(),
                forall|m: int| 0 <= m < k ==> out@[m].rel_path@.len() >= d,
            decreases out@.len() - k,
        {
            k = k + 1;
        }
        let ghost pre = out@;
        out.insert(k, x);
        proof {
            lemma_ms_insert(pre, k as int, x);
            assert forall|i: int, j: int| 0 <= i < j < out@.len() implies out@[i].rel_path@.len() >= out@[j].rel_path@.len() by {
                if j < k {
                    assert(out@[i] == pre[i] && out@[j] == pre[j]);
                } else if j == k {
                    assert(out@[i] == pre[i]);
                } else if i < k {
                    assert(out@[i] == pre[i] && out@[j] == pre[j - 1]);
                } else if i == k {
                    assert(out@[j] == pre[j - 1]);
                    assert(pre[k as int].rel_path@.len() < d);
                } else {
                    assert(out@[i] == pre[i - 1] && out@[j] == pre[j - 1]);
                }
            }
            assert(out@.to_multiset().add(input@.to_multiset()) =~= g0.to_multiset());
        }
    }
    proof {
        assert(input@.to_multiset() =~= vstd::multiset::Multiset::empty()) by {
            broadcast use vstd::seq_lib::group_to_multiset_ensures;
        }
        assert(out@.to_multiset() =~= out@.to_multiset().add(input@.to_multiset()));
    }
    out
}

/// Every entry among the first `n` is no deeper than `max_depth`.
proof fn lemma_max_depth(es: Seq<FileEntry>, n: int, k: int)
    requires
        0 <= k < n <= es.len(),
    ensures
        es[k].rel_path@.len() <= max_depth(es, n),
    decreases n,
{
    if k < n - 1 {
        lemma_max_depth(es, n - 1, k);
    }
}

/// The hash an entry has once the tree is hashed: a directory's from its children, any
/// other entry's as it was.
pub open spec fn node_hash(es: Seq<FileEntry>, k: int) -> Seq<u8> {
    if is_dir(es[k]) {
        dir_hash(es, path_of(es[k]), max_depth(es, es.len() as int))
    } else {
        es[k].hash@
    }
}

/// `fin` is `es` with each directory's hash replaced by its hash from its children (when
/// paths are distinct), other entries left as they were.
pub open spec fn rehashed(es: Seq<FileEntry>, fin: Seq<FileEntry>) -> bool {
    &&& fin.len() == es.len()
    &&& forall|k: int| 0 <= k < es.len() ==> (#[trigger] fin[k]).rel_path == es[k].rel_path && fin[k].kind == es[k].kind
    &&& forall|k: int| 0 <= k < es.len() && !is_dir(es[k]) ==> (#[trigger] fin[k]).hash == es[k].hash
    &&& distinct_paths(es) ==> forall|k: int| 0 <= k < es.len() ==> (#[trigger] fin[k]).hash@ == node_hash(es, k)
}

/// When the children of `p` among the first `m` entries hold their final hashes, what they
/// hold is what the tree's hashing gives them.
proof fn lemma_records_agree(sorted: Seq<FileEntry>, out: Seq<FileEntry>, p: Seq<Seq<u8>>, m: int)
    requires
        0 <= m <= sorted.len(),
        out.len() == sorted.len(),
        forall|k: int| 0 <= k < sorted.len() ==> (#[trigger] out[k]).rel_path == sorted[k].rel_path && out[k].kind == sorted[k].kind,
        forall|k: int| 0 <= k < m && is_child_path(p, path_of(sorted[k])) ==> (#[trigger] out[k]).hash@ == node_hash(sorted, k),
    ensures
        held_records(out, p, m) == child_records(sorted, p, max_depth(sorted, sorted.len() as int), m),
    decreases m,
{
    if m > 0 {
        lemma_records_agree(sorted, out, p, m - 1);
        let k = m - 1;
        assert(path_of(out[k]) == path_of(sorted[k]));
        lemma_max_depth(sorted, sorted.len() as int, k);
        if is_child_path(p, path_of(sorted[k])) {
            assert(out[k].hash@ == node_hash(sorted, k));
        }
    }
}

/// Whether a hash is all zeros.
fn is_zero(h: &HashRes) -> (r: bool)
    ensures
        r == (h@ == zero_hash()),
{
    let mut i: usize = 0;
    while i < 32
        invariant
            i <= 32,
            h@.len() == 32,
            forall|k: int| 0 <= k < i ==> h@[k] == 0u8,
        decreases 32 - i,
    {
        if h[i] != 0 {
            assert(h@[i as int] != zero_hash()[i as int]);
            return false;
        }
        i = i + 1;
    }
    assert(h@ =~= zero_hash());
    true
}

impl FileMerkleTree {
    /// Hashes each directory from its children, deepest first, and returns the root hash
    /// (see `tree_hash`); entries end up ordered deepest first, each directory with its new
    /// hash.
    pub fn reduce_into_file_tree_form(&mut self) -> (r: HashRes)
        ensures
            final(self).root_path == old(self).root_path,
            old(self).entries@.len() == 0 ==> r@ == blake3_digest(empty_tree_tag()) && final(self).entries@.len() == 0,
            old(self).entries@.len() > 0 ==> exists|sorted: Seq<FileEntry>|
                #![trigger rehashed(sorted, final(self).entries@)]
                sorted.to_multiset() == old(self).entries@.to_multiset() && depth_desc(sorted) && rehashed(sorted, final(self).entries@)
                    && (distinct_paths(old(self).entries@) ==> r@ == tree_hash(sorted)),
    {
        if self.entries.len() == 0 {
            let tag: Vec<u8> = vec![101u8, 109u8, 112u8, 116u8, 121u8, 95u8, 116u8, 114u8, 101u8, 101u8];
            assert(tag@ =~= empty_tree_tag());
            return blake3_hash(tag.as_slice());
        }
        let ghost old_entries = self.entries@;
        let mut input: Vec<FileEntry> = Vec::new();
        std::mem::swap(&mut input, &mut self.entries);
        let mut out = sort_by_depth(input);
        let ghost sorted = out@;
        let ghost b = max_depth(sorted, sorted.len() as int);
        let ghost distinct = distinct_paths(sorted);
        proof {
            if distinct_paths(old_entries) {
                lemma_distinct_keys_perm(old_entries, sorted, |e: FileEntry| path_of(e));
                assert(distinct_paths(sorted)) by {
                    assert forall|i: int, j: int| 0 <= i < j < sorted.len() implies path_of(sorted[i]) != path_of(sorted[j]) by {
                        assert((|e: FileEntry| path_of(e))(sorted[i]) != (|e: FileEntry| path_of(e))(sorted[j]));
                    }
                }
            }
        }
        let n = out.len();
        let mut final_root: HashRes = [0u8; 32];
        let mut root_seen = false;
        let mut root_dir_seen = false;
        let ghost mut root_at: int = 0;
        assert(final_root@ =~= zero_hash());
        let mut i: usize = 0;
        while i < n
            invariant
                n == sorted.len(),
                out@.len() == n,
                depth_desc(sorted),
                b == max_depth(sorted, sorted.len() as int),
                distinct == distinct_paths(sorted),
                forall|k: int| 0 <= k < n ==> (#[trigger] out@[k]).rel_path == sorted[k].rel_path && out@[k].kind == sorted[k].kind,
                forall|k: int| 0 <= k < n && (i <= k || !is_dir(sorted[k])) ==> (#[trigger] out@[k]).hash == sorted[k].hash,
                distinct ==> forall|k: int| 0 <= k < i ==> (#[trigger] out@[k]).hash@ == node_hash(sorted, k),
                i <= n,
                root_seen ==> 0 <= root_at < i && sorted[root_at].rel_path@.len() == 0 && final_root == out@[root_at].hash && root_dir_seen == is_dir(sorted[root_at]),
                !root_seen ==> final_root@ == zero_hash() && !root_dir_seen && forall|k: int| 0 <= k < i ==> sorted[k].rel_path@.len() != 0,
            decreases n - i,
        {
            if out[i].kind == EntryKind::Dir {
                let h = children_hash(&out, &out[i].rel_path);
                proof {
                    if distinct {
                        assert(distinct_paths(out@)) by {
                            assert forall|x: int, y: int| 0 <= x < y < out@.len() implies path_of(out@[x]) != path_of(out@[y]) by {
                                assert(path_of(out@[x]) == path_of(sorted[x]));
                                assert(path_of(out@[y]) == path_of(sorted[y]));
                            }
                        }
                        let pv = path_of(sorted[i as int]);
                        assert(comps_view(out@[i as int].rel_path@) == pv);
                        assert forall|k: int| 0 <= k < n && is_child_path(pv, path_of(sorted[k])) implies (#[trigger] out@[k]).hash@ == node_hash(sorted, k) by {
                            if k >= i {
                                assert(sorted[i as int].rel_path@.len() >= sorted[k].rel_path@.len());
                            }
                        }
                        lemma_records_agree(sorted, out@, pv, n as int);
                    }
                }
                out[i].hash = h;
            }
            if out[i].rel_path.len() == 0 {
                final_root = out[i].hash;
                root_seen = true;
                root_dir_seen = out[i].kind == EntryKind::Dir;
                proof {
                    root_at = i as int;
                }
            }
            i = i + 1;
        }
        let ghost h0 = final_root@;
        proof {
            if distinct {
                if root_seen {
                    let ri = root_index(sorted);
                    assert(has_root(sorted));
                    if ri != root_at {
                        assert(path_of(sorted[ri]) =~= path_of(sorted[root_at]));
                    }
                    assert(path_of(sorted[root_at]) =~= Seq::<Seq<u8>>::empty());
                    assert(out@[root_at].hash@ == node_hash(sorted, root_at));
                    assert(h0 == root_candidate(sorted));
                    assert(root_dir_seen == root_is_dir(sorted));
                } else {
                    assert(!has_root(sorted));
                }
            }
        }
        if is_zero(&final_root) {
            if root_dir_seen {
                let none: Vec<(Vec<u8>, bool, HashRes)> = Vec::new();
                proof {
                    assert(recs_view(none@) =~= Seq::<ChildRecord>::empty());
                }
                final_root = combine_exec(none);
                proof {
                    if distinct {
                        assert(final_root@ == combine(Seq::<ChildRecord>::empty()));
                    }
                }
            } else {
                let top: Vec<Vec<u8>> = Vec::new();
                proof {
                    assert(comps_view(top@) =~= Seq::<Seq<u8>>::empty());
                    if distinct {
                        assert(distinct_paths(out@)) by {
                            assert forall|x: int, y: int| 0 <= x < y < out@.len() implies path_of(out@[x]) != path_of(out@[y]) by {
                                assert(path_of(out@[x]) == path_of(sorted[x]));
                                assert(path_of(out@[y]) == path_of(sorted[y]));
                            }
                        }
                        lemma_records_agree(sorted, out@, Seq::empty(), n as int);
                    }
                }
                final_root = children_hash(&out, &top);
                proof {
                    if distinct {
                        assert(final_root@ == combine(child_records(sorted, Seq::empty(), b, n as int)));
                    }
                }
            }
        }
        proof {
            broadcast use vstd::seq_lib::group_to_multiset_ensures;
            assert(sorted.to_multiset() == old_entries.to_multiset());
            assert(sorted.to_multiset().len() == old_entries.to_multiset().len());
            assert(sorted.len() == old_entries.len());
            assert(rehashed(sorted, out@));
            assert(distinct_paths(old_entries) ==> final_root@ == tree_hash(sorted));
        }
        self.entries = out;
        proof {
            assert(old_entries == old(self).entries@);
            assert(rehashed(sorted, self.entries@));
            assert(sorted.to_multiset() == old(self).entries@.to_multiset() && depth_desc(sorted) && rehashed(sorted, self.entries@)
                && (distinct_paths(old(self).entries@) ==> final_root@ == tree_hash(sorted)));
        }
        final_root
    }
}

/// A path's components joined by `/`.
pub open spec fn joined(comps: Seq<Seq<u8>>) -> Seq<u8>
    decreases comps.len(),
{
    if comps.len() == 0 {
        Seq::empty()
    } else if comps.len() == 1 {
        comps[0]
    } else {
        joined(comps.drop_last()) + seq![47u8] + comps.last()
    }
}

/// Every backslash turned into a slash.
pub open spec fn slashes(s: Seq<u8>) -> Seq<u8> {
    s.map_values(|b: u8| if b == 92u8 { 47u8 } else { b })
}

/// The text a leaf hash starts with: the relative path, `/`-separated.
pub open spec fn path_text_spec(p: Seq<Seq<u8>>) -> Seq<u8> {
    slashes(joined(p))
}

/// What a leaf entry contributes after its path text, when nothing is read from a file.
pub enum LeafContent {
    /// A directory: its hash is made from its children later on.
    Dir,
    /// A symbolic link to a directory, with the root hash of the tree it points to.
    LinkedTree(HashRes),
    /// A symbolic link to something that is neither a file nor a directory.
    UnknownTarget,
    /// An entry of another kind, hashed by its path alone.
    Skipped,
}

pub open spec fn leaf_suffix(p: Seq<Seq<u8>>, leaf: LeafContent) -> Seq<u8> {
    match leaf {
        LeafContent::Dir => seq![91u8, 68u8, 73u8, 82u8, 93u8] + joined(p),
        LeafContent::LinkedTree(h) => h@,
        LeafContent::UnknownTarget => seq![91u8, 85u8, 78u8, 75u8, 78u8, 79u8, 87u8, 78u8, 95u8, 84u8, 65u8, 82u8, 71u8, 69u8, 84u8, 93u8],
        LeafContent::Skipped => Seq::empty(),
    }
}

/// Appends the bytes of `src` to `buf`.
fn append_bytes(buf: &mut Vec<u8>, src: &[u8])
    ensures
        final(buf)@ == old(buf)@ + src@,
{
    let ghost b0 = buf@;
    let mut i: usize = 0;
    while i < src.len()
        invariant
            buf@ == b0 + src@.subrange(0, i as int),
            i <= src@.len(),
        decreases src@.len() - i,
    {
        buf.push(src[i]);
        assert(src@.subrange(0, i + 1) =~= src@.subrange(0, i as int).push(src@[i as int]));
        i = i + 1;
    }
    assert(src@.subrange(0, src@.len() as int) =~= src@);
}

/// The components of a path joined by `/`.
fn join_path(rel_path: &Vec<Vec<u8>>) -> (r: Vec<u8>)
    ensures
        r@ == joined(comps_view(rel_path@)),
{
    let ghost cv = comps_view(rel_path@);
    let mut buf: Vec<u8> = Vec::new();
    let mut i: usize = 0;
    while i < rel_path.len()
        invariant
            cv == comps_view(rel_path@),
            i <= rel_path@.len(),
            buf@ == joined(cv.subrange(0, i as int)),
        decreases rel_path@.len() - i,
    {
        let ghost pre = cv.subrange(0, i as int);
        let ghost post = cv.subrange(0, i + 1);
        if i > 0 {
            buf.push(47u8);
        }
        append_bytes(&mut buf, rel_path[i].as_slice());
        proof {
            assert(post.drop_last() =~= pre);
            assert(post.last() == rel_path@[i as int]@);
            if i == 0 {
                assert(pre.len() == 0);
                assert(buf@ =~= post[0]);
            } else {
                assert(buf@ =~= joined(pre) + seq![47u8] + post.last());
            }
        }
        i = i + 1;
    }
    assert(cv.subrange(0, cv.len() as int) =~= cv);
    buf
}

/// The text a leaf hash starts with: the relative path, with `/` between components and
/// in place of every backslash.
pub fn path_text(rel_path: &Vec<Vec<u8>>) -> (r: Vec<u8>)
    ensures
        r@ == path_text_spec(comps_view(rel_path@)),
{
    let j = join_path(rel_path);
    let mut out: Vec<u8> = Vec::new();
    let mut i: usize = 0;
    while i < j.len()
        invariant
            i <= j@.len(),
            out@ == slashes(j@.subrange(0, i as int)),
        decreases j@.len() - i,
    {
        let b = j[i];
        if b == 92u8 {
            out.push(47u8);
        } else {
            out.push(b);
        }
        assert(slashes(j@.subrange(0, i + 1)) =~= slashes(j@.subrange(0, i as int)).push(if b == 92u8 { 47u8 } else { b }));
        i = i + 1;
    }
    assert(j@.subrange(0, j@.len() as int) =~= j@);
    out
}

/// The hash of a leaf entry that is not read from a file: its path text, then what its
/// kind contributes.
pub fn leaf_hash(rel_path: &Vec<Vec<u8>>, leaf: &LeafContent) -> (r: HashRes)
    ensures
        r@ == blake3_digest(path_text_spec(comps_view(rel_path@)) + leaf_suffix(comps_view(rel_path@), *leaf)),
{
    let mut buf = path_text(rel_path);
    let ghost t = buf@;
    match leaf {
        LeafContent::Dir => {
            let tag: Vec<u8> = vec![91u8, 68u8, 73u8, 82u8, 93u8];
            append_bytes(&mut buf, tag.as_slice());
            let j = join_path(rel_path);
            append_bytes(&mut buf, j.as_slice());
        },
        LeafContent::LinkedTree(h) => {
            append_bytes(&mut buf, h.as_slice());
        },
        LeafContent::UnknownTarget => {
            let tag: Vec<u8> = vec![91u8, 85u8, 78u8, 75u8, 78u8, 79u8, 87u8, 78u8, 95u8, 84u8, 65u8, 82u8, 71u8, 69u8, 84u8, 93u8];
            append_bytes(&mut buf, tag.as_slice());
        },
        LeafContent::Skipped => {},
    }
    assert(buf@ =~= t + leaf_suffix(comps_view(rel_path@), *leaf));
    blake3_hash(buf.as_slice())
}

/// The record a child of `p` contributes, its directory hash taken from `dh`, if `c` is one.
pub open spec fn rec_opt(c: FileEntry, p: Seq<Seq<u8>>, bound: int, dh: spec_fn(Seq<Seq<u8>>) -> Seq<u8>) -> Option<ChildRecord> {
    if is_child_path(p, path_of(c)) && path_of(c).len() <= bound {
        Some((path_of(c).last(), is_dir(c), if is_dir(c) { dh(path_of(c)) } else { c.hash@ }))
    } else {
        None
    }
}

/// The records of the children of `p` among `s`, in order, directory hashes from `dh`.
pub open spec fn recs_over(s: Seq<FileEntry>, p: Seq<Seq<u8>>, bound: int, dh: spec_fn(Seq<Seq<u8>>) -> Seq<u8>) -> Seq<ChildRecord>
    decreases s.len(),
{
    if s.len() == 0 {
        Seq::empty()
    } else {
        let rest = recs_over(s.drop_last(), p, bound, dh);
        match rec_opt(s.last(), p, bound, dh) {
            Some(r) => rest.push(r),
            None => rest,
        }
    }
}

pub open spec fn opt_ms(o: Option<ChildRecord>) -> vstd::multiset::Multiset<ChildRecord> {
    match o {
        Some(r) => vstd::multiset::Multiset::singleton(r),
        None => vstd::multiset::Multiset::empty(),
    }
}

proof fn lemma_child_records_over(es: Seq<FileEntry>, p: Seq<Seq<u8>>, b: int, n: int)
    requires
        0 <= n <= es.len(),
    ensures
        child_records(es, p, b, n) == recs_over(es.subrange(0, n), p, b, |q: Seq<Seq<u8>>| dir_hash(es, q, b)),
    decreases n,
{
    if n > 0 {
        lemma_child_records_over(es, p, b, n - 1);
        assert(es.subrange(0, n).drop_last() =~= es.subrange(0, n - 1));
        assert(es.subrange(0, n).last() == es[n - 1]);
    }
}

proof fn lemma_recs_push(s: Seq<FileEntry>, p: Seq<Seq<u8>>, b: int, dh: spec_fn(Seq<Seq<u8>>) -> Seq<u8>)
    requires
        s.len() > 0,
    ensures
        recs_over(s, p, b, dh).to_multiset() =~= recs_over(s.drop_last(), p, b, dh).to_multiset().add(opt_ms(rec_opt(s.last(), p, b, dh))),
{
    broadcast use vstd::seq_lib::group_to_multiset_ensures, vstd::multiset::group_multiset_axioms;
}

/// Taking an entry out takes out its record.
proof fn lemma_recs_remove(s: Seq<FileEntry>, j: int, p: Seq<Seq<u8>>, b: int, dh: spec_fn(Seq<Seq<u8>>) -> Seq<u8>)
    requires
        0 <= j < s.len(),
    ensures
        recs_over(s, p, b, dh).to_multiset() =~= recs_over(s.remove(j), p, b, dh).to_multiset().add(opt_ms(rec_opt(s[j], p, b, dh))),
    decreases s.len(),
{
    broadcast use vstd::multiset::group_multiset_axioms;
    lemma_recs_push(s, p, b, dh);
    if j == s.len() - 1 {
        assert(s.remove(j) =~= s.drop_last());
    } else {
        lemma_recs_remove(s.drop_last(), j, p, b, dh);
        let t = s.remove(j);
        assert(t.drop_last() =~= s.drop_last().remove(j));
        assert(t.last() == s.last());
        lemma_recs_push(t, p, b, dh);
    }
}

/// Rearranging the entries rearranges the records.
proof fn lemma_recs_perm(s1: Seq<FileEntry>, s2: Seq<FileEntry>, p: Seq<Seq<u8>>, b: int, dh: spec_fn(Seq<Seq<u8>>) -> Seq<u8>)
    requires
        s1.to_multiset() == s2.to_multiset(),
    ensures
        recs_over(s1, p, b, dh).to_multiset() == recs_over(s2, p, b, dh).to_multiset(),
    decreases s1.len(),
{
    broadcast use vstd::seq_lib::group_to_multiset_ensures, vstd::multiset::group_multiset_axioms;
    if s1.len() == 0 {
        assert(s2.to_multiset().len() == 0);
        assert(s2.len() == 0);
    } else {
        let x = s1.last();
        assert(s1.contains(x)) by {
            assert(s1[s1.len() - 1] == x);
        }
        assert(s1.to_multiset().count(x) > 0);
        assert(s2.to_multiset().count(x) > 0);
        assert(s2.contains(x));
        let j = choose|j: int| 0 <= j < s2.len() && s2[j] == x;
        assert(s1 =~= s1.drop_last().push(x));
        assert(s1.drop_last().to_multiset() =~= s2.remove(j).to_multiset());
        lemma_recs_perm(s1.drop_last(), s2.remove(j), p, b, dh);
        lemma_recs_push(s1, p, b, dh);
        lemma_recs_remove(s2, j, p, b, dh);
    }
}

/// Directory hash functions that agree on the children give the same records.
proof fn lemma_recs_dh(s: Seq<FileEntry>, p: Seq<Seq<u8>>, b: int, dh1: spec_fn(Seq<Seq<u8>>) -> Seq<u8>, dh2: spec_fn(Seq<Seq<u8>>) -> Seq<u8>)
    requires
        forall|q: Seq<Seq<u8>>| is_child_path(p, q) && q.len() <= b ==> #[trigger] dh1(q) == dh2(q),
    ensures
        recs_over(s, p, b, dh1) == recs_over(s, p, b, dh2),
    decreases s.len(),
{
    if s.len() > 0 {
        lemma_recs_dh(s.drop_last(), p, b, dh1, dh2);
    }
}

/// Children with the same records, in any order, give the same directory hash.
proof fn lemma_combine_perm(r1: Seq<ChildRecord>, r2: Seq<ChildRecord>)
    requires
        r1.to_multiset() == r2.to_multiset(),
    ensures
        combine(r1) == combine(r2),
{
    lemma_record_order_total();
    r1.lemma_sort_by_ensures(record_order());
    r2.lemma_sort_by_ensures(record_order());
    vstd::seq_lib::lemma_sorted_unique(r1.sort_by(record_order()), r2.sort_by(record_order()), record_order());
}

/// The same entries, in any order, give the same directory hashes.
proof fn lemma_dir_hash_perm(es1: Seq<FileEntry>, es2: Seq<FileEntry>, p: Seq<Seq<u8>>, b: int)
    requires
        es1.to_multiset() == es2.to_multiset(),
    ensures
        dir_hash(es1, p, b) == dir_hash(es2, p, b),
    decreases b - p.len(),
{
    broadcast use vstd::seq_lib::group_to_multiset_ensures;
    let dh1 = |q: Seq<Seq<u8>>| dir_hash(es1, q, b);
    let dh2 = |q: Seq<Seq<u8>>| dir_hash(es2, q, b);
    assert(es1.len() == es2.len()) by {
        es1.to_multiset_ensures();
        es2.to_multiset_ensures();
    }
    lemma_child_records_over(es1, p, b, es1.len() as int);
    lemma_child_records_over(es2, p, b, es2.len() as int);
    assert(es1.subrange(0, es1.len() as int) =~= es1);
    assert(es2.subrange(0, es2.len() as int) =~= es2);
    assert forall|q: Seq<Seq<u8>>| is_child_path(p, q) && q.len() <= b implies #[trigger] dh1(q) == dh2(q) by {
        lemma_dir_hash_perm(es1, es2, q, b);
    }
    lemma_recs_dh(es2, p, b, dh1, dh2);
    lemma_recs_perm(es1, es2, p, b, dh1);
    lemma_combine_perm(recs_over(es1, p, b, dh1), recs_over(es2, p, b, dh2));
}

proof fn lemma_max_depth_attained(es: Seq<FileEntry>, n: int)
    requires
        0 < n <= es.len(),
    ensures
        exists|k: int| 0 <= k < n && es[k].rel_path@.len() == max_depth(es, n),
    decreases n,
{
    if n > 1 {
        lemma_max_depth_attained(es, n - 1);
        let k = choose|k: int| 0 <= k < n - 1 && es[k].rel_path@.len() == max_depth(es, n - 1);
        if es[n - 1].rel_path@.len() > max_depth(es, n - 1) {
            assert(es[n - 1].rel_path@.len() == max_depth(es, n));
        } else {
            assert(es[k].rel_path@.len() == max_depth(es, n));
        }
    } else {
        assert(max_depth(es, 0) == 0);
        assert(es[0].rel_path@.len() == max_depth(es, n));
    }
}

/// The same entries, in any order, have the same greatest depth.
proof fn lemma_max_depth_perm(es1: Seq<FileEntry>, es2: Seq<FileEntry>)
    requires
        es1.to_multiset() == es2.to_multiset(),
    ensures
        max_depth(es1, es1.len() as int) == max_depth(es2, es2.len() as int),
{
    broadcast use vstd::seq_lib::group_to_multiset_ensures;
    es1.to_multiset_ensures();
    es2.to_multiset_ensures();
    if es1.len() > 0 {
        lemma_max_depth_attained(es1, es1.len() as int);
        lemma_max_depth_attained(es2, es2.len() as int);
        let k1 = choose|k: int| 0 <= k < es1.len() && es1[k].rel_path@.len() == max_depth(es1, es1.len() as int);
        let k2 = choose|k: int| 0 <= k < es2.len() && es2[k].rel_path@.len() == max_depth(es2, es2.len() as int);
        assert(es1.contains(es1[k1]));
        assert(es1.to_multiset().count(es1[k1]) > 0);
        assert(es2.contains(es1[k1]));
        let j1 = choose|j: int| 0 <= j < es2.len() && es2[j] == es1[k1];
        lemma_max_depth(es2, es2.len() as int, j1);
        assert(es2.contains(es2[k2]));
        assert(es2.to_multiset().count(es2[k2]) > 0);
        assert(es1.contains(es2[k2]));
        let j2 = choose|j: int| 0 <= j < es1.len() && es1[j] == es2[k2];
        lemma_max_depth(es1, es1.len() as int, j2);
    }
}

/// The root hash of a tree does not depend on the order its entries were listed in.
pub proof fn law_tree_hash_order_free(es1: Seq<FileEntry>, es2: Seq<FileEntry>)
    requires
        es1.to_multiset() == es2.to_multiset(),
        distinct_paths(es1),
    ensures
        tree_hash(es1) == tree_hash(es2),
{
    broadcast use vstd::seq_lib::group_to_multiset_ensures;
    assert(es1.len() == es2.len()) by {
        es1.to_multiset_ensures();
        es2.to_multiset_ensures();
    }
    if es1.len() > 0 {
        lemma_distinct_keys_perm(es1, es2, |e: FileEntry| path_of(e));
        assert(distinct_paths(es2)) by {
            assert forall|i: int, j: int| 0 <= i < j < es2.len() implies path_of(es2[i]) != path_of(es2[j]) by {
                assert((|e: FileEntry| path_of(e))(es2[i]) != (|e: FileEntry| path_of(e))(es2[j]));
            }
        }
        lemma_max_depth_perm(es1, es2);
        let b = max_depth(es1, es1.len() as int);
        lemma_dir_hash_perm(es1, es2, Seq::empty(), b);
        if has_root(es1) {
            let r1 = root_index(es1);
            let x = es1[r1];
            assert(es1.contains(x));
            assert(es1.to_multiset().count(x) > 0);
            assert(es2.contains(x));
            let j = choose|j: int| 0 <= j < es2.len() && es2[j] == x;
            assert(has_root(es2));
            let r2 = root_index(es2);
            if r2 != j {
                assert(path_of(es2[r2]) =~= path_of(es2[j]));
            }
        } else {
            if has_root(es2) {
                let r2 = root_index(es2);
                let y = es2[r2];
                assert(es2.contains(y));
                assert(es2.to_multiset().count(y) > 0);
                assert(es1.contains(y));
            }
        }
        let dh1 = |q: Seq<Seq<u8>>| dir_hash(es1, q, b);
        let dh2 = |q: Seq<Seq<u8>>| dir_hash(es2, q, b);
        lemma_child_records_over(es1, Seq::empty(), b, es1.len() as int);
        lemma_child_records_over(es2, Seq::empty(), b, es2.len() as int);
        assert(es1.subrange(0, es1.len() as int) =~= es1);
        assert(es2.subrange(0, es2.len() as int) =~= es2);
        assert forall|q: Seq<Seq<u8>>| is_child_path(Seq::empty(), q) && q.len() <= b implies #[trigger] dh1(q) == dh2(q) by {
            lemma_dir_hash_perm(es1, es2, q, b);
        }
        lemma_recs_dh(es2, Seq::empty(), b, dh1, dh2);
        lemma_recs_perm(es1, es2, Seq::empty(), b, dh1);
        lemma_combine_perm(recs_over(es1, Seq::empty(), b, dh1), recs_over(es2, Seq::empty(), b, dh2));
    }
}

} // verus!
