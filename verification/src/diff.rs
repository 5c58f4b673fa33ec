//! What changed in a tree since its snapshot was recorded: the entries whose hash differs
//! and the entries that are new. A listing is a sequence of (path, hash) pairs.
use crate::text::str_eq;
use vstd::prelude::*;

verus! {

/// One change of an entry.
#[derive(Debug)]
pub enum Difference {
    /// The entry at this path has another hash than the one recorded.
    Changed(String),
    /// No entry at this path was recorded.
    New(String),
}

/// A change, over views.
pub enum DifferenceView {
    Changed(Seq<char>),
    New(Seq<char>),
}

impl View for Difference {
    type V = DifferenceView;

    open spec fn view(&self) -> DifferenceView {
        match self {
            Difference::Changed(p) => DifferenceView::Changed(p@),
            Difference::New(p) => DifferenceView::New(p@),
        }
    }
}

/// A listing, over views.
pub open spec fn listing_view(l: Seq<(String, String)>) -> Seq<(Seq<char>, Seq<char>)> {
    l.map_values(|e: (String, String)| (e.0@, e.1@))
}

/// The hash recorded for `path` among the first `n` entries: that of the last entry with
/// that path (a later entry replaces an earlier one).
pub open spec fn recorded_hash(old: Seq<(Seq<char>, Seq<char>)>, path: Seq<char>, n: int) -> Option<Seq<char>>
    decreases n,
{
    if n <= 0 || n > old.len() {
        None
    } else if old[n - 1].0 == path {
        Some(old[n - 1].1)
    } else {
        recorded_hash(old, path, n - 1)
    }
}

/// The change of one current entry, if any.
pub open spec fn change_of(old: Seq<(Seq<char>, Seq<char>)>, entry: (Seq<char>, Seq<char>)) -> Option<DifferenceView> {
    match recorded_hash(old, entry.0, old.len() as int) {
        Some(h) => if h != entry.1 {
            Some(DifferenceView::Changed(entry.0))
        } else {
            None
        },
        None => Some(DifferenceView::New(entry.0)),
    }
}

/// The changes of the first `n` current entries, in their order.
pub open spec fn changes(old: Seq<(Seq<char>, Seq<char>)>, current: Seq<(Seq<char>, Seq<char>)>, n: int) -> Seq<DifferenceView>
    decreases n,
{
    if n <= 0 || n > current.len() {
        Seq::empty()
    } else {
        match change_of(old, current[n - 1]) {
            Some(d) => changes(old, current, n - 1).push(d),
            None => changes(old, current, n - 1),
        }
    }
}

/// The index of the last recorded entry with the given path.
fn last_with_path(old: &Vec<(String, String)>, path: &String) -> (r: Option<usize>)
    ensures
        match r {
            Some(i) => i < old@.len() && recorded_hash(listing_view(old@), path@, old@.len() as int) == Some(old@[i as int].1@),
            None => recorded_hash(listing_view(old@), path@, old@.len() as int) is None,
        },
{
    let ghost lv = listing_view(old@);
    let mut found: Option<usize> = None;
    let mut i: usize = 0;
    while i < old.len()
        invariant
            lv == listing_view(old@),
            i <= old@.len(),
            match found {
                Some(k) => k < i && recorded_hash(lv, path@, i as int) == Some(old@[k as int].1@),
                None => recorded_hash(lv, path@, i as int) is None,
            },
        decreases old@.len() - i,
    {
        if str_eq(old[i].0.as_str(), path.as_str()) {
            found = Some(i);
        }
        i = i + 1;
    }
    found
}

/// The changes of the current entries against the recorded ones, in the order of the
/// current entries: a current entry whose path was recorded with another hash is changed,
/// one whose path was not recorded is new.
pub fn find_differences(old: &Vec<(String, String)>, current: &Vec<(String, String)>) -> (r: Vec<Difference>)
    ensures
        r@.map_values(|d: Difference| d@) == changes(listing_view(old@), listing_view(current@), current@.len() as int),
{
    let ghost ov = listing_view(old@);
    let ghost cv = listing_view(current@);
    let mut out: Vec<Difference> = Vec::new();
    let mut i: usize = 0;
    while i < current.len()
        invariant
            ov == listing_view(old@),
            cv == listing_view(current@),
            i <= current@.len(),
            out@.map_values(|d: Difference| d@) == changes(ov, cv, i as int),
        decreases current@.len() - i,
    {
        let ghost before = out@;
        let path = &current[i].0;
        assert(cv[i as int] == (current@[i as int].0@, current@[i as int].1@));
        match last_with_path(old, path) {
            Some(k) => {
                if !str_eq(old[k].1.as_str(), current[i].1.as_str()) {
                    out.push(Difference::Changed(path.clone()));
                    assert(out@.map_values(|d: Difference| d@) =~= before.map_values(|d: Difference| d@).push(DifferenceView::Changed(path@)));
                }
            },
            None => {
                out.push(Difference::New(path.clone()));
                assert(out@.map_values(|d: Difference| d@) =~= before.map_values(|d: Difference| d@).push(DifferenceView::New(path@)));
            },
        }
        i = i + 1;
    }
    out
}

} // verus!
