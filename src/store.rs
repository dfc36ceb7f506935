//! The store of the canonical dataset.
use crate::address::{
    canonical_of, compare, lemma_precedes_irreflexive, lemma_precedes_transitive, precedes,
    strictly_sorted, views,
};
use crate::error::UpdateError;
use vstd::prelude::*;

verus! {

/// Room reserved for the dataset when a store is created.
const DEFAULT_CAPACITY: usize = 1000;

/// A backend that holds the canonical dataset: it replaces it wholesale,
/// hands out a copy, and answers membership queries.
pub trait DatabaseProvider: Sized {
    /// The dataset currently held.
    spec fn dataset(&self) -> Seq<Seq<char>>;

    /// The backend completes every operation without failure.
    spec fn infallible(&self) -> bool;

    /// Installs the canonical dataset of `records` in place of the current one;
    /// on failure the current one stays.
    fn save_records(&mut self, records: Vec<String>) -> (r: Result<(), UpdateError>)
        ensures
            r is Ok ==> canonical_of(final(self).dataset(), views(records@)),
            r is Err ==> final(self).dataset() == old(self).dataset(),
            old(self).infallible() ==> r is Ok,
            final(self).infallible() == old(self).infallible(),
    ;

    /// A copy of the dataset.
    fn records(&self) -> (r: Result<Vec<String>, UpdateError>)
        ensures
            r is Ok ==> views(r->Ok_0@) == self.dataset(),
            self.infallible() ==> r is Ok,
    ;

    /// Whether `address` is in the dataset.
    fn search(&self, address: String) -> (r: Result<bool, UpdateError>)
        ensures
            r is Ok ==> r->Ok_0 == self.dataset().contains(address@),
            self.infallible() ==> r is Ok,
    ;
}

/// The dataset held in memory, strictly ascending.
pub struct InMemoryDatabase {
    inner: Vec<String>,
}

impl View for InMemoryDatabase {
    type V = Seq<Seq<char>>;

    closed spec fn view(&self) -> Seq<Seq<char>> {
        views(self.inner@)
    }
}

impl InMemoryDatabase {
    /// Every value of the type holds its dataset strictly ascending.
    #[verifier::type_invariant]
    closed spec fn ascending(&self) -> bool {
        strictly_sorted(views(self.inner@))
    }

    /// The dataset is strictly ascending.
    pub open spec fn well_formed(&self) -> bool {
        strictly_sorted(self@)
    }

    /// An empty store.
    pub fn new() -> (r: Self)
        ensures
            r@ == Seq::<Seq<char>>::empty(),
            r.well_formed(),
    {
        let r = InMemoryDatabase { inner: Vec::with_capacity(DEFAULT_CAPACITY) };
        assert(r@ =~= Seq::<Seq<char>>::empty());
        r
    }
}

impl Default for InMemoryDatabase {
    fn default() -> (r: Self)
        ensures
            r@ == Seq::<Seq<char>>::empty(),
            r.well_formed(),
    {
        InMemoryDatabase::new()
    }
}

/// Where `key` stands in the strictly ascending `v`: `Ok` with its index, or
/// `Err` with the index at which it would be inserted.
pub fn locate(v: &Vec<String>, key: &str) -> (r: Result<usize, usize>)
    requires
        strictly_sorted(views(v@)),
    ensures
        match r {
            Ok(i) => i < v@.len() && v@[i as int]@ == key@,
            Err(i) => {
                &&& i <= v@.len()
                &&& forall|j: int| 0 <= j < i ==> precedes(#[trigger] v@[j]@, key@)
                &&& forall|j: int| i <= j < v@.len() ==> precedes(key@, #[trigger] v@[j]@)
            },
        },
{
    let mut lo: usize = 0;
    let mut hi: usize = v.len();
    while lo < hi
        invariant
            lo <= hi <= v@.len(),
            strictly_sorted(views(v@)),
            forall|j: int| 0 <= j < lo ==> precedes(#[trigger] v@[j]@, key@),
            forall|j: int| hi <= j < v@.len() ==> precedes(key@, #[trigger] v@[j]@),
        decreases hi - lo,
    {
        let mid = lo + (hi - lo) / 2;
        match compare(v[mid].as_str(), key) {
            core::cmp::Ordering::Less => {
                assert forall|j: int| 0 <= j < mid + 1 implies precedes(#[trigger] v@[j]@, key@) by {
                    if j < mid {
                        assert(precedes(views(v@)[j], views(v@)[mid as int]));
                        lemma_precedes_transitive(v@[j]@, v@[mid as int]@, key@);
                    }
                }
                lo = mid + 1;
            },
            core::cmp::Ordering::Greater => {
                assert forall|j: int| mid <= j < v@.len() implies precedes(key@, #[trigger] v@[j]@) by {
                    if j > mid {
                        assert(precedes(views(v@)[mid as int], views(v@)[j]));
                        lemma_precedes_transitive(key@, v@[mid as int]@, v@[j]@);
                    }
                }
                hi = mid;
            },
            core::cmp::Ordering::Equal => {
                return Ok(mid);
            },
        }
    }
    Err(lo)
}

/// Whether `key` is in the strictly ascending `v`, by binary search.
pub fn sorted_contains(v: &Vec<String>, key: &str) -> (r: bool)
    requires
        strictly_sorted(views(v@)),
    ensures
        r == views(v@).contains(key@),
{
    match locate(v, key) {
        Ok(i) => {
            assert(views(v@)[i as int] == key@);
            true
        },
        Err(i) => {
            assert forall|j: int| 0 <= j < views(v@).len() implies views(v@)[j] != key@ by {
                lemma_precedes_irreflexive(key@);
            }
            false
        },
    }
}

/// The canonical dataset of `records`: their distinct values, ascending.
pub fn canonicalize(records: &Vec<String>) -> (r: Vec<String>)
    ensures
        canonical_of(views(r@), views(records@)),
{
    let mut out: Vec<String> = Vec::new();
    let mut i: usize = 0;
    while i < records.len()
        invariant
            i <= records@.len(),
            strictly_sorted(views(out@)),
            forall|x: Seq<char>|
                views(out@).contains(x) <==> views(records@).subrange(0, i as int).contains(x),
        decreases records@.len() - i,
    {
        let s = &records[i];
        let ghost seen = views(records@).subrange(0, i as int);
        let ghost next = views(records@).subrange(0, i + 1);
        assert(next =~= seen.push(s@));
        match locate(&out, s.as_str()) {
            Ok(j) => {
                assert(views(out@)[j as int] == s@);
                assert forall|x: Seq<char>| views(out@).contains(x) <==> next.contains(x) by {
                    if x == s@ {
                        assert(next[i as int] == x);
                    }
                    if seen.contains(x) {
                        let k = choose|k: int| 0 <= k < seen.len() && seen[k] == x;
                        assert(next[k] == x);
                    }
                    if next.contains(x) && x != s@ {
                        let k = choose|k: int| 0 <= k < next.len() && next[k] == x;
                        assert(seen[k] == x);
                    }
                }
            },
            Err(p) => {
                let ghost old_out = views(out@);
                out.insert(p, s.clone());
                let ghost new_out = views(out@);
                assert(new_out =~= old_out.insert(p as int, s@));
                assert forall|a: int, b: int| 0 <= a < b < new_out.len() implies precedes(
                    #[trigger] new_out[a],
                    #[trigger] new_out[b],
                ) by {
                    if b < p {
                        assert(precedes(old_out[a], old_out[b]));
                    } else if b == p {
                        assert(precedes(out@[a]@, s@));
                    } else if a < p {
                        assert(precedes(old_out[a], old_out[b - 1]));
                    } else if a == p {
                        assert(precedes(s@, old_out[b - 1]));
                    } else {
                        assert(precedes(old_out[a - 1], old_out[b - 1]));
                    }
                }
                assert forall|x: Seq<char>| new_out.contains(x) <==> next.contains(x) by {
                    if x == s@ {
                        assert(next[i as int] == x);
                        assert(new_out[p as int] == x);
                    }
                    if old_out.contains(x) {
                        let k = choose|k: int| 0 <= k < old_out.len() && old_out[k] == x;
                        if k < p {
                            assert(new_out[k] == x);
                        } else {
                            assert(new_out[k + 1] == x);
                        }
                    }
                    if new_out.contains(x) && x != s@ {
                        let k = choose|k: int| 0 <= k < new_out.len() && new_out[k] == x;
                        if k < p {
                            assert(old_out[k] == x);
                        } else {
                            assert(old_out[k - 1] == x);
                        }
                    }
                    if seen.contains(x) {
                        let k = choose|k: int| 0 <= k < seen.len() && seen[k] == x;
                        assert(next[k] == x);
                    }
                    if next.contains(x) && x != s@ {
                        let k = choose|k: int| 0 <= k < next.len() && next[k] == x;
                        assert(seen[k] == x);
                    }
                }
            },
        }
        i = i + 1;
    }
    assert(views(records@).subrange(0, records@.len() as int) =~= views(records@));
    assert(views(out@).to_set() =~= views(records@).to_set());
    out
}

impl DatabaseProvider for InMemoryDatabase {
    open spec fn dataset(&self) -> Seq<Seq<char>> {
        self@
    }

    open spec fn infallible(&self) -> bool {
        true
    }

    /// The new dataset is built aside and then installed in one step.
    fn save_records(&mut self, records: Vec<String>) -> (r: Result<(), UpdateError>)
        ensures
            r is Ok,
            final(self).well_formed(),
    {
        let canonical = canonicalize(&records);
        *self = InMemoryDatabase { inner: canonical };
        Ok(())
    }

    fn records(&self) -> (r: Result<Vec<String>, UpdateError>)
        ensures
            r is Ok,
    {
        let mut copy: Vec<String> = Vec::with_capacity(self.inner.len());
        let mut i: usize = 0;
        while i < self.inner.len()
            invariant
                i <= self.inner@.len(),
                views(copy@) == views(self.inner@).subrange(0, i as int),
            decreases self.inner@.len() - i,
        {
            let c = self.inner[i].clone();
            let ghost before = copy@;
            copy.push(c);
            proof {
                assert(copy@ == before.push(c));
                assert(c@ == self.inner@[i as int]@);
                assert(views(before.push(c)) =~= views(before).push(c@));
                assert(views(copy@) =~= views(self.inner@).subrange(0, i + 1));
            }
            i = i + 1;
        }
        assert(views(self.inner@).subrange(0, i as int) =~= views(self.inner@));
        Ok(copy)
    }

    fn search(&self, address: String) -> (r: Result<bool, UpdateError>)
        ensures
            r is Ok,
    {
        proof {
            use_type_invariant(self);
        }
        Ok(sorted_contains(&self.inner, address.as_str()))
    }
}

/// After the dataset is replaced with the records `records` and a copy
/// `snapshot` is taken, the copy is strictly ascending, free of duplicates,
/// and holds exactly the distinct elements of `records`.
pub proof fn lemma_snapshot_after_replace<D: DatabaseProvider>(
    db: D,
    records: Seq<String>,
    snapshot: Seq<String>,
)
    requires
        canonical_of(db.dataset(), views(records)),
        views(snapshot) == db.dataset(),
    ensures
        strictly_sorted(views(snapshot)),
        views(snapshot).no_duplicates(),
        forall|x: Seq<char>| views(snapshot).contains(x) <==> views(records).contains(x),
{
    let d = views(snapshot);
    assert forall|i: int, j: int| 0 <= i < d.len() && 0 <= j < d.len() && i != j implies d[i]
        != d[j] by {
        lemma_precedes_irreflexive(d[i]);
        if i < j {
            assert(precedes(d[i], d[j]));
        } else {
            assert(precedes(d[j], d[i]));
        }
    }
    assert forall|x: Seq<char>| d.contains(x) <==> views(records).contains(x) by {
        assert(d.to_set().contains(x) == d.contains(x));
        assert(views(records).to_set().contains(x) == views(records).contains(x));
    }
}

/// After the dataset is replaced with the records `records`, a query for
/// `address` finds it exactly when it is one of the records.
pub proof fn lemma_search_after_replace<D: DatabaseProvider>(
    db: D,
    records: Seq<String>,
    address: Seq<char>,
    found: bool,
)
    requires
        canonical_of(db.dataset(), views(records)),
        found == db.dataset().contains(address),
    ensures
        found <==> views(records).contains(address),
{
    assert(db.dataset().to_set().contains(address) == db.dataset().contains(address));
    assert(views(records).to_set().contains(address) == views(records).contains(address));
}

/// Queries leave the store as it is, so two queries for one address on one
/// dataset give one answer.
pub proof fn lemma_search_repeatable<D: DatabaseProvider>(
    db: D,
    address: Seq<char>,
    first: bool,
    second: bool,
)
    requires
        first == db.dataset().contains(address),
        second == db.dataset().contains(address),
    ensures
        first == second,
{
}

} // verus!
