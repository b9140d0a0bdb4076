//! An in-memory vector store: named, fixed-dimension collections of
//! (vector, payload) pairs, with insertion in positional correspondence and
//! nearest-neighbor search by descending dot-product score.
//!
//! This store is the deterministic stand-in for a remote vector database; an
//! application reaches a remote one through the same operation shapes
//! (create, delete, insert, search), driving them outside this crate.
use vstd::prelude::*;

use crate::text::str_eq;

verus! {

/// What a store operation can report.
#[derive(Clone, Copy, Debug, PartialEq, Eq, Structural)]
pub enum StoreError {
    /// `create_collection` found a collection of that name already present.
    CollectionExists,
    /// The named collection does not exist.
    CollectionNotFound,
    /// An inserted vector's length differs from the collection's dimension.
    DimensionMismatch,
}

/// A stored pair: an embedding vector and the payload it retrieves.
pub struct StoredItem {
    pub vector: Vec<u64>,
    pub payload: String,
}

/// One search hit: a similarity score and the stored payload.
pub struct SearchResult {
    pub score: u64,
    pub payload: Option<String>,
}

/// A named namespace of stored items; every vector in it has length
/// `dimension`.
pub struct Collection {
    pub name: String,
    pub dimension: usize,
    pub items: Vec<StoredItem>,
}

/// The store: a list of collections with pairwise distinct names.
pub struct VectorStore {
    pub collections: Vec<Collection>,
}

/// Pairwise distinct collection names.
pub open spec fn distinct_names(s: Seq<Collection>) -> bool {
    forall|a: int, b: int|
        0 <= a < b < s.len() ==> (#[trigger] s[a].name@) != (#[trigger] s[b].name@)
}

/// Whether a collection of the given name is present.
pub open spec fn spec_has(s: Seq<Collection>, name: Seq<char>) -> bool {
    exists|j: int| 0 <= j < s.len() && (#[trigger] s[j].name@) == name
}

/// An index of the collection of the given name (unique when names are
/// distinct).
pub open spec fn spec_index_of(s: Seq<Collection>, name: Seq<char>) -> int {
    choose|j: int| 0 <= j < s.len() && (#[trigger] s[j].name@) == name
}

/// The items of the collection of the given name.
pub open spec fn collection_items(s: Seq<Collection>, name: Seq<char>) -> Seq<StoredItem> {
    s[spec_index_of(s, name)].items@
}

/// Saturating addition on `u64`.
pub open spec fn sat_add64(a: u64, b: u64) -> u64 {
    if a + b > u64::MAX {
        u64::MAX
    } else {
        (a + b) as u64
    }
}

/// Saturating multiplication on `u64`.
pub open spec fn sat_mul64(a: u64, b: u64) -> u64 {
    if a * b > u64::MAX {
        u64::MAX
    } else {
        (a * b) as u64
    }
}

/// Similarity of two vectors: their dot product, saturating at `u64::MAX`;
/// zero if the lengths differ.
pub open spec fn spec_score(v: Seq<u64>, q: Seq<u64>) -> u64
    decreases v.len(),
{
    if v.len() != q.len() {
        0
    } else if v.len() == 0 {
        0
    } else {
        sat_add64(spec_score(v.drop_last(), q.drop_last()), sat_mul64(v.last(), q.last()))
    }
}

/// `res` reports exactly `item` scored against the query `q`.
pub open spec fn is_result_of(res: SearchResult, item: StoredItem, q: Seq<u64>) -> bool {
    &&& res.score == spec_score(item.vector@, q)
    &&& res.payload matches Some(p) && p@ == item.payload@
}

/// `res` reports some item of `items` scored against the query `q`.
pub open spec fn reports_some_item(res: SearchResult, items: Seq<StoredItem>, q: Seq<u64>) -> bool {
    exists|i: int| 0 <= i < items.len() && is_result_of(res, #[trigger] items[i], q)
}

/// The dot product of two vectors, saturating at `u64::MAX`.
pub fn score_of(v: &Vec<u64>, q: &Vec<u64>) -> (s: u64)
    ensures
        s == spec_score(v@, q@),
{
    if v.len() != q.len() {
        return 0;
    }
    let n = v.len();
    let mut s: u64 = 0;
    proof {
        assert(v@.take(0) =~= Seq::<u64>::empty());
        assert(q@.take(0) =~= Seq::<u64>::empty());
    }
    let mut i: usize = 0;
    while i < n
        invariant
            i <= n,
            s == spec_score(v@.take(i as int), q@.take(i as int)),
        decreases n - i,
    {
        proof {
            assert(v@.take(i + 1).drop_last() =~= v@.take(i as int));
            assert(q@.take(i + 1).drop_last() =~= q@.take(i as int));
        }
        let p = match v[i].checked_mul(q[i]) {
            Some(p) => p,
            None => u64::MAX,
        };
        s = match s.checked_add(p) {
            Some(t) => t,
            None => u64::MAX,
        };
        i = i + 1;
    }
    proof {
        assert(v@.take(n as int) =~= v@);
        assert(q@.take(n as int) =~= q@);
    }
    s
}

impl VectorStore {
    /// Names are pairwise distinct; every construction below preserves this.
    pub open spec fn wf(&self) -> bool {
        distinct_names(self.collections@)
    }

    /// An empty store.
    pub fn new() -> (s: VectorStore)
        ensures
            s.wf(),
            s.collections@.len() == 0,
    {
        VectorStore { collections: Vec::new() }
    }

    /// The index of the collection named `name`, if present; `None` reports
    /// that no collection has that name.
    fn find_collection(&self, name: &str) -> (r: Option<usize>)
        ensures
            match r {
                Some(j) => j < self.collections@.len() && self.collections@[j as int].name@
                    == name@,
                None => !spec_has(self.collections@, name@),
            },
    {
        let mut m: usize = 0;
        while m < self.collections.len()
            invariant
                m <= self.collections@.len(),
                forall|k: int| 0 <= k < m ==> (#[trigger] self.collections@[k].name@) != name@,
            decreases self.collections@.len() - m,
        {
            if str_eq(self.collections[m].name.as_str(), name) {
                return Some(m);
            }
            m = m + 1;
        }
        None
    }

    /// Create a collection of the given name and dimension. Succeeds if and
    /// only if no collection of that name exists; on success the new, empty
    /// collection is appended and every other collection is untouched.
    pub fn create_collection(&mut self, name: &str, dimension: usize) -> (r: Result<
        (),
        StoreError,
    >)
        requires
            old(self).wf(),
        ensures
            final(self).wf(),
            r is Ok <==> !spec_has(old(self).collections@, name@),
            r is Err ==> r == Err::<(), StoreError>(StoreError::CollectionExists) && final(self).collections@ == old(self).collections@,
            r is Ok ==> final(self).collections@.len() == old(self).collections@.len() + 1,
            r is Ok ==> forall|j: int|
                0 <= j < old(self).collections@.len() ==> final(self).collections@[j] == old(
                    self,
                ).collections@[j],
            r is Ok ==> {
                let c = final(self).collections@.last();
                c.name@ == name@ && c.dimension == dimension && c.items@.len() == 0
            },
    {
        match self.find_collection(name) {
            Some(_) => {
                assert(spec_has(self.collections@, name@));
                Err(StoreError::CollectionExists)
            },
            None => {
                let ghost before = self.collections@;
                self.collections.push(
                    Collection { name: name.to_owned(), dimension, items: Vec::new() },
                );
                proof {
                    assert forall|a: int, b: int|
                        0 <= a < b < self.collections@.len() implies (
                    #[trigger] self.collections@[a].name@) != (
                    #[trigger] self.collections@[b].name@) by {
                        if b < before.len() {
                            assert(self.collections@[a] == before[a]);
                            assert(self.collections@[b] == before[b]);
                        } else {
                            assert(self.collections@[b].name@ == name@);
                            assert(self.collections@[a] == before[a]);
                        }
                    }
                }
                Ok(())
            },
        }
    }

    /// Delete the collection of the given name. Succeeds if and only if it
    /// exists; on success exactly that collection is removed.
    pub fn delete_collection(&mut self, name: &str) -> (r: Result<(), StoreError>)
        requires
            old(self).wf(),
        ensures
            final(self).wf(),
            r is Ok <==> spec_has(old(self).collections@, name@),
            r is Err ==> r == Err::<(), StoreError>(StoreError::CollectionNotFound) && final(self).collections@ == old(self).collections@,
            r is Ok ==> final(self).collections@ == old(self).collections@.remove(
                spec_index_of(old(self).collections@, name@),
            ),
    {
        match self.find_collection(name) {
            None => Err(StoreError::CollectionNotFound),
            Some(j) => {
                let ghost before = self.collections@;
                proof {
                    assert(spec_has(before, name@));
                    let jj = spec_index_of(before, name@);
                    if jj != j {
                        assert(before[jj].name@ == before[j as int].name@);
                        assert(false);
                    }
                }
                self.collections.remove(j);
                proof {
                    assert forall|a: int, b: int|
                        0 <= a < b < self.collections@.len() implies (
                    #[trigger] self.collections@[a].name@) != (
                    #[trigger] self.collections@[b].name@) by {
                        let oa = if a < j { a } else { a + 1 };
                        let ob = if b < j { b } else { b + 1 };
                        assert(self.collections@[a] == before[oa]);
                        assert(self.collections@[b] == before[ob]);
                    }
                }
                Ok(())
            },
        }
    }

    /// Store vectors and payloads in positional correspondence: `vectors[i]`
    /// is paired with `payloads[i]`, and the pairs are appended to the named
    /// collection in order. Succeeds if and only if the collection exists and
    /// every vector has the collection's dimension; on any error the store is
    /// unchanged and nothing is partially inserted.
    pub fn insert_many(&mut self, collection_name: &str, vectors: Vec<Vec<u64>>, payloads: Vec<
        String,
    >) -> (r: Result<(), StoreError>)
        requires
            old(self).wf(),
            vectors@.len() == payloads@.len(),
        ensures
            final(self).wf(),
            !spec_has(old(self).collections@, collection_name@) ==> r == Err::<(), StoreError>(
                StoreError::CollectionNotFound,
            ) && final(self).collections@ == old(self).collections@,
            spec_has(old(self).collections@, collection_name@) ==> {
                let j = spec_index_of(old(self).collections@, collection_name@);
                let dim = old(self).collections@[j].dimension;
                if exists|i: int| 0 <= i < vectors@.len() && (#[trigger] vectors@[i])@.len() != dim {
                    r == Err::<(), StoreError>(StoreError::DimensionMismatch) && final(self).collections@ == old(self).collections@
                } else {
                    r is Ok && final(self).collections@.len() == old(self).collections@.len()
                        && (forall|k: int|
                        0 <= k < old(self).collections@.len() && k != j
                            ==> final(self).collections@[k] == old(self).collections@[k]) && {
                        let c0 = old(self).collections@[j];
                        let c1 = final(self).collections@[j];
                        c1.name@ == c0.name@ && c1.dimension == c0.dimension && c1.items@.len()
                            == c0.items@.len() + vectors@.len() && (forall|k: int|
                            0 <= k < c0.items@.len() ==> c1.items@[k] == c0.items@[k]) && (forall|k: int|
                            0 <= k < vectors@.len() ==> (#[trigger] c1.items@[c0.items@.len() + k]).vector@
                                == vectors@[k]@ && c1.items@[c0.items@.len() + k].payload@
                                == payloads@[k]@)
                    }
                }
            },
    {
        let j = match self.find_collection(collection_name) {
            None => {
                return Err(StoreError::CollectionNotFound);
            },
            Some(j) => j,
        };
        proof {
            let jj = spec_index_of(self.collections@, collection_name@);
            if jj != j {
                assert(self.collections@[jj].name@ == self.collections@[j as int].name@);
                assert(false);
            }
        }
        let dim = self.collections[j].dimension;
        let mut i: usize = 0;
        while i < vectors.len()
            invariant
                i <= vectors@.len(),
                forall|k: int| 0 <= k < i ==> (#[trigger] vectors@[k])@.len() == dim,
            decreases vectors@.len() - i,
        {
            if vectors[i].len() != dim {
                return Err(StoreError::DimensionMismatch);
            }
            i = i + 1;
        }
        let ghost before = self.collections@;
        let ghost vs0 = vectors@;
        let ghost ps0 = payloads@;
        let mut vs = vectors;
        let mut ps = payloads;
        let mut k: usize = 0;
        let n = vs.len();
        while k < n
            invariant
                k <= n,
                n == vs0.len(),
                vs@ =~= vs0.skip(k as int),
                ps@ =~= ps0.skip(k as int),
                j < self.collections@.len(),
                self.collections@.len() == before.len(),
                forall|m: int|
                    0 <= m < before.len() && m != j ==> self.collections@[m] == before[m],
                self.collections@[j as int].name@ == before[j as int].name@,
                self.collections@[j as int].dimension == before[j as int].dimension,
                self.collections@[j as int].items@.len() == before[j as int].items@.len() + k,
                forall|m: int|
                    0 <= m < before[j as int].items@.len() ==> self.collections@[j as int].items@[m]
                        == before[j as int].items@[m],
                forall|m: int|
                    0 <= m < k ==> (#[trigger] self.collections@[j as int].items@[before[j as int].items@.len() + m]).vector@
                        == vs0[m]@
                        && self.collections@[j as int].items@[before[j as int].items@.len() + m].payload@
                        == ps0[m]@,
            decreases n - k,
        {
            let v = vs.remove(0);
            let p = ps.remove(0);
            proof {
                assert(vs0.skip(k as int)[0] == vs0[k as int]);
                assert(ps0.skip(k as int)[0] == ps0[k as int]);
                assert(vs0.skip(k as int).remove(0) =~= vs0.skip(k + 1));
                assert(ps0.skip(k as int).remove(0) =~= ps0.skip(k + 1));
            }
            let item = StoredItem { vector: v, payload: p };
            self.collections[j].items.push(item);
            k = k + 1;
        }
        proof {
            assert forall|a: int, b: int|
                0 <= a < b < self.collections@.len() implies (
            #[trigger] self.collections@[a].name@) != (#[trigger] self.collections@[b].name@) by {
                if a != j {
                    assert(self.collections@[a] == before[a]);
                }
                if b != j {
                    assert(self.collections@[b] == before[b]);
                }
                assert(before[a].name@ != before[b].name@);
            }
        }
        Ok(())
    }

    /// Search the named collection: at most `top_k` results, ranked by
    /// non-increasing score, each reporting the score and payload of some
    /// stored item. The results are the best matches: the first scores at
    /// least as high as every stored item, and any stored item not reported
    /// scores no higher than the last result. Succeeds if and only if the
    /// collection exists; the result count is the smaller of `top_k` and the
    /// collection's size.
    pub fn search(&self, collection_name: &str, query: &Vec<u64>, top_k: usize) -> (r: Result<
        Vec<SearchResult>,
        StoreError,
    >)
        requires
            self.wf(),
        ensures
            r is Ok <==> spec_has(self.collections@, collection_name@),
            r is Err ==> r == Err::<Vec<SearchResult>, StoreError>(StoreError::CollectionNotFound),
            r matches Ok(out) ==> {
                let items = collection_items(self.collections@, collection_name@);
                &&& out@.len() == if top_k <= items.len() {
                    top_k as int
                } else {
                    items.len() as int
                }
                &&& forall|a: int, b: int|
                    0 <= a < b < out@.len() ==> (#[trigger] out@[a]).score >= (
                    #[trigger] out@[b]).score
                &&& forall|a: int|
                    0 <= a < out@.len() ==> reports_some_item(#[trigger] out@[a], items, query@)
                &&& out@.len() > 0 ==> forall|i: int|
                    0 <= i < items.len() ==> spec_score((#[trigger] items[i]).vector@, query@)
                        <= out@[0].score
                &&& out@.len() > 0 ==> forall|i: int|
                    0 <= i < items.len() ==> (exists|a: int|
                        0 <= a < out@.len() && is_result_of(out@[a], #[trigger] items[i], query@))
                        || spec_score(items[i].vector@, query@) <= out@.last().score
            },
    {
        let j = match self.find_collection(collection_name) {
            None => {
                return Err(StoreError::CollectionNotFound);
            },
            Some(j) => j,
        };
        proof {
            let jj = spec_index_of(self.collections@, collection_name@);
            if jj != j {
                assert(self.collections@[jj].name@ == self.collections@[j as int].name@);
                assert(false);
            }
        }
        let c = &self.collections[j];
        let ghost items = c.items@;
        let mut scored: Vec<SearchResult> = Vec::new();
        let mut i: usize = 0;
        while i < c.items.len()
            invariant
                i <= items.len(),
                scored@.len() == i,
                forall|k: int|
                    0 <= k < i ==> is_result_of(#[trigger] scored@[k], items[k], query@),
            decreases items.len() - i,
        {
            let item = &c.items[i];
            let s = score_of(&item.vector, query);
            scored.push(SearchResult { score: s, payload: Some(item.payload.clone()) });
            i = i + 1;
        }
        proof {
            assert forall|k: int|
                0 <= k < scored@.len() implies reports_some_item(
                #[trigger] scored@[k],
                items,
                query@,
            ) by {
                assert(is_result_of(scored@[k], items[k], query@));
            }
        }
        let ghost scored0 = scored@;
        let mut out: Vec<SearchResult> = Vec::new();
        proof {
            broadcast use vstd::seq_lib::group_to_multiset_ensures;
            broadcast use vstd::multiset::group_multiset_axioms;
            vstd::multiset::lemma_multiset_empty_len::<SearchResult>(out@.to_multiset());
            assert(out@.to_multiset().add(scored@.to_multiset()) =~= scored0.to_multiset());
        }
        while out.len() < top_k && scored.len() > 0
            invariant
                scored0.len() == items.len(),
                forall|k: int|
                    0 <= k < scored0.len() ==> is_result_of(#[trigger] scored0[k], items[k], query@),
                out@.to_multiset().add(scored@.to_multiset()) == scored0.to_multiset(),
                out@.len() + scored@.len() == items.len(),
                out@.len() <= top_k,
                out@.len() == 0 ==> scored@.len() == items.len() && forall|k: int|
                    0 <= k < scored@.len() ==> is_result_of(#[trigger] scored@[k], items[k], query@),
                forall|k: int|
                    0 <= k < scored@.len() ==> reports_some_item(
                        #[trigger] scored@[k],
                        items,
                        query@,
                    ),
                forall|a: int|
                    0 <= a < out@.len() ==> reports_some_item(#[trigger] out@[a], items, query@),
                forall|a: int, b: int|
                    0 <= a < b < out@.len() ==> (#[trigger] out@[a]).score >= (
                    #[trigger] out@[b]).score,
                out@.len() > 0 ==> forall|k: int|
                    0 <= k < scored@.len() ==> (#[trigger] scored@[k]).score <= out@.last().score,
                out@.len() > 0 ==> forall|i: int|
                    0 <= i < items.len() ==> spec_score((#[trigger] items[i]).vector@, query@)
                        <= out@[0].score,
            decreases scored@.len(),
        {
            let mut best: usize = 0;
            let mut m: usize = 1;
            while m < scored.len()
                invariant
                    best < m <= scored@.len(),
                    forall|k: int|
                        0 <= k < m ==> (#[trigger] scored@[k]).score <= scored@[best as int].score,
                decreases scored@.len() - m,
            {
                if scored[m].score > scored[best].score {
                    best = m;
                }
                m = m + 1;
            }
            let ghost sbefore = scored@;
            let ghost obefore = out@;
            let chosen = scored.remove(best);
            out.push(chosen);
            proof {
                broadcast use vstd::seq_lib::group_to_multiset_ensures;
                broadcast use vstd::multiset::group_multiset_axioms;
                assert(scored@ =~= sbefore.remove(best as int));
                assert(out@ =~= obefore.push(chosen));
                assert(chosen == sbefore[best as int]);
                assert(scored@.to_multiset() =~= sbefore.to_multiset().remove(chosen));
                assert(out@.to_multiset() =~= obefore.to_multiset().insert(chosen));
                assert(sbefore.contains(chosen));
                assert(sbefore.to_multiset().count(chosen) > 0);
                assert(out@.to_multiset().add(scored@.to_multiset()) =~= obefore.to_multiset().add(
                    sbefore.to_multiset(),
                ));
                assert forall|k: int|
                    0 <= k < scored@.len() implies reports_some_item(
                    #[trigger] scored@[k],
                    items,
                    query@,
                ) && scored@[k].score <= out@.last().score by {
                    if k < best {
                        assert(scored@[k] == sbefore[k]);
                    } else {
                        assert(scored@[k] == sbefore[k + 1]);
                    }
                }
                if obefore.len() == 0 {
                    // the first extraction is a maximum over all items
                    assert forall|i: int|
                        0 <= i < items.len() implies spec_score(
                        (#[trigger] items[i]).vector@,
                        query@,
                    ) <= out@[0].score by {
                        assert(is_result_of(sbefore[i], items[i], query@));
                        assert(sbefore[i].score <= sbefore[best as int].score);
                    }
                } else {
                    assert(out@[0] == obefore[0]);
                    // the chosen score does not exceed the last emitted one
                    assert(chosen == sbefore[best as int]);
                    assert(chosen.score <= obefore.last().score);
                }
            }
        }
        proof {
            broadcast use vstd::seq_lib::group_to_multiset_ensures;
            broadcast use vstd::multiset::group_multiset_axioms;
            if out@.len() > 0 {
                assert forall|i: int| 0 <= i < items.len() implies (exists|a: int|
                    0 <= a < out@.len() && is_result_of(out@[a], #[trigger] items[i], query@))
                    || spec_score(items[i].vector@, query@) <= out@.last().score by {
                    let x = scored0[i];
                    assert(is_result_of(x, items[i], query@));
                    assert(scored0.contains(x));
                    assert(scored0.to_multiset().count(x) > 0);
                    assert(out@.to_multiset().count(x) + scored@.to_multiset().count(x)
                        == scored0.to_multiset().count(x));
                    if out@.to_multiset().count(x) > 0 {
                        assert(out@.contains(x));
                        let a = choose|a: int| 0 <= a < out@.len() && out@[a] == x;
                        assert(is_result_of(out@[a], items[i], query@));
                    } else {
                        assert(scored@.to_multiset().count(x) > 0);
                        assert(scored@.contains(x));
                        let k = choose|k: int| 0 <= k < scored@.len() && scored@[k] == x;
                        assert(scored@[k].score <= out@.last().score);
                    }
                }
            }
        }
        Ok(out)
    }
}

/// If one stored item scores strictly higher against the query than every
/// other stored item, a top-`k` search (with `k` at least one) whose results
/// satisfy [`VectorStore::search`]'s guarantees puts exactly that item's
/// payload first: storing chunks positionally and querying with one chunk's
/// own embedding retrieves that chunk.
pub proof fn lemma_unique_best_is_top(
    out: Seq<SearchResult>,
    items: Seq<StoredItem>,
    q: Seq<u64>,
    top_k: int,
    j: int,
)
    requires
        out.len() == if top_k <= items.len() {
            top_k
        } else {
            items.len() as int
        },
        forall|a: int| 0 <= a < out.len() ==> reports_some_item(#[trigger] out[a], items, q),
        out.len() > 0 ==> forall|i: int|
            0 <= i < items.len() ==> spec_score((#[trigger] items[i]).vector@, q) <= out[0].score,
        0 <= j < items.len(),
        forall|i: int|
            0 <= i < items.len() && i != j ==> spec_score((#[trigger] items[i]).vector@, q)
                < spec_score(items[j].vector@, q),
        top_k >= 1,
    ensures
        out.len() >= 1,
        out[0].payload matches Some(p) && p@ == items[j].payload@,
        out[0].score == spec_score(items[j].vector@, q),
{
    assert(reports_some_item(out[0], items, q));
    let i0 = choose|i: int| 0 <= i < items.len() && is_result_of(out[0], #[trigger] items[i], q);
    if i0 != j {
        assert(spec_score(items[i0].vector@, q) < spec_score(items[j].vector@, q));
        assert(spec_score(items[j].vector@, q) <= out[0].score);
        assert(false);
    }
}

} // verus!
