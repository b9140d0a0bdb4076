//! Document identity and the embed-then-store stage of the pipeline.
use vstd::prelude::*;

use crate::chunker::Chunk;
use crate::embedder::StubEmbedder;
use crate::embedder::spec_embedding;
use crate::store::StoreError;
use crate::store::VectorStore;
use crate::store::spec_has;
use crate::store::spec_index_of;

verus! {

/// Index where the final path component starts: just after the last `'/'`,
/// or 0 if the path has none.
pub open spec fn file_name_start(p: Seq<char>) -> int
    decreases p.len(),
{
    if p.len() == 0 {
        0
    } else if p.last() == '/' {
        p.len() as int
    } else {
        file_name_start(p.drop_last())
    }
}

/// Index of the last `'.'` of a file name that stands at position 1 or
/// later; `name.len()` if there is none. A dot in first position (a hidden
/// file) does not begin an extension.
pub open spec fn last_dot(name: Seq<char>) -> int
    decreases name.len(),
{
    if name.len() <= 1 {
        name.len() as int
    } else if name.last() == '.' {
        name.len() - 1
    } else {
        let r = last_dot(name.drop_last());
        if r == name.len() - 1 {
            name.len() as int
        } else {
            r
        }
    }
}

/// The stem of a file path: its final path component, without the extension
/// that a last non-leading `'.'` begins.
pub open spec fn spec_stem(p: Seq<char>) -> Seq<char> {
    let name = p.skip(file_name_start(p));
    name.take(last_dot(name))
}

pub proof fn lemma_file_name_start_at(p: Seq<char>, k: int)
    requires
        0 <= k <= p.len(),
        k > 0 ==> p[k - 1] == '/',
        forall|j: int| k <= j < p.len() ==> (#[trigger] p[j]) != '/',
    ensures
        file_name_start(p) == k,
    decreases p.len(),
{
    if p.len() == 0 {
    } else if p.last() == '/' {
        assert(k == p.len());
    } else {
        assert(k < p.len());
        lemma_file_name_start_at(p.drop_last(), k);
    }
}

pub proof fn lemma_last_dot_at(name: Seq<char>, k: int)
    requires
        0 <= k <= name.len(),
        k < name.len() ==> 1 <= k && name[k] == '.',
        k == name.len() ==> forall|j: int| 1 <= j < name.len() ==> (#[trigger] name[j]) != '.',
        k < name.len() ==> forall|j: int| k < j < name.len() ==> (#[trigger] name[j]) != '.',
    ensures
        last_dot(name) == k,
    decreases name.len(),
{
    if name.len() <= 1 {
        assert(k == name.len());
    } else if name.last() == '.' {
        assert(k == name.len() - 1);
    } else {
        assert(k != name.len() - 1);
        let m = name.drop_last();
        if k == name.len() {
            lemma_last_dot_at(m, m.len() as int);
        } else {
            lemma_last_dot_at(m, k);
        }
    }
}

/// The stable identifier derived from a document's file path: the file stem,
/// per [`spec_stem`]. The path must actually have a nonempty stem.
pub fn get_stem_name(filename: &str) -> (r: String)
    requires
        spec_stem(filename@).len() > 0,
    ensures
        r@ == spec_stem(filename@),
{
    let ghost t = filename@;
    let n = filename.unicode_len();
    let mut start: usize = 0;
    let mut i: usize = 0;
    while i < n
        invariant
            start <= i <= n,
            start > 0 ==> t[start - 1] == '/',
            forall|j: int| start <= j < i ==> (#[trigger] t[j]) != '/',
        decreases n - i,
    {
        if filename.get_char(i) == '/' {
            start = i + 1;
        }
        i = i + 1;
    }
    proof {
        lemma_file_name_start_at(t, start as int);
    }
    let ghost name = t.skip(start as int);
    let mut dot: usize = n;
    let mut m: usize = start + 1;
    while m < n
        invariant
            start + 1 <= m,
            m <= n || m == start + 1,
            dot == n || (start < dot < m && t[dot as int] == '.'),
            dot == n ==> forall|j: int| start < j < m ==> (#[trigger] t[j]) != '.',
            dot < n ==> forall|j: int| dot < j < m ==> (#[trigger] t[j]) != '.',
        decreases n - m,
    {
        if filename.get_char(m) == '.' {
            dot = m;
        }
        m = m + 1;
    }
    let stem_end = if dot == n {
        n
    } else {
        dot
    };
    proof {
        assert forall|j: int| 0 <= j < name.len() implies name[j] == t[start + j] by {}
        if dot == n {
            lemma_last_dot_at(name, name.len() as int);
        } else {
            lemma_last_dot_at(name, dot - start);
        }
        assert(name.take(last_dot(name)) =~= t.subrange(start as int, stem_end as int));
    }
    let stem = filename.substring_char(start, stem_end);
    stem.to_owned()
}

/// Embed every chunk's text with the given embedder and store the resulting
/// (vector, payload) pairs in the named collection, in chunk order, with
/// positional correspondence: the vector stored at position `k` is the
/// embedding of the chunk whose text is stored as the payload at position
/// `k`. Fails — storing nothing — exactly when the collection is missing, or
/// when chunks are present but the embedder's dimension is not the
/// collection's.
pub fn embed_and_store(
    store: &mut VectorStore,
    collection_name: &str,
    model: &StubEmbedder,
    chunks: &Vec<Chunk>,
) -> (r: Result<(), StoreError>)
    requires
        old(store).wf(),
    ensures
        final(store).wf(),
        !spec_has(old(store).collections@, collection_name@) ==> r == Err::<(), StoreError>(
            StoreError::CollectionNotFound,
        ) && final(store).collections@ == old(store).collections@,
        spec_has(old(store).collections@, collection_name@) ==> {
            let j = spec_index_of(old(store).collections@, collection_name@);
            let dim = old(store).collections@[j].dimension;
            if model.dimension != dim && chunks@.len() > 0 {
                r == Err::<(), StoreError>(StoreError::DimensionMismatch)
                    && final(store).collections@ == old(store).collections@
            } else {
                r is Ok && final(store).collections@.len() == old(store).collections@.len() && (
                forall|k: int|
                    0 <= k < old(store).collections@.len() && k != j ==> final(store).collections@[k]
                        == old(store).collections@[k]) && {
                    let c0 = old(store).collections@[j];
                    let c1 = final(store).collections@[j];
                    c1.name@ == c0.name@ && c1.dimension == c0.dimension && c1.items@.len()
                        == c0.items@.len() + chunks@.len() && (forall|k: int|
                        0 <= k < c0.items@.len() ==> c1.items@[k] == c0.items@[k]) && (forall|k: int|
                        0 <= k < chunks@.len() ==> (#[trigger] c1.items@[c0.items@.len() + k]).vector@
                            == spec_embedding(chunks@[k].text@, model.dimension as nat)
                            && c1.items@[c0.items@.len() + k].payload@ == chunks@[k].text@)
                }
            }
        },
{
    let mut texts: Vec<String> = Vec::new();
    let mut i: usize = 0;
    while i < chunks.len()
        invariant
            i <= chunks@.len(),
            texts@.len() == i,
            forall|k: int| 0 <= k < i ==> (#[trigger] texts@[k])@ == chunks@[k].text@,
        decreases chunks@.len() - i,
    {
        texts.push(chunks[i].text.clone());
        i = i + 1;
    }
    let vectors = model.embed_batch(&texts);
    let mut payloads: Vec<String> = Vec::new();
    let mut k: usize = 0;
    while k < chunks.len()
        invariant
            k <= chunks@.len(),
            payloads@.len() == k,
            forall|m: int| 0 <= m < k ==> (#[trigger] payloads@[m])@ == chunks@[m].text@,
        decreases chunks@.len() - k,
    {
        payloads.push(chunks[k].text.clone());
        k = k + 1;
    }
    let ghost s0 = store.collections@;
    let r = store.insert_many(collection_name, vectors, payloads);
    proof {
        if spec_has(s0, collection_name@) {
            let j = spec_index_of(s0, collection_name@);
            let dim = s0[j].dimension;
            if model.dimension != dim && chunks@.len() > 0 {
                assert(vectors@[0]@.len() != dim);
            } else {
                assert forall|m: int|
                    0 <= m < vectors@.len() implies (#[trigger] vectors@[m])@.len() == dim by {}
            }
        }
    }
    r
}

} // verus!
