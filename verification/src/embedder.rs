//! A deterministic embedder: a text's vector is its character histogram.
//!
//! Entry `i` of the vector counts the characters of code `i`, so texts that
//! share characters get vectors with a large dot product, and the embedding is
//! a pure function of the text — the same text always embeds to the same
//! vector, batch or single. A production model behind the same contract shape
//! would be driven by the application around this crate.
use vstd::prelude::*;

verus! {

/// How many characters of `s` have code `code`.
pub open spec fn char_count(s: Seq<char>, code: int) -> nat
    decreases s.len(),
{
    if s.len() == 0 {
        0
    } else {
        char_count(s.drop_last(), code) + if (s.last() as u32) as int == code {
            1nat
        } else {
            0nat
        }
    }
}

pub proof fn lemma_char_count_le_len(s: Seq<char>, code: int)
    ensures
        char_count(s, code) <= s.len(),
    decreases s.len(),
{
    if s.len() > 0 {
        lemma_char_count_le_len(s.drop_last(), code);
    }
}

/// The embedding of a text at dimension `dim`: its character histogram.
pub open spec fn spec_embedding(s: Seq<char>, dim: nat) -> Seq<u64> {
    Seq::new(dim as nat, |i: int| char_count(s, i) as u64)
}

/// The deterministic histogram embedder. `dimension` plays the role of the
/// model's fixed output dimension: every vector it produces has this length.
pub struct StubEmbedder {
    pub dimension: usize,
}

impl StubEmbedder {
    pub fn new(dimension: usize) -> (e: StubEmbedder)
        ensures
            e.dimension == dimension,
    {
        StubEmbedder { dimension }
    }

    /// Embed one text. The result is pinned to [`spec_embedding`], so equal
    /// texts always get equal vectors, and the vector length always equals
    /// the embedder's dimension.
    pub fn embed_one(&self, text: &str) -> (v: Vec<u64>)
        ensures
            v@ == spec_embedding(text@, self.dimension as nat),
            v@.len() == self.dimension,
    {
        let ghost t = text@;
        let n = text.unicode_len();
        let mut v: Vec<u64> = vec![0u64; self.dimension];
        proof {
            assert(t.take(0) =~= Seq::<char>::empty());
        }
        let mut j: usize = 0;
        while j < n
            invariant
                j <= n,
                v@.len() == self.dimension,
                forall|i: int|
                    0 <= i < v@.len() ==> #[trigger] v@[i] == char_count(t.take(j as int), i)
                        && v@[i] <= j,
            decreases n - j,
        {
            proof {
                assert(t.take(j + 1).drop_last() =~= t.take(j as int));
                assert(t.take(j + 1).last() == t[j as int]);
            }
            let c = text.get_char(j);
            let code = c as u32;
            let idx = code as usize;
            let ghost before = v@;
            if idx < v.len() {
                let cur = v[idx];
                v[idx] = cur + 1;
            }
            proof {
                assert forall|i: int|
                    0 <= i < v@.len() implies #[trigger] v@[i] == char_count(t.take(j + 1), i)
                    && v@[i] <= j + 1 by {
                    assert(char_count(t.take(j + 1), i) == char_count(t.take(j as int), i) + if (
                    t[j as int] as u32) as int == i {
                        1nat
                    } else {
                        0nat
                    });
                    if i != idx {
                        assert(v@[i] == before[i]);
                    }
                }
            }
            j = j + 1;
        }
        proof {
            assert(t.take(n as int) =~= t);
            assert(v@ =~= spec_embedding(t, self.dimension as nat));
        }
        v
    }

    /// Embed a batch of texts: one vector per text, in the order given —
    /// `vs[i]` is the embedding of `texts[i]`, for every `i`.
    pub fn embed_batch(&self, texts: &Vec<String>) -> (vs: Vec<Vec<u64>>)
        ensures
            vs@.len() == texts@.len(),
            forall|i: int|
                0 <= i < vs@.len() ==> (#[trigger] vs@[i])@ == spec_embedding(
                    texts@[i]@,
                    self.dimension as nat,
                ),
            forall|i: int| 0 <= i < vs@.len() ==> (#[trigger] vs@[i])@.len() == self.dimension,
    {
        let mut vs: Vec<Vec<u64>> = Vec::new();
        let mut i: usize = 0;
        while i < texts.len()
            invariant
                i <= texts@.len(),
                vs@.len() == i,
                forall|k: int|
                    0 <= k < vs@.len() ==> (#[trigger] vs@[k])@ == spec_embedding(
                        texts@[k]@,
                        self.dimension as nat,
                    ),
                forall|k: int| 0 <= k < vs@.len() ==> (#[trigger] vs@[k])@.len() == self.dimension,
            decreases texts@.len() - i,
        {
            let v = self.embed_one(texts[i].as_str());
            vs.push(v);
            i = i + 1;
        }
        vs
    }
}

} // verus!
