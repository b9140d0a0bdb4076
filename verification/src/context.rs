//! Context assembly: merging the user prompt with the ranked retrieved
//! payloads into the structured object that template rendering consumes.
use vstd::prelude::*;

use crate::store::SearchResult;

verus! {

/// The structured input handed to template rendering: the user's prompt and
/// the retrieved excerpts, best match first.
pub struct Context {
    pub user_prompt: String,
    pub payloads: Vec<String>,
}

/// The placeholder standing in for a payload that is missing or could not be
/// serialized: an empty-object representation.
pub open spec fn placeholder_payload() -> Seq<char> {
    seq!['{', '}']
}

/// The payload string a search result contributes to the context.
pub open spec fn payload_text(r: SearchResult) -> Seq<char> {
    match r.payload {
        Some(p) => p@,
        None => placeholder_payload(),
    }
}

/// Merge the user prompt and the ranked results into a [`Context`]: one
/// payload string per result, in result order. A result without a usable
/// payload degrades to the `"{}"` placeholder for that single entry; it never
/// aborts the assembly.
pub fn build_context(user_prompt: &str, results: &Vec<SearchResult>) -> (ctx: Context)
    ensures
        ctx.user_prompt@ == user_prompt@,
        ctx.payloads@.len() == results@.len(),
        forall|i: int|
            0 <= i < results@.len() ==> (#[trigger] ctx.payloads@[i])@ == payload_text(
                results@[i],
            ),
{
    let mut payloads: Vec<String> = Vec::new();
    let mut i: usize = 0;
    while i < results.len()
        invariant
            i <= results@.len(),
            payloads@.len() == i,
            forall|k: int|
                0 <= k < i ==> (#[trigger] payloads@[k])@ == payload_text(results@[k]),
        decreases results@.len() - i,
    {
        let p = match &results[i].payload {
            Some(p) => p.clone(),
            None => {
                let s = String::from_str("{}");
                proof {
                    reveal_strlit("{}");
                    assert(s@ =~= placeholder_payload());
                }
                s
            },
        };
        payloads.push(p);
        i = i + 1;
    }
    Context { user_prompt: user_prompt.to_owned(), payloads }
}

} // verus!
