//! The generation pipeline: a state machine over registered templates and a
//! loaded context.
//!
//! States: unconfigured, template registered, context loaded, executed.
//! `execute` demands a loaded context and a registered template of the given
//! name; running it without either is a usage error reported as a value,
//! never a crash. Rendering here is the part the orchestrator owns: the
//! rendered text is built from exactly the template body and the context's
//! fields (prompt, then payloads in rank order) and nothing else; a template
//! engine's substitution grammar, and the generative model the rendered
//! prompt is fed to, live outside this crate.
use vstd::prelude::*;

use crate::context::Context;
use crate::text::str_eq;

verus! {

/// Usage errors of the generation pipeline.
#[derive(Clone, Copy, Debug, PartialEq, Eq, Structural)]
pub enum PipelineError {
    /// `execute` named a template that was never registered.
    MissingTemplate,
    /// `execute` ran before any context was loaded.
    ContextNotLoaded,
}

/// A named template body.
pub struct Template {
    pub name: String,
    pub body: String,
}

/// The pipeline's answer: the rendered text.
pub struct GenerationResponse {
    pub content: String,
}

impl GenerationResponse {
    /// The response text.
    pub fn content(&self) -> (r: &str)
        ensures
            r@ == self.content@,
    {
        self.content.as_str()
    }
}

/// The payload excerpts of the rendered text: each payload on a line of its
/// own, in rank order.
pub open spec fn rendered_payloads(ps: Seq<Seq<char>>) -> Seq<char>
    decreases ps.len(),
{
    if ps.len() == 0 {
        Seq::empty()
    } else {
        seq!['\n'] + ps[0] + rendered_payloads(ps.skip(1))
    }
}

pub proof fn lemma_rendered_payloads_push(ps: Seq<Seq<char>>, x: Seq<char>)
    ensures
        rendered_payloads(ps.push(x)) == rendered_payloads(ps) + seq!['\n'] + x,
    decreases ps.len(),
{
    if ps.len() == 0 {
        assert(ps.push(x).len() == 1);
        assert(ps.push(x)[0] == x);
        assert(ps.push(x).skip(1) =~= Seq::<Seq<char>>::empty());
        assert(rendered_payloads(Seq::<Seq<char>>::empty()) == Seq::<char>::empty());
        assert(rendered_payloads(ps) == Seq::<char>::empty());
        assert(rendered_payloads(ps.push(x)) == seq!['\n'] + x + rendered_payloads(
            ps.push(x).skip(1),
        ));
        assert(seq!['\n'] + x + Seq::<char>::empty() =~= Seq::<char>::empty() + seq!['\n'] + x);
    } else {
        lemma_rendered_payloads_push(ps.skip(1), x);
        assert(ps.push(x).skip(1) =~= ps.skip(1).push(x));
        assert(ps.push(x)[0] == ps[0]);
        assert(seq!['\n'] + ps[0] + (rendered_payloads(ps.skip(1)) + seq!['\n'] + x) =~= (seq![
            '\n',
        ] + ps[0] + rendered_payloads(ps.skip(1))) + seq!['\n'] + x);
    }
}

/// What `execute` renders: the template body, then the user prompt, then the
/// payloads in rank order, each on its own line. Exactly the context's fields
/// appear; no other pipeline state reaches the rendered text.
pub open spec fn spec_rendered(
    body: Seq<char>,
    user_prompt: Seq<char>,
    payloads: Seq<Seq<char>>,
) -> Seq<char> {
    body + seq!['\n'] + user_prompt + rendered_payloads(payloads)
}

/// The views of a context's payload strings.
pub open spec fn payload_views(ps: Seq<String>) -> Seq<Seq<char>> {
    ps.map_values(|p: String| p@)
}

/// Index of the first template of the given name; `ts.len()` if none.
pub open spec fn spec_find_template(ts: Seq<Template>, name: Seq<char>) -> int
    decreases ts.len(),
{
    if ts.len() == 0 {
        0
    } else if ts[0].name@ == name {
        0
    } else {
        1 + spec_find_template(ts.skip(1), name)
    }
}

/// A template of the given name is registered.
pub open spec fn spec_has_template(ts: Seq<Template>, name: Seq<char>) -> bool {
    spec_find_template(ts, name) < ts.len()
}

/// `spec_find_template` is pinned by the first-occurrence characterization.
pub proof fn lemma_find_template_at(ts: Seq<Template>, name: Seq<char>, k: int)
    requires
        0 <= k <= ts.len(),
        forall|j: int| 0 <= j < k ==> (#[trigger] ts[j].name@) != name,
        k < ts.len() ==> ts[k].name@ == name,
    ensures
        spec_find_template(ts, name) == k,
    decreases k,
{
    if k == 0 {
    } else {
        assert(ts[0].name@ != name);
        lemma_find_template_at(ts.skip(1), name, k - 1);
    }
}

/// The generation pipeline: registered templates, and the loaded context once
/// `load_context` has run.
pub struct LLMPipeline {
    pub templates: Vec<Template>,
    pub context: Option<Context>,
}

impl LLMPipeline {
    /// An unconfigured pipeline: no templates, no context.
    pub fn new() -> (p: LLMPipeline)
        ensures
            p.templates@.len() == 0,
            p.context is None,
    {
        LLMPipeline { templates: Vec::new(), context: None }
    }

    /// Register a template body under a name. Registrations accumulate; the
    /// earliest registration of a name is the one `execute` uses.
    pub fn register_template(&mut self, name: &str, body: &str)
        ensures
            final(self).templates@.len() == old(self).templates@.len() + 1,
            forall|j: int|
                0 <= j < old(self).templates@.len() ==> final(self).templates@[j] == old(
                    self,
                ).templates@[j],
            final(self).templates@.last().name@ == name@,
            final(self).templates@.last().body@ == body@,
            final(self).context == old(self).context,
    {
        self.templates.push(Template { name: name.to_owned(), body: body.to_owned() });
    }

    /// Load the context the next execution will render. Replaces any
    /// previously loaded context; templates are untouched.
    pub fn load_context(&mut self, context: Context)
        ensures
            final(self).templates@ == old(self).templates@,
            final(self).context == Some(context),
    {
        self.context = Some(context);
    }

    /// Render the named template against the loaded context. Fails with
    /// `ContextNotLoaded` exactly when no context was loaded, and with
    /// `MissingTemplate` exactly when a context is loaded but no template of
    /// that name is registered; otherwise the response is the rendering
    /// pinned by [`spec_rendered`].
    pub fn execute(&self, template_name: &str) -> (r: Result<GenerationResponse, PipelineError>)
        ensures
            self.context is None ==> r == Err::<GenerationResponse, PipelineError>(
                PipelineError::ContextNotLoaded,
            ),
            self.context is Some && !spec_has_template(self.templates@, template_name@) ==> r
                == Err::<GenerationResponse, PipelineError>(PipelineError::MissingTemplate),
            self.context matches Some(ctx) ==> (spec_has_template(self.templates@, template_name@)
                ==> (r matches Ok(resp) && resp.content@ == spec_rendered(
                self.templates@[spec_find_template(self.templates@, template_name@)].body@,
                ctx.user_prompt@,
                payload_views(ctx.payloads@),
            ))),
    {
        let ctx = match &self.context {
            None => {
                return Err(PipelineError::ContextNotLoaded);
            },
            Some(ctx) => ctx,
        };
        let ghost ts = self.templates@;
        let mut m: usize = 0;
        while m < self.templates.len()
            invariant
                m <= ts.len(),
                forall|k: int| 0 <= k < m ==> (#[trigger] ts[k].name@) != template_name@,
            decreases ts.len() - m,
        {
            if str_eq(self.templates[m].name.as_str(), template_name) {
                proof {
                    lemma_find_template_at(ts, template_name@, m as int);
                }
                let body = &self.templates[m].body;
                let mut out = body.clone();
                let ghost pv = payload_views(ctx.payloads@);
                proof {
                    reveal_strlit("\n");
                }
                out.append("\n");
                out.append(ctx.user_prompt.as_str());
                proof {
                    assert(pv.take(0) =~= Seq::<Seq<char>>::empty());
                    assert(out@ =~= spec_rendered(body@, ctx.user_prompt@, pv.take(0)));
                }
                let mut i: usize = 0;
                while i < ctx.payloads.len()
                    invariant
                        i <= ctx.payloads@.len(),
                        out@ == spec_rendered(body@, ctx.user_prompt@, pv.take(i as int)),
                    decreases ctx.payloads@.len() - i,
                {
                    proof {
                        reveal_strlit("\n");
                        lemma_rendered_payloads_push(pv.take(i as int), pv[i as int]);
                        assert(pv.take(i + 1) =~= pv.take(i as int).push(pv[i as int]));
                    }
                    out.append("\n");
                    out.append(ctx.payloads[i].as_str());
                    proof {
                        assert(out@ =~= spec_rendered(body@, ctx.user_prompt@, pv.take(i + 1)));
                    }
                    i = i + 1;
                }
                proof {
                    assert(pv.take(ctx.payloads@.len() as int) =~= pv);
                }
                return Ok(GenerationResponse { content: out });
            }
            m = m + 1;
        }
        proof {
            lemma_find_template_at(ts, template_name@, ts.len() as int);
        }
        Err(PipelineError::MissingTemplate)
    }
}

} // verus!
