//! Collection lifecycle: making a named collection usable at the requested
//! dimension, recovering from any stale or incompatible prior state.
//!
//! The recovery is a two-step machine: attempt creation; if a collection of
//! that name already exists — whatever its dimension — delete it and create
//! anew. There is no third creation, and no path returns without the
//! collection standing at the requested dimension.
use vstd::prelude::*;

use crate::store::Collection;
use crate::store::StoreError;
use crate::store::VectorStore;
use crate::store::distinct_names;
use crate::store::spec_has;
use crate::store::spec_index_of;

verus! {

/// What [`ensure_collection`] leaves behind: the prior collection of that
/// name (if any) is gone, a fresh, empty collection of the requested name and
/// dimension stands at the end, and every other collection is untouched.
pub open spec fn ensure_post(
    old_s: Seq<Collection>,
    new_s: Seq<Collection>,
    name: Seq<char>,
    dimension: usize,
) -> bool {
    let base = if spec_has(old_s, name) {
        old_s.remove(spec_index_of(old_s, name))
    } else {
        old_s
    };
    &&& new_s.len() == base.len() + 1
    &&& forall|j: int| 0 <= j < base.len() ==> new_s[j] == base[j]
    &&& new_s.last().name@ == name
    &&& new_s.last().dimension == dimension
    &&& new_s.last().items@.len() == 0
}

/// Make the named collection exist, empty, at the requested dimension.
/// Creation is attempted once; if it fails because the name is taken, the
/// existing collection is deleted and the creation retried once. On this
/// store the deletion and the second creation cannot fail, so the call
/// always succeeds, whatever state a prior run left.
pub fn ensure_collection(store: &mut VectorStore, name: &str, dimension: usize) -> (r: Result<
    (),
    StoreError,
>)
    requires
        old(store).wf(),
    ensures
        final(store).wf(),
        r is Ok,
        ensure_post(old(store).collections@, final(store).collections@, name@, dimension),
{
    let ghost s0 = store.collections@;
    match store.create_collection(name, dimension) {
        Ok(()) => Ok(()),
        Err(_) => {
            // the name is taken: reset the existing collection
            proof {
                assert(spec_has(s0, name@));
            }
            let deleted = store.delete_collection(name);
            proof {
                assert(deleted is Ok);
                let idx = spec_index_of(s0, name@);
                let base = s0.remove(idx);
                assert forall|k: int| 0 <= k < base.len() implies (#[trigger] base[k].name@)
                    != name@ by {
                    let ok = if k < idx {
                        k
                    } else {
                        k + 1
                    };
                    assert(base[k] == s0[ok]);
                    assert(s0[idx].name@ == name@);
                }
                assert(!spec_has(base, name@));
            }
            let created = store.create_collection(name, dimension);
            proof {
                assert(created is Ok);
            }
            Ok(())
        },
    }
}

/// The states of the recovery machine, for driving a store that can fail:
/// attempt creation; on failure delete; on successful deletion create once
/// more; then stop, ready or failed.
#[derive(Clone, Copy, Debug, PartialEq, Eq, Structural)]
pub enum EnsureStep {
    /// About to attempt the first creation.
    AttemptCreate,
    /// The first creation failed: about to delete the existing collection.
    Cleanup,
    /// Deletion succeeded: about to attempt the second and last creation.
    Recreate,
    /// A creation succeeded: the collection is usable.
    Ready,
    /// Deletion or the second creation failed: fatal, nothing is retried.
    Failed,
}

/// What the application should do next in each state.
#[derive(Clone, Copy, Debug, PartialEq, Eq, Structural)]
pub enum StoreOp {
    /// Ask the store to create the collection at the requested dimension.
    CreateCollection,
    /// Ask the store to delete the collection.
    DeleteCollection,
    /// Done: the collection is usable.
    Finish,
    /// Done: surface a fatal error.
    Abort,
}

/// The operation each state calls for.
pub open spec fn spec_op(s: EnsureStep) -> StoreOp {
    match s {
        EnsureStep::AttemptCreate => StoreOp::CreateCollection,
        EnsureStep::Cleanup => StoreOp::DeleteCollection,
        EnsureStep::Recreate => StoreOp::CreateCollection,
        EnsureStep::Ready => StoreOp::Finish,
        EnsureStep::Failed => StoreOp::Abort,
    }
}

/// The transition on the outcome of the requested operation. Terminal states
/// stay put.
pub open spec fn spec_step(s: EnsureStep, ok: bool) -> EnsureStep {
    match s {
        EnsureStep::AttemptCreate => if ok {
            EnsureStep::Ready
        } else {
            EnsureStep::Cleanup
        },
        EnsureStep::Cleanup => if ok {
            EnsureStep::Recreate
        } else {
            EnsureStep::Failed
        },
        EnsureStep::Recreate => if ok {
            EnsureStep::Ready
        } else {
            EnsureStep::Failed
        },
        EnsureStep::Ready => EnsureStep::Ready,
        EnsureStep::Failed => EnsureStep::Failed,
    }
}

/// The decision core of collection recovery against an external store whose
/// creations and deletions can fail: the application performs the operation
/// that [`EnsureMachine::next_op`] names and reports the outcome to
/// [`EnsureMachine::on_result`].
pub struct EnsureMachine {
    pub step: EnsureStep,
}

impl EnsureMachine {
    pub fn new() -> (m: EnsureMachine)
        ensures
            m.step == EnsureStep::AttemptCreate,
    {
        EnsureMachine { step: EnsureStep::AttemptCreate }
    }

    /// What the application should do next.
    pub fn next_op(&self) -> (op: StoreOp)
        ensures
            op == spec_op(self.step),
    {
        match self.step {
            EnsureStep::AttemptCreate => StoreOp::CreateCollection,
            EnsureStep::Cleanup => StoreOp::DeleteCollection,
            EnsureStep::Recreate => StoreOp::CreateCollection,
            EnsureStep::Ready => StoreOp::Finish,
            EnsureStep::Failed => StoreOp::Abort,
        }
    }

    /// Report whether the requested operation succeeded.
    pub fn on_result(&mut self, ok: bool)
        ensures
            final(self).step == spec_step(old(self).step, ok),
    {
        self.step = match self.step {
            EnsureStep::AttemptCreate => if ok {
                EnsureStep::Ready
            } else {
                EnsureStep::Cleanup
            },
            EnsureStep::Cleanup => if ok {
                EnsureStep::Recreate
            } else {
                EnsureStep::Failed
            },
            EnsureStep::Recreate => if ok {
                EnsureStep::Ready
            } else {
                EnsureStep::Failed
            },
            EnsureStep::Ready => EnsureStep::Ready,
            EnsureStep::Failed => EnsureStep::Failed,
        };
    }
}

/// The state after a sequence of operation outcomes.
pub open spec fn run_steps(s: EnsureStep, evs: Seq<bool>) -> EnsureStep
    decreases evs.len(),
{
    if evs.len() == 0 {
        s
    } else {
        run_steps(spec_step(s, evs[0]), evs.skip(1))
    }
}

/// How many creations a run asks of the store: the number of consumed events
/// whose state called for `CreateCollection`.
pub open spec fn creations_asked(s: EnsureStep, evs: Seq<bool>) -> nat
    decreases evs.len(),
{
    if evs.len() == 0 {
        0
    } else {
        (if spec_op(s) == StoreOp::CreateCollection {
            1nat
        } else {
            0nat
        }) + creations_asked(spec_step(s, evs[0]), evs.skip(1))
    }
}

/// A terminal state asks for nothing more.
pub proof fn lemma_terminal_asks_nothing(s: EnsureStep, evs: Seq<bool>)
    requires
        s == EnsureStep::Ready || s == EnsureStep::Failed,
    ensures
        creations_asked(s, evs) == 0,
        run_steps(s, evs) == s,
    decreases evs.len(),
{
    if evs.len() > 0 {
        lemma_terminal_asks_nothing(s, evs.skip(1));
    }
}

/// There is no third creation: whatever outcomes the store reports, a run
/// from the start asks for at most two creations, and once `Ready` or
/// `Failed` is reached the machine never asks again.
pub proof fn lemma_no_third_creation(evs: Seq<bool>)
    ensures
        creations_asked(EnsureStep::AttemptCreate, evs) <= 2,
    decreases evs.len(),
{
    if evs.len() > 0 {
        let rest = evs.skip(1);
        if evs[0] {
            assert(spec_step(EnsureStep::AttemptCreate, evs[0]) == EnsureStep::Ready);
            lemma_terminal_asks_nothing(EnsureStep::Ready, rest);
            assert(creations_asked(EnsureStep::AttemptCreate, evs) == 1);
        } else {
            assert(spec_step(EnsureStep::AttemptCreate, evs[0]) == EnsureStep::Cleanup);
            assert(creations_asked(EnsureStep::AttemptCreate, evs) == 1 + creations_asked(
                EnsureStep::Cleanup,
                rest,
            ));
            // in Cleanup: one deletion outcome decides
            if rest.len() > 0 {
                assert(creations_asked(EnsureStep::Cleanup, rest) == creations_asked(
                    spec_step(EnsureStep::Cleanup, rest[0]),
                    rest.skip(1),
                ));
                if rest[0] {
                    lemma_recreate_asks_at_most_one(rest.skip(1));
                } else {
                    lemma_terminal_asks_nothing(EnsureStep::Failed, rest.skip(1));
                }
            }
        }
    }
}

pub proof fn lemma_recreate_asks_at_most_one(evs: Seq<bool>)
    ensures
        creations_asked(EnsureStep::Recreate, evs) <= 1,
    decreases evs.len(),
{
    if evs.len() > 0 {
        if evs[0] {
            lemma_terminal_asks_nothing(EnsureStep::Ready, evs.skip(1));
        } else {
            lemma_terminal_asks_nothing(EnsureStep::Failed, evs.skip(1));
        }
    }
}

/// Collection recovery is idempotent: a second `ensure_collection` with the
/// same name and dimension leaves the store looking exactly as the first one
/// did, and after either call the named collection is present, empty, and at
/// the requested dimension.
pub proof fn lemma_ensure_collection_idempotent(
    s0: Seq<Collection>,
    s1: Seq<Collection>,
    s2: Seq<Collection>,
    name: Seq<char>,
    dimension: usize,
)
    requires
        distinct_names(s0),
        distinct_names(s1),
        ensure_post(s0, s1, name, dimension),
        ensure_post(s1, s2, name, dimension),
    ensures
        s2.len() == s1.len(),
        forall|j: int|
            0 <= j < s1.len() ==> (#[trigger] s2[j]).name@ == s1[j].name@ && s2[j].dimension
                == s1[j].dimension && s2[j].items@ == s1[j].items@,
        spec_has(s1, name) && s1[spec_index_of(s1, name)].dimension == dimension && s1[spec_index_of(
            s1,
            name,
        )].items@.len() == 0,
        spec_has(s2, name) && s2[spec_index_of(s2, name)].dimension == dimension && s2[spec_index_of(
            s2,
            name,
        )].items@.len() == 0,
{
    let last1 = s1.len() - 1;
    assert(s1[last1].name@ == name);
    assert(spec_has(s1, name));
    let i1 = spec_index_of(s1, name);
    assert(0 <= i1 < s1.len() && s1[i1].name@ == name);
    if i1 != last1 {
        assert(s1[i1].name@ == s1[last1].name@);
        assert(false);
    }
    assert(s1.remove(last1) =~= s1.take(last1));
    // the second run removes exactly the collection the first run appended
    assert(s2.len() == last1 + 1);
    assert forall|j: int|
        0 <= j < s1.len() implies (#[trigger] s2[j]).name@ == s1[j].name@ && s2[j].dimension
        == s1[j].dimension && s2[j].items@ == s1[j].items@ by {
        if j < last1 {
            assert(s2[j] == s1.remove(last1)[j]);
            assert(s1.remove(last1)[j] == s1[j]);
        } else {
            assert(s2[j] == s2.last());
            assert(s2.last().items@ =~= s1[last1].items@);
        }
    }
    assert(s2[last1].name@ == name);
    assert(spec_has(s2, name));
    let i2 = spec_index_of(s2, name);
    assert(0 <= i2 < s2.len() && s2[i2].name@ == name);
    if i2 != last1 {
        assert(s2[i2].name@ == s1[i2].name@);
        assert(s1[i2].name@ == s1[last1].name@);
        assert(false);
    }
}

} // verus!
