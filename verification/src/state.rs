//! Bookkeeping of the build engine: revisions, what is stored for each key,
//! how the outcome of a build becomes the stored record and the value handed
//! to dependents, and how the outcomes of a key's dependencies decide whether
//! the key must be rebuilt.
use std::cmp::Ordering;
use vstd::prelude::*;
use vstd::std_specs::cmp::PartialOrdSpec;

verus! {

/// A revision of the build, ordered by its number.
#[derive(Debug, Eq, PartialEq, Structural, Clone, Copy)]
pub struct Rev(pub i64);

/// The name of something that can be built.
#[derive(Hash, Eq, PartialEq, Structural, Clone, Debug, Copy)]
pub struct Key(pub i64);

/// Which builder builds a key.
#[derive(Debug, Clone, Copy, PartialEq, Eq, Structural)]
pub struct KeyTypeId(pub i64);

impl PartialOrd for Rev {
    fn partial_cmp(&self, other: &Self) -> (r: Option<Ordering>) {
        self.0.partial_cmp(&other.0)
    }
}

impl vstd::std_specs::cmp::PartialOrdSpecImpl for Rev {
    open spec fn obeys_partial_cmp_spec() -> bool {
        true
    }

    open spec fn partial_cmp_spec(&self, other: &Self) -> Option<Ordering> {
        vstd::std_specs::cmp::PartialOrdSpec::partial_cmp_spec(&self.0, &other.0)
    }
}

/// Revisions are ordered as their numbers are: comparing `Rev(a)` with
/// `Rev(b)` gives `Less` exactly when `a < b`, `Equal` exactly when `a == b`
/// and `Greater` exactly when `a > b`, and `partial_cmp` returns that.
pub proof fn lemma_rev_order(a: i64, b: i64)
    ensures
        Rev::obeys_partial_cmp_spec(),
        PartialOrdSpec::partial_cmp_spec(&Rev(a), &Rev(b)) == Some(Ordering::Less) <==> a < b,
        PartialOrdSpec::partial_cmp_spec(&Rev(a), &Rev(b)) == Some(Ordering::Equal) <==> a == b,
        PartialOrdSpec::partial_cmp_spec(&Rev(a), &Rev(b)) == Some(Ordering::Greater) <==> a > b,
{
}

/// What a finished build hands to the keys that depend on it.
#[derive(Debug, Clone)]
pub struct Value<T> {
    /// The revision at which the built thing last changed.
    pub changed: Rev,
    /// The built thing.
    pub value: T,
}

/// What is recorded for a key between builds.
pub struct Stored {
    /// The revision of the last build that completed.
    pub built: Rev,
    /// The revision at which the built thing last changed.
    pub changed: Rev,
    /// Which builder builds the key.
    pub kty: KeyTypeId,
    /// Whether the last build attempt failed.
    pub failed: bool,
    /// What the builder recorded to tell one result from another.
    pub witness: Vec<u8>,
    /// The dependencies of the last completed build: groups waited for one
    /// after another, each group's members waited for together.
    pub depends: Vec<Vec<Key>>,
}

/// What a builder reports about the thing it was asked for.
pub enum Answer {
    /// Nothing had to be done: the stored thing still holds.
    DidNotNeedToRecompute,
    /// The thing was rebuilt and differs from the stored one; the new witness.
    RecomputedDifferent(Vec<u8>),
    /// The thing was rebuilt and equals the stored one.
    RecomputedSame,
}

/// The outcome of running the builder of a key.
pub enum BuildResult<T, E> {
    /// A dependency failed, so the builder did not complete.
    DependencyFailed,
    /// The builder completed: its answer, the thing and the dependencies it
    /// recorded, or its error.
    Completed(Result<(Answer, T, Vec<Vec<Key>>), E>),
}

/// Whether a key's dependencies changed since the key was last built.
#[derive(Debug, Clone, Copy, PartialEq, Eq, Structural)]
pub enum DependencyStatus {
    Changed,
    Same,
    Failed,
}

/// A dependency of the key failed to build.
#[derive(Debug, Clone, Copy, PartialEq, Eq, Structural)]
pub struct DependencyFailed;

/// Why an update of a key produced no value.
#[derive(Debug)]
pub enum UpdateError<E> {
    /// A dependency failed; nothing is recorded for the key.
    DependencyFailed(DependencyFailed),
    /// The builder failed with this error.
    Failed(E),
}

/// Turns the outcome of building a key at revision `current` into the value
/// handed to dependents and the record to store for the key (`None`: nothing
/// is to be stored).
///
/// A rebuilt thing that differs is marked changed at `current`; one that did
/// not change keeps the revision at which it last changed. The dependencies
/// recorded by the builder replace the stored ones only when the thing was
/// recomputed. A failed build keeps the old record and marks it failed.
pub fn settle_build<T, E>(current: Rev, old: Stored, result: BuildResult<T, E>) -> (out: (
    Result<Value<T>, UpdateError<E>>,
    Option<Stored>,
))
    ensures
        result is DependencyFailed ==> out.0 == Err::<Value<T>, UpdateError<E>>(
            UpdateError::DependencyFailed(DependencyFailed),
        ) && out.1 is None,
        result is Completed ==> out.1 is Some && out.1.unwrap().kty == old.kty,
        result matches BuildResult::Completed(Err(err)) ==> {
            &&& out.0 == Err::<Value<T>, UpdateError<E>>(UpdateError::Failed(err))
            &&& out.1.unwrap().failed
            &&& out.1.unwrap().built == old.built
            &&& out.1.unwrap().changed == old.changed
            &&& out.1.unwrap().witness == old.witness
            &&& out.1.unwrap().depends == old.depends
        },
        result matches BuildResult::Completed(Ok((answer, thing, depends))) ==> {
            &&& !out.1.unwrap().failed
            &&& out.1.unwrap().built == current
            &&& out.0 == Ok::<Value<T>, UpdateError<E>>(
                Value { changed: out.1.unwrap().changed, value: thing },
            )
            &&& out.1.unwrap().changed == if answer is RecomputedDifferent {
                current
            } else {
                old.changed
            }
            &&& out.1.unwrap().witness == match answer {
                Answer::RecomputedDifferent(witness) => witness,
                _ => old.witness,
            }
            &&& out.1.unwrap().depends == if answer is DidNotNeedToRecompute {
                old.depends
            } else {
                depends
            }
        },
{
    match result {
        BuildResult::DependencyFailed => (Err(UpdateError::DependencyFailed(DependencyFailed)), None),
        BuildResult::Completed(Err(err)) => (
            Err(UpdateError::Failed(err)),
            Some(
                Stored {
                    built: old.built,
                    changed: old.changed,
                    kty: old.kty,
                    failed: true,
                    witness: old.witness,
                    depends: old.depends,
                },
            ),
        ),
        BuildResult::Completed(Ok((answer, thing, depends))) => match answer {
            Answer::RecomputedDifferent(witness) => (
                Ok(Value { changed: current, value: thing }),
                Some(
                    Stored {
                        built: current,
                        changed: current,
                        kty: old.kty,
                        failed: false,
                        witness,
                        depends,
                    },
                ),
            ),
            Answer::RecomputedSame => (
                Ok(Value { changed: old.changed, value: thing }),
                Some(
                    Stored {
                        built: current,
                        changed: old.changed,
                        kty: old.kty,
                        failed: false,
                        witness: old.witness,
                        depends,
                    },
                ),
            ),
            Answer::DidNotNeedToRecompute => (
                Ok(Value { changed: old.changed, value: thing }),
                Some(
                    Stored {
                        built: current,
                        changed: old.changed,
                        kty: old.kty,
                        failed: false,
                        witness: old.witness,
                        depends: old.depends,
                    },
                ),
            ),
        },
    }
}

// ---------------------------------------------------------------------------
// Checking the dependencies of a key.
// ---------------------------------------------------------------------------

/// What the outcome of one dependency (the revision at which it last changed,
/// or its failure) decides for a key last built at `built`: `None` when it
/// decides nothing.
pub open spec fn outcome_verdict(built: Rev, outcome: Result<Rev, ()>) -> Option<DependencyStatus> {
    match outcome {
        Ok(changed) => if changed.0 > built.0 {
            Some(DependencyStatus::Changed)
        } else {
            None
        },
        Err(_) => Some(DependencyStatus::Failed),
    }
}

/// The verdict of the first outcome that decides something, among outcomes
/// in the order they were observed.
pub open spec fn first_verdict(built: Rev, seen: Seq<Result<Rev, ()>>) -> Option<
    DependencyStatus,
>
    decreases seen.len(),
{
    if seen.len() == 0 {
        None
    } else {
        let earlier = first_verdict(built, seen.drop_last());
        if earlier is Some {
            earlier
        } else {
            outcome_verdict(built, seen.last())
        }
    }
}

/// The status of a key's dependencies once these outcomes were observed:
/// the first deciding verdict, or `Same` when none decided anything.
pub open spec fn check_status(built: Rev, seen: Seq<Result<Rev, ()>>) -> DependencyStatus {
    match first_verdict(built, seen) {
        Some(status) => status,
        None => DependencyStatus::Same,
    }
}

/// The first deciding outcome decides: the verdict of observed outcomes is
/// that of the earliest outcome that decides anything, and no verdict means
/// that no outcome decided anything.
pub proof fn lemma_first_verdict_is_earliest(built: Rev, seen: Seq<Result<Rev, ()>>)
    ensures
        first_verdict(built, seen) is None <==> forall|i: int|
            0 <= i < seen.len() ==> (#[trigger] outcome_verdict(built, seen[i])) is None,
        first_verdict(built, seen) is Some ==> exists|i: int|
            0 <= i < seen.len() && outcome_verdict(built, seen[i]) == first_verdict(built, seen)
                && forall|j: int|
                0 <= j < i ==> (#[trigger] outcome_verdict(built, seen[j])) is None,
    decreases seen.len(),
{
    if seen.len() > 0 {
        let prev = seen.drop_last();
        lemma_first_verdict_is_earliest(built, prev);
        assert(forall|i: int| 0 <= i < prev.len() ==> prev[i] == seen[i]);
        if first_verdict(built, prev) is Some {
            let i = choose|i: int|
                0 <= i < prev.len() && outcome_verdict(built, prev[i]) == first_verdict(built, prev)
                    && forall|j: int|
                    0 <= j < i ==> (#[trigger] outcome_verdict(built, prev[j])) is None;
            assert(outcome_verdict(built, seen[i]) == first_verdict(built, seen));
            assert forall|j: int| 0 <= j < i implies (#[trigger] outcome_verdict(
                built,
                seen[j],
            )) is None by {
                assert(prev[j] == seen[j]);
            }
        } else {
            let n = seen.len() - 1;
            if outcome_verdict(built, seen[n]) is Some {
                assert forall|j: int| 0 <= j < n implies (#[trigger] outcome_verdict(
                    built,
                    seen[j],
                )) is None by {
                    assert(prev[j] == seen[j]);
                }
            } else {
                assert forall|i: int| 0 <= i < seen.len() implies (#[trigger] outcome_verdict(
                    built,
                    seen[i],
                )) is None by {
                    if i < n {
                        assert(prev[i] == seen[i]);
                    }
                }
            }
        }
    }
}

/// The dependencies of a key are the same exactly when every observed
/// dependency succeeded and none changed after the key was last built.
pub proof fn lemma_same_iff_all_unchanged(built: Rev, seen: Seq<Result<Rev, ()>>)
    ensures
        check_status(built, seen) == DependencyStatus::Same <==> forall|i: int|
            0 <= i < seen.len() ==> (#[trigger] seen[i] matches Ok(changed) && changed.0
                <= built.0),
{
    lemma_first_verdict_is_earliest(built, seen);
    if check_status(built, seen) == DependencyStatus::Same {
        if first_verdict(built, seen) is Some {
            let i = choose|i: int|
                0 <= i < seen.len() && outcome_verdict(built, seen[i]) == first_verdict(built, seen)
                    && forall|j: int|
                    0 <= j < i ==> (#[trigger] outcome_verdict(built, seen[j])) is None;
            assert(outcome_verdict(built, seen[i]) != Some(DependencyStatus::Same));
        }
        assert forall|i: int| 0 <= i < seen.len() implies (#[trigger] seen[i] matches Ok(
            changed,
        ) && changed.0 <= built.0) by {
            assert(outcome_verdict(built, seen[i]) is None);
        }
    } else {
        assert(first_verdict(built, seen) is Some);
        let i = choose|i: int|
            0 <= i < seen.len() && outcome_verdict(built, seen[i]) == first_verdict(built, seen)
                && forall|j: int|
                0 <= j < i ==> (#[trigger] outcome_verdict(built, seen[j])) is None;
        assert(!(seen[i] matches Ok(changed) && changed.0 <= built.0));
    }
}

/// What observed outcomes decide, in terms of the outcomes themselves: call
/// an outcome deciding when it is an error or a revision later than `built`.
/// With no deciding outcome there is no verdict (the status is `Same`);
/// otherwise the earliest deciding outcome gives `Changed` when it is a later
/// revision and `Failed` when it is an error.
pub proof fn lemma_verdict_by_earliest_deciding(built: Rev, seen: Seq<Result<Rev, ()>>)
    ensures
        first_verdict(built, seen) is None <==> forall|i: int|
            0 <= i < seen.len() ==> (#[trigger] seen[i] matches Ok(c) && c.0 <= built.0),
        first_verdict(built, seen) == Some(DependencyStatus::Changed) <==> exists|i: int|
            0 <= i < seen.len() && (#[trigger] seen[i] matches Ok(c) && c.0 > built.0) && forall|
                j: int,
            |
                0 <= j < i ==> (#[trigger] seen[j] matches Ok(c) && c.0 <= built.0),
        first_verdict(built, seen) == Some(DependencyStatus::Failed) <==> exists|i: int|
            0 <= i < seen.len() && (#[trigger] seen[i] is Err) && forall|j: int|
                0 <= j < i ==> (#[trigger] seen[j] matches Ok(c) && c.0 <= built.0),
        check_status(built, seen) == DependencyStatus::Changed <==> first_verdict(built, seen)
            == Some(DependencyStatus::Changed),
        check_status(built, seen) == DependencyStatus::Failed <==> first_verdict(built, seen)
            == Some(DependencyStatus::Failed),
{
    lemma_first_verdict_is_earliest(built, seen);
    assert forall|i: int| 0 <= i < seen.len() implies ((outcome_verdict(built, seen[i]) is None)
        <==> (#[trigger] seen[i] matches Ok(c) && c.0 <= built.0)) && (outcome_verdict(
        built,
        seen[i],
    ) == Some(DependencyStatus::Changed) <==> (seen[i] matches Ok(c) && c.0 > built.0)) && (
    outcome_verdict(built, seen[i]) == Some(DependencyStatus::Failed) <==> seen[i] is Err) by {}
    if first_verdict(built, seen) is Some {
        let i = choose|i: int|
            0 <= i < seen.len() && outcome_verdict(built, seen[i]) == first_verdict(built, seen)
                && forall|j: int|
                0 <= j < i ==> (#[trigger] outcome_verdict(built, seen[j])) is None;
        assert forall|i2: int|
            0 <= i2 < seen.len() && (outcome_verdict(built, seen[i2]) is Some) && forall|j: int|
                0 <= j < i2 ==> (#[trigger] outcome_verdict(built, seen[j])) is None implies i2
            == i by {
            if i2 < i {
                assert(outcome_verdict(built, seen[i2]) is None);
            }
            if i < i2 {
                assert(outcome_verdict(built, seen[i]) is None);
            }
        }
    }
}

/// The check of a key's dependencies, fed with their outcomes one by one in
/// the order in which they finish.
pub struct DependencyCheck {
    built: Rev,
    verdict: Option<DependencyStatus>,
    seen: Ghost<Seq<Result<Rev, ()>>>,
}

impl DependencyCheck {
    /// The revision at which the key was last built.
    pub closed spec fn built(&self) -> Rev {
        self.built
    }

    /// The outcomes observed so far, in order.
    pub closed spec fn seen(&self) -> Seq<Result<Rev, ()>> {
        self.seen@
    }

    #[verifier::type_invariant]
    spec fn verdict_agrees(&self) -> bool {
        self.verdict == first_verdict(self.built, self.seen@)
    }

    /// A check for a key last built at `built`, with nothing observed yet.
    pub fn new(built: Rev) -> (check: DependencyCheck)
        ensures
            check.built() == built,
            check.seen() == Seq::<Result<Rev, ()>>::empty(),
    {
        DependencyCheck { built, verdict: None, seen: Ghost(Seq::empty()) }
    }

    /// Records the outcome of one dependency; returns the status once the
    /// outcomes observed so far decide it (the caller then stops waiting).
    pub fn observe(&mut self, outcome: Result<Rev, ()>) -> (step: Option<DependencyStatus>)
        ensures
            final(self).built() == old(self).built(),
            final(self).seen() == old(self).seen().push(outcome),
            step == first_verdict(final(self).built(), final(self).seen()),
    {
        proof {
            use_type_invariant(&*self);
        }
        let ghost seen = self.seen@.push(outcome);
        assert(seen.drop_last() =~= self.seen@);
        let verdict = match self.verdict {
            Some(status) => Some(status),
            None => match outcome {
                Ok(changed) => if changed > self.built {
                    Some(DependencyStatus::Changed)
                } else {
                    None
                },
                Err(()) => Some(DependencyStatus::Failed),
            },
        };
        *self = DependencyCheck { built: self.built, verdict, seen: Ghost(seen) };
        verdict
    }

    /// The status of the dependencies given the outcomes observed so far.
    pub fn status(&self) -> (status: DependencyStatus)
        ensures
            status == check_status(self.built(), self.seen()),
    {
        proof {
            use_type_invariant(self);
        }
        match self.verdict {
            Some(status) => status,
            None => DependencyStatus::Same,
        }
    }
}

// ---------------------------------------------------------------------------
// The state of a key in the table of keys being built.
// ---------------------------------------------------------------------------

/// Where a key stands: being built (with what wakes those waiting for it), or
/// finished with its value or error.
#[derive(Debug)]
pub enum Status<N, T, E> {
    Running(N),
    Finished(Result<Value<T>, E>),
}

/// What a lookup of a key in the table decides: wait for the key's build
/// with this, or take the outcome of the finished key.
pub enum Lookup<N, T> {
    Wait(N),
    Ready(Result<Value<T>, ()>),
}

impl<N: Clone, T: Clone, E> Status<N, T, E> {
    /// What a caller that finds the key in this state does: a running key is
    /// waited for (with a copy of what wakes its waiters); a finished one
    /// hands out its outcome.
    pub fn on_lookup(&self) -> (decision: Lookup<N, T>)
        ensures
            self matches Status::Running(n) ==> decision matches Lookup::Wait(w) && cloned(*n, w),
            self matches Status::Finished(Err(_)) ==> decision == Lookup::Ready::<N, T>(
                Err::<Value<T>, ()>(()),
            ),
            self matches Status::Finished(Ok(v)) ==> decision matches Lookup::Ready(Ok(c))
                && c.changed == v.changed && cloned(v.value, c.value),
    {
        match self {
            Status::Running(notify) => Lookup::Wait(notify.clone()),
            Status::Finished(Ok(v)) => Lookup::Ready(
                Ok(Value { changed: v.changed, value: v.value.clone() }),
            ),
            Status::Finished(Err(_)) => Lookup::Ready(Err(())),
        }
    }
}

impl<N, T: Clone, E> Status<N, T, E> {
    /// What a finished key hands to those waiting for it: a copy of its value,
    /// or the bare fact of its failure; `None` while the key is still running.
    pub fn outcome(&self) -> (out: Option<Result<Value<T>, ()>>)
        ensures
            self is Running ==> out is None,
            self matches Status::Finished(Err(_)) ==> out == Some(Err::<Value<T>, ()>(())),
            self matches Status::Finished(Ok(v)) ==> out matches Some(Ok(c)) && c.changed
                == v.changed && cloned(v.value, c.value),
    {
        match self {
            Status::Running(_) => None,
            Status::Finished(Ok(v)) => Some(Ok(Value { changed: v.changed, value: v.value.clone() })),
            Status::Finished(Err(_)) => Some(Err(())),
        }
    }
}

/// `tokio::sync::oneshot::Sender`, the sending half of a one-shot channel,
/// declared so that a context can hold one; nothing is claimed of it.
#[verifier::external_type_specification]
#[verifier::external_body]
#[verifier::reject_recursive_types(T)]
pub struct ExOneshotSender<T>(tokio::sync::oneshot::Sender<T>);

/// What a builder is given while it builds a key: the way to report that a
/// dependency failed, and the dependencies it has recorded.
pub struct Context {
    sender: tokio::sync::oneshot::Sender<()>,
    depends: Vec<Vec<Key>>,
}

impl Context {
    /// The dependencies recorded so far.
    pub closed spec fn recorded(&self) -> Seq<Vec<Key>> {
        self.depends@
    }

    /// The channel on which a failed dependency is reported.
    pub closed spec fn failure_sender(&self) -> tokio::sync::oneshot::Sender<()> {
        self.sender
    }

    /// A context with no dependency recorded yet.
    pub fn new(sender: tokio::sync::oneshot::Sender<()>) -> (ctx: Context)
        ensures
            ctx.recorded() == Seq::<Vec<Key>>::empty(),
            ctx.failure_sender() == sender,
    {
        Context { sender, depends: Vec::new() }
    }

    /// Records a group of dependencies that the builder waits for together.
    pub fn record(&mut self, group: Vec<Key>)
        ensures
            final(self).recorded() == old(self).recorded().push(group),
            final(self).failure_sender() == old(self).failure_sender(),
    {
        self.depends.push(group);
    }

    /// The dependencies recorded, in order; the context is used up.
    pub fn into_depends(self) -> (depends: Vec<Vec<Key>>)
        ensures
            depends@ == self.recorded(),
    {
        self.depends
    }
}

} // verus!
