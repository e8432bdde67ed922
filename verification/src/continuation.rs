use vstd::prelude::*;

verus! {

/// A reusable two-state suspend/resume computation value: finished with an
/// output, or stuck needing outside values before it can go on.  The value is
/// inert data, not an active task: a driver resumes it, synchronously or not.
pub enum ContinuationResult<C: Continuation> {
    Done(C::Output),
    Stuck(Box<C>, C::Needed),
}

/// A paused computation.  Resuming must behave as a relation on the paused
/// state and the found values alone — no hidden external mutable state — and
/// each resumption consumes pending work, so that every drive is finite.
pub trait Continuation: Sized {
    type Output;

    type Needed;

    type Found;

    /// What resuming with given found values may yield.
    spec fn step_ok(self, found: Self::Found, r: ContinuationResult<Self>) -> bool;

    /// How much work can still be pending.
    spec fn pending(&self) -> nat;

    fn continue_after(self, found: Self::Found) -> (r: ContinuationResult<Self>)
        ensures
            self.step_ok(found, r),
            r matches ContinuationResult::Stuck(c, n) ==> c.pending() < self.pending(),
    ;
}

/// Answers a stuck computation's requests.  The provider decides how to
/// batch, cache or fail a request; a failed or absent answer is representable
/// in the found values and is treated by the resumed computation as "not
/// found", never as a crash.
pub trait Provider {
    type Needed;

    type Found;

    /// What this provider may answer for a request.
    spec fn provide_ok(&self, needed: Self::Needed, found: Self::Found) -> bool;

    fn provide(&self, needed: Self::Needed) -> (r: Self::Found)
        ensures
            self.provide_ok(needed, r),
    ;
}

/// A provider that is also handed mutable access to the paused computation's
/// context while answering.  It must hand back at least as much progress as
/// it found: pending work never grows under its hands.
pub trait ProviderWith {
    type Needed;

    type Found;

    type Context: Continuation;

    /// What this provider may answer, relating the context before and after.
    spec fn provide_ok(
        &self,
        before: Self::Context,
        after: Self::Context,
        needed: Self::Needed,
        found: Self::Found,
    ) -> bool;

    fn provide(&self, context: &mut Self::Context, needed: Self::Needed) -> (r: Self::Found)
        ensures
            self.provide_ok(*old(context), *final(context), needed, r),
            final(context).pending() <= old(context).pending(),
    ;
}

/// One drive of a computation: at each stuck point the request matched the
/// needed values, the answer was a permitted one, and the recorded resumption
/// was a permitted step; the last state is done with the output.
pub open spec fn run_trace<C: Continuation>(
    r0: ContinuationResult<C>,
    steps: Seq<(C::Needed, C::Found, ContinuationResult<C>)>,
    out: C::Output,
) -> bool
    decreases steps.len(),
{
    match r0 {
        ContinuationResult::Done(o) => steps.len() == 0 && o == out,
        ContinuationResult::Stuck(c, n) => steps.len() > 0 && steps[0].0 == n && (*c).step_ok(
            steps[0].1,
            steps[0].2,
        ) && run_trace(steps[0].2, steps.drop_first(), out),
    }
}

/// A drive observed so far: from `r0` through the recorded steps to `r1`.
pub open spec fn trace_to<C: Continuation>(
    r0: ContinuationResult<C>,
    steps: Seq<(C::Needed, C::Found, ContinuationResult<C>)>,
    r1: ContinuationResult<C>,
) -> bool
    decreases steps.len(),
{
    if steps.len() == 0 {
        r0 == r1
    } else {
        r0 matches ContinuationResult::Stuck(c, n) && steps[0].0 == n && (*c).step_ok(
            steps[0].1,
            steps[0].2,
        ) && trace_to(steps[0].2, steps.drop_first(), r1)
    }
}

proof fn lemma_trace_to_done<C: Continuation>(
    r0: ContinuationResult<C>,
    steps: Seq<(C::Needed, C::Found, ContinuationResult<C>)>,
    out: C::Output,
)
    requires
        trace_to(r0, steps, ContinuationResult::Done(out)),
    ensures
        run_trace(r0, steps, out),
    decreases steps.len(),
{
    if steps.len() > 0 {
        lemma_trace_to_done(steps[0].2, steps.drop_first(), out);
    }
}

proof fn lemma_trace_to_snoc<C: Continuation>(
    r0: ContinuationResult<C>,
    steps: Seq<(C::Needed, C::Found, ContinuationResult<C>)>,
    c: Box<C>,
    n: C::Needed,
    found: C::Found,
    r2: ContinuationResult<C>,
)
    requires
        trace_to(r0, steps, ContinuationResult::Stuck(c, n)),
        (*c).step_ok(found, r2),
    ensures
        trace_to(r0, steps.push((n, found, r2)), r2),
    decreases steps.len(),
{
    if steps.len() == 0 {
        assert(steps.push((n, found, r2))[0] == (n, found, r2));
        assert(steps.push((n, found, r2)).drop_first() =~= Seq::<
            (C::Needed, C::Found, ContinuationResult<C>),
        >::empty());
        assert(trace_to(r2, steps.push((n, found, r2)).drop_first(), r2));
    } else {
        assert(steps.push((n, found, r2))[0] == steps[0]);
        assert(steps.push((n, found, r2)).drop_first() =~= steps.drop_first().push(
            (n, found, r2),
        ));
        lemma_trace_to_snoc(steps[0].2, steps.drop_first(), c, n, found, r2);
    }
}

/// The pending work of a paused or finished computation.
pub open spec fn result_pending<C: Continuation>(r: ContinuationResult<C>) -> nat {
    match r {
        ContinuationResult::Done(_) => 0,
        ContinuationResult::Stuck(c, _) => c.pending() + 1,
    }
}

impl<C: Continuation> ContinuationResult<C> {
    /// Drive to completion with an object-style provider.
    pub fn consume<P>(self, p: P) -> (out: C::Output) where
        P: Provider<Needed = C::Needed, Found = C::Found>,

        ensures
            exists|steps: Seq<(C::Needed, C::Found, ContinuationResult<C>)>|
                {
                    &&& forall|i: int|
                        0 <= i < steps.len() ==> p.provide_ok(
                            (#[trigger] steps[i]).0,
                            steps[i].1,
                        )
                    &&& run_trace(self, steps, out)
                },
    {
        let ghost mut steps: Seq<(C::Needed, C::Found, ContinuationResult<C>)> = Seq::empty();
        let mut cur = self;
        loop
            invariant
                trace_to(self, steps, cur),
                forall|i: int|
                    0 <= i < steps.len() ==> p.provide_ok((#[trigger] steps[i]).0, steps[i].1),
            decreases result_pending(cur),
        {
            match cur {
                ContinuationResult::Done(o) => {
                    proof {
                        lemma_trace_to_done(self, steps, o);
                    }
                    return o;
                },
                ContinuationResult::Stuck(ic, needed) => {
                    let ghost gneeded = needed;
                    let ghost gc = ic;
                    let found = p.provide(needed);
                    let ghost gfound = found;
                    let next = (*ic).continue_after(found);
                    proof {
                        lemma_trace_to_snoc(self, steps, gc, gneeded, gfound, next);
                        steps = steps.push((gneeded, gfound, next));
                    }
                    cur = next;
                },
            }
        }
    }

    /// Drive to completion with a plain function.
    pub fn consume_fn<F>(self, f: F) -> (out: C::Output) where F: Fn(C::Needed) -> C::Found
        requires
            forall|n: C::Needed| #[trigger] call_requires(f, (n,)),
        ensures
            exists|steps: Seq<(C::Needed, C::Found, ContinuationResult<C>)>|
                {
                    &&& forall|i: int|
                        0 <= i < steps.len() ==> call_ensures(
                            f,
                            ((#[trigger] steps[i]).0,),
                            steps[i].1,
                        )
                    &&& run_trace(self, steps, out)
                },
    {
        let ghost mut steps: Seq<(C::Needed, C::Found, ContinuationResult<C>)> = Seq::empty();
        let mut cur = self;
        loop
            invariant
                forall|n: C::Needed| #[trigger] call_requires(f, (n,)),
                trace_to(self, steps, cur),
                forall|i: int|
                    0 <= i < steps.len() ==> call_ensures(f, ((#[trigger] steps[i]).0,), steps[i].1),
            decreases result_pending(cur),
        {
            match cur {
                ContinuationResult::Done(o) => {
                    proof {
                        lemma_trace_to_done(self, steps, o);
                    }
                    return o;
                },
                ContinuationResult::Stuck(ic, needed) => {
                    let ghost gneeded = needed;
                    let ghost gc = ic;
                    let found = f(needed);
                    let ghost gfound = found;
                    let next = (*ic).continue_after(found);
                    proof {
                        lemma_trace_to_snoc(self, steps, gc, gneeded, gfound, next);
                        steps = steps.push((gneeded, gfound, next));
                    }
                    cur = next;
                },
            }
        }
    }

    /// Drive to completion with a provider that may also adjust the paused
    /// computation's context while answering.
    pub fn consume_with<P>(self, p: P) -> (out: C::Output) where
        P: ProviderWith<Needed = C::Needed, Found = C::Found, Context = C>,

        ensures
            exists|steps: Seq<(C, C, C::Needed, C::Found, ContinuationResult<C>)>|
                {
                    &&& forall|i: int|
                        0 <= i < steps.len() ==> p.provide_ok(
                            (#[trigger] steps[i]).0,
                            steps[i].1,
                            steps[i].2,
                            steps[i].3,
                        )
                    &&& with_trace(self, steps, out)
                },
    {
        let ghost mut steps: Seq<(C, C, C::Needed, C::Found, ContinuationResult<C>)> =
            Seq::empty();
        let mut cur = self;
        loop
            invariant
                with_trace_to(self, steps, cur),
                forall|i: int|
                    0 <= i < steps.len() ==> p.provide_ok(
                        (#[trigger] steps[i]).0,
                        steps[i].1,
                        steps[i].2,
                        steps[i].3,
                    ),
            decreases result_pending(cur),
        {
            match cur {
                ContinuationResult::Done(o) => {
                    proof {
                        lemma_with_trace_to_done(self, steps, o);
                    }
                    return o;
                },
                ContinuationResult::Stuck(ic, needed) => {
                    let ghost gneeded = needed;
                    let ghost gc = ic;
                    let mut context: C = *ic;
                    let found = p.provide(&mut context, needed);
                    let ghost after = context;
                    let ghost gfound = found;
                    let next = context.continue_after(found);
                    proof {
                        lemma_with_trace_to_snoc(self, steps, gc, after, gneeded, gfound, next);
                        steps = steps.push((*gc, after, gneeded, gfound, next));
                    }
                    cur = next;
                },
            }
        }
    }
}

/// One drive where each answer may also have adjusted the paused context:
/// before-state, after-state, request, answer, and the permitted resumption.
pub open spec fn with_trace<C: Continuation>(
    r0: ContinuationResult<C>,
    steps: Seq<(C, C, C::Needed, C::Found, ContinuationResult<C>)>,
    out: C::Output,
) -> bool
    decreases steps.len(),
{
    match r0 {
        ContinuationResult::Done(o) => steps.len() == 0 && o == out,
        ContinuationResult::Stuck(c, n) => steps.len() > 0 && steps[0].0 == *c && steps[0].2 == n
            && steps[0].1.step_ok(steps[0].3, steps[0].4) && with_trace(
            steps[0].4,
            steps.drop_first(),
            out,
        ),
    }
}

pub open spec fn with_trace_to<C: Continuation>(
    r0: ContinuationResult<C>,
    steps: Seq<(C, C, C::Needed, C::Found, ContinuationResult<C>)>,
    r1: ContinuationResult<C>,
) -> bool
    decreases steps.len(),
{
    if steps.len() == 0 {
        r0 == r1
    } else {
        r0 matches ContinuationResult::Stuck(c, n) && steps[0].0 == *c && steps[0].2 == n
            && steps[0].1.step_ok(steps[0].3, steps[0].4) && with_trace_to(
            steps[0].4,
            steps.drop_first(),
            r1,
        )
    }
}

proof fn lemma_with_trace_to_done<C: Continuation>(
    r0: ContinuationResult<C>,
    steps: Seq<(C, C, C::Needed, C::Found, ContinuationResult<C>)>,
    out: C::Output,
)
    requires
        with_trace_to(r0, steps, ContinuationResult::Done(out)),
    ensures
        with_trace(r0, steps, out),
    decreases steps.len(),
{
    if steps.len() > 0 {
        lemma_with_trace_to_done(steps[0].4, steps.drop_first(), out);
    }
}

proof fn lemma_with_trace_to_snoc<C: Continuation>(
    r0: ContinuationResult<C>,
    steps: Seq<(C, C, C::Needed, C::Found, ContinuationResult<C>)>,
    c: Box<C>,
    after: C,
    n: C::Needed,
    found: C::Found,
    r2: ContinuationResult<C>,
)
    requires
        with_trace_to(r0, steps, ContinuationResult::Stuck(c, n)),
        after.step_ok(found, r2),
    ensures
        with_trace_to(r0, steps.push((*c, after, n, found, r2)), r2),
    decreases steps.len(),
{
    if steps.len() == 0 {
        assert(steps.push((*c, after, n, found, r2))[0] == (*c, after, n, found, r2));
        assert(steps.push((*c, after, n, found, r2)).drop_first() =~= Seq::<
            (C, C, C::Needed, C::Found, ContinuationResult<C>),
        >::empty());
        assert(with_trace_to(r2, steps.push((*c, after, n, found, r2)).drop_first(), r2));
    } else {
        assert(steps.push((*c, after, n, found, r2))[0] == steps[0]);
        assert(steps.push((*c, after, n, found, r2)).drop_first() =~= steps.drop_first().push(
            (*c, after, n, found, r2),
        ));
        lemma_with_trace_to_snoc(steps[0].4, steps.drop_first(), c, after, n, found, r2);
    }
}

} // verus!

verus! {

/// One drive where a plain function answered, each answer handing the paused
/// context back alongside the found values.
pub open spec fn with_fn_trace<C: Continuation>(
    r0: ContinuationResult<C>,
    steps: Seq<(C, C, C::Needed, C::Found, ContinuationResult<C>)>,
    out: C::Output,
) -> bool {
    with_trace(r0, steps, out)
}

impl<C: Continuation> ContinuationResult<C> {
    /// Drive to completion with a plain function that is also handed the
    /// paused computation's context, and hands it back with its answer.
    pub fn consume_with_fn<F>(self, f: F) -> (out: C::Output) where
        F: Fn(C, C::Needed) -> (C, C::Found),

        requires
            forall|c: C, n: C::Needed| #[trigger] call_requires(f, (c, n)),
            forall|c: C, n: C::Needed, r: (C, C::Found)|
                #[trigger] call_ensures(f, (c, n), r) ==> r.0.pending() <= c.pending(),
        ensures
            exists|steps: Seq<(C, C, C::Needed, C::Found, ContinuationResult<C>)>|
                {
                    &&& forall|i: int|
                        0 <= i < steps.len() ==> call_ensures(
                            f,
                            ((#[trigger] steps[i]).0, steps[i].2),
                            (steps[i].1, steps[i].3),
                        )
                    &&& with_fn_trace(self, steps, out)
                },
    {
        let ghost mut steps: Seq<(C, C, C::Needed, C::Found, ContinuationResult<C>)> =
            Seq::empty();
        let mut cur = self;
        loop
            invariant
                forall|c: C, n: C::Needed| #[trigger] call_requires(f, (c, n)),
                forall|c: C, n: C::Needed, r: (C, C::Found)|
                    #[trigger] call_ensures(f, (c, n), r) ==> r.0.pending() <= c.pending(),
                with_trace_to(self, steps, cur),
                forall|i: int|
                    0 <= i < steps.len() ==> call_ensures(
                        f,
                        ((#[trigger] steps[i]).0, steps[i].2),
                        (steps[i].1, steps[i].3),
                    ),
            decreases result_pending(cur),
        {
            match cur {
                ContinuationResult::Done(o) => {
                    proof {
                        lemma_with_trace_to_done(self, steps, o);
                        assert(with_fn_trace(self, steps, o));
                    }
                    return o;
                },
                ContinuationResult::Stuck(ic, needed) => {
                    let ghost gneeded = needed;
                    let ghost gc = ic;
                    let context: C = *ic;
                    let (context, found) = f(context, needed);
                    let ghost after = context;
                    let ghost gfound = found;
                    let next = context.continue_after(found);
                    proof {
                        lemma_with_trace_to_snoc(self, steps, gc, after, gneeded, gfound, next);
                        steps = steps.push((*gc, after, gneeded, gfound, next));
                    }
                    cur = next;
                },
            }
        }
    }
}

} // verus!
