//! A stack of game states with deferred transitions.
use vstd::prelude::*;

verus! {

/// Types that can queue state transitions.
pub trait StateMachineLike<S> {
    /// Push a new state onto the stack.
    fn push(&mut self, state: S);

    /// Pop the current top state.
    fn pop(&mut self);

    /// Replace the current top state.
    fn replace(&mut self, state: S);
}

/// Transitions requested during a frame, applied at the start of the next update.
pub struct PendingTransitions<S> {
    pub push: Option<S>,
    pub pop: bool,
    pub replace: Option<S>,
}

impl<S> PendingTransitions<S> {
    pub fn new() -> (p: Self)
        ensures
            p.push is None,
            !p.pop,
            p.replace is None,
    {
        PendingTransitions { push: None, pop: false, replace: None }
    }
}

impl<S> StateMachineLike<S> for PendingTransitions<S> {
    fn push(&mut self, state: S)
        ensures
            final(self).push == Some(state),
            final(self).pop == old(self).pop,
            final(self).replace == old(self).replace,
    {
        self.push = Some(state);
    }

    fn pop(&mut self)
        ensures
            final(self).pop,
            final(self).push == old(self).push,
            final(self).replace == old(self).replace,
    {
        self.pop = true;
    }

    fn replace(&mut self, state: S)
        ensures
            final(self).replace == Some(state),
            final(self).push == old(self).push,
            final(self).pop == old(self).pop,
    {
        self.replace = Some(state);
    }
}

/// A game state managed by a `StateMachine`, with an engine context `Ctx`,
/// a draw target `D` and an error type `E`.
///
/// Each hook comes with a spec function that says what the hook does: from
/// the state and what it was handed before the call, to both after it, with
/// the result. An implementation that is verified defines them for its own
/// hooks; by default they promise nothing.
pub trait State<Ctx, D, E>: Sized {
    /// What `on_enter` does.
    open spec fn enter_post(self, after: Self, ctx_before: Ctx, ctx_after: Ctx, r: Result<(), E>) -> bool {
        true
    }

    /// What `on_exit` does.
    open spec fn exit_post(self, after: Self, ctx_before: Ctx, ctx_after: Ctx, r: Result<(), E>) -> bool {
        true
    }

    /// What `update` does, including the transitions it queues.
    open spec fn update_post(
        self,
        after: Self,
        ctx_before: Ctx,
        ctx_after: Ctx,
        pending_before: PendingTransitions<Self>,
        pending_after: PendingTransitions<Self>,
        r: Result<(), E>,
    ) -> bool {
        true
    }

    /// What `draw` does to the state and the draw target.
    open spec fn draw_post(self, after: Self, target_before: D, target_after: D, r: Result<(), E>) -> bool {
        true
    }

    /// Called when this state is entered (pushed onto the stack).
    fn on_enter(&mut self, ctx: &mut Ctx) -> (r: Result<(), E>)
        ensures
            old(self).enter_post(*final(self), *old(ctx), *final(ctx), r),
    ;

    /// Called when this state is exited (popped from the stack).
    fn on_exit(&mut self, ctx: &mut Ctx) -> (r: Result<(), E>)
        ensures
            old(self).exit_post(*final(self), *old(ctx), *final(ctx), r),
    ;

    /// Update this state; it may queue transitions. Called every frame.
    fn update(&mut self, ctx: &mut Ctx, transitions: &mut PendingTransitions<Self>) -> (r: Result<(), E>)
        ensures
            old(self).update_post(*final(self), *old(ctx), *final(ctx), *old(transitions), *final(transitions), r),
    ;

    /// Draw this state. Called every frame after update.
    fn draw(&mut self, target: &mut D) -> (r: Result<(), E>)
        ensures
            old(self).draw_post(*final(self), *old(target), *final(target), r),
    ;
}

/// Drawing the states `before` in order, from the bottom, on target `t0`:
/// `rs` are the results of the draws made and `ts` the targets between
/// them; drawing stops after the first error, which is the result `r`; the
/// states not drawn stay as they were.
pub open spec fn drawn_prefix<S: State<Ctx, D, E>, Ctx, D, E>(
    before: Seq<S>,
    after: Seq<S>,
    ts: Seq<D>,
    rs: Seq<Result<(), E>>,
    t0: D,
    t1: D,
    r: Result<(), E>,
) -> bool {
    let k = rs.len() as int;
    &&& after.len() == before.len()
    &&& k <= before.len()
    &&& ts.len() == k + 1
    &&& ts[0] == t0
    &&& ts[k] == t1
    &&& forall|j: int| 0 <= j < k ==> State::<Ctx, D, E>::draw_post(before[j], after[j], ts[j], ts[j + 1], #[trigger] rs[j])
    &&& forall|j: int| 0 <= j < k - 1 ==> (#[trigger] rs[j]) is Ok
    &&& forall|j: int| k <= j < before.len() ==> #[trigger] after[j] == before[j]
    &&& (r is Ok <==> (k == before.len() && (k == 0 || rs[k - 1] is Ok)))
    &&& (r is Err ==> k > 0 && r == rs[k - 1])
}

/// Drawing the states `before` from the bottom, stopping at the first error,
/// turns them into `after` and target `t0` into `t1`, with result `r`.
pub open spec fn draws<S: State<Ctx, D, E>, Ctx, D, E>(before: Seq<S>, after: Seq<S>, t0: D, t1: D, r: Result<(), E>) -> bool {
    exists|ts: Seq<D>, rs: Seq<Result<(), E>>| #[trigger] drawn_prefix::<S, Ctx, D, E>(before, after, ts, rs, t0, t1, r)
}

/// Manages a stack of game states.
///
/// States are drawn from bottom to top; only the top state is updated.
/// Transitions are applied at the start of the next update.
pub struct StateMachine<S> {
    states: Vec<S>,
    pending: PendingTransitions<S>,
}

/// What `apply_transitions` does, from the machine and context before to
/// both after, with the result.
pub open spec fn transitions_applied<S: State<Ctx, D, E>, Ctx, D, E>(
    before: StateMachine<S>,
    after: StateMachine<S>,
    ctx0: Ctx,
    ctx1: Ctx,
    r: Result<(), E>,
) -> bool {
    &&& (before.pending_replace() is Some ==> {
        &&& after.pending_replace() is None
        &&& after.pending_pop() == before.pending_pop()
        &&& after.pending_push() == before.pending_push()
        &&& after.stack().len() == (if before.stack().len() > 0 { before.stack().len() - 1 } else { 0 }) + (if r is Ok { 1int } else { 0int })
        &&& after.stack().take(after.stack().len() - (if r is Ok { 1int } else { 0int })) =~= before.stack().take(
            (if before.stack().len() > 0 { before.stack().len() - 1 } else { 0 }))
    })
    &&& (before.pending_replace() is None ==> {
        &&& after.pending_replace() is None
        &&& !after.pending_pop()
        &&& (r is Ok ==> after.pending_push() is None)
        &&& (r is Ok ==> after.stack().len() == (if before.pending_pop() && before.stack().len() > 0 { before.stack().len() - 1 } else { before.stack().len() as int }) + (if before.pending_push() is Some { 1int } else { 0int }))
        &&& (r is Ok && before.pending_push() is None ==> after.stack() =~= (if before.pending_pop() && before.stack().len() > 0 { before.stack().drop_last() } else { before.stack() }))
        &&& after.stack().len() >= (if before.pending_pop() && before.stack().len() > 0 { before.stack().len() - 1 } else { before.stack().len() as int })
        &&& after.stack().take(if before.pending_pop() && before.stack().len() > 0 { before.stack().len() - 1 } else { before.stack().len() as int })
            =~= (if before.pending_pop() && before.stack().len() > 0 { before.stack().drop_last() } else { before.stack() })
    })
    &&& (before.pending_replace() matches Some(s) ==> (r is Ok ==> {
        &&& before.stack().len() > 0 ==> exists|x: S, mid: Ctx, re: Result<(), E>| re is Ok
            && #[trigger] before.stack().last().exit_post(x, ctx0, mid, re)
            && s.enter_post(after.stack().last(), mid, ctx1, r)
        &&& before.stack().len() == 0 ==> s.enter_post(after.stack().last(), ctx0, ctx1, r)
    }))
    &&& (before.pending_replace() is None && r is Ok ==> {
        let popped = before.pending_pop() && before.stack().len() > 0;
        &&& (before.pending_push() matches Some(s) ==> {
            &&& popped ==> exists|x: S, mid: Ctx, re: Result<(), E>| re is Ok
                && #[trigger] before.stack().last().exit_post(x, ctx0, mid, re)
                && s.enter_post(after.stack().last(), mid, ctx1, r)
            &&& !popped ==> s.enter_post(after.stack().last(), ctx0, ctx1, r)
        })
        &&& (before.pending_push() is None ==> {
            &&& popped ==> exists|x: S, re: Result<(), E>| re is Ok
                && #[trigger] before.stack().last().exit_post(x, ctx0, ctx1, re)
            &&& !popped ==> ctx1 == ctx0
        })
    })
    &&& (before.pending_replace() is None && !before.pending_pop() && before.pending_push() is None
        ==> r is Ok && after == before && ctx1 == ctx0)
}

impl<S> StateMachine<S> {
    /// The states, bottom to top.
    pub closed spec fn stack(&self) -> Seq<S> {
        self.states@
    }

    pub closed spec fn pending_push(&self) -> Option<S> {
        self.pending.push
    }

    pub closed spec fn pending_pop(&self) -> bool {
        self.pending.pop
    }

    pub closed spec fn pending_replace(&self) -> Option<S> {
        self.pending.replace
    }

    /// The queued transitions.
    pub closed spec fn pending_spec(&self) -> PendingTransitions<S> {
        self.pending
    }

    pub proof fn lemma_pending(&self)
        ensures
            self.pending_spec().push == self.pending_push(),
            self.pending_spec().pop == self.pending_pop(),
            self.pending_spec().replace == self.pending_replace(),
    {
    }

    /// Create a new empty state machine.
    pub fn new() -> (sm: Self)
        ensures
            sm.stack() == Seq::<S>::empty(),
            sm.pending_push() is None,
            !sm.pending_pop(),
            sm.pending_replace() is None,
    {
        StateMachine { states: Vec::new(), pending: PendingTransitions::new() }
    }

    /// Create a state machine with an initial state (entered by `init_top_state`).
    pub fn with_initial_state(initial: S) -> (sm: Self)
        ensures
            sm.stack() == seq![initial],
            sm.pending_push() is None,
            !sm.pending_pop(),
            sm.pending_replace() is None,
    {
        let mut sm = Self::new();
        sm.states.push(initial);
        assert(sm.states@ =~= seq![initial]);
        sm
    }

    /// Queue a push of `state`, applied at the start of the next update.
    pub fn push(&mut self, state: S)
        ensures
            final(self).stack() == old(self).stack(),
            final(self).pending_push() == Some(state),
            final(self).pending_pop() == old(self).pending_pop(),
            final(self).pending_replace() == old(self).pending_replace(),
    {
        self.pending.push = Some(state);
    }

    /// Queue a pop of the top state, applied at the start of the next update.
    pub fn pop(&mut self)
        ensures
            final(self).stack() == old(self).stack(),
            final(self).pending_push() == old(self).pending_push(),
            final(self).pending_pop(),
            final(self).pending_replace() == old(self).pending_replace(),
    {
        self.pending.pop = true;
    }

    /// Queue a replacement of the top state (a pop followed by a push).
    pub fn replace(&mut self, state: S)
        ensures
            final(self).stack() == old(self).stack(),
            final(self).pending_push() == old(self).pending_push(),
            final(self).pending_pop() == old(self).pending_pop(),
            final(self).pending_replace() == Some(state),
    {
        self.pending.replace = Some(state);
    }

    /// Check if the state machine is empty.
    pub fn is_empty(&self) -> (b: bool)
        ensures
            b == (self.stack().len() == 0),
    {
        self.states.len() == 0
    }

    /// Get the number of states in the stack.
    pub fn len(&self) -> (n: usize)
        ensures
            n == self.stack().len(),
    {
        self.states.len()
    }

    /// All states, bottom to top (for inspection).
    pub fn states(&self) -> (r: &Vec<S>)
        ensures
            r@ == self.stack(),
    {
        &self.states
    }

    /// Apply pending transitions: a pending replacement alone (exit the top,
    /// enter the new state), else a pending pop (exit the top) and then a
    /// pending push (enter the new state).
    pub fn apply_transitions<Ctx, D, E>(&mut self, ctx: &mut Ctx) -> (r: Result<(), E>)
        where
            S: State<Ctx, D, E>,
        ensures
            transitions_applied(*old(self), *final(self), *old(ctx), *final(ctx), r),
    {
        let ghost ctx0 = *ctx;
        let ghost mut exited: S = arbitrary();
        let ghost mut mid: Ctx = *ctx;
        let ghost mut re: Result<(), E> = arbitrary();
        if let Some(mut new_state) = self.pending.replace.take() {
            if let Some(mut old_state) = self.states.pop() {
                let r = old_state.on_exit(ctx);
                if r.is_err() {
                    assert(self.states@.take(self.states@.len() as int) =~= self.states@);
                    return r;
                }
                proof {
                    exited = old_state;
                    mid = *ctx;
                    re = r;
                }
            }
            let ghost below = self.states@;
            let ghost entering = new_state;
            let ghost ctx1 = *ctx;
            let r = new_state.on_enter(ctx);
            if r.is_err() {
                assert(self.states@.take(self.states@.len() as int) =~= self.states@);
                return r;
            }
            self.states.push(new_state);
            assert(self.states@.take(self.states@.len() - 1) =~= below);
            proof {
                assert(entering.enter_post(self.states@.last(), ctx1, *ctx, r));
                if old(self).states@.len() > 0 {
                    assert(old(self).stack().last().exit_post(exited, ctx0, mid, re));
                }
            }
            return r;
        }
        if self.pending.pop {
            self.pending.pop = false;
            if let Some(mut state) = self.states.pop() {
                let r = state.on_exit(ctx);
                if r.is_err() {
                    assert(self.states@.take(self.states@.len() as int) =~= self.states@);
                    return r;
                }
                proof {
                    exited = state;
                    mid = *ctx;
                    re = r;
                }
            }
        }
        let ghost below = self.states@;
        let ghost ctx1 = *ctx;
        if let Some(mut new_state) = self.pending.push.take() {
            let ghost entering = new_state;
            let r = new_state.on_enter(ctx);
            if r.is_err() {
                assert(self.states@.take(self.states@.len() as int) =~= self.states@);
                return r;
            }
            self.states.push(new_state);
            assert(self.states@.take(self.states@.len() - 1) =~= below);
            proof {
                assert(entering.enter_post(self.states@.last(), ctx1, *ctx, r));
                if old(self).pending_pop() && old(self).states@.len() > 0 {
                    assert(old(self).stack().last().exit_post(exited, ctx0, mid, re));
                }
            }
            return r;
        }
        proof {
            if old(self).pending_pop() && old(self).states@.len() > 0 {
                assert(old(self).stack().last().exit_post(exited, ctx0, mid, re));
            }
        }
        assert(self.states@.take(self.states@.len() as int) =~= self.states@);
        Ok(())
    }

    /// Update the top state (if any); it may queue transitions.
    pub fn update_top<Ctx, D, E>(&mut self, ctx: &mut Ctx) -> (r: Result<(), E>)
        where
            S: State<Ctx, D, E>,
        ensures
            final(self).stack().len() == old(self).stack().len(),
            old(self).stack().len() > 0 ==> final(self).stack().drop_last() == old(self).stack().drop_last(),
            old(self).stack().len() > 0 ==> old(self).stack().last().update_post(
                final(self).stack().last(),
                *old(ctx),
                *final(ctx),
                old(self).pending_spec(),
                final(self).pending_spec(),
                r,
            ),
            old(self).stack().len() == 0 ==> *final(self) == *old(self) && r is Ok && *final(ctx) == *old(ctx),
    {
        let n = self.states.len();
        if n == 0 {
            return Ok(());
        }
        let state = &mut self.states[n - 1];
        let r = state.update(ctx, &mut self.pending);
        assert(self.states@.drop_last() =~= old(self).states@.drop_last());
        r
    }

    /// Draw all states from bottom to top, stopping at the first error.
    pub fn draw_all<Ctx, D, E>(&mut self, target: &mut D) -> (r: Result<(), E>)
        where
            S: State<Ctx, D, E>,
        ensures
            final(self).stack().len() == old(self).stack().len(),
            final(self).pending_push() == old(self).pending_push(),
            final(self).pending_pop() == old(self).pending_pop(),
            final(self).pending_replace() == old(self).pending_replace(),
            old(self).stack().len() == 0 ==> r is Ok && *final(self) == *old(self) && *final(target) == *old(target),
            draws::<S, Ctx, D, E>(old(self).stack(), final(self).stack(), *old(target), *final(target), r),
    {
        let n = self.states.len();
        let mut i: usize = 0;
        let ghost mut ts: Seq<D> = seq![*target];
        let ghost mut rs: Seq<Result<(), E>> = Seq::empty();
        while i < n
            invariant
                n == self.states@.len(),
                n == old(self).states@.len(),
                i <= n,
                self.pending == old(self).pending,
                i == 0 ==> *self == *old(self) && *target == *old(target),
                ts.len() == i + 1,
                rs.len() == i,
                ts[0] == *old(target),
                ts[i as int] == *target,
                forall|j: int| 0 <= j < i ==> (#[trigger] rs[j]) is Ok,
                forall|j: int| 0 <= j < i ==> State::<Ctx, D, E>::draw_post(old(self).states@[j], self.states@[j], ts[j], ts[j + 1], #[trigger] rs[j]),
                forall|j: int| i <= j < n ==> #[trigger] self.states@[j] == old(self).states@[j],
            decreases n - i,
        {
            let ghost t_before = *target;
            let state = &mut self.states[i];
            let r = State::<Ctx, D, E>::draw(state, target);
            proof {
                ts = ts.push(*target);
                rs = rs.push(r);
            }
            if r.is_err() {
                proof {
                    assert(drawn_prefix::<S, Ctx, D, E>(old(self).states@, self.states@, ts, rs, *old(target), *target, r));
                }
                return r;
            }
            i = i + 1;
        }
        proof {
            assert(drawn_prefix::<S, Ctx, D, E>(old(self).states@, self.states@, ts, rs, *old(target), *target, Ok(())));
        }
        Ok(())
    }

    /// Call `on_enter` for the top state (used for initial state initialization).
    pub fn init_top_state<Ctx, D, E>(&mut self, ctx: &mut Ctx) -> (r: Result<(), E>)
        where
            S: State<Ctx, D, E>,
        ensures
            final(self).stack().len() == old(self).stack().len(),
            old(self).stack().len() > 0 ==> final(self).stack().drop_last() == old(self).stack().drop_last(),
            final(self).pending_push() == old(self).pending_push(),
            final(self).pending_pop() == old(self).pending_pop(),
            final(self).pending_replace() == old(self).pending_replace(),
            old(self).stack().len() > 0 ==> old(self).stack().last().enter_post(final(self).stack().last(), *old(ctx), *final(ctx), r),
            old(self).stack().len() == 0 ==> r is Ok && *final(self) == *old(self) && *final(ctx) == *old(ctx),
    {
        let n = self.states.len();
        if n == 0 {
            return Ok(());
        }
        let state = &mut self.states[n - 1];
        let r = State::<Ctx, D, E>::on_enter(state, ctx);
        assert(self.states@.drop_last() =~= old(self).states@.drop_last());
        r
    }
}

impl<S> Default for StateMachine<S> {
    fn default() -> (sm: Self)
        ensures
            sm.stack() == Seq::<S>::empty(),
            sm.pending_push() is None,
            !sm.pending_pop(),
            sm.pending_replace() is None,
    {
        Self::new()
    }
}

/// A pending replacement does what a pending pop followed by a pending push
/// of the same state does: when both succeed, the stacks have the same length
/// and the same states below the top; the old top (if any) was exited and
/// the new top is `s` as its `on_enter` left it; nothing stays pending.
pub proof fn law_replace_like_pop_push<S: State<Ctx, D, E>, Ctx, D, E>(
    a0: StateMachine<S>,
    a1: StateMachine<S>,
    b0: StateMachine<S>,
    b1: StateMachine<S>,
    s: S,
    ctx0: Ctx,
    ca: Ctx,
    cb: Ctx,
    ra: Result<(), E>,
    rb: Result<(), E>,
)
    requires
        a0.stack() == b0.stack(),
        a0.pending_replace() == Some(s),
        a0.pending_push() is None,
        !a0.pending_pop(),
        b0.pending_replace() is None,
        b0.pending_push() == Some(s),
        b0.pending_pop(),
        transitions_applied(a0, a1, ctx0, ca, ra),
        transitions_applied(b0, b1, ctx0, cb, rb),
        ra is Ok,
        rb is Ok,
    ensures
        a1.stack().len() == b1.stack().len(),
        a1.stack().len() == (if a0.stack().len() > 0 { a0.stack().len() as int } else { 1 }),
        a1.stack().drop_last() == b1.stack().drop_last(),
        a1.pending_replace() is None && b1.pending_replace() is None,
        a1.pending_push() is None && b1.pending_push() is None,
        !a1.pending_pop() && !b1.pending_pop(),
        a0.stack().len() > 0 ==> exists|x: S, mid: Ctx, re: Result<(), E>| re is Ok
            && #[trigger] a0.stack().last().exit_post(x, ctx0, mid, re) && s.enter_post(a1.stack().last(), mid, ca, ra),
        a0.stack().len() > 0 ==> exists|x: S, mid: Ctx, re: Result<(), E>| re is Ok
            && #[trigger] b0.stack().last().exit_post(x, ctx0, mid, re) && s.enter_post(b1.stack().last(), mid, cb, rb),
        a0.stack().len() == 0 ==> s.enter_post(a1.stack().last(), ctx0, ca, ra) && s.enter_post(b1.stack().last(), ctx0, cb, rb),
{
    let n = a0.stack().len();
    if n > 0 {
        assert(a0.stack().take(n - 1) =~= a0.stack().drop_last());
    }
    assert(a1.stack().drop_last() =~= a1.stack().take(a1.stack().len() - 1));
    assert(b1.stack().drop_last() =~= b1.stack().take(b1.stack().len() - 1));
}

} // verus!
