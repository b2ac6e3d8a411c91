use crate::bind::{outputs, outputs_ref, Monad, MonadBind, MonadRepr};
use std::marker::PhantomData;
use vstd::prelude::*;

verus! {

/// The meaning of `ret(v)`: the state stays, and the value is `v`.
///
/// The meaning of a stateful computation is a relation `s`: `s(st, (st2, x))`
/// holds when, run from the state `st`, the computation may end in the state
/// `st2` with the value `x`.
pub open spec fn state_ret<St, T>(v: T) -> spec_fn(St, (St, T)) -> bool {
    |st: St, o: (St, T)| o == (st, v)
}

/// Runs `m`, then, from the state it left, a computation whose meaning `k`
/// relates to the value that `m` produced.
pub open spec fn state_bind<St, A, B>(
    m: spec_fn(St, (St, A)) -> bool,
    k: spec_fn(A, spec_fn(St, (St, B)) -> bool) -> bool,
) -> spec_fn(St, (St, B)) -> bool {
    |st: St, o: (St, B)|
        exists|s1: St, a: A, kb: spec_fn(St, (St, B)) -> bool|
            #[trigger] m(st, (s1, a)) && #[trigger] k(a, kb) && kb(s1, o)
}

/// Lifts a relation from values to computations into one from values to
/// the meanings of those computations.
pub open spec fn state_kont<'st, St, A, B>(k: spec_fn(A, State<'st, St, B>) -> bool) -> spec_fn(
    A,
    spec_fn(St, (St, B)) -> bool,
) -> bool {
    |a: A, s: spec_fn(St, (St, B)) -> bool| exists|m: State<'st, St, B>| #[trigger] k(a, m) && m.sem() == s
}

/// The meaning of `get`: the value is the state, and the state becomes a clone of it.
pub open spec fn state_get<St: Clone>() -> spec_fn(St, (St, St)) -> bool {
    |st: St, o: (St, St)| o.1 == st && cloned(st, o.0)
}

/// The meaning of `put(st)`: the state becomes `st`.
pub open spec fn state_put<St>(st: St) -> spec_fn(St, (St, ())) -> bool {
    |s: St, o: (St, ())| o == (st, ())
}

/// Runs, from the state it is handed, a computation whose meaning `k` relates
/// to that state.
pub open spec fn state_look<St, R>(k: spec_fn(St, spec_fn(St, (St, R)) -> bool) -> bool) -> spec_fn(
    St,
    (St, R),
) -> bool {
    |st: St, o: (St, R)| exists|s: spec_fn(St, (St, R)) -> bool| #[trigger] k(st, s) && s(st, o)
}

/// Runs, from the state that a change of the state it is handed left, a
/// computation: `k(st, (st2, m))` holds when the change may turn `st` into
/// `st2` and give the computation `m`.
pub open spec fn state_change<'st, St, R>(k: spec_fn(St, (St, State<'st, St, R>)) -> bool) -> spec_fn(
    St,
    (St, R),
) -> bool {
    |st: St, o: (St, R)| exists|st2: St, m: State<'st, St, R>| #[trigger] k(st, (st2, m)) && (m.sem())(st2, o)
}

/// One step of a stateful computation. Computations of every shape share the
/// type `State` by standing behind a box of this trait.
trait StateStep<'st, St, T>: Send {
    spec fn sem(&self) -> spec_fn(St, (St, T)) -> bool;

    spec fn inv(&self) -> bool;

    fn step(self: Box<Self>, st: St) -> (out: (St, T))
        requires
            self.inv(),
        ensures
            (self.sem())(st, out),
    ;
}

struct RetStep<T> {
    v: T,
}

impl<'st, St, T: Send> StateStep<'st, St, T> for RetStep<T> {
    closed spec fn sem(&self) -> spec_fn(St, (St, T)) -> bool {
        state_ret(self.v)
    }

    closed spec fn inv(&self) -> bool {
        true
    }

    fn step(self: Box<Self>, st: St) -> (out: (St, T)) {
        (st, self.v)
    }
}

#[verifier::reject_recursive_types(St)]
#[verifier::reject_recursive_types(A)]
struct BindStep<'st, St, A, F> {
    v: State<'st, St, A>,
    f: F,
}

impl<'st, St, A, B, F> StateStep<'st, St, B> for BindStep<'st, St, A, F> where
    F: FnOnce(A) -> State<'st, St, B> + Send + 'st,
 {
    closed spec fn sem(&self) -> spec_fn(St, (St, B)) -> bool {
        state_bind(self.v.sem(), state_kont(outputs(self.f)))
    }

    closed spec fn inv(&self) -> bool {
        forall|st: St, s1: St, a: A| #[trigger] (self.v.sem())(st, (s1, a)) ==> call_requires(self.f, (a,))
    }

    fn step(self: Box<Self>, st: St) -> (out: (St, B)) {
        let BindStep { v, f } = *self;
        let (s1, a) = v.run(st);
        let m = f(a);
        let out = m.run(s1);
        proof {
            assert(outputs(f)(a, m));
            assert(state_kont(outputs(f))(a, m.sem()));
        }
        out
    }
}

struct GetStep;

impl<'st, St: Clone> StateStep<'st, St, St> for GetStep {
    closed spec fn sem(&self) -> spec_fn(St, (St, St)) -> bool {
        state_get()
    }

    closed spec fn inv(&self) -> bool {
        true
    }

    fn step(self: Box<Self>, st: St) -> (out: (St, St)) {
        (st.clone(), st)
    }
}

struct PutStep<St> {
    st: St,
}

impl<'st, St: Send> StateStep<'st, St, ()> for PutStep<St> {
    closed spec fn sem(&self) -> spec_fn(St, (St, ())) -> bool {
        state_put(self.st)
    }

    closed spec fn inv(&self) -> bool {
        true
    }

    fn step(self: Box<Self>, st: St) -> (out: (St, ())) {
        (self.st, ())
    }
}

struct WithRefStep<F> {
    f: F,
}

impl<'st, St, R, F> StateStep<'st, St, R> for WithRefStep<F> where
    F: FnOnce(&St) -> State<'st, St, R> + Send + 'st,
 {
    closed spec fn sem(&self) -> spec_fn(St, (St, R)) -> bool {
        state_look(state_kont(outputs_ref(self.f)))
    }

    closed spec fn inv(&self) -> bool {
        forall|st: St| call_requires(self.f, (&st,))
    }

    fn step(self: Box<Self>, st: St) -> (out: (St, R)) {
        let WithRefStep { f } = *self;
        let m = f(&st);
        proof {
            assert(outputs_ref(f)(st, m));
            assert(state_kont(outputs_ref(f))(st, m.sem()));
        }
        m.run(st)
    }
}

struct WithMutStep<G> {
    g: G,
}

impl<'st, St, R, G> StateStep<'st, St, R> for WithMutStep<G> where
    G: FnOnce(St) -> (St, State<'st, St, R>) + Send + 'st,
 {
    closed spec fn sem(&self) -> spec_fn(St, (St, R)) -> bool {
        state_change(outputs(self.g))
    }

    closed spec fn inv(&self) -> bool {
        forall|st: St| call_requires(self.g, (st,))
    }

    fn step(self: Box<Self>, st: St) -> (out: (St, R)) {
        let WithMutStep { g } = *self;
        let ghost st0 = st;
        let (st2, m) = g(st);
        proof {
            assert(outputs(g)(st0, (st2, m)));
        }
        m.run(st2)
    }
}

/// The computation that hands its state to `g`, then runs, from the state
/// that `g` gives back, the computation that `g` gives back.
fn state_from_change<'st, St: 'st, R: 'st, G>(g: G) -> (r: State<'st, St, R>) where
    G: FnOnce(St) -> (St, State<'st, St, R>) + Send + 'st,

    requires
        forall|st: St| call_requires(g, (st,)),
    ensures
        r.sem() == state_change(outputs(g)),
{
    State(Box::new(WithMutStep { g }))
}

/// A stateful computation: run from a state `St`, it gives the next state
/// and a value of type `T`.
#[verifier::reject_recursive_types(St)]
#[verifier::reject_recursive_types(T)]
pub struct State<'st, St, T>(Box<dyn StateStep<'st, St, T> + 'st>);

impl<'st, St, T> State<'st, St, T> {
    #[verifier::type_invariant]
    closed spec fn wf(self) -> bool {
        self.0.inv()
    }

    /// What the computation may do (see `state_ret`).
    pub closed spec fn sem(&self) -> spec_fn(St, (St, T)) -> bool {
        self.0.sem()
    }

    /// Runs the computation from the state `st`, giving the final state and the value.
    pub fn run(self, st: St) -> (r: (St, T))
        ensures
            (self.sem())(st, r),
    {
        proof {
            use_type_invariant(&self);
        }
        self.0.step(st)
    }

    /// Runs the computation from the state `st` and keeps only the value.
    pub fn eval(self, st: St) -> (r: T)
        ensures
            exists|st2: St| #[trigger] (self.sem())(st, (st2, r)),
    {
        self.run(st).1
    }
}

/// A namespace for state monads.
pub struct StateM<St>(PhantomData<St>);

impl<'st, St: 'st, T: 'st> Monad<'st, T> for StateM<St> {
    type Repr = State<'st, St, T>;

    open spec fn yields(r: State<'st, St, T>, v: T) -> bool {
        exists|st: St, st2: St| #[trigger] (r.sem())(st, (st2, v))
    }

    open spec fn is_ret(r: State<'st, St, T>, v: T) -> bool {
        r.sem() == state_ret::<St, T>(v)
    }

    proof fn lemma_ret_yields(r: State<'st, St, T>, v: T, b: T) {
        let st: St = arbitrary();
        assert((r.sem())(st, (st, v)));
    }

    fn ret(v: T) -> (r: State<'st, St, T>) where T: Send {
        let r = State(Box::new(RetStep { v }));
        proof {
            assert(r.sem() =~= state_ret::<St, T>(v));
        }
        r
    }
}

impl<'st, St: 'st, A: 'st, B: 'st> MonadBind<'st, A, B> for StateM<St> {
    open spec fn is_bind(
        r: State<'st, St, B>,
        v: State<'st, St, A>,
        k: spec_fn(A, State<'st, St, B>) -> bool,
    ) -> bool {
        forall|st: St, o: (St, B)| #[trigger] (r.sem())(st, o) ==> (state_bind(v.sem(), state_kont(k)))(st, o)
    }

    proof fn lemma_bind_mono(
        r: State<'st, St, B>,
        v: State<'st, St, A>,
        k1: spec_fn(A, State<'st, St, B>) -> bool,
        k2: spec_fn(A, State<'st, St, B>) -> bool,
    ) {
        assert forall|st: St, o: (St, B)| #[trigger] (r.sem())(st, o) implies (state_bind(v.sem(), state_kont(k2)))(st, o) by {
            let (s1, a, kb) = choose|s1: St, a: A, kb: spec_fn(St, (St, B)) -> bool|
                #[trigger] (v.sem())(st, (s1, a)) && #[trigger] state_kont(k1)(a, kb) && kb(s1, o);
            let m = choose|m: State<'st, St, B>| #[trigger] k1(a, m) && m.sem() == kb;
            assert(k2(a, m));
            assert(state_kont(k2)(a, kb));
        }
    }

    proof fn lemma_bind_yields(
        r: State<'st, St, B>,
        v: State<'st, St, A>,
        k: spec_fn(A, State<'st, St, B>) -> bool,
        b: B,
    ) {
        let (st, st2) = choose|st: St, st2: St| #[trigger] (r.sem())(st, (st2, b));
        let (s1, a, kb) = choose|s1: St, a: A, kb: spec_fn(St, (St, B)) -> bool|
            #[trigger] (v.sem())(st, (s1, a)) && #[trigger] state_kont(k)(a, kb) && kb(s1, (st2, b));
        let m = choose|m: State<'st, St, B>| #[trigger] k(a, m) && m.sem() == kb;
        assert(<StateM<St> as Monad<'st, A>>::yields(v, a));
        assert(<StateM<St> as Monad<'st, B>>::yields(m, b));
    }

    fn bind_impl<F>(v: State<'st, St, A>, f: F) -> (r: State<'st, St, B>) where
        F: FnOnce(A) -> State<'st, St, B> + Send + 'st,

        ensures
            r.sem() == state_bind(v.sem(), state_kont(outputs(f))),
    {
        assert forall|st: St, s1: St, a: A| #[trigger] (v.sem())(st, (s1, a)) implies call_requires(f, (a,)) by {
            assert(<StateM<St> as Monad<'st, A>>::yields(v, a));
        }
        State(Box::new(BindStep { v, f }))
    }
}

impl<'st, St: 'st, A: 'st, B: 'st> MonadRepr<'st, StateM<St>, A, B> for State<'st, St, A> {
    fn bind<F>(self, f: F) -> (r: State<'st, St, B>) where F: FnOnce(A) -> State<'st, St, B> + Send + 'st
        ensures
            r.sem() == state_bind(self.sem(), state_kont(outputs(f))),
    {
        <StateM<St> as MonadBind<'st, A, B>>::bind_impl(self, f)
    }
}

/// MTL-style state monad actions. `R` is the type of the value that the
/// computations handed to `with_ref` and `with_mut` produce.
pub trait MonadState<'st, St, R = ()>: Monad<'st, St> + Monad<'st, ()> + Monad<'st, R> {
    /// `r` behaves as `get`.
    spec fn is_get(r: <Self as Monad<'st, St>>::Repr) -> bool where St: Clone;

    /// `r` behaves as `put(st)`.
    spec fn is_put(r: <Self as Monad<'st, ()>>::Repr, st: St) -> bool;

    /// `r` behaves as running, from the current state, a computation that `k`
    /// relates to that state.
    spec fn is_with_ref(
        r: <Self as Monad<'st, R>>::Repr,
        k: spec_fn(St, <Self as Monad<'st, R>>::Repr) -> bool,
    ) -> bool;

    /// `r` behaves as changing the current state and running, from the changed
    /// state, a computation: `k(st, st2, m)` holds when the change may turn
    /// `st` into `st2` and give the computation `m`.
    spec fn is_with_mut(
        r: <Self as Monad<'st, R>>::Repr,
        k: spec_fn(St, St, <Self as Monad<'st, R>>::Repr) -> bool,
    ) -> bool;

    /// Gives the current state as the value (keeping a clone as the state).
    fn get() -> (r: <Self as Monad<'st, St>>::Repr) where St: Clone
        ensures
            Self::is_get(r),
    ;

    /// Shows `f` the current state and runs the computation that it returns.
    fn with_ref<F>(f: F) -> (r: <Self as Monad<'st, R>>::Repr) where
        F: FnOnce(&St) -> <Self as Monad<'st, R>>::Repr + Send + 'st,

        requires
            forall|st: St| call_requires(f, (&st,)),
        ensures
            Self::is_with_ref(r, outputs_ref(f)),
    ;

    /// Lets `f` change the current state and runs, from the changed state,
    /// the computation that it returns.
    fn with_mut<F>(f: F) -> (r: <Self as Monad<'st, R>>::Repr) where
        F: FnOnce(&mut St) -> <Self as Monad<'st, R>>::Repr + Send + 'st,

        requires
            forall|x: &mut St| call_requires(f, (x,)),
        ensures
            Self::is_with_mut(
                r,
                |st: St, st2: St, m: <Self as Monad<'st, R>>::Repr|
                    exists|x: &mut St| *x == st && *final(x) == st2 && #[trigger] call_ensures(f, (x,), m),
            ),
    ;

    /// Replaces the state with `st`.
    fn put(st: St) -> (r: <Self as Monad<'st, ()>>::Repr)
        ensures
            Self::is_put(r, st),
    ;
}

impl<'st, St: 'st + Send, R: 'st> MonadState<'st, St, R> for StateM<St> {
    open spec fn is_get(r: State<'st, St, St>) -> bool where St: Clone {
        r.sem() == state_get::<St>()
    }

    open spec fn is_put(r: State<'st, St, ()>, st: St) -> bool {
        r.sem() == state_put(st)
    }

    open spec fn is_with_ref(r: State<'st, St, R>, k: spec_fn(St, State<'st, St, R>) -> bool) -> bool {
        r.sem() == state_look(state_kont(k))
    }

    open spec fn is_with_mut(r: State<'st, St, R>, k: spec_fn(St, St, State<'st, St, R>) -> bool) -> bool {
        forall|st: St, o: (St, R)| #[trigger] (r.sem())(st, o) ==> (state_change(|st: St, p: (St, State<'st, St, R>)| k(st, p.0, p.1)))(st, o)
    }

    fn get() -> (r: State<'st, St, St>) where St: Clone {
        State(Box::new(GetStep))
    }

    fn with_ref<F>(f: F) -> (r: State<'st, St, R>) where
        F: FnOnce(&St) -> State<'st, St, R> + Send + 'st,
    {
        State(Box::new(WithRefStep { f }))
    }

    fn with_mut<F>(f: F) -> (r: State<'st, St, R>) where
        F: FnOnce(&mut St) -> State<'st, St, R> + Send + 'st,
    {
        let g = move |st0: St| -> (out: (St, State<'st, St, R>))
            requires forall|x: &mut St| call_requires(f, (x,))
            ensures exists|x: &mut St| *x == st0 && *final(x) == out.0 && call_ensures(f, (x,), out.1)
            {
                let mut st = st0;
                let m = f(&mut st);
                let out = (st, m);
                assert(exists|x: &mut St| *x == st0 && *final(x) == out.0 && call_ensures(f, (x,), out.1));
                out
            };
        assert forall|st: St| call_requires(g, (st,)) by {
        }
        let r = state_from_change(g);
        proof {
            let k = |st: St, st2: St, m: State<'st, St, R>|
                exists|x: &mut St| *x == st && *final(x) == st2 && #[trigger] call_ensures(f, (x,), m);
            let kp = |st: St, p: (St, State<'st, St, R>)| k(st, p.0, p.1);
            assert forall|st: St, o: (St, R)| #[trigger] (r.sem())(st, o) implies (state_change(kp))(st, o) by {
                let (st2, m) = choose|st2: St, m: State<'st, St, R>| #[trigger] outputs(g)(st, (st2, m)) && (m.sem())(st2, o);
                assert(call_ensures(g, (st,), (st2, m)));
                assert(k(st, st2, m));
                assert(kp(st, (st2, m)));
            }
        }
        r
    }

    fn put(st: St) -> (r: State<'st, St, ()>) {
        State(Box::new(PutStep { st }))
    }
}

} // verus!

verus! {

/// Left identity: binding a returned value `a` runs, from the same state, a
/// computation that the continuation relates to `a`.
pub proof fn state_left_identity<St, A, B>(a: A, k: spec_fn(A, spec_fn(St, (St, B)) -> bool) -> bool)
    ensures
        state_bind(state_ret::<St, A>(a), k) == state_look(|st: St, s: spec_fn(St, (St, B)) -> bool| k(a, s)),
{
    let look = |st: St, s: spec_fn(St, (St, B)) -> bool| k(a, s);
    let lhs = state_bind(state_ret::<St, A>(a), k);
    let rhs = state_look(look);
    assert forall|st: St, o: (St, B)| #[trigger] lhs(st, o) == rhs(st, o) by {
        if rhs(st, o) {
            let s = choose|s: spec_fn(St, (St, B)) -> bool| #[trigger] look(st, s) && s(st, o);
            assert(state_ret::<St, A>(a)(st, (st, a)));
            assert(k(a, s));
        }
        if lhs(st, o) {
            let (s1, a1, kb) = choose|s1: St, a1: A, kb: spec_fn(St, (St, B)) -> bool|
                #[trigger] state_ret::<St, A>(a)(st, (s1, a1)) && #[trigger] k(a1, kb) && kb(s1, o);
            assert(look(st, kb));
        }
    }
    assert(lhs =~= rhs);
}

/// Right identity: binding a computation with `ret` gives back the computation.
pub proof fn state_right_identity<St, A>(m: spec_fn(St, (St, A)) -> bool)
    ensures
        state_bind(m, |a: A, s: spec_fn(St, (St, A)) -> bool| s == state_ret::<St, A>(a)) == m,
{
    let k = |a: A, s: spec_fn(St, (St, A)) -> bool| s == state_ret::<St, A>(a);
    let lhs = state_bind(m, k);
    assert forall|st: St, o: (St, A)| #[trigger] lhs(st, o) == m(st, o) by {
        if m(st, o) {
            assert(k(o.1, state_ret::<St, A>(o.1)));
            assert(state_ret::<St, A>(o.1)(o.0, o));
        }
    }
    assert(lhs =~= m);
}

/// Associativity: binding `g` after binding `f` is binding the continuation
/// that binds `g` after each computation that `f` relates to the value.
pub proof fn state_associativity<St, A, B, C>(
    m: spec_fn(St, (St, A)) -> bool,
    f: spec_fn(A, spec_fn(St, (St, B)) -> bool) -> bool,
    g: spec_fn(B, spec_fn(St, (St, C)) -> bool) -> bool,
)
    ensures
        state_bind(state_bind(m, f), g) == state_bind(
            m,
            |a: A, s: spec_fn(St, (St, C)) -> bool|
                exists|t: spec_fn(St, (St, B)) -> bool| #[trigger] f(a, t) && s == state_bind(t, g),
        ),
{
    let h = |a: A, s: spec_fn(St, (St, C)) -> bool|
        exists|t: spec_fn(St, (St, B)) -> bool| #[trigger] f(a, t) && s == state_bind(t, g);
    let lhs = state_bind(state_bind(m, f), g);
    let rhs = state_bind(m, h);
    assert forall|st: St, o: (St, C)| #[trigger] lhs(st, o) == rhs(st, o) by {
        if lhs(st, o) {
            let (s2, b, kc) = choose|s2: St, b: B, kc: spec_fn(St, (St, C)) -> bool|
                #[trigger] state_bind(m, f)(st, (s2, b)) && #[trigger] g(b, kc) && kc(s2, o);
            let (s1, a, kb) = choose|s1: St, a: A, kb: spec_fn(St, (St, B)) -> bool|
                #[trigger] m(st, (s1, a)) && #[trigger] f(a, kb) && kb(s1, (s2, b));
            assert(state_bind(kb, g)(s1, o));
            assert(h(a, state_bind(kb, g)));
        }
        if rhs(st, o) {
            let (s1, a, kc) = choose|s1: St, a: A, kc: spec_fn(St, (St, C)) -> bool|
                #[trigger] m(st, (s1, a)) && #[trigger] h(a, kc) && kc(s1, o);
            let t = choose|t: spec_fn(St, (St, B)) -> bool| #[trigger] f(a, t) && kc == state_bind(t, g);
            let (s2, b, kd) = choose|s2: St, b: B, kd: spec_fn(St, (St, C)) -> bool|
                #[trigger] t(s1, (s2, b)) && #[trigger] g(b, kd) && kd(s2, o);
            assert(state_bind(m, f)(st, (s2, b)));
        }
    }
    assert(lhs =~= rhs);
}

/// Two `put`s in a row leave the state that the second one puts.
pub proof fn state_put_put<St>(a: St, b: St)
    ensures
        state_bind(state_put(a), |u: (), s: spec_fn(St, (St, ())) -> bool| s == state_put(b)) == state_put(b),
{
    let k = |u: (), s: spec_fn(St, (St, ())) -> bool| s == state_put(b);
    let lhs = state_bind(state_put(a), k);
    assert forall|st: St, o: (St, ())| #[trigger] lhs(st, o) == state_put(b)(st, o) by {
        if state_put(b)(st, o) {
            assert(state_put(a)(st, (a, ())));
            assert(k((), state_put(b)));
        }
    }
    assert(lhs =~= state_put(b));
}

/// `get` after `put(a)` gives `a` as the value, whatever the state was before.
pub proof fn state_put_get<St: Clone>(a: St)
    ensures
        state_bind(state_put(a), |u: (), s: spec_fn(St, (St, St)) -> bool| s == state_get::<St>())
            == (|st: St, o: (St, St)| state_get::<St>()(a, o)),
{
    let k = |u: (), s: spec_fn(St, (St, St)) -> bool| s == state_get::<St>();
    let lhs = state_bind(state_put(a), k);
    let rhs = |st: St, o: (St, St)| state_get::<St>()(a, o);
    assert forall|st: St, o: (St, St)| #[trigger] lhs(st, o) == rhs(st, o) by {
        if rhs(st, o) {
            assert(state_put(a)(st, (a, ())));
            assert(k((), state_get::<St>()));
        }
    }
    assert(lhs =~= rhs);
}

/// `put`ting back what `get` gave leaves the state as it was, with no value.
pub proof fn state_get_put<St: Clone>()
    ensures
        state_bind(state_get::<St>(), |x: St, s: spec_fn(St, (St, ())) -> bool| s == state_put(x))
            == state_ret::<St, ()>(()),
{
    let k = |x: St, s: spec_fn(St, (St, ())) -> bool| s == state_put(x);
    let lhs = state_bind(state_get::<St>(), k);
    assert forall|st: St, o: (St, ())| #[trigger] lhs(st, o) == state_ret::<St, ()>(())(st, o) by {
        if state_ret::<St, ()>(())(st, o) {
            assert(state_get::<St>()(st, (st, st)));
            assert(k(st, state_put(st)));
        }
    }
    assert(lhs =~= state_ret::<St, ()>(()));
}

} // verus!

verus! {

/// A meaning is deterministic when, from each state, it allows at most one outcome.
pub open spec fn state_deterministic<St, T>(s: spec_fn(St, (St, T)) -> bool) -> bool {
    forall|st: St, o1: (St, T), o2: (St, T)| #[trigger] s(st, o1) && #[trigger] s(st, o2) ==> o1 == o2
}

/// `eval` gives the value of the outcome that `run` gives: when the meaning
/// `s` of a computation is deterministic, a value that `eval` may return from
/// `st` (some outcome from `st` has it) is the value of the outcome `o` that
/// `run` returns from `st`.
pub proof fn state_eval_is_run_value<St, T>(s: spec_fn(St, (St, T)) -> bool, st: St, o: (St, T), v: T)
    requires
        state_deterministic(s),
        s(st, o),
        exists|st2: St| #[trigger] s(st, (st2, v)),
    ensures
        v == o.1,
{
    let st2 = choose|st2: St| #[trigger] s(st, (st2, v));
    assert(s(st, (st2, v)) && s(st, o));
}

/// Binding keeps meanings deterministic: when `m` is deterministic and the
/// continuation relates each value to one deterministic meaning, the bind is
/// deterministic. Then each law on meanings is a law on the outcomes of runs.
pub proof fn state_bind_deterministic<St, A, B>(
    m: spec_fn(St, (St, A)) -> bool,
    k: spec_fn(A, spec_fn(St, (St, B)) -> bool) -> bool,
)
    requires
        state_deterministic(m),
        forall|a: A, s: spec_fn(St, (St, B)) -> bool| #[trigger] k(a, s) ==> state_deterministic(s),
        forall|a: A, s1: spec_fn(St, (St, B)) -> bool, s2: spec_fn(St, (St, B)) -> bool|
            #[trigger] k(a, s1) && #[trigger] k(a, s2) ==> s1 == s2,
    ensures
        state_deterministic(state_bind(m, k)),
{
    let b = state_bind(m, k);
    assert forall|st: St, o1: (St, B), o2: (St, B)| #[trigger] b(st, o1) && #[trigger] b(st, o2) implies o1 == o2 by {
        let (s1, a1, k1) = choose|s1: St, a1: A, k1: spec_fn(St, (St, B)) -> bool|
            #[trigger] m(st, (s1, a1)) && #[trigger] k(a1, k1) && k1(s1, o1);
        let (s2, a2, k2) = choose|s2: St, a2: A, k2: spec_fn(St, (St, B)) -> bool|
            #[trigger] m(st, (s2, a2)) && #[trigger] k(a2, k2) && k2(s2, o2);
        assert((s1, a1) == (s2, a2));
        assert(k1 == k2);
        assert(state_deterministic(k1));
        assert(k1(s1, o1) && k1(s1, o2));
    }
}

/// Two computations with one deterministic meaning, run from one state, end
/// alike: the bridge from a law on meanings to a law on runs (such as `bind`
/// and `bind_impl`, whose results have one meaning).
pub proof fn state_runs_agree<St, T>(
    s1: spec_fn(St, (St, T)) -> bool,
    s2: spec_fn(St, (St, T)) -> bool,
    st: St,
    o1: (St, T),
    o2: (St, T),
)
    requires
        s1 == s2,
        state_deterministic(s1),
        s1(st, o1),
        s2(st, o2),
    ensures
        o1 == o2,
{
}

/// Left identity on runs: when the continuation relates `a` to one
/// deterministic meaning, a run of the bind of `ret(a)` from `st` ends as a
/// run, from `st`, of a computation that the continuation builds from `a`.
pub proof fn state_left_identity_runs<St, A, B>(
    a: A,
    k: spec_fn(A, spec_fn(St, (St, B)) -> bool) -> bool,
    st: St,
    o1: (St, B),
    o2: (St, B),
)
    requires
        forall|s1: spec_fn(St, (St, B)) -> bool, s2: spec_fn(St, (St, B)) -> bool|
            #[trigger] k(a, s1) && #[trigger] k(a, s2) ==> s1 == s2,
        forall|s: spec_fn(St, (St, B)) -> bool| #[trigger] k(a, s) ==> state_deterministic(s),
        state_bind(state_ret::<St, A>(a), k)(st, o1),
        exists|s: spec_fn(St, (St, B)) -> bool| #[trigger] k(a, s) && s(st, o2),
    ensures
        o1 == o2,
{
    state_left_identity::<St, A, B>(a, k);
    let s1 = choose|s: spec_fn(St, (St, B)) -> bool| #[trigger] k(a, s) && s(st, o1);
    let s2 = choose|s: spec_fn(St, (St, B)) -> bool| #[trigger] k(a, s) && s(st, o2);
    assert(s1 == s2);
    assert(s1(st, o1) && s1(st, o2));
}

/// Right identity on runs: a run of the bind of a deterministic `m` with a
/// continuation that returns its value ends as a run of `m` from the same state.
pub proof fn state_right_identity_runs<St, A>(
    m: spec_fn(St, (St, A)) -> bool,
    k: spec_fn(A, spec_fn(St, (St, A)) -> bool) -> bool,
    st: St,
    o1: (St, A),
    o2: (St, A),
)
    requires
        state_deterministic(m),
        forall|a: A, s: spec_fn(St, (St, A)) -> bool| #[trigger] k(a, s) ==> s == state_ret::<St, A>(a),
        state_bind(m, k)(st, o1),
        m(st, o2),
    ensures
        o1 == o2,
{
    let (s1, a, kb) = choose|s1: St, a: A, kb: spec_fn(St, (St, A)) -> bool|
        #[trigger] m(st, (s1, a)) && #[trigger] k(a, kb) && kb(s1, o1);
    assert(kb == state_ret::<St, A>(a));
    assert(m(st, (s1, a)) && m(st, o2));
}

/// Associativity on runs: when `m` is deterministic and `f` and `g` relate each
/// value to one deterministic meaning, a run of `bind(bind(m, f), g)` and a
/// run of `bind(m, h)`, where `h` binds `g` after what `f` builds, end alike
/// from one state.
pub proof fn state_associativity_runs<St, A, B, C>(
    m: spec_fn(St, (St, A)) -> bool,
    f: spec_fn(A, spec_fn(St, (St, B)) -> bool) -> bool,
    g: spec_fn(B, spec_fn(St, (St, C)) -> bool) -> bool,
    h: spec_fn(A, spec_fn(St, (St, C)) -> bool) -> bool,
    st: St,
    o1: (St, C),
    o2: (St, C),
)
    requires
        state_deterministic(m),
        forall|a: A, s: spec_fn(St, (St, B)) -> bool| #[trigger] f(a, s) ==> state_deterministic(s),
        forall|a: A, s1: spec_fn(St, (St, B)) -> bool, s2: spec_fn(St, (St, B)) -> bool|
            #[trigger] f(a, s1) && #[trigger] f(a, s2) ==> s1 == s2,
        forall|b: B, s: spec_fn(St, (St, C)) -> bool| #[trigger] g(b, s) ==> state_deterministic(s),
        forall|b: B, s1: spec_fn(St, (St, C)) -> bool, s2: spec_fn(St, (St, C)) -> bool|
            #[trigger] g(b, s1) && #[trigger] g(b, s2) ==> s1 == s2,
        forall|a: A, s: spec_fn(St, (St, C)) -> bool| #[trigger] h(a, s) ==>
            exists|t: spec_fn(St, (St, B)) -> bool| #[trigger] f(a, t) && s == state_bind(t, g),
        state_bind(state_bind(m, f), g)(st, o1),
        state_bind(m, h)(st, o2),
    ensures
        o1 == o2,
{
    let h0 = |a: A, s: spec_fn(St, (St, C)) -> bool|
        exists|t: spec_fn(St, (St, B)) -> bool| #[trigger] f(a, t) && s == state_bind(t, g);
    state_associativity::<St, A, B, C>(m, f, g);
    assert forall|a: A, s: spec_fn(St, (St, C)) -> bool| #[trigger] h0(a, s) implies state_deterministic(s) by {
        let t = choose|t: spec_fn(St, (St, B)) -> bool| #[trigger] f(a, t) && s == state_bind(t, g);
        state_bind_deterministic::<St, B, C>(t, g);
    }
    assert forall|a: A, s1: spec_fn(St, (St, C)) -> bool, s2: spec_fn(St, (St, C)) -> bool|
        #[trigger] h0(a, s1) && #[trigger] h0(a, s2) implies s1 == s2 by {
        let t1 = choose|t: spec_fn(St, (St, B)) -> bool| #[trigger] f(a, t) && s1 == state_bind(t, g);
        let t2 = choose|t: spec_fn(St, (St, B)) -> bool| #[trigger] f(a, t) && s2 == state_bind(t, g);
        assert(t1 == t2);
    }
    state_bind_deterministic::<St, A, C>(m, h0);
    let (s1, a, kc) = choose|s1: St, a: A, kc: spec_fn(St, (St, C)) -> bool|
        #[trigger] m(st, (s1, a)) && #[trigger] h(a, kc) && kc(s1, o2);
    assert(h0(a, kc));
    assert(state_bind(m, h0)(st, o2));
    assert(state_bind(m, h0)(st, o1));
}

} // verus!
