use crate::bind::{outputs, outputs_ref, Monad, MonadBind, MonadRepr};
use std::marker::PhantomData;
use vstd::prelude::*;

verus! {

/// The meaning of `ret(v)`: the value is `v`, whatever the environment.
///
/// The meaning of a computation that owns its environment is a relation `s`:
/// `s(env, x)` holds when, handed the environment `env`, the computation may
/// produce `x`.
pub open spec fn owned_ret<Env, T>(v: T) -> spec_fn(Env, T) -> bool {
    |env: Env, x: T| x == v
}

/// Runs `m` on a clone of the environment, then, on the environment itself, a
/// computation whose meaning `k` relates to the value that `m` produced.
pub open spec fn owned_bind<Env: Clone, A, B>(
    m: spec_fn(Env, A) -> bool,
    k: spec_fn(A, spec_fn(Env, B) -> bool) -> bool,
) -> spec_fn(Env, B) -> bool {
    |env: Env, b: B|
        exists|env2: Env, a: A, kb: spec_fn(Env, B) -> bool|
            cloned(env, env2) && #[trigger] m(env2, a) && #[trigger] k(a, kb) && kb(env, b)
}

/// Lifts a relation from values to computations into one from values to the
/// meanings of those computations.
pub open spec fn owned_kont<'env, Env, A, B>(k: spec_fn(A, ReaderOwned<'env, Env, B>) -> bool) -> spec_fn(
    A,
    spec_fn(Env, B) -> bool,
) -> bool {
    |a: A, s: spec_fn(Env, B) -> bool| exists|m: ReaderOwned<'env, Env, B>| #[trigger] k(a, m) && m.sem() == s
}

/// The meaning of `ask`: the value is the environment.
pub open spec fn owned_ask<Env>() -> spec_fn(Env, Env) -> bool {
    |env: Env, x: Env| x == env
}

/// Runs a computation with meaning `s` on an environment that `k` relates to
/// the one handed in.
pub open spec fn owned_local<Env, R>(k: spec_fn(Env, Env) -> bool, s: spec_fn(Env, R) -> bool) -> spec_fn(
    Env,
    R,
) -> bool {
    |env: Env, x: R| exists|env2: Env| #[trigger] k(env, env2) && s(env2, x)
}

/// Runs, on the environment it is handed, a computation whose meaning `k`
/// relates to that environment.
pub open spec fn owned_look<Env, R>(k: spec_fn(Env, spec_fn(Env, R) -> bool) -> bool) -> spec_fn(Env, R) -> bool {
    |env: Env, x: R| exists|s: spec_fn(Env, R) -> bool| #[trigger] k(env, s) && s(env, x)
}

/// Runs, on the environment that a change of the one it is handed left, a
/// computation: `k(env, (env2, m))` holds when the change may turn `env` into
/// `env2` and give the computation `m`.
pub open spec fn owned_change<'env, Env, R>(k: spec_fn(Env, (Env, ReaderOwned<'env, Env, R>)) -> bool) -> spec_fn(
    Env,
    R,
) -> bool {
    |env: Env, x: R| exists|env2: Env, m: ReaderOwned<'env, Env, R>| #[trigger] k(env, (env2, m)) && (m.sem())(env2, x)
}

/// One step of a computation that owns its environment.
trait OwnedStep<'env, Env, T>: Send {
    spec fn sem(&self) -> spec_fn(Env, T) -> bool;

    spec fn inv(&self) -> bool;

    fn step(self: Box<Self>, env: Env) -> (out: T)
        requires
            self.inv(),
        ensures
            (self.sem())(env, out),
    ;
}

struct RetStep<T> {
    v: T,
}

impl<'env, Env, T: Send> OwnedStep<'env, Env, T> for RetStep<T> {
    closed spec fn sem(&self) -> spec_fn(Env, T) -> bool {
        owned_ret(self.v)
    }

    closed spec fn inv(&self) -> bool {
        true
    }

    fn step(self: Box<Self>, env: Env) -> (out: T) {
        self.v
    }
}

struct AskStep;

impl<'env, Env> OwnedStep<'env, Env, Env> for AskStep {
    closed spec fn sem(&self) -> spec_fn(Env, Env) -> bool {
        owned_ask()
    }

    closed spec fn inv(&self) -> bool {
        true
    }

    fn step(self: Box<Self>, env: Env) -> (out: Env) {
        env
    }
}

struct FnStep<F> {
    f: F,
}

impl<'env, Env, T, F> OwnedStep<'env, Env, T> for FnStep<F> where F: FnOnce(Env) -> T + Send + 'env {
    closed spec fn sem(&self) -> spec_fn(Env, T) -> bool {
        outputs(self.f)
    }

    closed spec fn inv(&self) -> bool {
        forall|env: Env| call_requires(self.f, (env,))
    }

    fn step(self: Box<Self>, env: Env) -> (out: T) {
        let FnStep { f } = *self;
        f(env)
    }
}

#[verifier::reject_recursive_types(Env)]
#[verifier::reject_recursive_types(R)]
struct LocalStep<'env, Env, R, F> where F: FnOnce(Env) -> Env + 'env {
    f: F,
    a: ReaderOwned<'env, Env, R>,
}

impl<'env, Env, R, F> OwnedStep<'env, Env, R> for LocalStep<'env, Env, R, F> where F: FnOnce(Env) -> Env + Send + 'env {
    closed spec fn sem(&self) -> spec_fn(Env, R) -> bool {
        owned_local(outputs(self.f), self.a.sem())
    }

    closed spec fn inv(&self) -> bool {
        forall|env: Env| call_requires(self.f, (env,))
    }

    fn step(self: Box<Self>, env: Env) -> (out: R) {
        let LocalStep { f, a } = *self;
        let ghost env0 = env;
        let env2 = f(env);
        proof {
            assert(outputs(f)(env0, env2));
        }
        a.run(env2)
    }
}

struct LocalRefStep<F> {
    f: F,
}

impl<'env, Env, R, F> OwnedStep<'env, Env, R> for LocalRefStep<F> where
    F: FnOnce(&Env) -> ReaderOwned<'env, Env, R> + Send + 'env,
 {
    closed spec fn sem(&self) -> spec_fn(Env, R) -> bool {
        owned_look(owned_kont(outputs_ref(self.f)))
    }

    closed spec fn inv(&self) -> bool {
        forall|env: Env| call_requires(self.f, (&env,))
    }

    fn step(self: Box<Self>, env: Env) -> (out: R) {
        let LocalRefStep { f } = *self;
        let m = f(&env);
        proof {
            assert(outputs_ref(f)(env, m));
            assert(owned_kont(outputs_ref(f))(env, m.sem()));
        }
        m.run(env)
    }
}

struct LocalMutStep<G> {
    g: G,
}

impl<'env, Env, R, G> OwnedStep<'env, Env, R> for LocalMutStep<G> where
    G: FnOnce(Env) -> (Env, ReaderOwned<'env, Env, R>) + Send + 'env,
 {
    closed spec fn sem(&self) -> spec_fn(Env, R) -> bool {
        owned_change(outputs(self.g))
    }

    closed spec fn inv(&self) -> bool {
        forall|env: Env| call_requires(self.g, (env,))
    }

    fn step(self: Box<Self>, env: Env) -> (out: R) {
        let LocalMutStep { g } = *self;
        let ghost env0 = env;
        let (env2, m) = g(env);
        proof {
            assert(outputs(g)(env0, (env2, m)));
        }
        m.run(env2)
    }
}

/// The computation that hands its environment to `g`, then runs, on the
/// environment that `g` gives back, the computation that `g` gives back.
fn owned_from_change<'env, Env: 'env, R: 'env, G>(g: G) -> (r: ReaderOwned<'env, Env, R>) where
    G: FnOnce(Env) -> (Env, ReaderOwned<'env, Env, R>) + Send + 'env,

    requires
        forall|env: Env| call_requires(g, (env,)),
    ensures
        r.sem() == owned_change(outputs(g)),
{
    ReaderOwned(Box::new(LocalMutStep { g }))
}

#[verifier::reject_recursive_types(Env)]
#[verifier::reject_recursive_types(A)]
struct BindStep<'env, Env, A, F> {
    v: ReaderOwned<'env, Env, A>,
    f: F,
}

impl<'env, Env: Clone, A, B, F> OwnedStep<'env, Env, B> for BindStep<'env, Env, A, F> where
    F: FnOnce(A) -> ReaderOwned<'env, Env, B> + Send + 'env,
 {
    closed spec fn sem(&self) -> spec_fn(Env, B) -> bool {
        owned_bind(self.v.sem(), owned_kont(outputs(self.f)))
    }

    closed spec fn inv(&self) -> bool {
        forall|env: Env, a: A| #[trigger] (self.v.sem())(env, a) ==> call_requires(self.f, (a,))
    }

    fn step(self: Box<Self>, env: Env) -> (out: B) {
        let BindStep { v, f } = *self;
        let env2 = env.clone();
        let a = v.run(env2);
        let m = f(a);
        proof {
            assert(outputs(f)(a, m));
            assert(owned_kont(outputs(f))(a, m.sem()));
        }
        m.run(env)
    }
}

/// The representation of a reader monad that owns the environment: handed an
/// environment of type `Env`, it produces a `T`.
#[verifier::reject_recursive_types(Env)]
#[verifier::reject_recursive_types(T)]
pub struct ReaderOwned<'env, Env, T>(Box<dyn OwnedStep<'env, Env, T> + 'env>);

impl<'env, Env, T> ReaderOwned<'env, Env, T> {
    #[verifier::type_invariant]
    closed spec fn wf(self) -> bool {
        self.0.inv()
    }

    /// What the computation may do (see `owned_ret`).
    pub closed spec fn sem(&self) -> spec_fn(Env, T) -> bool {
        self.0.sem()
    }

    /// The computation that hands its environment to `f` and produces what
    /// `f` returns.
    pub fn new<F>(f: F) -> (r: ReaderOwned<'env, Env, T>) where F: FnOnce(Env) -> T + Send + 'env
        requires
            forall|env: Env| call_requires(f, (env,)),
        ensures
            r.sem() == outputs(f),
    {
        ReaderOwned(Box::new(FnStep { f }))
    }

    /// Runs the computation, handing it the environment `env`.
    pub fn run(self, env: Env) -> (r: T)
        ensures
            (self.sem())(env, r),
    {
        proof {
            use_type_invariant(&self);
        }
        self.0.step(env)
    }
}

#[derive(Debug)]
/// A name space for reader monads that carry an owned environment.
pub struct ReaderOwnedM<Env>(PhantomData<Env>);

impl<'env, Env: 'env + Clone, T: 'env> Monad<'env, T> for ReaderOwnedM<Env> {
    type Repr = ReaderOwned<'env, Env, T>;

    open spec fn yields(r: ReaderOwned<'env, Env, T>, v: T) -> bool {
        exists|env: Env| #[trigger] (r.sem())(env, v)
    }

    open spec fn is_ret(r: ReaderOwned<'env, Env, T>, v: T) -> bool {
        r.sem() == owned_ret::<Env, T>(v)
    }

    proof fn lemma_ret_yields(r: ReaderOwned<'env, Env, T>, v: T, b: T) {
        let env: Env = arbitrary();
        assert((r.sem())(env, v));
    }

    fn ret(v: T) -> (r: ReaderOwned<'env, Env, T>) where T: Send {
        ReaderOwned(Box::new(RetStep { v }))
    }
}

impl<'env, Env: 'env + Clone, A: 'env, B: 'env> MonadBind<'env, A, B> for ReaderOwnedM<Env> {
    open spec fn is_bind(
        r: ReaderOwned<'env, Env, B>,
        v: ReaderOwned<'env, Env, A>,
        k: spec_fn(A, ReaderOwned<'env, Env, B>) -> bool,
    ) -> bool {
        forall|env: Env, b: B| #[trigger] (r.sem())(env, b) ==> (owned_bind(v.sem(), owned_kont(k)))(env, b)
    }

    proof fn lemma_bind_mono(
        r: ReaderOwned<'env, Env, B>,
        v: ReaderOwned<'env, Env, A>,
        k1: spec_fn(A, ReaderOwned<'env, Env, B>) -> bool,
        k2: spec_fn(A, ReaderOwned<'env, Env, B>) -> bool,
    ) {
        assert forall|env: Env, b: B| #[trigger] (r.sem())(env, b) implies (owned_bind(v.sem(), owned_kont(k2)))(env, b) by {
            let (env2, a, kb) = choose|env2: Env, a: A, kb: spec_fn(Env, B) -> bool|
                cloned(env, env2) && #[trigger] (v.sem())(env2, a) && #[trigger] owned_kont(k1)(a, kb) && kb(env, b);
            let m = choose|m: ReaderOwned<'env, Env, B>| #[trigger] k1(a, m) && m.sem() == kb;
            assert(k2(a, m));
            assert(owned_kont(k2)(a, kb));
        }
    }

    proof fn lemma_bind_yields(
        r: ReaderOwned<'env, Env, B>,
        v: ReaderOwned<'env, Env, A>,
        k: spec_fn(A, ReaderOwned<'env, Env, B>) -> bool,
        b: B,
    ) {
        let env = choose|env: Env| #[trigger] (r.sem())(env, b);
        let (env2, a, kb) = choose|env2: Env, a: A, kb: spec_fn(Env, B) -> bool|
            cloned(env, env2) && #[trigger] (v.sem())(env2, a) && #[trigger] owned_kont(k)(a, kb) && kb(env, b);
        let m = choose|m: ReaderOwned<'env, Env, B>| #[trigger] k(a, m) && m.sem() == kb;
        assert(<ReaderOwnedM<Env> as Monad<'env, A>>::yields(v, a));
        assert(<ReaderOwnedM<Env> as Monad<'env, B>>::yields(m, b));
    }

    fn bind_impl<F>(v: ReaderOwned<'env, Env, A>, f: F) -> (r: ReaderOwned<'env, Env, B>) where
        F: FnOnce(A) -> ReaderOwned<'env, Env, B> + Send + 'env,

        ensures
            r.sem() == owned_bind(v.sem(), owned_kont(outputs(f))),
    {
        assert forall|env: Env, a: A| #[trigger] (v.sem())(env, a) implies call_requires(f, (a,)) by {
            assert(<ReaderOwnedM<Env> as Monad<'env, A>>::yields(v, a));
        }
        ReaderOwned(Box::new(BindStep { v, f }))
    }
}

impl<'env, Env: 'env + Clone, A: 'env, B: 'env> MonadRepr<'env, ReaderOwnedM<Env>, A, B> for ReaderOwned<
    'env,
    Env,
    A,
> {
    fn bind<F>(self, f: F) -> (r: ReaderOwned<'env, Env, B>) where
        F: FnOnce(A) -> ReaderOwned<'env, Env, B> + Send + 'env,

        ensures
            r.sem() == owned_bind(self.sem(), owned_kont(outputs(f))),
    {
        <ReaderOwnedM<Env> as MonadBind<'env, A, B>>::bind_impl(self, f)
    }
}

/// Reader monad actions on an owned environment. `R` is the type of the value
/// that the computations that `local`, `local_ref` and `local_mut` run produce.
pub trait MonadReaderOwned<'env, Env: Clone, R = ()>: Monad<'env, Env> + Monad<'env, R> {
    /// `r` behaves as `ask`.
    spec fn is_ask(r: <Self as Monad<'env, Env>>::Repr) -> bool;

    /// `r` behaves as running `a` on an environment that `k` relates to the
    /// one handed in.
    spec fn is_local(
        r: <Self as Monad<'env, R>>::Repr,
        k: spec_fn(Env, Env) -> bool,
        a: <Self as Monad<'env, R>>::Repr,
    ) -> bool;

    /// `r` behaves as running, on the environment handed in, a computation
    /// that `k` relates to that environment.
    spec fn is_local_ref(
        r: <Self as Monad<'env, R>>::Repr,
        k: spec_fn(Env, <Self as Monad<'env, R>>::Repr) -> bool,
    ) -> bool;

    /// `r` behaves as changing the environment handed in and running, on the
    /// changed one, a computation: `k(env, env2, m)` holds when the change may
    /// turn `env` into `env2` and give the computation `m`.
    spec fn is_local_mut(
        r: <Self as Monad<'env, R>>::Repr,
        k: spec_fn(Env, Env, <Self as Monad<'env, R>>::Repr) -> bool,
    ) -> bool;

    /// Gives the environment as the value.
    fn ask() -> (r: <Self as Monad<'env, Env>>::Repr)
        ensures
            Self::is_ask(r),
    ;

    /// Runs `a` on the environment that `f` makes of the one handed in.
    fn local<F>(f: F, a: <Self as Monad<'env, R>>::Repr) -> (r: <Self as Monad<'env, R>>::Repr) where
        F: FnOnce(Env) -> Env + Send + 'env,

        requires
            forall|env: Env| call_requires(f, (env,)),
        ensures
            Self::is_local(r, outputs(f), a),
    ;

    /// Shows `f` the environment and runs, on it, the computation that `f` returns.
    fn local_ref<F>(f: F) -> (r: <Self as Monad<'env, R>>::Repr) where
        F: FnOnce(&Env) -> <Self as Monad<'env, R>>::Repr + Send + 'env,

        requires
            forall|env: Env| call_requires(f, (&env,)),
        ensures
            Self::is_local_ref(r, outputs_ref(f)),
    ;

    /// Lets `f` change the environment and runs, on the changed environment,
    /// the computation that `f` returns.
    fn local_mut<F>(f: F) -> (r: <Self as Monad<'env, R>>::Repr) where
        F: FnOnce(&mut Env) -> <Self as Monad<'env, R>>::Repr + Send + 'env,

        requires
            forall|x: &mut Env| call_requires(f, (x,)),
        ensures
            Self::is_local_mut(
                r,
                |env: Env, env2: Env, m: <Self as Monad<'env, R>>::Repr|
                    exists|x: &mut Env| *x == env && *final(x) == env2 && #[trigger] call_ensures(f, (x,), m),
            ),
    ;
}

impl<'env, Env: 'env + Clone, R: 'env> MonadReaderOwned<'env, Env, R> for ReaderOwnedM<Env> {
    open spec fn is_ask(r: ReaderOwned<'env, Env, Env>) -> bool {
        r.sem() == owned_ask::<Env>()
    }

    open spec fn is_local(
        r: ReaderOwned<'env, Env, R>,
        k: spec_fn(Env, Env) -> bool,
        a: ReaderOwned<'env, Env, R>,
    ) -> bool {
        r.sem() == owned_local(k, a.sem())
    }

    open spec fn is_local_ref(r: ReaderOwned<'env, Env, R>, k: spec_fn(Env, ReaderOwned<'env, Env, R>) -> bool) -> bool {
        r.sem() == owned_look(owned_kont(k))
    }

    open spec fn is_local_mut(
        r: ReaderOwned<'env, Env, R>,
        k: spec_fn(Env, Env, ReaderOwned<'env, Env, R>) -> bool,
    ) -> bool {
        forall|env: Env, x: R| #[trigger] (r.sem())(env, x) ==> (owned_change(
            |env: Env, p: (Env, ReaderOwned<'env, Env, R>)| k(env, p.0, p.1),
        ))(env, x)
    }

    fn ask() -> (r: ReaderOwned<'env, Env, Env>) {
        ReaderOwned(Box::new(AskStep))
    }

    fn local<F>(f: F, a: ReaderOwned<'env, Env, R>) -> (r: ReaderOwned<'env, Env, R>) where
        F: FnOnce(Env) -> Env + Send + 'env,
    {
        ReaderOwned(Box::new(LocalStep { f, a }))
    }

    fn local_ref<F>(f: F) -> (r: ReaderOwned<'env, Env, R>) where
        F: FnOnce(&Env) -> ReaderOwned<'env, Env, R> + Send + 'env,
    {
        ReaderOwned(Box::new(LocalRefStep { f }))
    }

    fn local_mut<F>(f: F) -> (r: ReaderOwned<'env, Env, R>) where
        F: FnOnce(&mut Env) -> ReaderOwned<'env, Env, R> + Send + 'env,
    {
        let g = move |env0: Env| -> (out: (Env, ReaderOwned<'env, Env, R>))
            requires forall|x: &mut Env| call_requires(f, (x,))
            ensures exists|x: &mut Env| *x == env0 && *final(x) == out.0 && call_ensures(f, (x,), out.1)
            {
                let mut env = env0;
                let m = f(&mut env);
                (env, m)
            };
        let r = owned_from_change(g);
        proof {
            let k = |env: Env, env2: Env, m: ReaderOwned<'env, Env, R>|
                exists|x: &mut Env| *x == env && *final(x) == env2 && #[trigger] call_ensures(f, (x,), m);
            let kp = |env: Env, p: (Env, ReaderOwned<'env, Env, R>)| k(env, p.0, p.1);
            assert forall|env: Env, x: R| #[trigger] (r.sem())(env, x) implies (owned_change(kp))(env, x) by {
                let (env2, m) = choose|env2: Env, m: ReaderOwned<'env, Env, R>|
                    #[trigger] outputs(g)(env, (env2, m)) && (m.sem())(env2, x);
                assert(call_ensures(g, (env,), (env2, m)));
                assert(k(env, env2, m));
                assert(kp(env, (env2, m)));
            }
        }
        r
    }
}

} // verus!

verus! {

/// Every clone of an environment equals it.
pub open spec fn clones_are_equal<Env: Clone>() -> bool {
    forall|env: Env, env2: Env| #[trigger] cloned(env, env2) ==> env2 == env
}

/// Left identity: binding a returned value `a` runs, on the same environment,
/// a computation that the continuation relates to `a`.
pub proof fn owned_left_identity<Env: Clone, A, B>(a: A, k: spec_fn(A, spec_fn(Env, B) -> bool) -> bool)
    ensures
        owned_bind(owned_ret::<Env, A>(a), k) == (|env: Env, b: B|
            exists|s: spec_fn(Env, B) -> bool| #[trigger] k(a, s) && s(env, b)),
{
    let lhs = owned_bind(owned_ret::<Env, A>(a), k);
    let rhs = |env: Env, b: B| exists|s: spec_fn(Env, B) -> bool| #[trigger] k(a, s) && s(env, b);
    assert forall|env: Env, b: B| #[trigger] lhs(env, b) == rhs(env, b) by {
        if rhs(env, b) {
            let s = choose|s: spec_fn(Env, B) -> bool| #[trigger] k(a, s) && s(env, b);
            assert(cloned(env, env));
            assert(owned_ret::<Env, A>(a)(env, a));
        }
    }
    assert(lhs =~= rhs);
}

/// Right identity: binding a computation with `ret` gives back the
/// computation, when every clone of an environment equals it.
pub proof fn owned_right_identity<Env: Clone, A>(m: spec_fn(Env, A) -> bool)
    requires
        clones_are_equal::<Env>(),
    ensures
        owned_bind(m, |a: A, s: spec_fn(Env, A) -> bool| s == owned_ret::<Env, A>(a)) == m,
{
    let k = |a: A, s: spec_fn(Env, A) -> bool| s == owned_ret::<Env, A>(a);
    let lhs = owned_bind(m, k);
    assert forall|env: Env, a: A| #[trigger] lhs(env, a) == m(env, a) by {
        if m(env, a) {
            assert(cloned(env, env));
            assert(k(a, owned_ret::<Env, A>(a)));
        }
        if lhs(env, a) {
            let (env2, a1, kb) = choose|env2: Env, a1: A, kb: spec_fn(Env, A) -> bool|
                cloned(env, env2) && #[trigger] m(env2, a1) && #[trigger] k(a1, kb) && kb(env, a);
            assert(env2 == env);
        }
    }
    assert(lhs =~= m);
}

/// Associativity: binding `g` after binding `f` is binding the continuation
/// that binds `g` after each computation that `f` relates to the value, when
/// every clone of an environment equals it.
pub proof fn owned_associativity<Env: Clone, A, B, C>(
    m: spec_fn(Env, A) -> bool,
    f: spec_fn(A, spec_fn(Env, B) -> bool) -> bool,
    g: spec_fn(B, spec_fn(Env, C) -> bool) -> bool,
)
    requires
        clones_are_equal::<Env>(),
    ensures
        owned_bind(owned_bind(m, f), g) == owned_bind(
            m,
            |a: A, s: spec_fn(Env, C) -> bool|
                exists|t: spec_fn(Env, B) -> bool| #[trigger] f(a, t) && s == owned_bind(t, g),
        ),
{
    let h = |a: A, s: spec_fn(Env, C) -> bool|
        exists|t: spec_fn(Env, B) -> bool| #[trigger] f(a, t) && s == owned_bind(t, g);
    let lhs = owned_bind(owned_bind(m, f), g);
    let rhs = owned_bind(m, h);
    assert forall|env: Env, c: C| #[trigger] lhs(env, c) == rhs(env, c) by {
        assert(cloned(env, env));
        if lhs(env, c) {
            let (e1, b, kc) = choose|e1: Env, b: B, kc: spec_fn(Env, C) -> bool|
                cloned(env, e1) && #[trigger] owned_bind(m, f)(e1, b) && #[trigger] g(b, kc) && kc(env, c);
            assert(e1 == env);
            let (e2, a, kb) = choose|e2: Env, a: A, kb: spec_fn(Env, B) -> bool|
                cloned(env, e2) && #[trigger] m(e2, a) && #[trigger] f(a, kb) && kb(env, b);
            assert(e2 == env);
            assert(owned_bind(kb, g)(env, c));
            assert(h(a, owned_bind(kb, g)));
        }
        if rhs(env, c) {
            let (e1, a, kc) = choose|e1: Env, a: A, kc: spec_fn(Env, C) -> bool|
                cloned(env, e1) && #[trigger] m(e1, a) && #[trigger] h(a, kc) && kc(env, c);
            assert(e1 == env);
            let t = choose|t: spec_fn(Env, B) -> bool| #[trigger] f(a, t) && kc == owned_bind(t, g);
            let (e2, b, kd) = choose|e2: Env, b: B, kd: spec_fn(Env, C) -> bool|
                cloned(env, e2) && #[trigger] t(e2, b) && #[trigger] g(b, kd) && kd(env, c);
            assert(e2 == env);
            assert(owned_bind(m, f)(env, b));
        }
    }
    assert(lhs =~= rhs);
}

/// Asking inside `local` gives the environment that the change made.
pub proof fn owned_local_ask<Env>(k: spec_fn(Env, Env) -> bool)
    ensures
        owned_local(k, owned_ask::<Env>()) == k,
{
    let lhs = owned_local(k, owned_ask::<Env>());
    assert forall|env: Env, x: Env| #[trigger] lhs(env, x) == k(env, x) by {
        if k(env, x) {
            assert(owned_ask::<Env>()(x, x));
        }
    }
    assert(lhs =~= k);
}

/// `local` with a change that keeps the environment as it is runs the
/// computation as it is.
pub proof fn owned_local_identity<Env, R>(s: spec_fn(Env, R) -> bool)
    ensures
        owned_local(|env: Env, env2: Env| env2 == env, s) == s,
{
    let k = |env: Env, env2: Env| env2 == env;
    let lhs = owned_local(k, s);
    assert forall|env: Env, x: R| #[trigger] lhs(env, x) == s(env, x) by {
        if s(env, x) {
            assert(k(env, env));
        }
    }
    assert(lhs =~= s);
}

} // verus!
