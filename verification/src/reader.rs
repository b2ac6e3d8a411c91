use crate::bind::{outputs, Monad, MonadBind, MonadRepr};
use std::marker::PhantomData;
use vstd::prelude::*;

verus! {

/// The meaning of `ret(v)`: the value is `v`, whatever the environment.
///
/// The meaning of a computation that reads an environment is a relation `s`:
/// `s(env, x)` holds when, run in the environment `env`, the computation may
/// produce `x`.
pub open spec fn reader_ret<Env, T>(v: T) -> spec_fn(Env, T) -> bool {
    |env: Env, x: T| x == v
}

/// Runs `m`, then, in the same environment, a computation whose meaning `k`
/// relates to the value that `m` produced.
pub open spec fn reader_bind<Env, A, B>(
    m: spec_fn(Env, A) -> bool,
    k: spec_fn(A, spec_fn(Env, B) -> bool) -> bool,
) -> spec_fn(Env, B) -> bool {
    |env: Env, b: B| exists|a: A, kb: spec_fn(Env, B) -> bool| #[trigger] m(env, a) && #[trigger] k(a, kb) && kb(env, b)
}

/// Lifts a relation from values to computations into one from values to the
/// meanings of those computations.
pub open spec fn reader_kont<'env, Env, A, B>(k: spec_fn(A, Reader<'env, Env, B>) -> bool) -> spec_fn(
    A,
    spec_fn(Env, B) -> bool,
) -> bool {
    |a: A, s: spec_fn(Env, B) -> bool| exists|m: Reader<'env, Env, B>| #[trigger] k(a, m) && m.sem() == s
}

/// The meaning of `ask_ref`: the value is (a reference to) the environment.
pub open spec fn reader_ask_ref<'env, Env>() -> spec_fn(Env, &'env Env) -> bool {
    |env: Env, x: &'env Env| *x == env
}

/// The meaning of `ask`: the value is a clone of the environment.
pub open spec fn reader_ask<Env: Clone>() -> spec_fn(Env, Env) -> bool {
    |env: Env, x: Env| cloned(env, x)
}

/// One step of a computation that reads an environment.
pub(crate) trait ReaderStep<'env, Env, T>: Send {
    spec fn sem(&self) -> spec_fn(Env, T) -> bool;

    spec fn inv(&self) -> bool;

    fn step(self: Box<Self>, env: &'env Env) -> (out: T)
        requires
            self.inv(),
        ensures
            (self.sem())(*env, out),
    ;
}

struct RetStep<T> {
    v: T,
}

impl<'env, Env, T: Send> ReaderStep<'env, Env, T> for RetStep<T> {
    closed spec fn sem(&self) -> spec_fn(Env, T) -> bool {
        reader_ret(self.v)
    }

    closed spec fn inv(&self) -> bool {
        true
    }

    fn step(self: Box<Self>, env: &'env Env) -> (out: T) {
        self.v
    }
}

struct AskRefStep;

impl<'env, Env> ReaderStep<'env, Env, &'env Env> for AskRefStep {
    closed spec fn sem(&self) -> spec_fn(Env, &'env Env) -> bool {
        reader_ask_ref()
    }

    closed spec fn inv(&self) -> bool {
        true
    }

    fn step(self: Box<Self>, env: &'env Env) -> (out: &'env Env) {
        env
    }
}

struct AskStep;

impl<'env, Env: Clone> ReaderStep<'env, Env, Env> for AskStep {
    closed spec fn sem(&self) -> spec_fn(Env, Env) -> bool {
        reader_ask()
    }

    closed spec fn inv(&self) -> bool {
        true
    }

    fn step(self: Box<Self>, env: &'env Env) -> (out: Env) {
        env.clone()
    }
}

#[verifier::reject_recursive_types(Env)]
#[verifier::reject_recursive_types(A)]
struct BindStep<'env, Env, A, F> {
    v: Reader<'env, Env, A>,
    f: F,
}

impl<'env, Env, A, B, F> ReaderStep<'env, Env, B> for BindStep<'env, Env, A, F> where
    F: FnOnce(A) -> Reader<'env, Env, B> + Send + 'env,
 {
    closed spec fn sem(&self) -> spec_fn(Env, B) -> bool {
        reader_bind(self.v.sem(), reader_kont(outputs(self.f)))
    }

    closed spec fn inv(&self) -> bool {
        forall|env: Env, a: A| #[trigger] (self.v.sem())(env, a) ==> call_requires(self.f, (a,))
    }

    fn step(self: Box<Self>, env: &'env Env) -> (out: B) {
        let BindStep { v, f } = *self;
        let a = v.run(env);
        let m = f(a);
        proof {
            assert(outputs(f)(a, m));
            assert(reader_kont(outputs(f))(a, m.sem()));
        }
        m.run(env)
    }
}

/// The representation of a reader monad: a computation that reads an
/// environment of type `Env` and produces a `T`.
#[verifier::reject_recursive_types(Env)]
#[verifier::reject_recursive_types(T)]
pub struct Reader<'env, Env, T>(pub(crate) Box<dyn ReaderStep<'env, Env, T> + 'env>);

impl<'env, Env, T> Reader<'env, Env, T> {
    #[verifier::type_invariant]
    pub(crate) open spec fn wf(self) -> bool {
        self.0.inv()
    }

    /// What the computation may do (see `reader_ret`).
    pub closed spec fn sem(&self) -> spec_fn(Env, T) -> bool {
        self.0.sem()
    }

    /// A reader is what its step does.
    pub(crate) proof fn lemma_sem(&self)
        ensures
            self.sem() == self.0.sem(),
    {
    }

    /// Runs the computation in the environment `env`.
    pub fn run(self, env: &'env Env) -> (r: T)
        ensures
            (self.sem())(*env, r),
    {
        proof {
            use_type_invariant(&self);
        }
        self.0.step(env)
    }
}

#[derive(Debug)]
/// A namespace for reader monads.
pub struct ReaderM<Env>(PhantomData<Env>);

impl<'env, Env: 'env, T: 'env> Monad<'env, T> for ReaderM<Env> {
    type Repr = Reader<'env, Env, T>;

    open spec fn yields(r: Reader<'env, Env, T>, v: T) -> bool {
        exists|env: Env| #[trigger] (r.sem())(env, v)
    }

    open spec fn is_ret(r: Reader<'env, Env, T>, v: T) -> bool {
        r.sem() == reader_ret::<Env, T>(v)
    }

    proof fn lemma_ret_yields(r: Reader<'env, Env, T>, v: T, b: T) {
        let env: Env = arbitrary();
        assert((r.sem())(env, v));
    }

    fn ret(v: T) -> (r: Reader<'env, Env, T>) where T: Send {
        Reader(Box::new(RetStep { v }))
    }
}

impl<'env, Env: 'env, A: 'env, B: 'env> MonadBind<'env, A, B> for ReaderM<Env> {
    open spec fn is_bind(
        r: Reader<'env, Env, B>,
        v: Reader<'env, Env, A>,
        k: spec_fn(A, Reader<'env, Env, B>) -> bool,
    ) -> bool {
        forall|env: Env, b: B| #[trigger] (r.sem())(env, b) ==> (reader_bind(v.sem(), reader_kont(k)))(env, b)
    }

    proof fn lemma_bind_mono(
        r: Reader<'env, Env, B>,
        v: Reader<'env, Env, A>,
        k1: spec_fn(A, Reader<'env, Env, B>) -> bool,
        k2: spec_fn(A, Reader<'env, Env, B>) -> bool,
    ) {
        assert forall|env: Env, b: B| #[trigger] (r.sem())(env, b) implies (reader_bind(v.sem(), reader_kont(k2)))(env, b) by {
            let (a, kb) = choose|a: A, kb: spec_fn(Env, B) -> bool|
                #[trigger] (v.sem())(env, a) && #[trigger] reader_kont(k1)(a, kb) && kb(env, b);
            let m = choose|m: Reader<'env, Env, B>| #[trigger] k1(a, m) && m.sem() == kb;
            assert(k2(a, m));
            assert(reader_kont(k2)(a, kb));
        }
    }

    proof fn lemma_bind_yields(
        r: Reader<'env, Env, B>,
        v: Reader<'env, Env, A>,
        k: spec_fn(A, Reader<'env, Env, B>) -> bool,
        b: B,
    ) {
        let env = choose|env: Env| #[trigger] (r.sem())(env, b);
        let (a, kb) = choose|a: A, kb: spec_fn(Env, B) -> bool|
            #[trigger] (v.sem())(env, a) && #[trigger] reader_kont(k)(a, kb) && kb(env, b);
        let m = choose|m: Reader<'env, Env, B>| #[trigger] k(a, m) && m.sem() == kb;
        assert(<ReaderM<Env> as Monad<'env, A>>::yields(v, a));
        assert(<ReaderM<Env> as Monad<'env, B>>::yields(m, b));
    }

    fn bind_impl<F>(v: Reader<'env, Env, A>, f: F) -> (r: Reader<'env, Env, B>) where
        F: FnOnce(A) -> Reader<'env, Env, B> + Send + 'env,

        ensures
            r.sem() == reader_bind(v.sem(), reader_kont(outputs(f))),
    {
        assert forall|env: Env, a: A| #[trigger] (v.sem())(env, a) implies call_requires(f, (a,)) by {
            assert(<ReaderM<Env> as Monad<'env, A>>::yields(v, a));
        }
        Reader(Box::new(BindStep { v, f }))
    }
}

impl<'env, Env: 'env, A: 'env, B: 'env> MonadRepr<'env, ReaderM<Env>, A, B> for Reader<'env, Env, A> {
    fn bind<F>(self, f: F) -> (r: Reader<'env, Env, B>) where F: FnOnce(A) -> Reader<'env, Env, B> + Send + 'env
        ensures
            r.sem() == reader_bind(self.sem(), reader_kont(outputs(f))),
    {
        <ReaderM<Env> as MonadBind<'env, A, B>>::bind_impl(self, f)
    }
}

/// MTL-style reader monad actions.
pub trait MonadReader<'env, Env: 'env>: Monad<'env, &'env Env> + Monad<'env, Env> {
    /// `r` behaves as `ask_ref`.
    spec fn is_ask_ref(r: <Self as Monad<'env, &'env Env>>::Repr) -> bool;

    /// `r` behaves as `ask`.
    spec fn is_ask(r: <Self as Monad<'env, Env>>::Repr) -> bool where Env: Clone;

    /// Get a reference to the environment.
    fn ask_ref() -> (r: <Self as Monad<'env, &'env Env>>::Repr)
        ensures
            Self::is_ask_ref(r),
    ;

    /// Get an owned clone of the environment.
    fn ask() -> (r: <Self as Monad<'env, Env>>::Repr) where Env: Clone
        ensures
            Self::is_ask(r),
    ;
}

impl<'env, Env: 'env> MonadReader<'env, Env> for ReaderM<Env> {
    open spec fn is_ask_ref(r: Reader<'env, Env, &'env Env>) -> bool {
        r.sem() == reader_ask_ref::<'env, Env>()
    }

    open spec fn is_ask(r: Reader<'env, Env, Env>) -> bool where Env: Clone {
        r.sem() == reader_ask::<Env>()
    }

    fn ask_ref() -> (r: Reader<'env, Env, &'env Env>) {
        Reader(Box::new(AskRefStep))
    }

    fn ask() -> (r: Reader<'env, Env, Env>) where Env: Clone {
        Reader(Box::new(AskStep))
    }
}

} // verus!

verus! {

/// Left identity: binding a returned value `a` runs, in the same environment,
/// a computation that the continuation relates to `a`.
pub proof fn reader_left_identity<Env, A, B>(a: A, k: spec_fn(A, spec_fn(Env, B) -> bool) -> bool)
    ensures
        reader_bind(reader_ret::<Env, A>(a), k) == (|env: Env, b: B|
            exists|s: spec_fn(Env, B) -> bool| #[trigger] k(a, s) && s(env, b)),
{
    let lhs = reader_bind(reader_ret::<Env, A>(a), k);
    let rhs = |env: Env, b: B| exists|s: spec_fn(Env, B) -> bool| #[trigger] k(a, s) && s(env, b);
    assert forall|env: Env, b: B| #[trigger] lhs(env, b) == rhs(env, b) by {
        if rhs(env, b) {
            let s = choose|s: spec_fn(Env, B) -> bool| #[trigger] k(a, s) && s(env, b);
            assert(reader_ret::<Env, A>(a)(env, a));
        }
    }
    assert(lhs =~= rhs);
}

/// Right identity: binding a computation with `ret` gives back the computation.
pub proof fn reader_right_identity<Env, A>(m: spec_fn(Env, A) -> bool)
    ensures
        reader_bind(m, |a: A, s: spec_fn(Env, A) -> bool| s == reader_ret::<Env, A>(a)) == m,
{
    let k = |a: A, s: spec_fn(Env, A) -> bool| s == reader_ret::<Env, A>(a);
    let lhs = reader_bind(m, k);
    assert forall|env: Env, a: A| #[trigger] lhs(env, a) == m(env, a) by {
        if m(env, a) {
            assert(k(a, reader_ret::<Env, A>(a)));
        }
    }
    assert(lhs =~= m);
}

/// Associativity: binding `g` after binding `f` is binding the continuation
/// that binds `g` after each computation that `f` relates to the value.
pub proof fn reader_associativity<Env, A, B, C>(
    m: spec_fn(Env, A) -> bool,
    f: spec_fn(A, spec_fn(Env, B) -> bool) -> bool,
    g: spec_fn(B, spec_fn(Env, C) -> bool) -> bool,
)
    ensures
        reader_bind(reader_bind(m, f), g) == reader_bind(
            m,
            |a: A, s: spec_fn(Env, C) -> bool|
                exists|t: spec_fn(Env, B) -> bool| #[trigger] f(a, t) && s == reader_bind(t, g),
        ),
{
    let h = |a: A, s: spec_fn(Env, C) -> bool|
        exists|t: spec_fn(Env, B) -> bool| #[trigger] f(a, t) && s == reader_bind(t, g);
    let lhs = reader_bind(reader_bind(m, f), g);
    let rhs = reader_bind(m, h);
    assert forall|env: Env, c: C| #[trigger] lhs(env, c) == rhs(env, c) by {
        if lhs(env, c) {
            let (b, kc) = choose|b: B, kc: spec_fn(Env, C) -> bool|
                #[trigger] reader_bind(m, f)(env, b) && #[trigger] g(b, kc) && kc(env, c);
            let (a, kb) = choose|a: A, kb: spec_fn(Env, B) -> bool|
                #[trigger] m(env, a) && #[trigger] f(a, kb) && kb(env, b);
            assert(reader_bind(kb, g)(env, c));
            assert(h(a, reader_bind(kb, g)));
        }
        if rhs(env, c) {
            let (a, kc) = choose|a: A, kc: spec_fn(Env, C) -> bool|
                #[trigger] m(env, a) && #[trigger] h(a, kc) && kc(env, c);
            let t = choose|t: spec_fn(Env, B) -> bool| #[trigger] f(a, t) && kc == reader_bind(t, g);
            let (b, kd) = choose|b: B, kd: spec_fn(Env, C) -> bool|
                #[trigger] t(env, b) && #[trigger] g(b, kd) && kd(env, c);
            assert(reader_bind(m, f)(env, b));
        }
    }
    assert(lhs =~= rhs);
}

/// Asking for the environment twice in one run sees the same environment twice.
pub proof fn reader_ask_ref_twice<'env, Env>()
    ensures
        reader_bind(
            reader_ask_ref::<'env, Env>(),
            |x: &'env Env, s: spec_fn(Env, (&'env Env, &'env Env)) -> bool|
                s == reader_bind(
                    reader_ask_ref::<'env, Env>(),
                    |y: &'env Env, t: spec_fn(Env, (&'env Env, &'env Env)) -> bool| t == reader_ret::<Env, (&'env Env, &'env Env)>((x, y)),
                ),
        ) == (|env: Env, p: (&'env Env, &'env Env)| *p.0 == env && *p.1 == env),
{
    let k = |x: &'env Env, s: spec_fn(Env, (&'env Env, &'env Env)) -> bool|
        s == reader_bind(
            reader_ask_ref::<'env, Env>(),
            |y: &'env Env, t: spec_fn(Env, (&'env Env, &'env Env)) -> bool| t == reader_ret::<Env, (&'env Env, &'env Env)>((x, y)),
        );
    let lhs = reader_bind(reader_ask_ref::<'env, Env>(), k);
    let rhs = |env: Env, p: (&'env Env, &'env Env)| *p.0 == env && *p.1 == env;
    assert forall|env: Env, p: (&'env Env, &'env Env)| #[trigger] lhs(env, p) == rhs(env, p) by {
        if rhs(env, p) {
            let ky = |y: &'env Env, t: spec_fn(Env, (&'env Env, &'env Env)) -> bool| t == reader_ret::<Env, (&'env Env, &'env Env)>((p.0, y));
            assert(reader_ask_ref::<'env, Env>()(env, p.1));
            assert(ky(p.1, reader_ret::<Env, (&'env Env, &'env Env)>((p.0, p.1))));
            assert(reader_bind(reader_ask_ref::<'env, Env>(), ky)(env, p));
            assert(k(p.0, reader_bind(reader_ask_ref::<'env, Env>(), ky)));
            assert(reader_ask_ref::<'env, Env>()(env, p.0));
        }
    }
    assert(lhs =~= rhs);
}

} // verus!
