use crate::bind::{outputs, Monad, MonadBind, MonadRepr};
use crate::control::{runs_each, runs_rest};
use crate::reader::{MonadReader, Reader, ReaderStep};
use crate::writer::{AppendTrace, MonadWriter, Writer};
use std::marker::PhantomData;
use vstd::prelude::*;

verus! {

/// The meaning of `ret(v)`: the value is `v` and the trace is empty.
///
/// The meaning of a computation that reads an environment and writes a trace
/// is a relation `s`: `s(env, (x, t))` holds when, run in the environment
/// `env`, the computation may produce `x` and write a trace whose view is `t`.
pub open spec fn rw_ret<Env, W: AppendTrace, T>(v: T) -> spec_fn(Env, (T, W::V)) -> bool {
    |env: Env, o: (T, W::V)| o == (v, W::spec_empty())
}

/// Runs `m`, then, in the same environment, a computation whose meaning `k`
/// relates to the value that `m` produced; the trace is that of `m` followed
/// by that of the second computation.
pub open spec fn rw_bind<Env, W: AppendTrace, A, B>(
    m: spec_fn(Env, (A, W::V)) -> bool,
    k: spec_fn(A, spec_fn(Env, (B, W::V)) -> bool) -> bool,
) -> spec_fn(Env, (B, W::V)) -> bool {
    |env: Env, o: (B, W::V)|
        exists|p: (A, W::V), kb: spec_fn(Env, (B, W::V)) -> bool, q: (B, W::V)|
            #[trigger] m(env, p) && #[trigger] k(p.0, kb) && #[trigger] kb(env, q) && o == (
                q.0,
                W::spec_append(p.1, q.1),
            )
}

/// Lifts a relation from values to computations into one from values to the
/// meanings of those computations.
pub open spec fn rw_kont<'env, Env, W: AppendTrace, A, B>(
    k: spec_fn(A, ReaderWriter<'env, Env, W, B>) -> bool,
) -> spec_fn(A, spec_fn(Env, (B, W::V)) -> bool) -> bool {
    |a: A, s: spec_fn(Env, (B, W::V)) -> bool|
        exists|m: ReaderWriter<'env, Env, W, B>| #[trigger] k(a, m) && m.sem() == s
}

/// The meaning of `ask_ref`: the value is (a reference to) the environment,
/// and the trace is empty.
pub open spec fn rw_ask_ref<'env, Env, W: AppendTrace>() -> spec_fn(Env, (&'env Env, W::V)) -> bool {
    |env: Env, o: (&'env Env, W::V)| *o.0 == env && o.1 == W::spec_empty()
}

/// The meaning of `ask`: the value is a clone of the environment, and the
/// trace is empty.
pub open spec fn rw_ask<Env: Clone, W: AppendTrace>() -> spec_fn(Env, (Env, W::V)) -> bool {
    |env: Env, o: (Env, W::V)| cloned(env, o.0) && o.1 == W::spec_empty()
}

/// The meaning of `write(t)`: no value, and the trace `t`.
pub open spec fn rw_write<Env, W: AppendTrace>(t: W::V) -> spec_fn(Env, ((), W::V)) -> bool {
    |env: Env, o: ((), W::V)| o == ((), t)
}

/// Keeps, of what `s` allows, the pairs whose trace view is the view of a
/// trace: a run can only give those.
pub open spec fn rw_realized<Env, W: View, T>(s: spec_fn(Env, (T, W::V)) -> bool) -> spec_fn(Env, (T, W::V)) -> bool {
    |env: Env, o: (T, W::V)| s(env, o) && exists|w: Writer<W, T>| #[trigger] w@ == o
}

/// The relation on writers that `s` states on their views.
pub open spec fn on_views<Env, W: View, T>(s: spec_fn(Env, (T, W::V)) -> bool) -> spec_fn(Env, Writer<W, T>) -> bool {
    |env: Env, w: Writer<W, T>| s(env, w@)
}

struct AskRefStep;

impl<'env, Env, W: AppendTrace> ReaderStep<'env, Env, Writer<W, &'env Env>> for AskRefStep {
    closed spec fn sem(&self) -> spec_fn(Env, Writer<W, &'env Env>) -> bool {
        on_views::<Env, W, &'env Env>(rw_ask_ref::<'env, Env, W>())
    }

    closed spec fn inv(&self) -> bool {
        true
    }

    fn step(self: Box<Self>, env: &'env Env) -> (out: Writer<W, &'env Env>) {
        Writer::new(env, W::empty())
    }
}

struct AskStep;

impl<'env, Env: Clone, W: AppendTrace> ReaderStep<'env, Env, Writer<W, Env>> for AskStep {
    closed spec fn sem(&self) -> spec_fn(Env, Writer<W, Env>) -> bool {
        on_views::<Env, W, Env>(rw_ask::<Env, W>())
    }

    closed spec fn inv(&self) -> bool {
        true
    }

    fn step(self: Box<Self>, env: &'env Env) -> (out: Writer<W, Env>) {
        Writer::new(env.clone(), W::empty())
    }
}

struct RetStep<T> {
    v: T,
}

impl<'env, Env, W: AppendTrace, T: Send> ReaderStep<'env, Env, Writer<W, T>> for RetStep<T> {
    closed spec fn sem(&self) -> spec_fn(Env, Writer<W, T>) -> bool {
        on_views::<Env, W, T>(rw_ret::<Env, W, T>(self.v))
    }

    closed spec fn inv(&self) -> bool {
        true
    }

    fn step(self: Box<Self>, env: &'env Env) -> (out: Writer<W, T>) {
        Writer::new(self.v, W::empty())
    }
}

struct WriteStep<W> {
    trace: W,
}

impl<'env, Env, W: AppendTrace + Send> ReaderStep<'env, Env, Writer<W, ()>> for WriteStep<W> {
    closed spec fn sem(&self) -> spec_fn(Env, Writer<W, ()>) -> bool {
        on_views::<Env, W, ()>(rw_write::<Env, W>(self.trace@))
    }

    closed spec fn inv(&self) -> bool {
        true
    }

    fn step(self: Box<Self>, env: &'env Env) -> (out: Writer<W, ()>) {
        Writer::new((), self.trace)
    }
}

#[verifier::reject_recursive_types(Env)]
#[verifier::reject_recursive_types(W)]
#[verifier::reject_recursive_types(A)]
struct BindStep<'env, Env, W, A, F> {
    v: ReaderWriter<'env, Env, W, A>,
    f: F,
}

impl<'env, Env, W: AppendTrace, A, B, F> ReaderStep<'env, Env, Writer<W, B>> for BindStep<'env, Env, W, A, F> where
    F: FnOnce(A) -> ReaderWriter<'env, Env, W, B> + Send + 'env,
 {
    closed spec fn sem(&self) -> spec_fn(Env, Writer<W, B>) -> bool {
        on_views::<Env, W, B>(rw_bind::<Env, W, A, B>(self.v.sem(), rw_kont(outputs(self.f))))
    }

    closed spec fn inv(&self) -> bool {
        forall|env: Env, p: (A, W::V)| #[trigger] (self.v.sem())(env, p) ==> call_requires(self.f, (p.0,))
    }

    fn step(self: Box<Self>, env: &'env Env) -> (out: Writer<W, B>) {
        let BindStep { v, f } = *self;
        let ghost vs = v.sem();
        let w1 = v.0.run(env);
        let ghost p = w1@;
        let (t1, a) = w1.run();
        assert((vs)(*env, p));
        let m = f(a);
        let ghost ms = m.sem();
        let w2 = m.0.run(env);
        let ghost q = w2@;
        let (t2, b) = w2.run();
        let out = Writer::new(b, t1.append(t2));
        proof {
            assert(ms(*env, q));
            assert(outputs(f)(a, m));
            assert(rw_kont(outputs(f))(a, ms));
            assert(rw_bind::<Env, W, A, B>(vs, rw_kont(outputs(f)))(*env, out@));
        }
        out
    }
}

/// A namespace for the reader writer monad.
pub struct ReaderWriterM<Env, W> {
    environment: PhantomData<Env>,
    trace: PhantomData<W>,
}

/// Representation of reader writer monad: a reader whose value is a writer.
#[verifier::reject_recursive_types(Env)]
#[verifier::reject_recursive_types(W)]
#[verifier::reject_recursive_types(T)]
pub struct ReaderWriter<'env, Env, W, T>(Reader<'env, Env, Writer<W, T>>);

impl<'env, Env, W: View, T> ReaderWriter<'env, Env, W, T> {
    /// What the computation may do (see `rw_ret`): the pairs of a value and
    /// the view of a trace that a run in an environment may give.
    pub closed spec fn sem(&self) -> spec_fn(Env, (T, W::V)) -> bool {
        |env: Env, o: (T, W::V)| exists|w: Writer<W, T>| #[trigger] (self.0.sem())(env, w) && w@ == o
    }

    /// Runs the computation in the environment `env`, giving the trace it
    /// wrote and its value.
    pub fn run(self, env: &'env Env) -> (r: (W, T))
        ensures
            (self.sem())(*env, (r.1, r.0@)),
    {
        let ghost s = self.0.sem();
        let w = self.0.run(env);
        assert(s(*env, w));
        w.run()
    }

    /// A computation whose reader does on writers what `s` states on their
    /// views has the meaning `s`, kept to the pairs a run can give.
    proof fn lemma_realized(&self, s: spec_fn(Env, (T, W::V)) -> bool)
        requires
            self.0.sem() == on_views::<Env, W, T>(s),
        ensures
            self.sem() == rw_realized::<Env, W, T>(s),
    {
        assert forall|env: Env, o: (T, W::V)| #[trigger] (self.sem())(env, o) == rw_realized::<Env, W, T>(s)(env, o) by {
            if rw_realized::<Env, W, T>(s)(env, o) {
                let w = choose|w: Writer<W, T>| #[trigger] w@ == o;
                assert((self.0.sem())(env, w));
            }
        }
        assert(self.sem() =~= rw_realized::<Env, W, T>(s));
    }
}

impl<'env, Env: 'env, W: 'env + AppendTrace, T: 'env> Monad<'env, T> for ReaderWriterM<Env, W> {
    type Repr = ReaderWriter<'env, Env, W, T>;

    open spec fn yields(r: ReaderWriter<'env, Env, W, T>, v: T) -> bool {
        exists|env: Env, t: W::V| #[trigger] (r.sem())(env, (v, t))
    }

    open spec fn is_ret(r: ReaderWriter<'env, Env, W, T>, v: T) -> bool {
        r.sem() == rw_realized::<Env, W, T>(rw_ret::<Env, W, T>(v))
    }

    proof fn lemma_ret_yields(r: ReaderWriter<'env, Env, W, T>, v: T, b: T) {
        let (env, t) = choose|env: Env, t: W::V| #[trigger] (r.sem())(env, (b, t));
    }

    fn ret(v: T) -> (r: ReaderWriter<'env, Env, W, T>) where T: Send {
        let ghost g = v;
        let r = Reader(Box::new(RetStep { v }));
        proof {
            r.lemma_sem();
        }
        let r = ReaderWriter(r);
        proof {
            r.lemma_realized(rw_ret::<Env, W, T>(g));
        }
        r
    }
}

impl<'env, Env: 'env, W: 'env + AppendTrace, A: 'env, B: 'env> MonadBind<'env, A, B> for ReaderWriterM<
    Env,
    W,
> {
    open spec fn is_bind(
        r: ReaderWriter<'env, Env, W, B>,
        v: ReaderWriter<'env, Env, W, A>,
        k: spec_fn(A, ReaderWriter<'env, Env, W, B>) -> bool,
    ) -> bool {
        forall|env: Env, o: (B, W::V)| #[trigger] (r.sem())(env, o) ==> rw_bind::<Env, W, A, B>(v.sem(), rw_kont(k))(env, o)
    }

    proof fn lemma_bind_mono(
        r: ReaderWriter<'env, Env, W, B>,
        v: ReaderWriter<'env, Env, W, A>,
        k1: spec_fn(A, ReaderWriter<'env, Env, W, B>) -> bool,
        k2: spec_fn(A, ReaderWriter<'env, Env, W, B>) -> bool,
    ) {
        assert forall|env: Env, o: (B, W::V)| #[trigger] (r.sem())(env, o) implies rw_bind::<Env, W, A, B>(v.sem(), rw_kont(k2))(env, o) by {
            let (p, kb, q) = choose|p: (A, W::V), kb: spec_fn(Env, (B, W::V)) -> bool, q: (B, W::V)|
                #[trigger] (v.sem())(env, p) && #[trigger] rw_kont(k1)(p.0, kb) && #[trigger] kb(env, q) && o == (
                    q.0,
                    W::spec_append(p.1, q.1),
                );
            let m = choose|m: ReaderWriter<'env, Env, W, B>| #[trigger] k1(p.0, m) && m.sem() == kb;
            assert(k2(p.0, m));
            assert(rw_kont(k2)(p.0, kb));
        }
    }

    proof fn lemma_bind_yields(
        r: ReaderWriter<'env, Env, W, B>,
        v: ReaderWriter<'env, Env, W, A>,
        k: spec_fn(A, ReaderWriter<'env, Env, W, B>) -> bool,
        b: B,
    ) {
        let (env, t) = choose|env: Env, t: W::V| #[trigger] (r.sem())(env, (b, t));
        assert(rw_bind::<Env, W, A, B>(v.sem(), rw_kont(k))(env, (b, t)));
        let (p, kb, q) = choose|p: (A, W::V), kb: spec_fn(Env, (B, W::V)) -> bool, q: (B, W::V)|
            #[trigger] (v.sem())(env, p) && #[trigger] rw_kont(k)(p.0, kb) && #[trigger] kb(env, q) && (b, t) == (
                q.0,
                W::spec_append(p.1, q.1),
            );
        let m = choose|m: ReaderWriter<'env, Env, W, B>| #[trigger] k(p.0, m) && m.sem() == kb;
        assert((v.sem())(env, (p.0, p.1)));
        assert((m.sem())(env, (q.0, q.1)));
        assert(<ReaderWriterM<Env, W> as Monad<'env, A>>::yields(v, p.0));
        assert(<ReaderWriterM<Env, W> as Monad<'env, B>>::yields(m, b));
    }

    fn bind_impl<F>(v: ReaderWriter<'env, Env, W, A>, f: F) -> (r: ReaderWriter<'env, Env, W, B>) where
        F: FnOnce(A) -> ReaderWriter<'env, Env, W, B> + Send + 'env,

        ensures
            r.sem() == rw_realized::<Env, W, B>(rw_bind::<Env, W, A, B>(v.sem(), rw_kont(outputs(f)))),
    {
        let ghost s = rw_bind::<Env, W, A, B>(v.sem(), rw_kont(outputs(f)));
        assert forall|env: Env, p: (A, W::V)| #[trigger] (v.sem())(env, p) implies call_requires(f, (p.0,)) by {
            assert((v.sem())(env, (p.0, p.1)));
            assert(<ReaderWriterM<Env, W> as Monad<'env, A>>::yields(v, p.0));
        }
        let r = Reader(Box::new(BindStep { v, f }));
        proof {
            r.lemma_sem();
        }
        let r = ReaderWriter(r);
        proof {
            r.lemma_realized(s);
        }
        r
    }
}

impl<'env, Env: 'env, W: 'env + AppendTrace, A: 'env, B: 'env> MonadRepr<
    'env,
    ReaderWriterM<Env, W>,
    A,
    B,
> for ReaderWriter<'env, Env, W, A> {
    fn bind<F>(self, f: F) -> (r: ReaderWriter<'env, Env, W, B>) where
        F: FnOnce(A) -> ReaderWriter<'env, Env, W, B> + Send + 'env,

        ensures
            r.sem() == rw_realized::<Env, W, B>(rw_bind::<Env, W, A, B>(self.sem(), rw_kont(outputs(f)))),
    {
        <ReaderWriterM<Env, W> as MonadBind<'env, A, B>>::bind_impl(self, f)
    }
}

impl<'env, Env: 'env, W: 'env + AppendTrace> MonadReader<'env, Env> for ReaderWriterM<Env, W> {
    open spec fn is_ask_ref(r: ReaderWriter<'env, Env, W, &'env Env>) -> bool {
        r.sem() == rw_realized::<Env, W, &'env Env>(rw_ask_ref::<'env, Env, W>())
    }

    open spec fn is_ask(r: ReaderWriter<'env, Env, W, Env>) -> bool where Env: Clone {
        r.sem() == rw_realized::<Env, W, Env>(rw_ask::<Env, W>())
    }

    fn ask_ref() -> (r: ReaderWriter<'env, Env, W, &'env Env>) {
        let r = Reader(Box::new(AskRefStep));
        proof {
            r.lemma_sem();
        }
        let r = ReaderWriter(r);
        proof {
            r.lemma_realized(rw_ask_ref::<'env, Env, W>());
        }
        r
    }

    fn ask() -> (r: ReaderWriter<'env, Env, W, Env>) where Env: Clone {
        let r = Reader(Box::new(AskStep));
        proof {
            r.lemma_sem();
        }
        let r = ReaderWriter(r);
        proof {
            r.lemma_realized(rw_ask::<Env, W>());
        }
        r
    }
}

impl<'env, Env: 'env, W: 'env + AppendTrace + Send> MonadWriter<'env, W> for ReaderWriterM<Env, W> {
    open spec fn is_write(r: ReaderWriter<'env, Env, W, ()>, trace: W) -> bool {
        r.sem() == rw_realized::<Env, W, ()>(rw_write::<Env, W>(trace@))
    }

    fn write(trace: W) -> (r: ReaderWriter<'env, Env, W, ()>) {
        let ghost t = trace@;
        let r = Reader(Box::new(WriteStep { trace }));
        proof {
            r.lemma_sem();
        }
        let r = ReaderWriter(r);
        proof {
            r.lemma_realized(rw_write::<Env, W>(t));
        }
        r
    }
}

} // verus!

verus! {

/// Left identity: binding a returned value `a` gives, in the same environment,
/// the value and the trace of a computation that the continuation relates to
/// `a`, when the empty trace is neutral on the left.
pub proof fn rw_left_identity<Env, W: AppendTrace, A, B>(a: A, k: spec_fn(A, spec_fn(Env, (B, W::V)) -> bool) -> bool)
    requires
        crate::writer::empty_left_neutral::<W>(),
    ensures
        rw_bind::<Env, W, A, B>(rw_ret::<Env, W, A>(a), k) == (|env: Env, o: (B, W::V)|
            exists|s: spec_fn(Env, (B, W::V)) -> bool| #[trigger] k(a, s) && s(env, o)),
{
    let lhs = rw_bind::<Env, W, A, B>(rw_ret::<Env, W, A>(a), k);
    let rhs = |env: Env, o: (B, W::V)| exists|s: spec_fn(Env, (B, W::V)) -> bool| #[trigger] k(a, s) && s(env, o);
    assert forall|env: Env, o: (B, W::V)| #[trigger] lhs(env, o) == rhs(env, o) by {
        if rhs(env, o) {
            let s = choose|s: spec_fn(Env, (B, W::V)) -> bool| #[trigger] k(a, s) && s(env, o);
            let p = (a, W::spec_empty());
            assert(W::spec_append(W::spec_empty(), o.1) == o.1);
            assert(rw_ret::<Env, W, A>(a)(env, p));
            assert(k(p.0, s));
            assert(s(env, o));
            assert(o == (o.0, W::spec_append(p.1, o.1)));
        }
        if lhs(env, o) {
            let (p, kb, q) = choose|p: (A, W::V), kb: spec_fn(Env, (B, W::V)) -> bool, q: (B, W::V)|
                #[trigger] rw_ret::<Env, W, A>(a)(env, p) && #[trigger] k(p.0, kb) && #[trigger] kb(env, q) && o == (
                    q.0,
                    W::spec_append(p.1, q.1),
                );
            assert(W::spec_append(W::spec_empty(), q.1) == q.1);
            assert(q == o);
        }
    }
    assert(lhs =~= rhs);
}

/// Right identity: binding a computation with `ret` gives back the
/// computation, when the empty trace is neutral on the right.
pub proof fn rw_right_identity<Env, W: AppendTrace, A>(m: spec_fn(Env, (A, W::V)) -> bool)
    requires
        crate::writer::empty_right_neutral::<W>(),
    ensures
        rw_bind::<Env, W, A, A>(m, |a: A, s: spec_fn(Env, (A, W::V)) -> bool| s == rw_ret::<Env, W, A>(a)) == m,
{
    let k = |a: A, s: spec_fn(Env, (A, W::V)) -> bool| s == rw_ret::<Env, W, A>(a);
    let lhs = rw_bind::<Env, W, A, A>(m, k);
    assert forall|env: Env, o: (A, W::V)| #[trigger] lhs(env, o) == m(env, o) by {
        if m(env, o) {
            assert(k(o.0, rw_ret::<Env, W, A>(o.0)));
            assert(rw_ret::<Env, W, A>(o.0)(env, (o.0, W::spec_empty())));
            assert(W::spec_append(o.1, W::spec_empty()) == o.1);
            assert(m(env, (o.0, o.1)));
        }
        if lhs(env, o) {
            let (p, kb, q) = choose|p: (A, W::V), kb: spec_fn(Env, (A, W::V)) -> bool, q: (A, W::V)|
                #[trigger] m(env, p) && #[trigger] k(p.0, kb) && #[trigger] kb(env, q) && o == (
                    q.0,
                    W::spec_append(p.1, q.1),
                );
            assert(W::spec_append(p.1, W::spec_empty()) == p.1);
            assert(p == o);
        }
    }
    assert(lhs =~= m);
}

/// Associativity: binding `g` after binding `f` is binding the continuation
/// that binds `g` after each computation that `f` relates to the value, when
/// appending traces is associative.
pub proof fn rw_associativity<Env, W: AppendTrace, A, B, C>(
    m: spec_fn(Env, (A, W::V)) -> bool,
    f: spec_fn(A, spec_fn(Env, (B, W::V)) -> bool) -> bool,
    g: spec_fn(B, spec_fn(Env, (C, W::V)) -> bool) -> bool,
)
    requires
        crate::writer::append_associative::<W>(),
    ensures
        rw_bind::<Env, W, B, C>(rw_bind::<Env, W, A, B>(m, f), g) == rw_bind::<Env, W, A, C>(
            m,
            |a: A, s: spec_fn(Env, (C, W::V)) -> bool|
                exists|t: spec_fn(Env, (B, W::V)) -> bool| #[trigger] f(a, t) && s == rw_bind::<Env, W, B, C>(t, g),
        ),
{
    let h = |a: A, s: spec_fn(Env, (C, W::V)) -> bool|
        exists|t: spec_fn(Env, (B, W::V)) -> bool| #[trigger] f(a, t) && s == rw_bind::<Env, W, B, C>(t, g);
    let mf = rw_bind::<Env, W, A, B>(m, f);
    let lhs = rw_bind::<Env, W, B, C>(mf, g);
    let rhs = rw_bind::<Env, W, A, C>(m, h);
    assert forall|env: Env, o: (C, W::V)| #[trigger] lhs(env, o) == rhs(env, o) by {
        if lhs(env, o) {
            let (pb, kc, qc) = choose|pb: (B, W::V), kc: spec_fn(Env, (C, W::V)) -> bool, qc: (C, W::V)|
                #[trigger] mf(env, pb) && #[trigger] g(pb.0, kc) && #[trigger] kc(env, qc) && o == (
                    qc.0,
                    W::spec_append(pb.1, qc.1),
                );
            let (pa, kb, qb) = choose|pa: (A, W::V), kb: spec_fn(Env, (B, W::V)) -> bool, qb: (B, W::V)|
                #[trigger] m(env, pa) && #[trigger] f(pa.0, kb) && #[trigger] kb(env, qb) && pb == (
                    qb.0,
                    W::spec_append(pa.1, qb.1),
                );
            let t = rw_bind::<Env, W, B, C>(kb, g);
            let q2 = (qc.0, W::spec_append(qb.1, qc.1));
            assert(kb(env, qb) && g(qb.0, kc) && kc(env, qc) && q2 == (qc.0, W::spec_append(qb.1, qc.1)));
            assert(t(env, q2));
            assert(h(pa.0, t));
            assert(W::spec_append(W::spec_append(pa.1, qb.1), qc.1) == W::spec_append(pa.1, W::spec_append(qb.1, qc.1)));
            assert(m(env, pa) && h(pa.0, t) && t(env, q2) && o == (q2.0, W::spec_append(pa.1, q2.1)));
        }
        if rhs(env, o) {
            let (pa, kc, qc) = choose|pa: (A, W::V), kc: spec_fn(Env, (C, W::V)) -> bool, qc: (C, W::V)|
                #[trigger] m(env, pa) && #[trigger] h(pa.0, kc) && #[trigger] kc(env, qc) && o == (
                    qc.0,
                    W::spec_append(pa.1, qc.1),
                );
            let t = choose|t: spec_fn(Env, (B, W::V)) -> bool| #[trigger] f(pa.0, t) && kc == rw_bind::<Env, W, B, C>(t, g);
            let (pb, kd, qd) = choose|pb: (B, W::V), kd: spec_fn(Env, (C, W::V)) -> bool, qd: (C, W::V)|
                #[trigger] t(env, pb) && #[trigger] g(pb.0, kd) && #[trigger] kd(env, qd) && qc == (
                    qd.0,
                    W::spec_append(pb.1, qd.1),
                );
            let p1 = (pb.0, W::spec_append(pa.1, pb.1));
            assert(m(env, pa) && f(pa.0, t) && t(env, pb) && p1 == (pb.0, W::spec_append(pa.1, pb.1)));
            assert(mf(env, p1));
            assert(W::spec_append(W::spec_append(pa.1, pb.1), qd.1) == W::spec_append(pa.1, W::spec_append(pb.1, qd.1)));
            assert(mf(env, p1) && g(p1.0, kd) && kd(env, qd) && o == (qd.0, W::spec_append(p1.1, qd.1)));
        }
    }
    assert(lhs =~= rhs);
}

/// Two writes in a row write the first trace followed by the second.
pub proof fn rw_write_write<Env, W: AppendTrace>(t1: W::V, t2: W::V)
    ensures
        rw_bind::<Env, W, (), ()>(rw_write::<Env, W>(t1), |u: (), s: spec_fn(Env, ((), W::V)) -> bool| s == rw_write::<Env, W>(t2))
            == rw_write::<Env, W>(W::spec_append(t1, t2)),
{
    let k = |u: (), s: spec_fn(Env, ((), W::V)) -> bool| s == rw_write::<Env, W>(t2);
    let lhs = rw_bind::<Env, W, (), ()>(rw_write::<Env, W>(t1), k);
    let rhs = rw_write::<Env, W>(W::spec_append(t1, t2));
    assert forall|env: Env, o: ((), W::V)| #[trigger] lhs(env, o) == rhs(env, o) by {
        if rhs(env, o) {
            let p = ((), t1);
            let q = ((), t2);
            assert(rw_write::<Env, W>(t1)(env, p));
            assert(k(p.0, rw_write::<Env, W>(t2)));
            assert(rw_write::<Env, W>(t2)(env, q));
            assert(o == (q.0, W::spec_append(p.1, q.1)));
        }
        if lhs(env, o) {
            let (p, kb, q) = choose|p: ((), W::V), kb: spec_fn(Env, ((), W::V)) -> bool, q: ((), W::V)|
                #[trigger] rw_write::<Env, W>(t1)(env, p) && #[trigger] k(p.0, kb) && #[trigger] kb(env, q) && o == (
                    q.0,
                    W::spec_append(p.1, q.1),
                );
            assert(kb == rw_write::<Env, W>(t2));
        }
    }
    assert(lhs =~= rhs);
}

/// A meaning is deterministic when, in each environment, it allows at most
/// one value and trace.
pub open spec fn rw_deterministic<Env, V, T>(s: spec_fn(Env, (T, V)) -> bool) -> bool {
    forall|env: Env, o1: (T, V), o2: (T, V)| #[trigger] s(env, o1) && #[trigger] s(env, o2) ==> o1 == o2
}

/// Binding keeps meanings deterministic: when `m` is deterministic and the
/// continuation relates each value to one deterministic meaning, the bind is
/// deterministic.
pub proof fn rw_bind_deterministic<Env, W: AppendTrace, A, B>(
    m: spec_fn(Env, (A, W::V)) -> bool,
    k: spec_fn(A, spec_fn(Env, (B, W::V)) -> bool) -> bool,
)
    requires
        rw_deterministic(m),
        forall|a: A, s: spec_fn(Env, (B, W::V)) -> bool| #[trigger] k(a, s) ==> rw_deterministic(s),
        forall|a: A, s1: spec_fn(Env, (B, W::V)) -> bool, s2: spec_fn(Env, (B, W::V)) -> bool|
            #[trigger] k(a, s1) && #[trigger] k(a, s2) ==> s1 == s2,
    ensures
        rw_deterministic(rw_bind::<Env, W, A, B>(m, k)),
{
    let b = rw_bind::<Env, W, A, B>(m, k);
    assert forall|env: Env, o1: (B, W::V), o2: (B, W::V)| #[trigger] b(env, o1) && #[trigger] b(env, o2) implies o1 == o2 by {
        let (p1, k1, q1) = choose|p: (A, W::V), kb: spec_fn(Env, (B, W::V)) -> bool, q: (B, W::V)|
            #[trigger] m(env, p) && #[trigger] k(p.0, kb) && #[trigger] kb(env, q) && o1 == (q.0, W::spec_append(p.1, q.1));
        let (p2, k2, q2) = choose|p: (A, W::V), kb: spec_fn(Env, (B, W::V)) -> bool, q: (B, W::V)|
            #[trigger] m(env, p) && #[trigger] k(p.0, kb) && #[trigger] kb(env, q) && o2 == (q.0, W::spec_append(p.1, q.1));
        assert(p1 == p2);
        assert(k1 == k2);
        assert(rw_deterministic(k1));
        assert(k1(env, q1) && k1(env, q2));
    }
}

/// Two computations with one deterministic meaning, run in one environment,
/// give the same value and traces with the same view.
pub proof fn rw_runs_agree<Env, V, T>(
    s1: spec_fn(Env, (T, V)) -> bool,
    s2: spec_fn(Env, (T, V)) -> bool,
    env: Env,
    o1: (T, V),
    o2: (T, V),
)
    requires
        s1 == s2,
        rw_deterministic(s1),
        s1(env, o1),
        s2(env, o2),
    ensures
        o1 == o2,
{
}

/// Left identity on runs: when the continuation relates `a` to one
/// deterministic meaning, a run of the bind of a computation that can only
/// return `a` with the empty trace (as `ret(a)`) gives the value and trace of
/// a run, in the same environment, of a computation that the continuation
/// builds from `a`, when the empty trace is neutral on the left.
pub proof fn rw_left_identity_runs<Env, W: AppendTrace, A, B>(
    a: A,
    m: spec_fn(Env, (A, W::V)) -> bool,
    k: spec_fn(A, spec_fn(Env, (B, W::V)) -> bool) -> bool,
    env: Env,
    o1: (B, W::V),
    o2: (B, W::V),
)
    requires
        crate::writer::empty_left_neutral::<W>(),
        forall|e: Env, p: (A, W::V)| #[trigger] m(e, p) ==> rw_ret::<Env, W, A>(a)(e, p),
        forall|s1: spec_fn(Env, (B, W::V)) -> bool, s2: spec_fn(Env, (B, W::V)) -> bool|
            #[trigger] k(a, s1) && #[trigger] k(a, s2) ==> s1 == s2,
        forall|s: spec_fn(Env, (B, W::V)) -> bool| #[trigger] k(a, s) ==> rw_deterministic(s),
        rw_bind::<Env, W, A, B>(m, k)(env, o1),
        exists|s: spec_fn(Env, (B, W::V)) -> bool| #[trigger] k(a, s) && s(env, o2),
    ensures
        o1 == o2,
{
    let (p, kb, q) = choose|p: (A, W::V), kb: spec_fn(Env, (B, W::V)) -> bool, q: (B, W::V)|
        #[trigger] m(env, p) && #[trigger] k(p.0, kb) && #[trigger] kb(env, q) && o1 == (q.0, W::spec_append(p.1, q.1));
    assert(rw_ret::<Env, W, A>(a)(env, p));
    assert(W::spec_append(W::spec_empty(), q.1) == q.1);
    let s2 = choose|s: spec_fn(Env, (B, W::V)) -> bool| #[trigger] k(a, s) && s(env, o2);
    assert(kb == s2);
    assert(kb(env, q) && kb(env, o2));
}

/// Right identity on runs: a run of the bind of a deterministic `m` with a
/// continuation whose computations can only return the value they are handed
/// with the empty trace (as `ret`) gives the value and trace of a run of `m` in
/// the same environment, when the empty trace is neutral on the right.
pub proof fn rw_right_identity_runs<Env, W: AppendTrace, A>(
    m: spec_fn(Env, (A, W::V)) -> bool,
    k: spec_fn(A, spec_fn(Env, (A, W::V)) -> bool) -> bool,
    env: Env,
    o1: (A, W::V),
    o2: (A, W::V),
)
    requires
        crate::writer::empty_right_neutral::<W>(),
        rw_deterministic(m),
        forall|a: A, s: spec_fn(Env, (A, W::V)) -> bool| #[trigger] k(a, s) ==>
            forall|e: Env, q: (A, W::V)| #[trigger] s(e, q) ==> rw_ret::<Env, W, A>(a)(e, q),
        rw_bind::<Env, W, A, A>(m, k)(env, o1),
        m(env, o2),
    ensures
        o1 == o2,
{
    let (p, kb, q) = choose|p: (A, W::V), kb: spec_fn(Env, (A, W::V)) -> bool, q: (A, W::V)|
        #[trigger] m(env, p) && #[trigger] k(p.0, kb) && #[trigger] kb(env, q) && o1 == (q.0, W::spec_append(p.1, q.1));
    assert(rw_ret::<Env, W, A>(p.0)(env, q));
    assert(W::spec_append(p.1, W::spec_empty()) == p.1);
    assert(m(env, p) && m(env, o2));
}

/// Associativity on runs: when appending traces is associative, `m` is
/// deterministic and `f` and `g` relate each value to one deterministic
/// meaning, a run of a computation that does no more than `bind(m, f)` bound
/// with `g`, and a run of `bind(m, h)`, where each computation of `h` does no
/// more than bind `g` after one that `f` builds, give the same value and trace
/// in one environment.
pub proof fn rw_associativity_runs<Env, W: AppendTrace, A, B, C>(
    m: spec_fn(Env, (A, W::V)) -> bool,
    f: spec_fn(A, spec_fn(Env, (B, W::V)) -> bool) -> bool,
    mf: spec_fn(Env, (B, W::V)) -> bool,
    g: spec_fn(B, spec_fn(Env, (C, W::V)) -> bool) -> bool,
    h: spec_fn(A, spec_fn(Env, (C, W::V)) -> bool) -> bool,
    env: Env,
    o1: (C, W::V),
    o2: (C, W::V),
)
    requires
        crate::writer::append_associative::<W>(),
        rw_deterministic(m),
        forall|a: A, s: spec_fn(Env, (B, W::V)) -> bool| #[trigger] f(a, s) ==> rw_deterministic(s),
        forall|a: A, s1: spec_fn(Env, (B, W::V)) -> bool, s2: spec_fn(Env, (B, W::V)) -> bool|
            #[trigger] f(a, s1) && #[trigger] f(a, s2) ==> s1 == s2,
        forall|b: B, s: spec_fn(Env, (C, W::V)) -> bool| #[trigger] g(b, s) ==> rw_deterministic(s),
        forall|b: B, s1: spec_fn(Env, (C, W::V)) -> bool, s2: spec_fn(Env, (C, W::V)) -> bool|
            #[trigger] g(b, s1) && #[trigger] g(b, s2) ==> s1 == s2,
        forall|e: Env, p: (B, W::V)| #[trigger] mf(e, p) ==> rw_bind::<Env, W, A, B>(m, f)(e, p),
        forall|a: A, s: spec_fn(Env, (C, W::V)) -> bool| #[trigger] h(a, s) ==>
            exists|t: spec_fn(Env, (B, W::V)) -> bool| #[trigger] f(a, t)
                && forall|e: Env, q: (C, W::V)| #[trigger] s(e, q) ==> rw_bind::<Env, W, B, C>(t, g)(e, q),
        rw_bind::<Env, W, B, C>(mf, g)(env, o1),
        rw_bind::<Env, W, A, C>(m, h)(env, o2),
    ensures
        o1 == o2,
{
    let h0 = |a: A, s: spec_fn(Env, (C, W::V)) -> bool|
        exists|t: spec_fn(Env, (B, W::V)) -> bool| #[trigger] f(a, t) && s == rw_bind::<Env, W, B, C>(t, g);
    rw_associativity::<Env, W, A, B, C>(m, f, g);
    assert forall|a: A, s: spec_fn(Env, (C, W::V)) -> bool| #[trigger] h0(a, s) implies rw_deterministic(s) by {
        let t = choose|t: spec_fn(Env, (B, W::V)) -> bool| #[trigger] f(a, t) && s == rw_bind::<Env, W, B, C>(t, g);
        rw_bind_deterministic::<Env, W, B, C>(t, g);
    }
    assert forall|a: A, s1: spec_fn(Env, (C, W::V)) -> bool, s2: spec_fn(Env, (C, W::V)) -> bool|
        #[trigger] h0(a, s1) && #[trigger] h0(a, s2) implies s1 == s2 by {
        let t1 = choose|t: spec_fn(Env, (B, W::V)) -> bool| #[trigger] f(a, t) && s1 == rw_bind::<Env, W, B, C>(t, g);
        let t2 = choose|t: spec_fn(Env, (B, W::V)) -> bool| #[trigger] f(a, t) && s2 == rw_bind::<Env, W, B, C>(t, g);
        assert(t1 == t2);
    }
    rw_bind_deterministic::<Env, W, A, C>(m, h0);
    let (p2, kc, q2) = choose|p: (A, W::V), kc: spec_fn(Env, (C, W::V)) -> bool, q: (C, W::V)|
        #[trigger] m(env, p) && #[trigger] h(p.0, kc) && #[trigger] kc(env, q) && o2 == (q.0, W::spec_append(p.1, q.1));
    let t = choose|t: spec_fn(Env, (B, W::V)) -> bool| #[trigger] f(p2.0, t)
        && forall|e: Env, q: (C, W::V)| #[trigger] kc(e, q) ==> rw_bind::<Env, W, B, C>(t, g)(e, q);
    assert(rw_bind::<Env, W, B, C>(t, g)(env, q2));
    assert(h0(p2.0, rw_bind::<Env, W, B, C>(t, g)));
    assert(rw_bind::<Env, W, A, C>(m, h0)(env, o2));
    let (p1, kd, q1) = choose|p: (B, W::V), kd: spec_fn(Env, (C, W::V)) -> bool, q: (C, W::V)|
        #[trigger] mf(env, p) && #[trigger] g(p.0, kd) && #[trigger] kd(env, q) && o1 == (q.0, W::spec_append(p.1, q.1));
    assert(rw_bind::<Env, W, A, B>(m, f)(env, p1));
    assert(rw_bind::<Env, W, B, C>(rw_bind::<Env, W, A, B>(m, f), g)(env, o1));
    assert(rw_bind::<Env, W, A, C>(m, h0)(env, o1));
}

/// With `Vec` traces, `for_m(xs, f)` writes the traces of the items one after
/// another, in the order of the items, and keeps every entry: when each
/// computation that `f` may return for an item `x` writes `g(x)`, a run of a
/// computation built as `for_m(xs, f)` writes `g(xs[0]) + g(xs[1]) + ...`.
pub proof fn rw_for_m_writes_in_order<'env, Env: 'env, X: 'env, T, F>(
    r: ReaderWriter<'env, Env, Vec<X>, ()>,
    xs: Seq<T>,
    f: F,
    g: spec_fn(T) -> Seq<X>,
    env: Env,
    t: Seq<X>,
)
    where F: Fn(T) -> ReaderWriter<'env, Env, Vec<X>, ()>
    requires
        runs_each::<'env, ReaderWriterM<Env, Vec<X>>, T, F>(r, xs, f),
        forall|x: T, m: ReaderWriter<'env, Env, Vec<X>, ()>, e: Env, o: ((), Seq<X>)|
            #[trigger] call_ensures(f, (x,), m) && #[trigger] (m.sem())(e, o) ==> o.1 == g(x),
        (r.sem())(env, ((), t)),
    ensures
        t == xs.map_values(g).flatten(),
    decreases xs.len(),
{
    if xs.len() == 0 {
        assert(xs.map_values(g) =~= Seq::<Seq<X>>::empty());
    } else {
        let rest = xs.drop_first();
        let k = runs_rest::<'env, ReaderWriterM<Env, Vec<X>>, T, F>(rest, f);
        let m = choose|m: ReaderWriter<'env, Env, Vec<X>, ()>|
            #[trigger] call_ensures(f, (xs[0],), m) && <ReaderWriterM<Env, Vec<X>> as MonadBind<'env, (), ()>>::is_bind(
                r,
                m,
                k,
            );
        assert(rw_bind::<Env, Vec<X>, (), ()>(m.sem(), rw_kont(k))(env, ((), t)));
        let (p, kb, q) = choose|p: ((), Seq<X>), kb: spec_fn(Env, ((), Seq<X>)) -> bool, q: ((), Seq<X>)|
            #[trigger] (m.sem())(env, p) && #[trigger] rw_kont(k)(p.0, kb) && #[trigger] kb(env, q) && ((), t) == (
                q.0,
                <Vec<X> as AppendTrace>::spec_append(p.1, q.1),
            );
        let m2 = choose|m2: ReaderWriter<'env, Env, Vec<X>, ()>| #[trigger] k(p.0, m2) && m2.sem() == kb;
        assert(runs_each::<'env, ReaderWriterM<Env, Vec<X>>, T, F>(m2, rest, f));
        assert((m2.sem())(env, ((), q.1)));
        rw_for_m_writes_in_order::<'env, Env, X, T, F>(m2, rest, f, g, env, q.1);
        assert(p.1 == g(xs[0]));
        assert(xs.map_values(g).drop_first() =~= rest.map_values(g));
        assert(t == g(xs[0]) + rest.map_values(g).flatten());
    }
}

} // verus!
