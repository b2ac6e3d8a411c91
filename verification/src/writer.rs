//! Writer monads can be useful for testing. We can record effectful
//! operations in a trace, and compare an execution trace against an expected
//! trace.
use crate::bind::{Monad, MonadBind, MonadRepr};
use std::marker::PhantomData;
use vstd::prelude::*;

verus! {

/// Abstractions for creating empty traces and appending traces. A trace is
/// known by its view; `spec_empty` and `spec_append` say what the two
/// operations make of views.
pub trait AppendTrace: View + Sized {
    /// The view of an empty trace.
    spec fn spec_empty() -> Self::V;

    /// The view of the trace `a` followed by the trace `b`.
    spec fn spec_append(a: Self::V, b: Self::V) -> Self::V;

    /// Creates an empty trace.
    fn empty() -> (r: Self)
        ensures
            r@ == Self::spec_empty(),
    ;

    /// Appends `other` after `self`.
    fn append(self, other: Self) -> (r: Self)
        ensures
            r@ == Self::spec_append(self@, other@),
    ;
}

/// The empty trace is neutral on the left: appending a trace after it gives
/// that trace.
pub open spec fn empty_left_neutral<W: AppendTrace>() -> bool {
    forall|w: W::V| #[trigger] W::spec_append(W::spec_empty(), w) == w
}

/// The empty trace is neutral on the right: appending it after a trace gives
/// that trace.
pub open spec fn empty_right_neutral<W: AppendTrace>() -> bool {
    forall|w: W::V| #[trigger] W::spec_append(w, W::spec_empty()) == w
}

/// Appending traces is associative.
pub open spec fn append_associative<W: AppendTrace>() -> bool {
    forall|a: W::V, b: W::V, c: W::V|
        #[trigger] W::spec_append(W::spec_append(a, b), c) == W::spec_append(a, W::spec_append(b, c))
}

/// Traces whose empty trace and appending form a monoid: the empty trace is
/// neutral on both sides, and appending is associative.
pub open spec fn lawful_trace<W: AppendTrace>() -> bool {
    &&& empty_left_neutral::<W>()
    &&& empty_right_neutral::<W>()
    &&& append_associative::<W>()
}

/// A `Vec` is a trace of its items, in order.
impl<T> AppendTrace for Vec<T> {
    open spec fn spec_empty() -> Seq<T> {
        Seq::empty()
    }

    open spec fn spec_append(a: Seq<T>, b: Seq<T>) -> Seq<T> {
        a + b
    }

    fn empty() -> (r: Vec<T>) {
        Vec::new()
    }

    fn append(self, other: Vec<T>) -> (r: Vec<T>)
        ensures
            r@ == self@ + other@,
    {
        let mut r = self;
        let mut other = other;
        Vec::append(&mut r, &mut other);
        r
    }
}

/// Appending `Vec`s is a monoid.
pub proof fn vec_trace_is_lawful<T>()
    ensures
        lawful_trace::<Vec<T>>(),
{
    assert forall|w: Seq<T>| #[trigger] <Vec<T> as AppendTrace>::spec_append(<Vec<T> as AppendTrace>::spec_empty(), w) == w by {
        assert(Seq::<T>::empty() + w =~= w);
    }
    assert forall|w: Seq<T>| #[trigger] <Vec<T> as AppendTrace>::spec_append(w, <Vec<T> as AppendTrace>::spec_empty()) == w by {
        assert(w + Seq::<T>::empty() =~= w);
    }
    assert forall|a: Seq<T>, b: Seq<T>, c: Seq<T>|
        #[trigger] <Vec<T> as AppendTrace>::spec_append(<Vec<T> as AppendTrace>::spec_append(a, b), c)
            == <Vec<T> as AppendTrace>::spec_append(a, <Vec<T> as AppendTrace>::spec_append(b, c)) by {
        assert((a + b) + c =~= a + (b + c));
    }
}

/// Appending `Vec` traces keeps every entry, in order: the result has the
/// entries of the first trace followed by all the entries of the second.
pub proof fn vec_append_keeps_every_entry<T>(a: Seq<T>, b: Seq<T>)
    ensures
        <Vec<T> as AppendTrace>::spec_append(a, b).len() == a.len() + b.len(),
        forall|i: int| 0 <= i < a.len() ==> #[trigger] <Vec<T> as AppendTrace>::spec_append(a, b)[i] == a[i],
        forall|j: int| 0 <= j < b.len() ==> #[trigger] <Vec<T> as AppendTrace>::spec_append(a, b)[a.len() + j] == b[j],
{
}

#[derive(Debug)]
/// A namespace for writer monads.
pub struct WriterM<W>(PhantomData<W>);

/// The representation of a writer monad: a value and the trace written while
/// computing it.
pub struct Writer<W, T> {
    result: T,
    trace: W,
}

impl<W: View, T> View for Writer<W, T> {
    /// The value and the view of the trace.
    type V = (T, W::V);

    closed spec fn view(&self) -> (T, W::V) {
        (self.result, self.trace@)
    }
}

impl<W: View, T> Writer<W, T> {
    /// A computation with the value `result` and the trace `trace`.
    pub(crate) fn new(result: T, trace: W) -> (r: Writer<W, T>)
        ensures
            r@ == (result, trace@),
    {
        Writer { result, trace }
    }

    /// Takes the computation apart into its trace and its value.
    pub fn run(self) -> (r: (W, T))
        ensures
            r.0@ == self@.1,
            r.1 == self@.0,
    {
        (self.trace, self.result)
    }
}

impl<'a, W: AppendTrace, T> Monad<'a, T> for WriterM<W> {
    type Repr = Writer<W, T>;

    open spec fn yields(r: Writer<W, T>, v: T) -> bool {
        r@.0 == v
    }

    open spec fn is_ret(r: Writer<W, T>, v: T) -> bool {
        r@ == (v, W::spec_empty())
    }

    proof fn lemma_ret_yields(r: Writer<W, T>, v: T, b: T) {
    }

    fn ret(v: T) -> (r: Writer<W, T>) where T: Send {
        Writer::new(v, W::empty())
    }
}

impl<'a, W: AppendTrace, A, B> MonadBind<'a, A, B> for WriterM<W> {
    open spec fn is_bind(r: Writer<W, B>, v: Writer<W, A>, k: spec_fn(A, Writer<W, B>) -> bool) -> bool {
        exists|m: Writer<W, B>| #[trigger] k(v@.0, m) && r@ == (m@.0, W::spec_append(v@.1, m@.1))
    }

    proof fn lemma_bind_mono(
        r: Writer<W, B>,
        v: Writer<W, A>,
        k1: spec_fn(A, Writer<W, B>) -> bool,
        k2: spec_fn(A, Writer<W, B>) -> bool,
    ) {
        let m = choose|m: Writer<W, B>| #[trigger] k1(v@.0, m) && r@ == (m@.0, W::spec_append(v@.1, m@.1));
        assert(k2(v@.0, m));
    }

    proof fn lemma_bind_yields(r: Writer<W, B>, v: Writer<W, A>, k: spec_fn(A, Writer<W, B>) -> bool, b: B) {
        let m = choose|m: Writer<W, B>| #[trigger] k(v@.0, m) && r@ == (m@.0, W::spec_append(v@.1, m@.1));
        assert(<WriterM<W> as Monad<'a, A>>::yields(v, v@.0));
        assert(<WriterM<W> as Monad<'a, B>>::yields(m, b));
    }

    fn bind_impl<F>(v: Writer<W, A>, f: F) -> (r: Writer<W, B>) where F: FnOnce(A) -> Writer<W, B> + Send + 'a {
        let (v_trace, v_result) = v.run();
        proof {
            assert(<WriterM<W> as Monad<'a, A>>::yields(v, v_result));
        }
        let m = f(v_result);
        let ghost mv = m;
        let (m_trace, m_result) = m.run();
        let r = Writer::new(m_result, v_trace.append(m_trace));
        proof {
            assert(crate::bind::outputs(f)(v@.0, mv));
        }
        r
    }
}

impl<'a, W: AppendTrace, A, B> MonadRepr<'a, WriterM<W>, A, B> for Writer<W, A> {
}

/// MTL-style writer monad features.
pub trait MonadWriter<'a, W>: Monad<'a, ()> {
    /// `r` behaves as `write(trace)`.
    spec fn is_write(r: <Self as Monad<'a, ()>>::Repr, trace: W) -> bool;

    /// Append trace.
    fn write(trace: W) -> (r: <Self as Monad<'a, ()>>::Repr)
        ensures
            Self::is_write(r, trace),
    ;
}

/// Left identity: binding a returned value `a` gives a computation with the
/// value and the trace of one that the continuation builds from `a`, when the
/// empty trace is neutral on the left.
pub proof fn writer_left_identity<W: AppendTrace, A, B>(
    a: A,
    m: Writer<W, A>,
    k: spec_fn(A, Writer<W, B>) -> bool,
    r: Writer<W, B>,
)
    requires
        empty_left_neutral::<W>(),
        <WriterM<W> as Monad<'static, A>>::is_ret(m, a),
        <WriterM<W> as MonadBind<'static, A, B>>::is_bind(r, m, k),
    ensures
        exists|m2: Writer<W, B>| #[trigger] k(a, m2) && r@ == m2@,
{
    let m2 = choose|m2: Writer<W, B>| #[trigger] k(m@.0, m2) && r@ == (m2@.0, W::spec_append(m@.1, m2@.1));
    assert(W::spec_append(W::spec_empty(), m2@.1) == m2@.1);
}

/// Right identity: binding a computation with `ret` gives a computation with
/// its value and its trace, when the empty trace is neutral on the right.
pub proof fn writer_right_identity<W: AppendTrace, A>(v: Writer<W, A>, r: Writer<W, A>)
    requires
        empty_right_neutral::<W>(),
        <WriterM<W> as MonadBind<'static, A, A>>::is_bind(r, v, |a: A, m: Writer<W, A>| <WriterM<W> as Monad<'static, A>>::is_ret(m, a)),
    ensures
        r@ == v@,
{
    let k = |a: A, m: Writer<W, A>| <WriterM<W> as Monad<'static, A>>::is_ret(m, a);
    let m = choose|m: Writer<W, A>| #[trigger] k(v@.0, m) && r@ == (m@.0, W::spec_append(v@.1, m@.1));
    assert(W::spec_append(v@.1, W::spec_empty()) == v@.1);
}

/// Associativity: binding `g` after binding `f` gives the value of a
/// computation that `g` builds, and the traces of the three computations in
/// order, as binding `v` with the continuation that binds `g` after `f` does,
/// when appending traces is associative.
pub proof fn writer_associativity<W: AppendTrace, A, B, C>(
    v: Writer<W, A>,
    f: spec_fn(A, Writer<W, B>) -> bool,
    g: spec_fn(B, Writer<W, C>) -> bool,
    r1: Writer<W, B>,
    r2: Writer<W, C>,
)
    requires
        append_associative::<W>(),
        <WriterM<W> as MonadBind<'static, A, B>>::is_bind(r1, v, f),
        <WriterM<W> as MonadBind<'static, B, C>>::is_bind(r2, r1, g),
    ensures
        exists|m1: Writer<W, B>, m2: Writer<W, C>|
            #[trigger] f(v@.0, m1) && #[trigger] g(m1@.0, m2) && r2@ == (
                m2@.0,
                W::spec_append(v@.1, W::spec_append(m1@.1, m2@.1)),
            ),
{
    let m1 = choose|m1: Writer<W, B>| #[trigger] f(v@.0, m1) && r1@ == (m1@.0, W::spec_append(v@.1, m1@.1));
    let m2 = choose|m2: Writer<W, C>| #[trigger] g(r1@.0, m2) && r2@ == (m2@.0, W::spec_append(r1@.1, m2@.1));
    assert(W::spec_append(W::spec_append(v@.1, m1@.1), m2@.1) == W::spec_append(v@.1, W::spec_append(m1@.1, m2@.1)));
}

} // verus!
