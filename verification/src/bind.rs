use vstd::prelude::*;

verus! {

/// The relation between the argument that `f` is called with and the value
/// that the call may return.
pub open spec fn outputs<A, R, F: FnOnce(A) -> R>(f: F) -> spec_fn(A, R) -> bool {
    |a: A, r: R| call_ensures(f, (a,), r)
}

/// The relation between a value that `f` is shown by reference and a value
/// that the call may return.
pub open spec fn outputs_ref<A, R, F: FnOnce(&A) -> R>(f: F) -> spec_fn(A, R) -> bool {
    |a: A, r: R| call_ensures(f, (&a,), r)
}

/// A monad `Self` whose computations can produce values of type `T`.
///
/// `Repr` is the type of such a computation; it may hold data that lives for `'a`.
pub trait Monad<'a, T>: Sized {
    /// A computation of this monad that produces a `T`.
    type Repr;

    /// `v` is a value that running `r` may produce.
    spec fn yields(r: Self::Repr, v: T) -> bool;

    /// `r` behaves as the computation that produces `v` and has no other effect.
    spec fn is_ret(r: Self::Repr, v: T) -> bool;

    /// A computation that behaves as returning `v` produces nothing but `v`.
    proof fn lemma_ret_yields(r: Self::Repr, v: T, b: T)
        requires
            Self::is_ret(r, v),
            Self::yields(r, b),
        ensures
            b == v,
    ;

    /// Injects a value into the monad.
    fn ret(v: T) -> (r: Self::Repr) where T: Send
        ensures
            Self::is_ret(r, v),
    ;
}

/// Chaining of a computation of an `A` with a continuation that builds a
/// computation of a `B`.
pub trait MonadBind<'a, A, B>: Monad<'a, A> + Monad<'a, B> {
    /// `r` behaves as running `v` and then, on the value `a` that `v` produced,
    /// some computation `m` with `k(a, m)`: every behaviour of `r` is such a
    /// behaviour. `k` relates each value to the computations that the
    /// continuation may build from it.
    spec fn is_bind(
        r: <Self as Monad<'a, B>>::Repr,
        v: <Self as Monad<'a, A>>::Repr,
        k: spec_fn(A, <Self as Monad<'a, B>>::Repr) -> bool,
    ) -> bool;

    /// Allowing the continuation more computations keeps a bind a bind.
    proof fn lemma_bind_mono(
        r: <Self as Monad<'a, B>>::Repr,
        v: <Self as Monad<'a, A>>::Repr,
        k1: spec_fn(A, <Self as Monad<'a, B>>::Repr) -> bool,
        k2: spec_fn(A, <Self as Monad<'a, B>>::Repr) -> bool,
    )
        requires
            Self::is_bind(r, v, k1),
            forall|a: A, m: <Self as Monad<'a, B>>::Repr| #[trigger] k1(a, m) ==> k2(a, m),
        ensures
            Self::is_bind(r, v, k2),
    ;

    /// Every value of a bind is a value of a computation that the continuation
    /// builds from a value of the first computation.
    proof fn lemma_bind_yields(
        r: <Self as Monad<'a, B>>::Repr,
        v: <Self as Monad<'a, A>>::Repr,
        k: spec_fn(A, <Self as Monad<'a, B>>::Repr) -> bool,
        b: B,
    )
        requires
            Self::is_bind(r, v, k),
            <Self as Monad<'a, B>>::yields(r, b),
        ensures
            exists|a: A, m: <Self as Monad<'a, B>>::Repr|
                <Self as Monad<'a, A>>::yields(v, a) && #[trigger] k(a, m)
                    && <Self as Monad<'a, B>>::yields(m, b),
    ;

    /// Binds a computation: runs `v`, hands its value to `f`, and runs the
    /// computation that `f` outputs.
    fn bind_impl<F>(v: <Self as Monad<'a, A>>::Repr, f: F) -> (r: <Self as Monad<'a, B>>::Repr) where
        F: FnOnce(A) -> <Self as Monad<'a, B>>::Repr + Send + 'a,

        requires
            forall|a: A| <Self as Monad<'a, A>>::yields(v, a) ==> call_requires(f, (a,)),
        ensures
            Self::is_bind(r, v, outputs(f)),
    ;
}

/// A computation that can be bound with method syntax: `v.bind(f)`.
pub trait MonadRepr<'a, M, A, B>: Sized where M: MonadBind<'a, A, B> + Monad<'a, A, Repr = Self> {
    /// Binds `self` with `f`, as `M::bind_impl(self, f)` does.
    fn bind<F>(self, f: F) -> (r: <M as Monad<'a, B>>::Repr) where
        F: FnOnce(A) -> <M as Monad<'a, B>>::Repr + Send + 'a,

        requires
            forall|a: A| <M as Monad<'a, A>>::yields(self, a) ==> call_requires(f, (a,)),
        ensures
            M::is_bind(r, self, outputs(f)),
    {
        M::bind_impl(self, f)
    }
}

} // verus!
