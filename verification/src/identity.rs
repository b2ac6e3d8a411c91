use crate::bind::{Monad, MonadBind, MonadRepr};
use vstd::prelude::*;

verus! {

/// The computation of the identity monad: the value itself.
#[derive(Debug)]
pub struct Identity<T>(pub T);

/// A namespace for the `Identity` monad.
pub struct IdentityM;

impl<'a, T> Monad<'a, T> for IdentityM {
    type Repr = Identity<T>;

    open spec fn yields(r: Identity<T>, v: T) -> bool {
        r.0 == v
    }

    open spec fn is_ret(r: Identity<T>, v: T) -> bool {
        r.0 == v
    }

    proof fn lemma_ret_yields(r: Identity<T>, v: T, b: T) {
    }

    fn ret(v: T) -> (r: Identity<T>) where T: Send {
        Identity(v)
    }
}

impl<'a, A, B> MonadBind<'a, A, B> for IdentityM {
    open spec fn is_bind(r: Identity<B>, v: Identity<A>, k: spec_fn(A, Identity<B>) -> bool) -> bool {
        k(v.0, r)
    }

    proof fn lemma_bind_mono(
        r: Identity<B>,
        v: Identity<A>,
        k1: spec_fn(A, Identity<B>) -> bool,
        k2: spec_fn(A, Identity<B>) -> bool,
    ) {
    }

    proof fn lemma_bind_yields(r: Identity<B>, v: Identity<A>, k: spec_fn(A, Identity<B>) -> bool, b: B) {
        assert(k(v.0, r));
    }

    fn bind_impl<F>(v: Identity<A>, f: F) -> (r: Identity<B>) where F: FnOnce(A) -> Identity<B> + Send + 'a {
        proof {
            assert(<IdentityM as Monad<'a, A>>::yields(v, v.0));
        }
        f(v.0)
    }
}

impl<'a, A, B> MonadRepr<'a, IdentityM, A, B> for Identity<A> {
}

/// Left identity: binding a returned value runs the continuation on it.
pub proof fn identity_left_identity<A, B>(a: A, m: Identity<A>, k: spec_fn(A, Identity<B>) -> bool, r: Identity<B>)
    requires
        <IdentityM as Monad<'static, A>>::is_ret(m, a),
        <IdentityM as MonadBind<'static, A, B>>::is_bind(r, m, k),
    ensures
        k(a, r),
{
}

/// Right identity: binding with `ret` gives back the computation.
pub proof fn identity_right_identity<A>(v: Identity<A>, r: Identity<A>)
    requires
        <IdentityM as MonadBind<'static, A, A>>::is_bind(r, v, |a: A, m: Identity<A>| <IdentityM as Monad<'static, A>>::is_ret(m, a)),
    ensures
        r == v,
{
}

/// Associativity: binding `g` after binding `f` is binding the continuation
/// that binds `g` after `f`.
pub proof fn identity_associativity<A, B, C>(
    v: Identity<A>,
    f: spec_fn(A, Identity<B>) -> bool,
    g: spec_fn(B, Identity<C>) -> bool,
    r1: Identity<B>,
    r2: Identity<C>,
)
    requires
        <IdentityM as MonadBind<'static, A, B>>::is_bind(r1, v, f),
        <IdentityM as MonadBind<'static, B, C>>::is_bind(r2, r1, g),
    ensures
        <IdentityM as MonadBind<'static, A, C>>::is_bind(
            r2,
            v,
            |a: A, m: Identity<C>| exists|mb: Identity<B>| #[trigger] f(a, mb) && <IdentityM as MonadBind<'static, B, C>>::is_bind(m, mb, g),
        ),
{
}

} // verus!
