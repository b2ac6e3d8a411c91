use crate::bind::{outputs, Monad, MonadBind};
use crate::identity::{Identity, IdentityM};
use crate::state::{state_bind, state_deterministic, state_kont, State, StateM};
use std::collections::VecDeque;
use vstd::prelude::*;

verus! {

/// `r` behaves as running `f(x)` for each `x` of `xs` in order, keeping no
/// value: for no items, as `ret(())`; otherwise as binding a computation that
/// `f` may return for the first item with a continuation that behaves so for
/// the rest.
pub open spec fn runs_each<'a, M, T, F>(r: <M as Monad<'a, ()>>::Repr, xs: Seq<T>, f: F) -> bool where
    M: MonadBind<'a, (), ()>,
    F: Fn(T) -> <M as Monad<'a, ()>>::Repr,

    decreases xs.len(), 0int,
{
    if xs.len() == 0 {
        <M as Monad<'a, ()>>::is_ret(r, ())
    } else {
        exists|m: <M as Monad<'a, ()>>::Repr|
            #[trigger] call_ensures(f, (xs[0],), m) && <M as MonadBind<'a, (), ()>>::is_bind(
                r,
                m,
                runs_rest::<'a, M, T, F>(xs.drop_first(), f),
            )
    }
}

/// Relates `()` to the computations that behave as running `f(x)` for each
/// `x` of `xs` in order (see `runs_each`).
pub open spec fn runs_rest<'a, M, T, F>(xs: Seq<T>, f: F) -> spec_fn((), <M as Monad<'a, ()>>::Repr) -> bool where
    M: MonadBind<'a, (), ()>,
    F: Fn(T) -> <M as Monad<'a, ()>>::Repr,

    decreases xs.len(), 1int,
{
    |u: (), k: <M as Monad<'a, ()>>::Repr| runs_each::<'a, M, T, F>(k, xs, f)
}

/// `k` behaves as returning a deque that holds `a` followed by the items of `rs`.
pub open spec fn pushes_front<'a, M, R>(a: R) -> spec_fn(VecDeque<R>, <M as Monad<'a, VecDeque<R>>>::Repr) -> bool where
    M: Monad<'a, VecDeque<R>>,
 {
    |rs: VecDeque<R>, k: <M as Monad<'a, VecDeque<R>>>::Repr|
        exists|v: VecDeque<R>| v@ == seq![a] + rs@ && #[trigger] <M as Monad<'a, VecDeque<R>>>::is_ret(k, v)
}

/// `r` behaves as running `f(x)` for each `x` of `xs` in order and returning
/// the deque of their values: for no items, as returning an empty deque;
/// otherwise as binding a computation that `f` may return for the first item
/// with a continuation that, on its value `a`, binds a computation that
/// behaves so for the rest with pushing `a` in front (see `maps_rest`).
pub open spec fn maps_each<'a, M, T, R, F>(r: <M as Monad<'a, VecDeque<R>>>::Repr, xs: Seq<T>, f: F) -> bool where
    M: MonadBind<'a, R, VecDeque<R>> + MonadBind<'a, VecDeque<R>, VecDeque<R>>,
    F: Fn(T) -> <M as Monad<'a, R>>::Repr,

    decreases xs.len(), 0int,
{
    if xs.len() == 0 {
        exists|v: VecDeque<R>| v@ == Seq::<R>::empty() && #[trigger] <M as Monad<'a, VecDeque<R>>>::is_ret(r, v)
    } else {
        exists|m: <M as Monad<'a, R>>::Repr|
            #[trigger] call_ensures(f, (xs[0],), m) && <M as MonadBind<'a, R, VecDeque<R>>>::is_bind(
                r,
                m,
                maps_rest::<'a, M, T, R, F>(xs.drop_first(), f),
            )
    }
}

/// Relates a value `a` to the computations that bind a computation that
/// behaves as `maps_each` for `xs` with pushing `a` in front.
pub open spec fn maps_rest<'a, M, T, R, F>(xs: Seq<T>, f: F) -> spec_fn(R, <M as Monad<'a, VecDeque<R>>>::Repr) -> bool where
    M: MonadBind<'a, R, VecDeque<R>> + MonadBind<'a, VecDeque<R>, VecDeque<R>>,
    F: Fn(T) -> <M as Monad<'a, R>>::Repr,

    decreases xs.len(), 1int,
{
    |a: R, k: <M as Monad<'a, VecDeque<R>>>::Repr|
        exists|mr: <M as Monad<'a, VecDeque<R>>>::Repr|
            maps_each::<'a, M, T, R, F>(mr, xs, f)
                && #[trigger] <M as MonadBind<'a, VecDeque<R>, VecDeque<R>>>::is_bind(k, mr, pushes_front::<'a, M, R>(a))
}

/// The items of `xs`, in order, in a deque.
fn into_deque<T>(xs: Vec<T>) -> (it: VecDeque<T>)
    ensures
        it@ == xs@,
{
    let ghost orig = xs@;
    let mut xs = xs;
    let mut it: VecDeque<T> = VecDeque::new();
    while xs.len() > 0
        invariant
            orig == xs@ + it@,
        decreases xs.len(),
    {
        let ghost before = xs@;
        match xs.pop() {
            Some(x) => {
                it.push_front(x);
                assert(before == xs@.push(x));
                assert(orig == xs@ + it@);
            },
            None => {},
        }
    }
    assert(xs@ + it@ == it@);
    it
}

fn for_m_deque<'a, M, T, F>(it: VecDeque<T>, f: F) -> (r: <M as Monad<'a, ()>>::Repr) where
    M: MonadBind<'a, (), ()>,
    T: Send + 'a,
    F: Fn(T) -> <M as Monad<'a, ()>>::Repr + Send + 'a,

    requires
        forall|i: int| 0 <= i < it@.len() ==> call_requires(f, (#[trigger] it@[i],)),
    ensures
        runs_each::<'a, M, T, F>(r, it@, f),
    decreases it@.len(),
{
    let ghost xs = it@;
    let mut it = it;
    match it.pop_front() {
        None => <M as Monad<'a, ()>>::ret(()),
        Some(x) => {
            assert(xs[0] == x);
            let m = f(x);
            let ghost rest = it@;
            assert(rest == xs.drop_first());
            assert forall|i: int| 0 <= i < rest.len() implies call_requires(f, (#[trigger] rest[i],)) by {
                assert(rest[i] == xs[i + 1]);
            }
            let kont = move |u: ()| -> (r: <M as Monad<'a, ()>>::Repr)
                requires
                    forall|i: int| 0 <= i < it@.len() ==> call_requires(f, (#[trigger] it@[i],))
                ensures
                    runs_each::<'a, M, T, F>(r, rest, f)
                { for_m_deque::<'a, M, T, F>(it, f) };
            let r = <M as MonadBind<'a, (), ()>>::bind_impl(m, kont);
            proof {
                let kk = runs_rest::<'a, M, T, F>(xs.drop_first(), f);
                assert forall|u: (), k2: <M as Monad<'a, ()>>::Repr| #[trigger] outputs(kont)(u, k2) implies kk(u, k2) by {
                }
                <M as MonadBind<'a, (), ()>>::lemma_bind_mono(r, m, outputs(kont), kk);
            }
            r
        },
    }
}

fn map_m_deque<'a, M, T, R, F>(it: VecDeque<T>, f: F) -> (r: <M as Monad<'a, VecDeque<R>>>::Repr) where
    M: MonadBind<'a, R, VecDeque<R>> + MonadBind<'a, VecDeque<R>, VecDeque<R>>,
    T: Send + 'a,
    R: Send + 'a,
    F: Fn(T) -> <M as Monad<'a, R>>::Repr + Send + 'a,

    requires
        forall|i: int| 0 <= i < it@.len() ==> call_requires(f, (#[trigger] it@[i],)),
    ensures
        maps_each::<'a, M, T, R, F>(r, it@, f),
    decreases it@.len(),
{
    let ghost xs = it@;
    let mut it = it;
    match it.pop_front() {
        None => {
            let v: VecDeque<R> = VecDeque::new();
            let r = <M as Monad<'a, VecDeque<R>>>::ret(v);
            assert(v@ == Seq::<R>::empty() && <M as Monad<'a, VecDeque<R>>>::is_ret(r, v));
            r
        },
        Some(x) => {
            assert(xs[0] == x);
            let m = f(x);
            let ghost rest = it@;
            assert(rest == xs.drop_first());
            assert forall|i: int| 0 <= i < rest.len() implies call_requires(f, (#[trigger] rest[i],)) by {
                assert(rest[i] == xs[i + 1]);
            }
            let kont = move |a: R| -> (k: <M as Monad<'a, VecDeque<R>>>::Repr)
                requires
                    it@ == rest,
                    forall|i: int| 0 <= i < it@.len() ==> call_requires(f, (#[trigger] it@[i],))
                ensures
                    maps_rest::<'a, M, T, R, F>(rest, f)(a, k)
                {
                    let mr = map_m_deque::<'a, M, T, R, F>(it, f);
                    let ghost a0 = a;
                    let push = move |rs: VecDeque<R>| -> (k2: <M as Monad<'a, VecDeque<R>>>::Repr)
                        ensures
                            pushes_front::<'a, M, R>(a0)(rs, k2)
                        {
                            let ghost rs0 = rs@;
                            let mut rs = rs;
                            rs.push_front(a);
                            let k2 = <M as Monad<'a, VecDeque<R>>>::ret(rs);
                            assert(rs@ == seq![a0] + rs0);
                            k2
                        };
                    let k = <M as MonadBind<'a, VecDeque<R>, VecDeque<R>>>::bind_impl(mr, push);
                    proof {
                        assert forall|rs: VecDeque<R>, k2: <M as Monad<'a, VecDeque<R>>>::Repr|
                            #[trigger] outputs(push)(rs, k2) implies pushes_front::<'a, M, R>(a0)(rs, k2) by {
                        }
                        <M as MonadBind<'a, VecDeque<R>, VecDeque<R>>>::lemma_bind_mono(
                            k,
                            mr,
                            outputs(push),
                            pushes_front::<'a, M, R>(a0),
                        );
                    }
                    k
                };
            let r = <M as MonadBind<'a, R, VecDeque<R>>>::bind_impl(m, kont);
            proof {
                let kk = maps_rest::<'a, M, T, R, F>(xs.drop_first(), f);
                assert forall|a: R, k: <M as Monad<'a, VecDeque<R>>>::Repr| #[trigger] outputs(kont)(a, k) implies kk(a, k) by {
                }
                <M as MonadBind<'a, R, VecDeque<R>>>::lemma_bind_mono(r, m, outputs(kont), kk);
            }
            r
        },
    }
}

/// `y` is a value that a computation that `f` may return for `x` may produce.
pub open spec fn value_of_item<'a, M, T, R, F>(f: F, x: T, y: R) -> bool where
    M: Monad<'a, R>,
    F: Fn(T) -> <M as Monad<'a, R>>::Repr,
 {
    exists|m: <M as Monad<'a, R>>::Repr| #[trigger] call_ensures(f, (x,), m) && <M as Monad<'a, R>>::yields(m, y)
}

/// `map_m` collects one value per item, in the order of the items: every deque
/// that a computation built as `map_m(xs, f)` may produce has the length of
/// `xs`, and its `i`-th value is a value that a computation that `f` may return
/// for `xs[i]` may produce.
pub proof fn map_m_collects_in_order<'a, M, T, R, F>(
    r: <M as Monad<'a, VecDeque<R>>>::Repr,
    xs: Seq<T>,
    f: F,
    v: VecDeque<R>,
) where
    M: MonadBind<'a, R, VecDeque<R>> + MonadBind<'a, VecDeque<R>, VecDeque<R>>,
    F: Fn(T) -> <M as Monad<'a, R>>::Repr,

    requires
        maps_each::<'a, M, T, R, F>(r, xs, f),
        <M as Monad<'a, VecDeque<R>>>::yields(r, v),
    ensures
        v@.len() == xs.len(),
        forall|i: int| 0 <= i < xs.len() ==> #[trigger] value_of_item::<'a, M, T, R, F>(f, xs[i], v@[i]),
    decreases xs.len(),
{
    if xs.len() == 0 {
        let e = choose|e: VecDeque<R>| e@ == Seq::<R>::empty() && #[trigger] <M as Monad<'a, VecDeque<R>>>::is_ret(r, e);
        <M as Monad<'a, VecDeque<R>>>::lemma_ret_yields(r, e, v);
    } else {
        let rest = xs.drop_first();
        let m = choose|m: <M as Monad<'a, R>>::Repr|
            #[trigger] call_ensures(f, (xs[0],), m) && <M as MonadBind<'a, R, VecDeque<R>>>::is_bind(
                r,
                m,
                maps_rest::<'a, M, T, R, F>(rest, f),
            );
        let kr = maps_rest::<'a, M, T, R, F>(rest, f);
        <M as MonadBind<'a, R, VecDeque<R>>>::lemma_bind_yields(r, m, kr, v);
        let (a, k) = choose|a: R, k: <M as Monad<'a, VecDeque<R>>>::Repr|
            <M as Monad<'a, R>>::yields(m, a) && #[trigger] kr(a, k) && <M as Monad<'a, VecDeque<R>>>::yields(k, v);
        let mr = choose|mr: <M as Monad<'a, VecDeque<R>>>::Repr|
            maps_each::<'a, M, T, R, F>(mr, rest, f)
                && #[trigger] <M as MonadBind<'a, VecDeque<R>, VecDeque<R>>>::is_bind(k, mr, pushes_front::<'a, M, R>(a));
        let p = pushes_front::<'a, M, R>(a);
        <M as MonadBind<'a, VecDeque<R>, VecDeque<R>>>::lemma_bind_yields(k, mr, p, v);
        let (rs, k2) = choose|rs: VecDeque<R>, k2: <M as Monad<'a, VecDeque<R>>>::Repr|
            <M as Monad<'a, VecDeque<R>>>::yields(mr, rs) && #[trigger] p(rs, k2)
                && <M as Monad<'a, VecDeque<R>>>::yields(k2, v);
        let w = choose|w: VecDeque<R>| w@ == seq![a] + rs@ && #[trigger] <M as Monad<'a, VecDeque<R>>>::is_ret(k2, w);
        <M as Monad<'a, VecDeque<R>>>::lemma_ret_yields(k2, w, v);
        map_m_collects_in_order::<'a, M, T, R, F>(mr, rest, f, rs);
        assert(v@ == seq![a] + rs@);
        assert forall|i: int| 0 <= i < xs.len() implies #[trigger] value_of_item::<'a, M, T, R, F>(f, xs[i], v@[i]) by {
            if i == 0 {
                assert(call_ensures(f, (xs[0],), m) && <M as Monad<'a, R>>::yields(m, v@[0]));
            } else {
                assert(rest[i - 1] == xs[i]);
                assert(v@[i] == rs@[i - 1]);
                assert(value_of_item::<'a, M, T, R, F>(f, rest[i - 1], rs@[i - 1]));
            }
        }
    }
}

/// Loop over a sequence, collecting results into a `VecDeque`: runs `f(x)`
/// for each item `x` of `xs`, in order, and gives the deque of their values.
pub fn map_m<'a, M, T, R, F>(xs: Vec<T>, f: F) -> (r: <M as Monad<'a, VecDeque<R>>>::Repr) where
    M: MonadBind<'a, R, VecDeque<R>> + MonadBind<'a, VecDeque<R>, VecDeque<R>>,
    T: Send + 'a,
    R: Send + 'a,
    F: Fn(T) -> <M as Monad<'a, R>>::Repr + Send + 'a,

    requires
        forall|i: int| 0 <= i < xs@.len() ==> call_requires(f, (#[trigger] xs@[i],)),
    ensures
        maps_each::<'a, M, T, R, F>(r, xs@, f),
        forall|v: VecDeque<R>| #[trigger] <M as Monad<'a, VecDeque<R>>>::yields(r, v) ==> {
            &&& v@.len() == xs@.len()
            &&& forall|i: int| 0 <= i < xs@.len() ==> #[trigger] value_of_item::<'a, M, T, R, F>(f, xs@[i], v@[i])
        },
{
    let ghost items = xs@;
    let it = into_deque(xs);
    let r = map_m_deque::<'a, M, T, R, F>(it, f);
    proof {
        assert forall|v: VecDeque<R>| #[trigger] <M as Monad<'a, VecDeque<R>>>::yields(r, v) implies {
            &&& v@.len() == items.len()
            &&& forall|i: int| 0 <= i < items.len() ==> #[trigger] value_of_item::<'a, M, T, R, F>(f, items[i], v@[i])
        } by {
            map_m_collects_in_order::<'a, M, T, R, F>(r, items, f, v);
        }
    }
    r
}

/// Loop over a sequence: runs `f(x)` for each item `x` of `xs`, in order.
pub fn for_m<'a, M, T, F>(xs: Vec<T>, f: F) -> (r: <M as Monad<'a, ()>>::Repr) where
    M: MonadBind<'a, (), ()>,
    T: Send + 'a,
    F: Fn(T) -> <M as Monad<'a, ()>>::Repr + Send + 'a,

    requires
        forall|i: int| 0 <= i < xs@.len() ==> call_requires(f, (#[trigger] xs@[i],)),
    ensures
        runs_each::<'a, M, T, F>(r, xs@, f),
{
    let it = into_deque(xs);
    for_m_deque::<'a, M, T, F>(it, f)
}

} // verus!

verus! {

/// The final states that running, from a state, a computation that `f` may
/// return for each item of `xs` in turn may reach: `state_steps(xs, f)(s, s2)`
/// holds when `s2` is such a state from `s`.
pub open spec fn state_steps<'st, S, T, X, F: Fn(T) -> State<'st, S, X>>(xs: Seq<T>, f: F) -> spec_fn(S, S) -> bool
    decreases xs.len(),
{
    if xs.len() == 0 {
        |s: S, s2: S| s2 == s
    } else {
        |s: S, s2: S|
            exists|s1: S, x: X, m: State<'st, S, X>|
                #[trigger] call_ensures(f, (xs[0],), m) && #[trigger] (m.sem())(s, (s1, x))
                    && state_steps::<'st, S, T, X, F>(xs.drop_first(), f)(s1, s2)
    }
}

/// In the state monad, every final state that `for_m(xs, f)` may reach is one
/// that running a computation that `f` may return for each item in turn may
/// reach.
pub proof fn state_for_m_final<'st, S: 'st, T, F>(r: State<'st, S, ()>, xs: Seq<T>, f: F)
    where F: Fn(T) -> State<'st, S, ()>
    requires
        runs_each::<'st, StateM<S>, T, F>(r, xs, f),
    ensures
        forall|s: S, o: (S, ())| #[trigger] (r.sem())(s, o) ==> state_steps::<'st, S, T, (), F>(xs, f)(s, o.0),
    decreases xs.len(),
{
    if xs.len() > 0 {
        let rest = xs.drop_first();
        let m = choose|m: State<'st, S, ()>|
            #[trigger] call_ensures(f, (xs[0],), m) && <StateM<S> as MonadBind<'st, (), ()>>::is_bind(
                r,
                m,
                runs_rest::<'st, StateM<S>, T, F>(rest, f),
            );
        assert forall|s: S, o: (S, ())| #[trigger] (r.sem())(s, o) implies state_steps::<'st, S, T, (), F>(xs, f)(s, o.0) by {
            let k = runs_rest::<'st, StateM<S>, T, F>(rest, f);
            assert(state_bind(m.sem(), state_kont(k))(s, o));
            let (s1, a, kb) = choose|s1: S, a: (), kb: spec_fn(S, (S, ())) -> bool|
                #[trigger] (m.sem())(s, (s1, a)) && #[trigger] state_kont(k)(a, kb) && kb(s1, o);
            let m2 = choose|m2: State<'st, S, ()>| #[trigger] k(a, m2) && m2.sem() == kb;
            assert(runs_each::<'st, StateM<S>, T, F>(m2, rest, f));
            state_for_m_final::<'st, S, T, F>(m2, rest, f);
            assert((m2.sem())(s1, o));
            assert(state_steps::<'st, S, T, (), F>(rest, f)(s1, o.0));
        }
    }
}

/// In the state monad, every final state that `map_m(xs, f)` may reach is one
/// that running a computation that `f` may return for each item in turn may
/// reach.
pub proof fn state_map_m_final<'st, S: 'st, T, R: 'st, F>(r: State<'st, S, VecDeque<R>>, xs: Seq<T>, f: F)
    where F: Fn(T) -> State<'st, S, R>
    requires
        maps_each::<'st, StateM<S>, T, R, F>(r, xs, f),
    ensures
        forall|s: S, o: (S, VecDeque<R>)| #[trigger] (r.sem())(s, o) ==> state_steps::<'st, S, T, R, F>(xs, f)(s, o.0),
    decreases xs.len(),
{
    if xs.len() == 0 {
        let v = choose|v: VecDeque<R>|
            v@ == Seq::<R>::empty() && #[trigger] <StateM<S> as Monad<'st, VecDeque<R>>>::is_ret(r, v);
    } else {
        let rest = xs.drop_first();
        let m = choose|m: State<'st, S, R>|
            #[trigger] call_ensures(f, (xs[0],), m) && <StateM<S> as MonadBind<'st, R, VecDeque<R>>>::is_bind(
                r,
                m,
                maps_rest::<'st, StateM<S>, T, R, F>(rest, f),
            );
        assert forall|s: S, o: (S, VecDeque<R>)| #[trigger] (r.sem())(s, o) implies state_steps::<'st, S, T, R, F>(xs, f)(s, o.0) by {
            let k = maps_rest::<'st, StateM<S>, T, R, F>(rest, f);
            assert(state_bind(m.sem(), state_kont(k))(s, o));
            let (s1, a, kb) = choose|s1: S, a: R, kb: spec_fn(S, (S, VecDeque<R>)) -> bool|
                #[trigger] (m.sem())(s, (s1, a)) && #[trigger] state_kont(k)(a, kb) && kb(s1, o);
            let m2 = choose|m2: State<'st, S, VecDeque<R>>| #[trigger] k(a, m2) && m2.sem() == kb;
            let mr = choose|mr: State<'st, S, VecDeque<R>>|
                maps_each::<'st, StateM<S>, T, R, F>(mr, rest, f)
                    && #[trigger] <StateM<S> as MonadBind<'st, VecDeque<R>, VecDeque<R>>>::is_bind(
                    m2,
                    mr,
                    pushes_front::<'st, StateM<S>, R>(a),
                );
            let p = pushes_front::<'st, StateM<S>, R>(a);
            assert((m2.sem())(s1, o));
            assert(state_bind(mr.sem(), state_kont(p))(s1, o));
            let (s2, rs, kb2) = choose|s2: S, rs: VecDeque<R>, kb2: spec_fn(S, (S, VecDeque<R>)) -> bool|
                #[trigger] (mr.sem())(s1, (s2, rs)) && #[trigger] state_kont(p)(rs, kb2) && kb2(s2, o);
            let k2 = choose|k2: State<'st, S, VecDeque<R>>| #[trigger] p(rs, k2) && k2.sem() == kb2;
            let v = choose|v: VecDeque<R>|
                v@ == seq![a] + rs@ && #[trigger] <StateM<S> as Monad<'st, VecDeque<R>>>::is_ret(k2, v);
            assert(o.0 == s2);
            state_map_m_final::<'st, S, T, R, F>(mr, rest, f);
            assert(state_steps::<'st, S, T, R, F>(rest, f)(s1, s2));
        }
    }
}

proof fn lemma_state_steps_same<'st, S, T, X, F, G>(xs: Seq<T>, f: F, g: G, s: S, s2: S)
    where F: Fn(T) -> State<'st, S, X>, G: Fn(T) -> State<'st, S, X>
    requires
        forall|x: T, m: State<'st, S, X>| #[trigger] call_ensures(g, (x,), m) ==> call_ensures(f, (x,), m),
        state_steps::<'st, S, T, X, G>(xs, g)(s, s2),
    ensures
        state_steps::<'st, S, T, X, F>(xs, f)(s, s2),
    decreases xs.len(),
{
    if xs.len() > 0 {
        let (s1, x, m) = choose|s1: S, x: X, m: State<'st, S, X>|
            #[trigger] call_ensures(g, (xs[0],), m) && #[trigger] (m.sem())(s, (s1, x))
                && state_steps::<'st, S, T, X, G>(xs.drop_first(), g)(s1, s2);
        lemma_state_steps_same::<'st, S, T, X, F, G>(xs.drop_first(), f, g, s1, s2);
        assert(call_ensures(f, (xs[0],), m));
    }
}

/// In the state monad, `for_m(xs, f)` and `map_m(xs, g)`, where `g` may
/// return what `f` may, reach only the final states that running a
/// computation that `f` may return for each item in turn may reach: the two
/// differ only in the values they collect.
pub proof fn state_for_m_map_m_final<'st, S: 'st, T, F, G>(
    r1: State<'st, S, ()>,
    r2: State<'st, S, VecDeque<()>>,
    xs: Seq<T>,
    f: F,
    g: G,
)
    where F: Fn(T) -> State<'st, S, ()>, G: Fn(T) -> State<'st, S, ()>
    requires
        runs_each::<'st, StateM<S>, T, F>(r1, xs, f),
        maps_each::<'st, StateM<S>, T, (), G>(r2, xs, g),
        forall|x: T, m: State<'st, S, ()>| #[trigger] call_ensures(g, (x,), m) ==> call_ensures(f, (x,), m),
    ensures
        forall|s: S, o: (S, ())| #[trigger] (r1.sem())(s, o) ==> state_steps::<'st, S, T, (), F>(xs, f)(s, o.0),
        forall|s: S, o: (S, VecDeque<()>)| #[trigger] (r2.sem())(s, o) ==> state_steps::<'st, S, T, (), F>(xs, f)(s, o.0),
{
    state_for_m_final::<'st, S, T, F>(r1, xs, f);
    state_map_m_final::<'st, S, T, (), G>(r2, xs, g);
    assert forall|s: S, o: (S, VecDeque<()>)| #[trigger] (r2.sem())(s, o) implies state_steps::<'st, S, T, (), F>(xs, f)(s, o.0) by {
        lemma_state_steps_same::<'st, S, T, (), F, G>(xs, f, g, s, o.0);
    }
}

/// `f` is deterministic on states: the computations that it may return for
/// one item share one meaning, and that meaning is deterministic.
pub open spec fn state_fn_deterministic<'st, S, T, X, F: Fn(T) -> State<'st, S, X>>(f: F) -> bool {
    &&& forall|x: T, m1: State<'st, S, X>, m2: State<'st, S, X>|
        #[trigger] call_ensures(f, (x,), m1) && #[trigger] call_ensures(f, (x,), m2) ==> m1.sem() == m2.sem()
    &&& forall|x: T, m: State<'st, S, X>| #[trigger] call_ensures(f, (x,), m) ==> state_deterministic(m.sem())
}

proof fn lemma_state_steps_functional<'st, S, T, X, F>(xs: Seq<T>, f: F, s: S, s2: S, s3: S)
    where F: Fn(T) -> State<'st, S, X>
    requires
        state_fn_deterministic::<'st, S, T, X, F>(f),
        state_steps::<'st, S, T, X, F>(xs, f)(s, s2),
        state_steps::<'st, S, T, X, F>(xs, f)(s, s3),
    ensures
        s2 == s3,
    decreases xs.len(),
{
    if xs.len() > 0 {
        let (a1, x1, m1) = choose|s1: S, x: X, m: State<'st, S, X>|
            #[trigger] call_ensures(f, (xs[0],), m) && #[trigger] (m.sem())(s, (s1, x))
                && state_steps::<'st, S, T, X, F>(xs.drop_first(), f)(s1, s2);
        let (a2, x2, m2) = choose|s1: S, x: X, m: State<'st, S, X>|
            #[trigger] call_ensures(f, (xs[0],), m) && #[trigger] (m.sem())(s, (s1, x))
                && state_steps::<'st, S, T, X, F>(xs.drop_first(), f)(s1, s3);
        assert(m1.sem() == m2.sem());
        assert(state_deterministic(m1.sem()));
        assert((m1.sem())(s, (a1, x1)) && (m1.sem())(s, (a2, x2)));
        lemma_state_steps_functional::<'st, S, T, X, F>(xs.drop_first(), f, a1, s2, s3);
    }
}

/// In the state monad, when `f` is deterministic, `for_m(xs, f)` and
/// `map_m(xs, g)`, where `g` may return what `f` may, end in the same state
/// when run from the same state: `for_m` only drops the collected values.
pub proof fn state_for_m_map_m_same_final<'st, S: 'st, T, F, G>(
    r1: State<'st, S, ()>,
    r2: State<'st, S, VecDeque<()>>,
    xs: Seq<T>,
    f: F,
    g: G,
    s: S,
    o1: (S, ()),
    o2: (S, VecDeque<()>),
)
    where F: Fn(T) -> State<'st, S, ()>, G: Fn(T) -> State<'st, S, ()>
    requires
        runs_each::<'st, StateM<S>, T, F>(r1, xs, f),
        maps_each::<'st, StateM<S>, T, (), G>(r2, xs, g),
        forall|x: T, m: State<'st, S, ()>| #[trigger] call_ensures(g, (x,), m) ==> call_ensures(f, (x,), m),
        state_fn_deterministic::<'st, S, T, (), F>(f),
        (r1.sem())(s, o1),
        (r2.sem())(s, o2),
    ensures
        o1.0 == o2.0,
{
    state_for_m_map_m_final::<'st, S, T, F, G>(r1, r2, xs, f, g);
    lemma_state_steps_functional::<'st, S, T, (), F>(xs, f, s, o1.0, o2.0);
}

/// In the identity monad, `map_m(xs, f)` gives the deque of the values of
/// `f(xs[0])`, `f(xs[1])`, ..., in that order: one per item.
pub proof fn identity_map_m_in_order<T, R, F>(r: Identity<VecDeque<R>>, xs: Seq<T>, f: F)
    where F: Fn(T) -> Identity<R>
    requires
        maps_each::<'static, IdentityM, T, R, F>(r, xs, f),
    ensures
        r.0@.len() == xs.len(),
        forall|i: int| 0 <= i < xs.len() ==> #[trigger] call_ensures(f, (xs[i],), Identity(r.0@[i])),
{
    map_m_collects_in_order::<'static, IdentityM, T, R, F>(r, xs, f, r.0);
    assert forall|i: int| 0 <= i < xs.len() implies #[trigger] call_ensures(f, (xs[i],), Identity(r.0@[i])) by {
        assert(value_of_item::<'static, IdentityM, T, R, F>(f, xs[i], r.0@[i]));
        let m = choose|m: Identity<R>| #[trigger] call_ensures(f, (xs[i],), m) && m.0 == r.0@[i];
        assert(m == Identity(r.0@[i]));
    }
}

} // verus!
