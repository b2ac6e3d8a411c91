use bind_rs::bind::{Monad, MonadBind, MonadRepr};
use bind_rs::identity::IdentityM;
use bind_rs::state::StateM;

fn pure<'a, M: MonadBind<'a, i64, i64>>() -> <M as Monad<'a, i64>>::Repr {
    M::bind_impl(M::bind_impl(M::ret(1), |n| M::ret(n + 1)), |n| M::ret(n * 2))
}

fn pure_infix<'a, M>() -> <M as Monad<'a, i64>>::Repr
where
    M: MonadBind<'a, i64, i64>,
    <M as Monad<'a, i64>>::Repr: MonadRepr<'a, M, i64, i64>,
{
    M::ret(1).bind(|n| M::ret(n + 1)).bind(|n| M::ret(n * 2))
}

#[test]
fn it_works() {
    assert_eq!(2 + 2, 4);
}

#[test]
fn lib_it_works() {
    assert_eq!(2 + 2, 4);
}

#[test]
fn pure2identity() {
    assert_eq!(pure::<IdentityM>().0, 4);
}

#[test]
fn lib_pure2identity() {
    assert_eq!(pure::<IdentityM>().0, 4);
}

#[test]
fn pure_infix2identity() {
    assert_eq!(pure_infix::<IdentityM>().0, 4);
}

#[test]
fn lib_pure_infix2identity() {
    assert_eq!(pure_infix::<IdentityM>().0, 4);
}

#[test]
fn pure2state() {
    let st_repr = pure::<StateM<()>>();
    assert_eq!(st_repr.eval(()), 4);
}

#[test]
fn lib_pure2state() {
    let st_repr = pure::<StateM<()>>();
    assert_eq!(st_repr.eval(()), 4);
}

#[test]
fn pure_infix2state() {
    let st_repr = pure_infix::<StateM<()>>();
    assert_eq!(st_repr.eval(()), 4);
}

#[test]
fn lib_pure_infix2state() {
    let st_repr = pure_infix::<StateM<()>>();
    assert_eq!(st_repr.eval(()), 4);
}
