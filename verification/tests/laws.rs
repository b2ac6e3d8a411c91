use bind_rs::control::{for_m, map_m};
use bind_rs::bind::{Monad, MonadBind, MonadRepr};
use bind_rs::identity::{Identity, IdentityM};
use bind_rs::reader::ReaderM;
use bind_rs::reader_owned::ReaderOwnedM;
use bind_rs::reader_writer::ReaderWriterM;
use bind_rs::state::{MonadState, StateM};
use bind_rs::writer::{MonadWriter, WriterM};

fn step(n: i64) -> bind_rs::state::State<'static, i64, i64> {
    <StateM<i64> as MonadState<i64>>::get().bind(move |s: i64| <StateM<i64> as MonadState<i64>>::put(s + n).bind(move |_| <StateM<i64> as Monad<i64>>::ret(s * n)))
}

#[test]
fn identity_monad_laws() {
    let left = <IdentityM as MonadBind<i64, i64>>::bind_impl(<IdentityM as Monad<i64>>::ret(3), |x| Identity(x + 1));
    assert_eq!(left.0, 4);
    let right = <IdentityM as MonadBind<i64, i64>>::bind_impl(Identity(8), |x| <IdentityM as Monad<i64>>::ret(x));
    assert_eq!(right.0, 8);
    let assoc1 = Identity(2).bind(|x: i64| Identity(x * 3)).bind(|y: i64| Identity(y + 1));
    let assoc2 = Identity(2).bind(|x: i64| Identity(x * 3).bind(|y: i64| Identity(y + 1)));
    assert_eq!(assoc1.0, assoc2.0);
}

#[test]
fn state_monad_laws() {
    let left = <StateM<i64> as Monad<i64>>::ret(3).bind(step);
    assert_eq!(left.run(5), step(3).run(5));
    let right = step(4).bind(|x: i64| <StateM<i64> as Monad<i64>>::ret(x));
    assert_eq!(right.run(2), step(4).run(2));
    let assoc1 = step(2).bind(step).bind(step);
    let assoc2 = step(2).bind(|x: i64| step(x).bind(step));
    assert_eq!(assoc1.run(1), assoc2.run(1));
}

#[test]
fn reader_monad_laws() {
    let k = |x: i64| <ReaderM<i64> as Monad<i64>>::ret(x + 1);
    let left = <ReaderM<i64> as Monad<i64>>::ret(3).bind(k);
    assert_eq!(left.run(&0), 4);
    let right = <ReaderM<i64> as Monad<i64>>::ret(6).bind(|x: i64| <ReaderM<i64> as Monad<i64>>::ret(x));
    assert_eq!(right.run(&0), 6);
}

#[test]
fn reader_owned_monad_laws() {
    let left = <ReaderOwnedM<i64> as Monad<i64>>::ret(3).bind(|x: i64| <ReaderOwnedM<i64> as Monad<i64>>::ret(x * 2));
    assert_eq!(left.run(0), 6);
    let right = <ReaderOwnedM<i64> as Monad<i64>>::ret(6).bind(|x: i64| <ReaderOwnedM<i64> as Monad<i64>>::ret(x));
    assert_eq!(right.run(1), 6);
}

#[test]
fn writer_monad_laws() {
    let left = <WriterM<Vec<i64>> as Monad<i64>>::ret(3).bind(|x: i64| <WriterM<Vec<i64>> as Monad<i64>>::ret(x + 1));
    assert_eq!(left.run(), (vec![], 4));
    let right = <WriterM<Vec<i64>> as Monad<i64>>::ret(3).bind(|x: i64| <WriterM<Vec<i64>> as Monad<i64>>::ret(x));
    assert_eq!(right.run(), (vec![], 3));
}

fn log(n: i64) -> bind_rs::reader_writer::ReaderWriter<'static, i64, Vec<i64>, i64> {
    <ReaderWriterM<i64, Vec<i64>> as MonadWriter<Vec<i64>>>::write(vec![n]).bind(move |_| <ReaderWriterM<i64, Vec<i64>> as Monad<i64>>::ret(n + 1))
}

#[test]
fn reader_writer_monad_laws() {
    let left = <ReaderWriterM<i64, Vec<i64>> as Monad<i64>>::ret(3).bind(log);
    assert_eq!(left.run(&0), log(3).run(&0));
    let right = log(5).bind(|x: i64| <ReaderWriterM<i64, Vec<i64>> as Monad<i64>>::ret(x));
    assert_eq!(right.run(&0), log(5).run(&0));
    let assoc1 = log(1).bind(log).bind(log);
    let assoc2 = log(1).bind(|x: i64| log(x).bind(log));
    let out = assoc1.run(&0);
    assert_eq!(out, assoc2.run(&0));
    assert_eq!(out, (vec![1, 2, 3], 4));
}

#[test]
fn for_m_and_map_m_reach_the_same_state() {
    let add = |i: i64| <StateM<i64> as MonadState<i64>>::get().bind(move |s: i64| <StateM<i64> as MonadState<i64>>::put(s * 2 + i));
    let a = for_m::<StateM<i64>, _, _>(vec![1, 2, 3], add).run(5);
    let b = map_m::<StateM<i64>, _, _, _>(vec![1, 2, 3], add).run(5);
    assert_eq!(a.0, b.0);
    assert_eq!(a.0, 51);
    assert_eq!(b.1.len(), 3);
}

#[test]
fn eval_gives_the_value_of_run() {
    for s in [0i64, 3, -7] {
        let (_, v) = step(5).bind(step).run(s);
        assert_eq!(step(5).bind(step).eval(s), v);
    }
}
