use bind_rs::bind::{Monad, MonadBind, MonadRepr};
use bind_rs::control::{for_m, map_m};
use bind_rs::identity::{Identity, IdentityM};
use bind_rs::reader::{MonadReader, ReaderM};
use bind_rs::reader_owned::{MonadReaderOwned, ReaderOwned, ReaderOwnedM};
use bind_rs::reader_writer::ReaderWriterM;
use bind_rs::state::{MonadState, StateM};
use bind_rs::writer::{AppendTrace, MonadWriter, WriterM};
use std::collections::VecDeque;

#[test]
fn state_ret_keeps_state() {
    let m = <StateM<i64> as Monad<i64>>::ret(7);
    assert_eq!(m.run(3), (3, 7));
}

#[test]
fn state_get_gives_state() {
    let m = <StateM<i64> as MonadState<i64>>::get();
    assert_eq!(m.run(5), (5, 5));
}

#[test]
fn state_put_replaces_state() {
    let m = <StateM<i64> as MonadState<i64>>::put(9);
    assert_eq!(m.run(5), (9, ()));
}

#[test]
fn state_put_then_get() {
    let m = <StateM<i64> as MonadBind<(), i64>>::bind_impl(
        <StateM<i64> as MonadState<i64>>::put(42),
        |_| <StateM<i64> as MonadState<i64>>::get(),
    );
    assert_eq!(m.run(0), (42, 42));
}

#[test]
fn state_get_then_put_back() {
    let m = <StateM<i64> as MonadBind<i64, ()>>::bind_impl(
        <StateM<i64> as MonadState<i64>>::get(),
        |x| <StateM<i64> as MonadState<i64>>::put(x),
    );
    assert_eq!(m.run(17), (17, ()));
}

#[test]
fn state_put_put_keeps_second() {
    let m = <StateM<i64> as MonadBind<(), ()>>::bind_impl(
        <StateM<i64> as MonadState<i64>>::put(1),
        |_| <StateM<i64> as MonadState<i64>>::put(2),
    );
    assert_eq!(m.run(0), (2, ()));
}

#[test]
fn state_with_ref_sees_state() {
    let m = <StateM<i64> as MonadState<i64, i64>>::with_ref(|st: &i64| <StateM<i64> as Monad<i64>>::ret(*st * 10));
    assert_eq!(m.run(4), (4, 40));
}

#[test]
fn state_with_mut_changes_state_first() {
    let m = <StateM<i64> as MonadState<i64, i64>>::with_mut(|st: &mut i64| {
        *st += 1;
        <StateM<i64> as MonadState<i64>>::get()
    });
    assert_eq!(m.run(4), (5, 5));
}

#[test]
fn state_counter_with_bind_syntax() {
    let incr = || {
        <StateM<u32> as MonadState<u32>>::get().bind(|n: u32| <StateM<u32> as MonadState<u32>>::put(n + 1))
    };
    let m = incr().bind(move |_| incr()).bind(|_| <StateM<u32> as MonadState<u32>>::get());
    assert_eq!(m.run(10), (12, 12));
    let m2 = incr().bind(|_| <StateM<u32> as Monad<&str>>::ret("done"));
    assert_eq!(m2.eval(0), "done");
}

#[test]
fn reader_ask_ref_and_ask() {
    let env = String::from("config");
    let r = <ReaderM<String> as MonadReader<String>>::ask_ref();
    assert_eq!(r.run(&env), "config");
    let r2 = <ReaderM<String> as MonadReader<String>>::ask();
    assert_eq!(r2.run(&env), String::from("config"));
}

#[test]
fn reader_bind_sees_same_environment() {
    let env: i64 = 21;
    let r = <ReaderM<i64> as MonadBind<&i64, i64>>::bind_impl(
        <ReaderM<i64> as MonadReader<i64>>::ask_ref(),
        |x: &i64| {
            let x = *x;
            <ReaderM<i64> as MonadBind<&i64, i64>>::bind_impl(
                <ReaderM<i64> as MonadReader<i64>>::ask_ref(),
                move |y: &i64| <ReaderM<i64> as Monad<i64>>::ret(x + *y),
            )
        },
    );
    assert_eq!(r.run(&env), 42);
}

#[test]
fn reader_ret_ignores_environment() {
    let r = <ReaderM<i64> as Monad<&str>>::ret("v");
    assert_eq!(r.run(&5), "v");
}

#[test]
fn reader_owned_ask_gives_environment() {
    let r = <ReaderOwnedM<Vec<i64>> as MonadReaderOwned<Vec<i64>>>::ask();
    assert_eq!(r.run(vec![1, 2]), vec![1, 2]);
}

#[test]
fn reader_owned_local_changes_environment() {
    let inner = <ReaderOwnedM<i64> as MonadReaderOwned<i64>>::ask();
    let r = <ReaderOwnedM<i64> as MonadReaderOwned<i64, i64>>::local(|e: i64| e * 3, inner);
    assert_eq!(r.run(5), 15);
}

#[test]
fn reader_owned_local_ref_and_local_mut() {
    let r = <ReaderOwnedM<i64> as MonadReaderOwned<i64, i64>>::local_ref(|e: &i64| {
        <ReaderOwnedM<i64> as Monad<i64>>::ret(*e + 1)
    });
    assert_eq!(r.run(5), 6);
    let r2 = <ReaderOwnedM<i64> as MonadReaderOwned<i64, i64>>::local_mut(|e: &mut i64| {
        *e = 100;
        <ReaderOwnedM<i64> as MonadReaderOwned<i64>>::ask()
    });
    assert_eq!(r2.run(5), 100);
}

#[test]
fn reader_owned_local_mut_change_stays_local() {
    let v = <ReaderOwnedM<i64> as MonadReaderOwned<i64, i64>>::local_mut(|e: &mut i64| {
        *e += 1;
        <ReaderOwnedM<i64> as MonadReaderOwned<i64>>::ask()
    });
    let r = <ReaderOwnedM<i64> as MonadBind<i64, (i64, i64)>>::bind_impl(v, |x: i64| {
        <ReaderOwnedM<i64> as MonadReaderOwned<i64>>::ask()
            .bind(move |y: i64| <ReaderOwnedM<i64> as Monad<(i64, i64)>>::ret((x, y)))
    });
    assert_eq!(r.run(1), (2, 1));
}

#[test]
fn state_with_mut_then_get_from_one() {
    let m = <StateM<i64> as MonadState<i64, i64>>::with_mut(|s: &mut i64| {
        *s += 1;
        <StateM<i64> as MonadState<i64>>::get()
    });
    assert_eq!(m.run(1), (2, 2));
}

#[test]
fn reader_owned_bind_passes_environment() {
    let r = <ReaderOwnedM<i64> as MonadBind<i64, i64>>::bind_impl(
        <ReaderOwnedM<i64> as MonadReaderOwned<i64>>::ask(),
        |a: i64| {
            <ReaderOwnedM<i64> as MonadBind<i64, i64>>::bind_impl(
                <ReaderOwnedM<i64> as MonadReaderOwned<i64>>::ask(),
                move |b: i64| <ReaderOwnedM<i64> as Monad<i64>>::ret(a * 10 + b),
            )
        },
    );
    assert_eq!(r.run(3), 33);
}

#[test]
fn vec_trace_empty_and_append() {
    let e: Vec<i64> = <Vec<i64> as AppendTrace>::empty();
    assert!(e.is_empty());
    let t = <Vec<i64> as AppendTrace>::append(vec![1, 2], vec![3]);
    assert_eq!(t, vec![1, 2, 3]);
}

#[test]
fn writer_ret_has_empty_trace() {
    let w = <WriterM<Vec<i64>> as Monad<&str>>::ret("x");
    assert_eq!(w.run(), (vec![], "x"));
}

#[test]
fn writer_bind_keeps_the_continuation_value() {
    let w = <WriterM<Vec<i64>> as MonadBind<i64, i64>>::bind_impl(<WriterM<Vec<i64>> as Monad<i64>>::ret(4), |n: i64| {
        <WriterM<Vec<i64>> as Monad<i64>>::ret(n * 5)
    });
    assert_eq!(w.run(), (vec![], 20));
}

#[test]
fn reader_writer_write_records_trace() {
    let m = <ReaderWriterM<i64, Vec<i64>> as MonadWriter<Vec<i64>>>::write(vec![7]);
    assert_eq!(m.run(&0), (vec![7], ()));
}

#[test]
fn reader_writer_traces_accumulate_in_order() {
    let m = <ReaderWriterM<i64, Vec<i64>> as MonadBind<(), ()>>::bind_impl(
        <ReaderWriterM<i64, Vec<i64>> as MonadWriter<Vec<i64>>>::write(vec![1, 2]),
        |_| <ReaderWriterM<i64, Vec<i64>> as MonadWriter<Vec<i64>>>::write(vec![3]),
    );
    assert_eq!(m.run(&0), (vec![1, 2, 3], ()));
}

#[test]
fn reader_writer_ask_and_write_environment() {
    let m = <ReaderWriterM<i64, Vec<i64>> as MonadBind<i64, ()>>::bind_impl(
        <ReaderWriterM<i64, Vec<i64>> as MonadReader<i64>>::ask(),
        |e: i64| <ReaderWriterM<i64, Vec<i64>> as MonadWriter<Vec<i64>>>::write(vec![e, e]),
    );
    assert_eq!(m.run(&9), (vec![9, 9], ()));
    let m2 = <ReaderWriterM<i64, Vec<i64>> as MonadReader<i64>>::ask_ref();
    let (t, v) = m2.run(&8);
    assert!(t.is_empty());
    assert_eq!(*v, 8);
    let m3 = <ReaderWriterM<i64, Vec<i64>> as Monad<&str>>::ret("r");
    assert_eq!(m3.run(&8), (vec![], "r"));
}

#[test]
fn for_m_writes_each_item_in_order() {
    let v: Vec<u8> = vec![1, 2, 3, 4, 5];
    let repr = for_m::<ReaderWriterM<i64, Vec<u8>>, _, _>(v, |i: u8| {
        <ReaderWriterM<i64, Vec<u8>> as MonadWriter<Vec<u8>>>::write(vec![i])
    });
    assert_eq!(repr.run(&0), (vec![1, 2, 3, 4, 5], ()));
}

#[test]
fn test_for_m() {
    let v: Vec<u8> = vec![1, 2, 3, 4, 5];
    let repr = for_m::<ReaderWriterM<u8, Vec<u8>>, _, _>(v, |i: u8| {
        <ReaderWriterM<u8, Vec<u8>> as MonadReader<u8>>::ask()
            .bind(move |base: u8| <ReaderWriterM<u8, Vec<u8>> as MonadWriter<Vec<u8>>>::write(vec![base + i]))
    });
    let (trace, ()) = repr.run(&0);
    assert_eq!(trace, vec![1, 2, 3, 4, 5]);
}

#[test]
fn for_m_on_no_items_does_nothing() {
    let v: Vec<u8> = vec![];
    let repr = for_m::<StateM<i64>, _, _>(v, |i: u8| <StateM<i64> as MonadState<i64>>::put(i as i64));
    assert_eq!(repr.run(3), (3, ()));
}

#[test]
fn for_m_threads_state_through_items() {
    let v: Vec<i64> = vec![10, 20, 30];
    let repr = for_m::<StateM<i64>, _, _>(v, |i: i64| {
        <StateM<i64> as MonadState<i64>>::get().bind(move |s: i64| <StateM<i64> as MonadState<i64>>::put(s + i))
    });
    assert_eq!(repr.run(1), (61, ()));
}

#[test]
fn map_m_collects_values_in_order() {
    let v: Vec<i64> = vec![1, 2, 3];
    let r = map_m::<IdentityM, _, _, _>(v, |x: i64| Identity(x * 2));
    assert_eq!(r.0, VecDeque::from(vec![2, 4, 6]));
}

#[test]
fn map_m_on_no_items_gives_empty_deque() {
    let v: Vec<i64> = vec![];
    let r = map_m::<IdentityM, _, _, _>(v, |x: i64| Identity(x));
    assert!(r.0.is_empty());
}

#[test]
fn map_m_runs_effects_in_order() {
    let v: Vec<i64> = vec![5, 6, 7];
    let r = map_m::<StateM<i64>, _, _, _>(v, |x: i64| {
        <StateM<i64> as MonadState<i64>>::get()
            .bind(move |s: i64| <StateM<i64> as MonadState<i64>>::put(s + 1).bind(move |_| <StateM<i64> as Monad<i64>>::ret(s * 100 + x)))
    });
    assert_eq!(r.run(0), (3, VecDeque::from(vec![5, 106, 207])));
}

#[test]
fn reader_owned_local_identity_keeps_environment() {
    let inner = <ReaderOwnedM<i64> as MonadBind<i64, i64>>::bind_impl(
        <ReaderOwnedM<i64> as MonadReaderOwned<i64>>::ask(),
        |e: i64| <ReaderOwnedM<i64> as Monad<i64>>::ret(e + 1),
    );
    let r = <ReaderOwnedM<i64> as MonadReaderOwned<i64, i64>>::local(|e: i64| e, inner);
    assert_eq!(r.run(41), 42);
}

fn assert_send<T: Send>(_: &T) {}

#[test]
fn state_continuation_may_capture_a_computation() {
    let later = <StateM<i64> as MonadState<i64>>::put(9);
    assert_send(&later);
    let m = <StateM<i64> as MonadState<i64>>::get().bind(move |_s: i64| later);
    assert_eq!(m.run(1), (9, ()));
}

#[test]
fn reader_continuation_may_capture_a_computation() {
    let later = <ReaderM<i64> as MonadReader<i64>>::ask();
    assert_send(&later);
    let m = <ReaderM<i64> as Monad<i64>>::ret(1).bind(move |_x: i64| later);
    assert_eq!(m.run(&5), 5);
}

#[test]
fn reader_owned_continuation_may_capture_a_computation() {
    let later = <ReaderOwnedM<i64> as MonadReaderOwned<i64>>::ask();
    assert_send(&later);
    let m = <ReaderOwnedM<i64> as Monad<i64>>::ret(1).bind(move |_x: i64| later);
    assert_eq!(m.run(6), 6);
}

#[test]
fn reader_writer_continuation_may_capture_a_computation() {
    let later = <ReaderWriterM<i64, Vec<i64>> as MonadWriter<Vec<i64>>>::write(vec![2]);
    assert_send(&later);
    let m = <ReaderWriterM<i64, Vec<i64>> as MonadWriter<Vec<i64>>>::write(vec![1]).bind(move |_u: ()| later);
    assert_eq!(m.run(&0), (vec![1, 2], ()));
}

#[test]
fn reader_owned_from_a_closure() {
    let m = ReaderOwned::new(|env: i64| env * 2);
    assert_eq!(m.run(4), 8);
    let n = ReaderOwned::new(|env: i64| env + 1).bind(|x: i64| {
        <ReaderOwnedM<i64> as MonadReaderOwned<i64>>::ask().bind(move |e: i64| <ReaderOwnedM<i64> as Monad<(i64, i64)>>::ret((x, e)))
    });
    assert_eq!(n.run(10), (11, 10));
}
