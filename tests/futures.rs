use polled_futures::executor::{block_on, worker_step, BlockingExecutor, Executor, SingleThreadExecutor};
use polled_futures::future::{and_then, immediate, join, Countdown, Future, Join, Poll};
use std::sync::atomic::{AtomicUsize, Ordering};

#[test]
fn immediate_is_ready_on_first_poll() {
    let mut f = immediate(7u32);
    assert!(matches!(f.poll(), Poll::Ready(7)));
}

#[test]
fn map_of_immediate_applies_transform() {
    let mut f = polled_futures::future::map(immediate(3u32), |x| x * 2 + 1);
    assert!(matches!(f.poll(), Poll::Ready(7)));
}

#[test]
fn map_waits_for_child() {
    let mut f = polled_futures::future::map(Countdown::new(3), |_| 10u32);
    assert!(matches!(f.poll(), Poll::NotReady));
    assert!(matches!(f.poll(), Poll::NotReady));
    assert!(matches!(f.poll(), Poll::Ready(10)));
}

#[test]
fn join_of_immediates_yields_pair() {
    let mut f = join(immediate(1u32), immediate("a"));
    match f.poll() {
        Poll::Ready((a, b)) => {
            assert_eq!(a, 1);
            assert_eq!(b, "a");
        }
        Poll::NotReady => panic!("join of two immediates must be ready at once"),
    }
}

#[test]
fn join_finishes_with_slower_child() {
    let mut f = join(Countdown::new(2), Countdown::new(4));
    let mut polls = 0;
    loop {
        polls += 1;
        if let Poll::Ready(_) = f.poll() {
            break;
        }
    }
    assert_eq!(polls, 4);
}

#[test]
fn join_stops_polling_first_after_it_finishes() {
    let mut f = join(Countdown::new(1), Countdown::new(3));
    assert!(matches!(f.poll(), Poll::NotReady));
    match &f {
        Join::FirstDone((), g) => assert_eq!(g.polls(), 1),
        _ => panic!("first child should be done"),
    }
    assert!(matches!(f.poll(), Poll::NotReady));
    match &f {
        Join::FirstDone((), g) => assert_eq!(g.polls(), 2),
        _ => panic!("first child should stay done"),
    }
    assert!(matches!(f.poll(), Poll::Ready(((), ()))));
    assert!(matches!(f, Join::Done));
}

#[test]
fn join_stops_polling_second_after_it_finishes() {
    let mut f = join(Countdown::new(2), Countdown::new(1));
    assert!(matches!(f.poll(), Poll::NotReady));
    match &f {
        Join::SecondDone(g, ()) => assert_eq!(g.polls(), 1),
        _ => panic!("second child should be done"),
    }
    assert!(matches!(f.poll(), Poll::Ready(((), ()))));
}

#[test]
fn and_then_of_immediate_chains() {
    let mut f = and_then(immediate(2u32), |x| immediate(x + 3));
    assert!(matches!(f.poll(), Poll::Ready(5)));
}

#[test]
fn and_then_runs_continuation_once() {
    let calls = AtomicUsize::new(0);
    let mut f = and_then(Countdown::new(3), |_| {
        calls.fetch_add(1, Ordering::SeqCst);
        Countdown::new(2)
    });
    assert!(matches!(f.poll(), Poll::NotReady));
    assert!(matches!(f.poll(), Poll::NotReady));
    assert_eq!(calls.load(Ordering::SeqCst), 0);
    assert!(matches!(f.poll(), Poll::NotReady));
    assert_eq!(calls.load(Ordering::SeqCst), 1);
    assert!(matches!(f.poll(), Poll::Ready(())));
    assert_eq!(calls.load(Ordering::SeqCst), 1);
}

#[test]
fn countdown_counts_polls() {
    let mut c = Countdown::new(2);
    assert_eq!(c.polls(), 0);
    assert!(matches!(c.poll(), Poll::NotReady));
    assert!(matches!(c.poll(), Poll::Ready(())));
    assert_eq!(c.polls(), 2);
}

#[test]
fn block_on_returns_value() {
    let f = polled_futures::future::map(join(immediate(4u32), Countdown::new(3)), |(a, ())| a * 10);
    assert_eq!(block_on(f), 40);
}

#[test]
fn blocking_executor_runs_on_spawn() {
    let mut ex = BlockingExecutor::new();
    ex.spawn(Countdown::new(5));
    ex.spawn(Countdown::new(1));
    Executor::<Countdown>::wait(&mut ex);
}

#[test]
fn single_thread_executor_needs_at_most_max_passes() {
    let mut ex = SingleThreadExecutor::new();
    ex.spawn(Countdown::new(2));
    ex.spawn(Countdown::new(3));
    ex.spawn(Countdown::new(5));
    assert_eq!(ex.pending_len(), 3);
    let passes = ex.run_pending();
    assert_eq!(passes, 4);
    assert!(passes <= 5);
    assert_eq!(ex.pending_len(), 0);
}

#[test]
fn single_thread_spawn_drops_finished_future() {
    let mut ex = SingleThreadExecutor::new();
    ex.spawn(Countdown::new(1));
    assert_eq!(ex.pending_len(), 0);
    ex.spawn(Countdown::new(2));
    assert_eq!(ex.pending_len(), 1);
    ex.wait();
    assert_eq!(ex.pending_len(), 0);
}

#[test]
fn wait_with_nothing_pending_returns_at_once() {
    let mut ex: SingleThreadExecutor<Countdown> = SingleThreadExecutor::new();
    assert_eq!(ex.run_pending(), 0);
    ex.wait();
    assert_eq!(ex.pending_len(), 0);
    let mut b = BlockingExecutor::new();
    Executor::<Countdown>::wait(&mut b);
}

#[test]
fn worker_step_spawns_then_drains_on_shutdown() {
    let mut local = SingleThreadExecutor::new();
    assert!(!worker_step(&mut local, Some(Countdown::new(3))));
    assert!(!worker_step(&mut local, Some(Countdown::new(1))));
    assert_eq!(local.pending_len(), 1);
    assert!(worker_step(&mut local, None));
    assert_eq!(local.pending_len(), 0);
}

#[test]
fn and_then_chain_needs_sum_of_polls_minus_one() {
    let mut f = and_then(Countdown::new(3), |_| Countdown::new(2));
    let mut polls = 0;
    loop {
        polls += 1;
        if let Poll::Ready(()) = f.poll() {
            break;
        }
    }
    assert_eq!(polls, 3 + 2 - 1);
    assert!(matches!(f, polled_futures::future::AndThen::Done));
}

#[test]
fn and_then_moves_to_second_future() {
    let mut f = and_then(immediate(1u32), |_| Countdown::new(2));
    assert!(matches!(f.poll(), Poll::NotReady));
    match &f {
        polled_futures::future::AndThen::Second(g) => assert_eq!(g.polls(), 1),
        _ => panic!("the chain should have moved to its second future"),
    }
    assert!(matches!(f.poll(), Poll::Ready(())));
}
