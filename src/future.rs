//! Pollable computations and the combinators that build larger ones out of
//! smaller ones.
use std::marker::PhantomData;
use vstd::prelude::*;

verus! {

/// The outcome of one poll: the value, or "not yet".
#[derive(Debug)]
pub enum Poll<T> {
    Ready(T),
    NotReady,
}

/// A computation that advances each time it is polled.
///
/// A future is polled until it reports `Ready`, exactly once, and never after.
/// Four spec functions describe it:
/// - `live`: it has not produced its value yet and may be polled;
/// - `steps`: a bound on how many more polls can still report `NotReady`;
/// - `yields`: the values it may still produce;
/// - `step`: what one poll does, from this state to the state `next`, with
///   result `r`.
///
/// The provided definitions describe a future that no verified code may poll;
/// every future of this library overrides them.
pub trait Future: Send {
    type Item: Send;

    open spec fn live(&self) -> bool {
        false
    }

    open spec fn steps(&self) -> nat {
        0
    }

    open spec fn yields(&self, v: Self::Item) -> bool {
        true
    }

    open spec fn step(&self, next: &Self, r: Poll<Self::Item>) -> bool {
        true
    }

    /// Advances the computation by one `step`. A `Ready` result ends the
    /// future's life;
    /// a `NotReady` one keeps it live, spends one step, and can only narrow
    /// the values it may produce.
    fn poll(&mut self) -> (r: Poll<Self::Item>)
        requires
            old(self).live(),
        ensures
            old(self).step(final(self), r),
            match r {
                Poll::Ready(v) => !final(self).live() && old(self).yields(v),
                Poll::NotReady => {
                    &&& final(self).live()
                    &&& final(self).steps() < old(self).steps()
                    &&& forall|v: Self::Item| #[trigger]
                        final(self).yields(v) ==> old(self).yields(v)
                },
            },
    ;
}

/// A future that holds one value and hands it out on its first poll.
pub struct Immediate<T> {
    t: Option<T>,
}

impl<T> Immediate<T> {
    /// The value still held, if any.
    pub closed spec fn held(&self) -> Option<T> {
        self.t
    }
}

/// A future that is `Ready(t)` on its first poll.
pub fn immediate<T: Send>(t: T) -> (r: Immediate<T>)
    ensures
        r.live(),
        r.steps() == 0,
        r.held() == Some(t),
        forall|v: T| #[trigger] r.yields(v) <==> v == t,
{
    Immediate { t: Some(t) }
}

impl<T: Send> Future for Immediate<T> {
    type Item = T;

    open spec fn live(&self) -> bool {
        self.held() is Some
    }

    open spec fn steps(&self) -> nat {
        0
    }

    open spec fn yields(&self, v: T) -> bool {
        self.held() == Some(v)
    }

    open spec fn step(&self, next: &Self, r: Poll<T>) -> bool {
        r == Poll::Ready(self.held().unwrap()) && next.held() is None
    }

    fn poll(&mut self) -> (r: Poll<T>) {
        match self.t.take() {
            Some(v) => Poll::Ready(v),
            None => Poll::NotReady,
        }
    }
}


/// A future that applies a one-shot transform to the value of another.
pub struct MapFuture<Fut, Fun, T> {
    fut: Fut,
    fun: Option<Fun>,
    out: PhantomData<T>,
}

impl<Fut, Fun, T> MapFuture<Fut, Fun, T> {
    /// The future whose value is transformed.
    pub closed spec fn inner(&self) -> Fut {
        self.fut
    }

    /// The transform, until it is applied.
    pub closed spec fn transform(&self) -> Option<Fun> {
        self.fun
    }
}

/// A future that yields `fun` applied to the value of `fut`. The transform
/// runs once, on the poll where `fut` completes.
pub fn map<T, Fut, Fun>(fut: Fut, fun: Fun) -> (r: MapFuture<Fut, Fun, T>) where
    T: Send,
    Fut: Future,
    Fun: FnOnce(Fut::Item) -> T + Send,

    requires
        fut.live(),
        forall|x: Fut::Item| #[trigger] fut.yields(x) ==> fun.requires((x,)),
    ensures
        r.inner() == fut,
        r.transform() == Some(fun),
        r.live(),
        r.steps() == fut.steps(),
        forall|v: T| #[trigger]
            r.yields(v) <==> exists|x: Fut::Item| #[trigger]
                fut.yields(x) && fun.ensures((x,), v),
{
    MapFuture { fut, fun: Some(fun), out: PhantomData }
}

impl<T, Fut, Fun> Future for MapFuture<Fut, Fun, T> where
    T: Send,
    Fut: Future,
    Fun: FnOnce(Fut::Item) -> T + Send,
 {
    type Item = T;

    open spec fn live(&self) -> bool {
        &&& self.inner().live()
        &&& self.transform() is Some
        &&& forall|x: Fut::Item| #[trigger]
            self.inner().yields(x) ==> self.transform().unwrap().requires((x,))
    }

    open spec fn steps(&self) -> nat {
        self.inner().steps()
    }

    open spec fn yields(&self, v: T) -> bool {
        exists|x: Fut::Item| #[trigger]
            self.inner().yields(x) && self.transform().unwrap().ensures((x,), v)
    }

    /// The child is polled once. `NotReady` from it is passed on and the
    /// transform kept; `Ready(x)` from it gives `Ready` of the transform
    /// applied to `x`, and the transform is used up.
    open spec fn step(&self, next: &Self, r: Poll<T>) -> bool {
        exists|rc: Poll<Fut::Item>| #[trigger]
            self.inner().step(&next.inner(), rc) && match rc {
                Poll::NotReady => r is NotReady && next.transform() == self.transform(),
                Poll::Ready(x) => {
                    &&& r is Ready
                    &&& self.transform().unwrap().ensures((x,), r->Ready_0)
                    &&& next.transform() is None
                },
            }
    }

    fn poll(&mut self) -> (r: Poll<T>) {
        let ghost before = *self;
        let rc = self.fut.poll();
        let ghost rcg = rc;
        match rc {
            Poll::NotReady => {
                assert(before.inner().step(&self.inner(), rcg));
                Poll::NotReady
            },
            Poll::Ready(x) => {
                let f = self.fun.take().unwrap();
                let v = f(x);
                assert(before.inner().step(&self.inner(), rcg));
                Poll::Ready(v)
            },
        }
    }
}


/// The state of a join of two futures: which children are still running,
/// and the values of those that finished.
pub enum Join<F, G> where F: Future, G: Future {
    BothRunning(F, G),
    FirstDone(F::Item, G),
    SecondDone(F, G::Item),
    Done,
}

/// A future that yields the pair of the values of `f` and `g`.
pub fn join<F: Future, G: Future>(f: F, g: G) -> (r: Join<F, G>)
    requires
        f.live(),
        g.live(),
    ensures
        r == Join::BothRunning(f, g),
        r.live(),
        r.steps() == if f.steps() >= g.steps() { f.steps() } else { g.steps() },
        forall|v: (F::Item, G::Item)| #[trigger] r.yields(v) <==> f.yields(v.0) && g.yields(v.1),
{
    Join::BothRunning(f, g)
}

impl<F: Future, G: Future> Future for Join<F, G> {
    type Item = (F::Item, G::Item);

    open spec fn live(&self) -> bool {
        match self {
            Join::BothRunning(f, g) => f.live() && g.live(),
            Join::FirstDone(_, g) => g.live(),
            Join::SecondDone(f, _) => f.live(),
            Join::Done => false,
        }
    }

    open spec fn steps(&self) -> nat {
        match self {
            Join::BothRunning(f, g) => if f.steps() >= g.steps() { f.steps() } else { g.steps() },
            Join::FirstDone(_, g) => g.steps(),
            Join::SecondDone(f, _) => f.steps(),
            Join::Done => 0,
        }
    }

    open spec fn yields(&self, v: (F::Item, G::Item)) -> bool {
        match self {
            Join::BothRunning(f, g) => f.yields(v.0) && g.yields(v.1),
            Join::FirstDone(a, g) => v.0 == a && g.yields(v.1),
            Join::SecondDone(f, b) => f.yields(v.0) && v.1 == b,
            Join::Done => false,
        }
    }

    /// Both running: the first child is polled, then the second, once each,
    /// and the four outcomes lead to `Done` with the pair, `FirstDone`,
    /// `SecondDone`, or `BothRunning`. Once one child has finished, only the
    /// other is polled, and the join is `Ready` exactly when that poll is.
    open spec fn step(&self, next: &Self, r: Poll<(F::Item, G::Item)>) -> bool {
        match self {
            Join::BothRunning(f, g) => exists|f2: F, rf: Poll<F::Item>, g2: G, rg: Poll<G::Item>|
                #![trigger f.step(&f2, rf), g.step(&g2, rg)]
                {
                    &&& f.step(&f2, rf)
                    &&& g.step(&g2, rg)
                    &&& match (rf, rg) {
                        (Poll::Ready(a), Poll::Ready(b)) => r == Poll::Ready((a, b))
                            && *next == Join::<F, G>::Done,
                        (Poll::Ready(a), Poll::NotReady) => r is NotReady && *next
                            == Join::<F, G>::FirstDone(a, g2),
                        (Poll::NotReady, Poll::Ready(b)) => r is NotReady && *next
                            == Join::<F, G>::SecondDone(f2, b),
                        (Poll::NotReady, Poll::NotReady) => r is NotReady && *next
                            == Join::<F, G>::BothRunning(f2, g2),
                    }
                },
            Join::FirstDone(a, g) => exists|g2: G, rg: Poll<G::Item>| #[trigger]
                g.step(&g2, rg) && match rg {
                    Poll::Ready(b) => r == Poll::Ready((*a, b)) && *next == Join::<F, G>::Done,
                    Poll::NotReady => r is NotReady && *next == Join::<F, G>::FirstDone(*a, g2),
                },
            Join::SecondDone(f, b) => exists|f2: F, rf: Poll<F::Item>| #[trigger]
                f.step(&f2, rf) && match rf {
                    Poll::Ready(a) => r == Poll::Ready((a, *b)) && *next == Join::<F, G>::Done,
                    Poll::NotReady => r is NotReady && *next == Join::<F, G>::SecondDone(f2, *b),
                },
            Join::Done => false,
        }
    }

    fn poll(&mut self) -> (r: Poll<(F::Item, G::Item)>) {
        let mut this = Join::Done;
        std::mem::swap(self, &mut this);
        match this {
            Join::BothRunning(mut f, mut g) => {
                let ghost (f0, g0) = (f, g);
                let pf = f.poll();
                let pg = g.poll();
                let ghost (rf, rg) = (pf, pg);
                let res = match (pf, pg) {
                    (Poll::Ready(a), Poll::Ready(b)) => Poll::Ready((a, b)),
                    (Poll::Ready(a), Poll::NotReady) => {
                        *self = Join::FirstDone(a, g);
                        Poll::NotReady
                    },
                    (Poll::NotReady, Poll::Ready(b)) => {
                        *self = Join::SecondDone(f, b);
                        Poll::NotReady
                    },
                    (Poll::NotReady, Poll::NotReady) => {
                        *self = Join::BothRunning(f, g);
                        Poll::NotReady
                    },
                };
                assert(f0.step(&f, rf) && g0.step(&g, rg));
                res
            },
            Join::FirstDone(a, mut g) => {
                let ghost g0 = g;
                let pg = g.poll();
                let ghost rg = pg;
                let res = match pg {
                    Poll::Ready(b) => Poll::Ready((a, b)),
                    Poll::NotReady => {
                        *self = Join::FirstDone(a, g);
                        Poll::NotReady
                    },
                };
                assert(g0.step(&g, rg));
                res
            },
            Join::SecondDone(mut f, b) => {
                let ghost f0 = f;
                let pf = f.poll();
                let ghost rf = pf;
                let res = match pf {
                    Poll::Ready(a) => Poll::Ready((a, b)),
                    Poll::NotReady => {
                        *self = Join::SecondDone(f, b);
                        Poll::NotReady
                    },
                };
                assert(f0.step(&f, rf));
                res
            },
            Join::Done => Poll::NotReady,
        }
    }
}

/// The state of a sequential chain: the first future with the continuation
/// that builds the second from its value, then the second future.
pub enum AndThen<Fut1, Fut2, Fun> {
    First(Fut1, Fun),
    Second(Fut2),
    Done,
}

/// Every future that `fun` can build is live and needs at most `b` polls
/// that report `NotReady`.
pub open spec fn builds_within<A, Fut2: Future, Fun: FnOnce(A) -> Fut2>(fun: Fun, b: nat) -> bool {
    forall|x: A, g: Fut2| #[trigger] fun.ensures((x,), g) ==> g.live() && g.steps() <= b
}

/// A bound on the `NotReady` polls of every future that `fun` can build.
pub open spec fn build_bound<A, Fut2: Future, Fun: FnOnce(A) -> Fut2>(fun: Fun) -> nat {
    choose|b: nat| builds_within::<A, Fut2, Fun>(fun, b)
}

/// A future that runs `fut`, hands its value to `fun`, and then runs the
/// future that `fun` returns, yielding that future's value.
pub fn and_then<Fut1, Fut2, Fun>(fut: Fut1, fun: Fun) -> (r: AndThen<Fut1, Fut2, Fun>) where
    Fut1: Future,
    Fut2: Future,
    Fun: FnOnce(Fut1::Item) -> Fut2 + Send,

    requires
        fut.live(),
        forall|x: Fut1::Item| #[trigger] fut.yields(x) ==> fun.requires((x,)),
        exists|b: nat| builds_within::<Fut1::Item, Fut2, Fun>(fun, b),
    ensures
        r == AndThen::<Fut1, Fut2, Fun>::First(fut, fun),
        r.live(),
        r.steps() == fut.steps() + 1 + build_bound::<Fut1::Item, Fut2, Fun>(fun),
{
    proof {
        let b = choose|b: nat| builds_within::<Fut1::Item, Fut2, Fun>(fun, b);
        assert(builds_within::<Fut1::Item, Fut2, Fun>(fun, b));
    }
    let r = AndThen::First(fut, fun);
    assert(r.steps() == fut.steps() + 1 + build_bound::<Fut1::Item, Fut2, Fun>(fun));
    r
}

impl<Fut1, Fut2, Fun> Future for AndThen<Fut1, Fut2, Fun> where
    Fut1: Future,
    Fut2: Future,
    Fun: FnOnce(Fut1::Item) -> Fut2 + Send,
 {
    type Item = Fut2::Item;

    open spec fn live(&self) -> bool {
        match self {
            AndThen::First(f, fun) => {
                &&& f.live()
                &&& forall|x: Fut1::Item| #[trigger] f.yields(x) ==> fun.requires((x,))
                &&& exists|b: nat| builds_within::<Fut1::Item, Fut2, Fun>(*fun, b)
            },
            AndThen::Second(g) => g.live(),
            AndThen::Done => false,
        }
    }

    open spec fn steps(&self) -> nat {
        match self {
            AndThen::First(f, fun) => f.steps() + 1 + build_bound::<Fut1::Item, Fut2, Fun>(*fun),
            AndThen::Second(g) => g.steps(),
            AndThen::Done => 0,
        }
    }

    open spec fn yields(&self, v: Fut2::Item) -> bool {
        match self {
            AndThen::First(f, fun) => exists|x: Fut1::Item, g: Fut2|
                #![trigger f.yields(x), fun.ensures((x,), g)]
                f.yields(x) && fun.ensures((x,), g) && g.yields(v),
            AndThen::Second(g) => g.yields(v),
            AndThen::Done => false,
        }
    }

    /// In `First`, the first future is polled; `NotReady` from it keeps the
    /// state and the continuation. `Ready(x)` from it runs the continuation
    /// on `x` and polls the future it builds once, in the same call: `Ready`
    /// there ends the chain, `NotReady` leaves that future as `Second`. In
    /// `Second`, only that future is polled.
    open spec fn step(&self, next: &Self, r: Poll<Fut2::Item>) -> bool {
        match self {
            AndThen::First(f, fun) => exists|f2: Fut1, rf: Poll<Fut1::Item>| #[trigger]
                f.step(&f2, rf) && match rf {
                    Poll::NotReady => r is NotReady && *next == AndThen::<Fut1, Fut2, Fun>::First(
                        f2,
                        *fun,
                    ),
                    Poll::Ready(x) => exists|g: Fut2, g2: Fut2, rg: Poll<Fut2::Item>|
                        #![trigger fun.ensures((x,), g), g.step(&g2, rg)]
                        {
                            &&& fun.ensures((x,), g)
                            &&& g.step(&g2, rg)
                            &&& match rg {
                                Poll::Ready(v) => r == Poll::Ready(v) && *next == AndThen::<
                                    Fut1,
                                    Fut2,
                                    Fun,
                                >::Done,
                                Poll::NotReady => r is NotReady && *next == AndThen::<
                                    Fut1,
                                    Fut2,
                                    Fun,
                                >::Second(g2),
                            }
                        },
                },
            AndThen::Second(g) => exists|g2: Fut2, rg: Poll<Fut2::Item>| #[trigger]
                g.step(&g2, rg) && match rg {
                    Poll::Ready(v) => r == Poll::Ready(v) && *next == AndThen::<
                        Fut1,
                        Fut2,
                        Fun,
                    >::Done,
                    Poll::NotReady => r is NotReady && *next == AndThen::<
                        Fut1,
                        Fut2,
                        Fun,
                    >::Second(g2),
                },
            AndThen::Done => false,
        }
    }

    fn poll(&mut self) -> (r: Poll<Fut2::Item>) {
        let mut this = AndThen::Done;
        std::mem::swap(self, &mut this);
        match this {
            AndThen::First(mut f, fun) => {
                let ghost old_f = f;
                let pf = f.poll();
                let ghost rf = pf;
                match pf {
                    Poll::NotReady => {
                        assert(builds_within::<Fut1::Item, Fut2, Fun>(
                            fun,
                            build_bound::<Fut1::Item, Fut2, Fun>(fun),
                        ));
                        assert forall|y: Fut1::Item| #[trigger] f.yields(y) implies fun.requires(
                            (y,),
                        ) by {
                            assert(old_f.yields(y));
                        }
                        assert(f.live());
                        assert(old_f.step(&f, rf));
                        *self = AndThen::First(f, fun);
                        assert(self->First_0 == f && self->First_1 == fun);
                        Poll::NotReady
                    },
                    Poll::Ready(x) => {
                        let ghost b = build_bound::<Fut1::Item, Fut2, Fun>(fun);
                        let ghost xg = x;
                        let mut g = fun(x);
                        let ghost old_g = g;
                        assert(g.live() && g.steps() <= b);
                        let pg = g.poll();
                        let ghost rg = pg;
                        assert(old_f.step(&f, rf));
                        assert(fun.ensures((xg,), old_g) && old_g.step(&g, rg));
                        match pg {
                            Poll::Ready(v) => {
                                assert(old_f.yields(x) && fun.ensures((x,), old_g) && old_g.yields(v));
                                assert(old(self).yields(v));
                                Poll::Ready(v)
                            },
                            Poll::NotReady => {
                                assert forall|v: Fut2::Item| #[trigger] g.yields(v) implies old_f.yields(x)
                                    && fun.ensures((x,), old_g) && old_g.yields(v) by {}
                                *self = AndThen::Second(g);
                                Poll::NotReady
                            },
                        }
                    },
                }
            },
            AndThen::Second(mut g) => {
                let ghost old_g = g;
                let pg = g.poll();
                let ghost rg = pg;
                assert(old_g.step(&g, rg));
                match pg {
                    Poll::Ready(v) => {
                        assert(old(self).yields(v));
                        Poll::Ready(v)
                    },
                    Poll::NotReady => {
                        *self = AndThen::Second(g);
                        Poll::NotReady
                    },
                }
            },
            AndThen::Done => Poll::NotReady,
        }
    }
}

/// A leaf future that completes on a fixed poll and counts how often it was
/// polled.
pub struct Countdown {
    left: u64,
    polls: u64,
}

impl Countdown {
    /// Polls still needed before it completes.
    pub closed spec fn remaining(&self) -> nat {
        self.left as nat
    }

    /// Polls made so far.
    pub closed spec fn polled(&self) -> nat {
        self.polls as nat
    }

    /// A future that is `Ready` on its `k`-th poll.
    pub fn new(k: u64) -> (r: Countdown)
        requires
            k >= 1,
        ensures
            r.remaining() == k,
            r.polled() == 0,
            r.live(),
            r.steps() == k - 1,
    {
        Countdown { left: k, polls: 0 }
    }

    /// How often it has been polled.
    pub fn polls(&self) -> (n: u64)
        ensures
            n == self.polled(),
    {
        self.polls
    }
}

impl Future for Countdown {
    type Item = ();

    open spec fn live(&self) -> bool {
        self.remaining() >= 1 && self.polled() + self.remaining() <= u64::MAX
    }

    open spec fn steps(&self) -> nat {
        (self.remaining() - 1) as nat
    }

    open spec fn yields(&self, v: ()) -> bool {
        true
    }

    /// One poll more, one fewer remaining; `Ready` on the last one.
    open spec fn step(&self, next: &Self, r: Poll<()>) -> bool {
        &&& next.polled() == self.polled() + 1
        &&& next.remaining() == self.remaining() - 1
        &&& (r is Ready <==> self.remaining() == 1)
    }

    fn poll(&mut self) -> (r: Poll<()>) {
        self.polls = self.polls + 1;
        self.left = self.left - 1;
        if self.left == 0 {
            Poll::Ready(())
        } else {
            Poll::NotReady
        }
    }
}


/// Mapping `fun` over an immediate `x` gives a future that cannot report
/// `NotReady` (its step bound is zero, so its first poll is `Ready`), and
/// the value it yields is one that `fun` returns for `x`.
pub proof fn lemma_map_immediate<T: Send, U: Send, Fun: FnOnce(T) -> U + Send>(
    m: MapFuture<Immediate<T>, Fun, U>,
    x: T,
    fun: Fun,
)
    requires
        m.inner().held() == Some(x),
        m.transform() == Some(fun),
        fun.requires((x,)),
    ensures
        m.live(),
        m.steps() == 0,
        forall|v: U| #[trigger] m.yields(v) <==> fun.ensures((x,), v),
{
    assert forall|v: U| #[trigger] m.yields(v) <==> fun.ensures((x,), v) by {
        if fun.ensures((x,), v) {
            assert(m.inner().yields(x));
        }
    }
}

/// Joining two immediates `a` and `b` gives a future that cannot report
/// `NotReady`, and whose only value is the pair `(a, b)`.
pub proof fn lemma_join_immediates<A: Send, B: Send>(fa: Immediate<A>, fb: Immediate<B>, a: A, b: B)
    requires
        fa.held() == Some(a),
        fb.held() == Some(b),
    ensures
        Join::BothRunning(fa, fb).live(),
        Join::BothRunning(fa, fb).steps() == 0,
        forall|v: (A, B)| #[trigger] Join::BothRunning(fa, fb).yields(v) <==> v == (a, b),
{
}

/// Chaining a continuation that builds immediates onto an immediate `x`:
/// the first poll is `Ready`, with the value of the immediate that the
/// continuation builds from `x`, and ends the chain.
pub proof fn lemma_and_then_immediates<T: Send, U: Send, Fun: FnOnce(T) -> Immediate<U> + Send>(
    a: Immediate<T>,
    fun: Fun,
    x: T,
    next: AndThen<Immediate<T>, Immediate<U>, Fun>,
    r: Poll<U>,
)
    requires
        a.held() == Some(x),
        forall|y: T, g: Immediate<U>| #[trigger] fun.ensures((y,), g) ==> g.held() is Some,
        AndThen::<Immediate<T>, Immediate<U>, Fun>::First(a, fun).step(&next, r),
    ensures
        r is Ready,
        next == AndThen::<Immediate<T>, Immediate<U>, Fun>::Done,
        exists|g: Immediate<U>| #[trigger]
            fun.ensures((x,), g) && r == Poll::Ready(g.held().unwrap()),
{
}

/// One poll of a join of two countdowns with `ka` and `kb` polls left: it
/// is `Ready` exactly when both had one left; otherwise each child that had
/// one left is done (its value kept), and each other one has one poll fewer
/// left and one more made.
pub proof fn lemma_join_countdowns_step(
    a: Countdown,
    b: Countdown,
    next: Join<Countdown, Countdown>,
    r: Poll<((), ())>,
)
    requires
        a.remaining() >= 1,
        b.remaining() >= 1,
        Join::BothRunning(a, b).step(&next, r),
    ensures
        r is Ready <==> a.remaining() == 1 && b.remaining() == 1,
        a.remaining() == 1 && b.remaining() > 1 ==> (next matches Join::FirstDone(_, b2) && b2.remaining()
            == b.remaining() - 1 && b2.polled() == b.polled() + 1),
        a.remaining() > 1 && b.remaining() == 1 ==> (next matches Join::SecondDone(a2, _) && a2.remaining()
            == a.remaining() - 1 && a2.polled() == a.polled() + 1),
        a.remaining() > 1 && b.remaining() > 1 ==> (next matches Join::BothRunning(a2, b2) && a2.remaining()
            == a.remaining() - 1 && a2.polled() == a.polled() + 1 && b2.remaining()
            == b.remaining() - 1 && b2.polled() == b.polled() + 1),
{
}

/// One poll of a join whose first child is done and whose second is a
/// countdown: only the countdown is polled, and the join is `Ready`, with
/// the kept value first, exactly when the countdown had one poll left.
pub proof fn lemma_join_first_done_step<A: Send>(
    v: A,
    b: Countdown,
    next: Join<Immediate<A>, Countdown>,
    r: Poll<(A, ())>,
)
    requires
        Join::<Immediate<A>, Countdown>::FirstDone(v, b).step(&next, r),
    ensures
        r is Ready <==> b.remaining() == 1,
        r is Ready ==> r == Poll::Ready((v, ())),
        r is NotReady ==> (next matches Join::FirstDone(v2, b2) && v2 == v && b2.remaining()
            == b.remaining() - 1 && b2.polled() == b.polled() + 1),
{
}

/// One poll of a map over a countdown: `NotReady`, with the transform kept,
/// while the countdown has more than one poll left; on its last poll,
/// `Ready` with a value the transform returns for `()`.
pub proof fn lemma_map_countdown_step<U: Send, Fun: FnOnce(()) -> U + Send>(
    m: MapFuture<Countdown, Fun, U>,
    next: MapFuture<Countdown, Fun, U>,
    r: Poll<U>,
)
    requires
        m.inner().remaining() >= 1,
        m.step(&next, r),
    ensures
        r is Ready <==> m.inner().remaining() == 1,
        r is NotReady ==> next.transform() == m.transform(),
        r matches Poll::Ready(u) ==> m.transform().unwrap().ensures(((),), u),
        next.inner().polled() == m.inner().polled() + 1,
{
}

/// The polls a join of countdowns still needs: those of the slower child
/// while both run, else those of the child still running.
pub open spec fn join_polls_left(j: Join<Countdown, Countdown>) -> nat {
    match j {
        Join::BothRunning(a, b) => if a.remaining() >= b.remaining() {
            a.remaining()
        } else {
            b.remaining()
        },
        Join::FirstDone(_, b) => b.remaining(),
        Join::SecondDone(a, _) => a.remaining(),
        Join::Done => 0,
    }
}

/// Every countdown still held by the join has a poll left.
pub open spec fn join_countdowns_running(j: Join<Countdown, Countdown>) -> bool {
    match j {
        Join::BothRunning(a, b) => a.remaining() >= 1 && b.remaining() >= 1,
        Join::FirstDone(_, b) => b.remaining() >= 1,
        Join::SecondDone(a, _) => a.remaining() >= 1,
        Join::Done => false,
    }
}

proof fn lemma_join_countdowns_one_poll(
    j: Join<Countdown, Countdown>,
    next: Join<Countdown, Countdown>,
    r: Poll<((), ())>,
)
    requires
        join_countdowns_running(j),
        j.step(&next, r),
    ensures
        r is Ready <==> join_polls_left(j) == 1,
        r is NotReady ==> join_countdowns_running(next) && join_polls_left(next) == join_polls_left(j)
            - 1,
{
}

/// Polling a join of countdowns (`states[i]` steps to `states[i + 1]` with
/// result `results[i]`, and polling stops at the first `Ready`): the poll
/// number `join_polls_left` of the start, the slower child's count, is the
/// one that returns `Ready`, and no poll goes beyond it.
pub proof fn lemma_join_countdowns_polls(
    states: Seq<Join<Countdown, Countdown>>,
    results: Seq<Poll<((), ())>>,
)
    requires
        states.len() == results.len() + 1,
        join_countdowns_running(states[0]),
        forall|i: int|
            0 <= i < results.len() ==> #[trigger] states[i].step(&states[i + 1], results[i]),
        forall|i: int| 0 <= i < results.len() - 1 ==> #[trigger] results[i] is NotReady,
    ensures
        results.len() <= join_polls_left(states[0]),
        forall|i: int|
            0 <= i < results.len() ==> (#[trigger] results[i] is Ready <==> i + 1
                == join_polls_left(states[0])),
{
    if results.len() > 0 {
        lemma_join_countdowns_prefix(states, results, results.len() - 1);
        assert forall|i: int| 0 <= i < results.len() implies (#[trigger] results[i] is Ready
            <==> i + 1 == join_polls_left(states[0])) by {
            lemma_join_countdowns_prefix(states, results, i);
        }
    }
}

proof fn lemma_join_countdowns_prefix(
    states: Seq<Join<Countdown, Countdown>>,
    results: Seq<Poll<((), ())>>,
    k: int,
)
    requires
        states.len() == results.len() + 1,
        join_countdowns_running(states[0]),
        forall|i: int|
            0 <= i < results.len() ==> #[trigger] states[i].step(&states[i + 1], results[i]),
        forall|i: int| 0 <= i < results.len() - 1 ==> #[trigger] results[i] is NotReady,
        0 <= k < results.len(),
    ensures
        join_countdowns_running(states[k]),
        join_polls_left(states[k]) == join_polls_left(states[0]) - k,
        join_polls_left(states[k]) >= 1,
        results[k] is Ready <==> join_polls_left(states[k]) == 1,
    decreases k,
{
    if k > 0 {
        lemma_join_countdowns_prefix(states, results, k - 1);
        assert(results[k - 1] is NotReady);
        assert(states[k - 1].step(&states[(k - 1) + 1], results[k - 1]));
        lemma_join_countdowns_one_poll(states[k - 1], states[k], results[k - 1]);
    }
    assert(states[k].step(&states[k + 1], results[k]));
    lemma_join_countdowns_one_poll(states[k], states[k + 1], results[k]);
}

/// The continuation builds countdowns that need `k` polls each.
pub open spec fn builds_countdowns<Fun: FnOnce(()) -> Countdown>(fun: Fun, k: nat) -> bool {
    forall|x: (), g: Countdown| #[trigger] fun.ensures((x,), g) ==> g.remaining() == k
}

/// The polls a chain of countdowns still needs, when the continuation
/// builds countdowns of `k` polls: those of the first, then `k` more, less
/// the one poll they share.
pub open spec fn chain_polls_left<Fun>(c: AndThen<Countdown, Countdown, Fun>, k: nat) -> nat {
    match c {
        AndThen::First(a, _) => (a.remaining() + k - 1) as nat,
        AndThen::Second(g) => g.remaining(),
        AndThen::Done => 0,
    }
}

/// Every countdown still held by the chain has a poll left.
pub open spec fn chain_running<Fun: FnOnce(()) -> Countdown>(
    c: AndThen<Countdown, Countdown, Fun>,
    k: nat,
) -> bool {
    match c {
        AndThen::First(a, fun) => a.remaining() >= 1 && k >= 1 && builds_countdowns(fun, k),
        AndThen::Second(g) => g.remaining() >= 1,
        AndThen::Done => false,
    }
}

proof fn lemma_chain_one_poll<Fun: FnOnce(()) -> Countdown + Send>(
    c: AndThen<Countdown, Countdown, Fun>,
    next: AndThen<Countdown, Countdown, Fun>,
    r: Poll<()>,
    k: nat,
)
    requires
        chain_running(c, k),
        c.step(&next, r),
    ensures
        r is Ready <==> chain_polls_left(c, k) == 1,
        r is NotReady ==> chain_running(next, k) && chain_polls_left(next, k) == chain_polls_left(
            c,
            k,
        ) - 1,
{
}

/// Polling a chain `and_then(a, fun)` of countdowns, where `fun` builds
/// countdowns of `k` polls (`states[i]` steps to `states[i + 1]` with result
/// `results[i]`, polling stops at the first `Ready`): the poll numbered
/// `a.remaining() + k - 1` returns `Ready`, and no poll goes beyond it.
pub proof fn lemma_chain_countdowns_polls<Fun: FnOnce(()) -> Countdown + Send>(
    states: Seq<AndThen<Countdown, Countdown, Fun>>,
    results: Seq<Poll<()>>,
    k: nat,
)
    requires
        states.len() == results.len() + 1,
        chain_running(states[0], k),
        forall|i: int|
            0 <= i < results.len() ==> #[trigger] states[i].step(&states[i + 1], results[i]),
        forall|i: int| 0 <= i < results.len() - 1 ==> #[trigger] results[i] is NotReady,
    ensures
        results.len() <= chain_polls_left(states[0], k),
        forall|i: int|
            0 <= i < results.len() ==> (#[trigger] results[i] is Ready <==> i + 1
                == chain_polls_left(states[0], k)),
{
    if results.len() > 0 {
        lemma_chain_prefix(states, results, k, results.len() - 1);
        assert forall|i: int| 0 <= i < results.len() implies (#[trigger] results[i] is Ready
            <==> i + 1 == chain_polls_left(states[0], k)) by {
            lemma_chain_prefix(states, results, k, i);
        }
    }
}

proof fn lemma_chain_prefix<Fun: FnOnce(()) -> Countdown + Send>(
    states: Seq<AndThen<Countdown, Countdown, Fun>>,
    results: Seq<Poll<()>>,
    k: nat,
    n: int,
)
    requires
        states.len() == results.len() + 1,
        chain_running(states[0], k),
        forall|i: int|
            0 <= i < results.len() ==> #[trigger] states[i].step(&states[i + 1], results[i]),
        forall|i: int| 0 <= i < results.len() - 1 ==> #[trigger] results[i] is NotReady,
        0 <= n < results.len(),
    ensures
        chain_running(states[n], k),
        chain_polls_left(states[n], k) == chain_polls_left(states[0], k) - n,
        chain_polls_left(states[n], k) >= 1,
        results[n] is Ready <==> chain_polls_left(states[n], k) == 1,
    decreases n,
{
    if n > 0 {
        lemma_chain_prefix(states, results, k, n - 1);
        assert(results[n - 1] is NotReady);
        assert(states[n - 1].step(&states[(n - 1) + 1], results[n - 1]));
        lemma_chain_one_poll(states[n - 1], states[n], results[n - 1], k);
    }
    assert(states[n].step(&states[n + 1], results[n]));
    lemma_chain_one_poll(states[n], states[n + 1], results[n], k);
}

/// `trail` is a run of polls of `trail[0]` that all answered `NotReady`:
/// each state steps to the next one with `NotReady`.
pub open spec fn not_ready_run<F: Future>(trail: Seq<F>) -> bool {
    &&& trail.len() >= 1
    &&& forall|i: int|
        0 <= i < trail.len() - 1 ==> #[trigger] trail[i].step(&trail[i + 1], Poll::NotReady)
}

/// `run` is the whole life of `run[0]` under polling: every poll answered
/// `NotReady` but the last, which answered `Ready(v)`. It took
/// `run.len() - 1` polls.
pub open spec fn completed_run<F: Future>(run: Seq<F>, v: F::Item) -> bool {
    &&& run.len() >= 2
    &&& not_ready_run(run.drop_last())
    &&& run[run.len() - 2].step(&run[run.len() - 1], Poll::Ready(v))
}

proof fn lemma_countdown_trail(trail: Seq<Countdown>, i: int)
    requires
        not_ready_run(trail),
        0 <= i < trail.len(),
    ensures
        trail[i].remaining() == trail[0].remaining() - i,
        trail[i].polled() == trail[0].polled() + i,
        i < trail.len() - 1 ==> trail[i].remaining() != 1,
    decreases i,
{
    if i > 0 {
        lemma_countdown_trail(trail, i - 1);
        assert(trail[i - 1].step(&trail[(i - 1) + 1], Poll::NotReady));
    }
    if i < trail.len() - 1 {
        assert(trail[i].step(&trail[i + 1], Poll::NotReady));
    }
}

/// A countdown of `k` polls, polled until `Ready`, is polled exactly `k`
/// times, and its last state has counted each of them.
pub proof fn lemma_countdown_run(run: Seq<Countdown>)
    requires
        completed_run(run, ()),
        run[0].remaining() >= 1,
    ensures
        run.len() == run[0].remaining() + 1,
        run.last().polled() == run[0].polled() + run[0].remaining(),
        run.last().remaining() == 0,
{
    let n = run.len() - 2;
    let t = run.drop_last();
    assert forall|i: int| 0 <= i < t.len() - 1 implies #[trigger] t[i].step(&t[i + 1], Poll::NotReady) by {}
    lemma_countdown_trail(t, n);
    assert(t[n] == run[n]);
    assert(t[0] == run[0]);
    assert(run[n].step(&run[n + 1], Poll::Ready(())));
}

} // verus!
