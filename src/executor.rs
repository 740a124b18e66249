//! Executors: drivers that poll futures until they complete.
use vstd::multiset::Multiset;
use vstd::prelude::*;

use crate::future::{completed_run, not_ready_run, Future, Poll};

verus! {

/// A driver that accepts futures and runs them to completion.
///
/// `inv` is the executor's well-formedness, `outstanding` counts the
/// accepted futures that have not completed yet, and `finished` records, in
/// the order they completed, the last state of each accepted future that
/// has completed. Every future accepted is either outstanding or finished.
///
/// The provided definitions describe an executor that has accepted nothing,
/// which no verified `spawn` can keep; every executor of this library
/// overrides them.
pub trait Executor<F: Future<Item = ()>> {
    open spec fn inv(&self) -> bool {
        true
    }

    open spec fn outstanding(&self) -> nat {
        0
    }

    open spec fn finished(&self) -> Seq<F> {
        Seq::empty()
    }

    /// Takes ownership of `f` and schedules it: afterwards it is outstanding
    /// or has finished.
    fn spawn(&mut self, f: F)
        requires
            old(self).inv(),
            f.live(),
        ensures
            final(self).inv(),
            old(self).finished().len() <= final(self).finished().len(),
            final(self).finished().subrange(0, old(self).finished().len() as int)
                == old(self).finished(),
            forall|i: int|
                old(self).finished().len() <= i < final(self).finished().len()
                    ==> !(#[trigger] final(self).finished()[i]).live(),
            final(self).outstanding() + final(self).finished().len() == old(self).outstanding()
                + old(self).finished().len() + 1,
    ;

    /// Returns once every future accepted so far has finished.
    fn wait(&mut self)
        requires
            old(self).inv(),
        ensures
            final(self).inv(),
            final(self).outstanding() == 0,
            final(self).finished().len() == old(self).finished().len() + old(self).outstanding(),
            final(self).finished().subrange(0, old(self).finished().len() as int)
                == old(self).finished(),
            forall|i: int|
                old(self).finished().len() <= i < final(self).finished().len()
                    ==> !(#[trigger] final(self).finished()[i]).live(),
    ;
}

/// Polls `fut` until it completes; returns its value and the run of states
/// it went through, from `fut` to its last state.
fn drive<F: Future>(fut: F) -> (res: (F::Item, Ghost<Seq<F>>))
    requires
        fut.live(),
    ensures
        fut.yields(res.0),
        res.1@[0] == fut,
        completed_run(res.1@, res.0),
        !res.1@.last().live(),
{
    let mut f = fut;
    let ghost mut trail: Seq<F> = seq![fut];
    loop
        invariant
            f.live(),
            forall|v: F::Item| #[trigger] f.yields(v) ==> fut.yields(v),
            not_ready_run(trail),
            trail[0] == fut,
            trail.last() == f,
        decreases f.steps(),
    {
        let ghost cur = f;
        let ghost t0 = trail;
        let r = f.poll();
        let ghost rg = r;
        proof {
            trail = trail.push(f);
            assert(trail.drop_last() =~= t0);
            assert(trail[trail.len() - 2] == cur);
        }
        match r {
            Poll::Ready(v) => {
                assert(cur.yields(v));
                assert(rg == Poll::Ready(v));
                return (v, Ghost(trail));
            },
            Poll::NotReady => {
                assert forall|i: int| 0 <= i < trail.len() - 1 implies #[trigger] trail[i].step(
                    &trail[i + 1],
                    Poll::NotReady,
                ) by {
                    if i < t0.len() - 1 {
                        assert(trail[i] == t0[i] && trail[i + 1] == t0[i + 1]);
                    }
                }
            },
        }
    }
}

/// Polls `f` until it completes, in the caller's thread, and returns its
/// value.
pub fn block_on<F: Future>(fut: F) -> (r: F::Item)
    requires
        fut.live(),
    ensures
        fut.yields(r),
{
    let (v, _run) = drive(fut);
    v
}

/// An executor that runs each future to completion as it is spawned.
pub struct BlockingExecutor<F> {
    done: Ghost<Seq<F>>,
    history: Ghost<Seq<Seq<F>>>,
}

impl<F: Future<Item = ()>> BlockingExecutor<F> {
    /// For each finished future, in order, its whole run of states from the
    /// future spawned to its last state.
    pub closed spec fn runs(&self) -> Seq<Seq<F>> {
        self.history@
    }

    pub fn new() -> (r: BlockingExecutor<F>)
        ensures
            r.finished() == Seq::<F>::empty(),
            r.runs() == Seq::<Seq<F>>::empty(),
    {
        BlockingExecutor { done: Ghost(Seq::empty()), history: Ghost(Seq::empty()) }
    }
}

impl<F: Future<Item = ()>> Executor<F> for BlockingExecutor<F> {
    closed spec fn finished(&self) -> Seq<F> {
        self.done@
    }

    /// Busy-polls `f` until it completes before returning: the run from `f`
    /// to `Ready(())` is the new last entry of `runs`, and its last state the
    /// new last entry of `finished`.
    fn spawn(&mut self, f: F)
        ensures
            final(self).finished().drop_last() == old(self).finished(),
            !final(self).finished().last().live(),
            final(self).runs().drop_last() == old(self).runs(),
            final(self).runs().len() == old(self).runs().len() + 1,
            final(self).runs().last()[0] == f,
            completed_run(final(self).runs().last(), ()),
            final(self).runs().last().last() == final(self).finished().last(),
    {
        let (u, run) = drive(f);
        assert(u == ());
        self.done = Ghost(self.done@.push(run@.last()));
        self.history = Ghost(self.history@.push(run@));
        assert(self.done@.drop_last() =~= old(self).done@);
        assert(self.history@.drop_last() =~= old(self).history@);
        assert(self.done@.subrange(0, old(self).done@.len() as int) =~= old(self).done@);
    }

    /// Nothing is ever outstanding.
    fn wait(&mut self) {
        assert(self.done@.subrange(0, self.done@.len() as int) =~= self.done@);
    }
}

/// A bound on the full passes that drive every future of `s` to completion:
/// the largest `steps() + 1` among them (zero when `s` is empty).
pub open spec fn passes_needed<F: Future>(s: Seq<F>) -> nat
    decreases s.len(),
{
    if s.len() == 0 {
        0
    } else {
        let rest = passes_needed(s.drop_last());
        let last = s.last().steps() + 1;
        if last >= rest {
            last
        } else {
            rest
        }
    }
}

proof fn lemma_passes_needed_bounds<F: Future>(s: Seq<F>)
    ensures
        forall|i: int| 0 <= i < s.len() ==> #[trigger] s[i].steps() + 1 <= passes_needed(s),
    decreases s.len(),
{
    if s.len() > 0 {
        lemma_passes_needed_bounds(s.drop_last());
        assert forall|i: int| 0 <= i < s.len() implies #[trigger] s[i].steps() + 1
            <= passes_needed(s) by {
            if i < s.len() - 1 {
                assert(s.drop_last()[i] == s[i]);
            }
        }
    }
}

/// The future each run starts from.
pub open spec fn origins<F>(runs: Seq<Seq<F>>) -> Seq<F> {
    runs.map_values(|t: Seq<F>| t[0])
}

/// An executor that keeps unfinished futures and polls them round-robin, on
/// the thread that calls `wait`.
pub struct SingleThreadExecutor<F> {
    futures: Vec<F>,
    done: Ghost<Seq<F>>,
    passes: Ghost<nat>,
    paths: Ghost<Seq<Seq<F>>>,
    history: Ghost<Seq<Seq<F>>>,
}

impl<F: Future<Item = ()>> SingleThreadExecutor<F> {
    /// The futures accepted and not yet completed, in the order of spawning.
    pub closed spec fn pending(&self) -> Seq<F> {
        self.futures@
    }

    /// For each pending future, the run of states from the future spawned to
    /// its current state; every poll so far answered `NotReady`.
    pub closed spec fn trails(&self) -> Seq<Seq<F>> {
        self.paths@
    }

    /// For each finished future, in order of completion, its whole run of
    /// states from the future spawned to its last state.
    pub closed spec fn runs(&self) -> Seq<Seq<F>> {
        self.history@
    }

    /// The number of full passes made by the last drain of the pending set.
    pub closed spec fn last_passes(&self) -> nat {
        self.passes@
    }

    pub fn new() -> (r: SingleThreadExecutor<F>)
        ensures
            r.pending() == Seq::<F>::empty(),
            r.finished() == Seq::<F>::empty(),
            r.trails() == Seq::<Seq<F>>::empty(),
            r.runs() == Seq::<Seq<F>>::empty(),
            r.outstanding() == 0,
            r.inv(),
    {
        SingleThreadExecutor {
            futures: Vec::new(),
            done: Ghost(Seq::empty()),
            passes: Ghost(0),
            paths: Ghost(Seq::empty()),
            history: Ghost(Seq::empty()),
        }
    }

    /// What the executor's well-formedness says of its records: each
    /// pending future is live and is the end of its trail, whose polls all
    /// answered `NotReady`; each finished state is the end of a completed run.
    pub proof fn lemma_records(&self)
        requires
            self.inv(),
        ensures
            self.outstanding() == self.pending().len(),
            self.trails().len() == self.pending().len(),
            self.runs().len() == self.finished().len(),
            forall|i: int|
                0 <= i < self.pending().len() ==> #[trigger] self.pending()[i].live()
                    && not_ready_run(self.trails()[i]) && self.trails()[i].last()
                    == self.pending()[i],
            forall|i: int|
                0 <= i < self.runs().len() ==> completed_run(#[trigger] self.runs()[i], ())
                    && self.runs()[i].last() == self.finished()[i],
    {
    }

    /// Number of futures still pending.
    pub fn pending_len(&self) -> (n: usize)
        ensures
            n == self.pending().len(),
    {
        self.futures.len()
    }

    /// Polls the pending futures in passes, in order, moving each one to
    /// `finished` as it completes, until none is left. Each pending future's
    /// trail is completed into a run: the new runs start from exactly the
    /// futures the trails started from. Returns the number of passes made
    /// (saturating at `u64::MAX`), which is never more than `passes_needed`
    /// of the futures pending at the start.
    pub fn run_pending(&mut self) -> (passes: u64)
        requires
            old(self).inv(),
        ensures
            final(self).inv(),
            final(self).pending().len() == 0,
            final(self).outstanding() == 0,
            final(self).finished().len() == old(self).finished().len() + old(self).pending().len(),
            final(self).finished().subrange(0, old(self).finished().len() as int)
                == old(self).finished(),
            final(self).runs().subrange(0, old(self).runs().len() as int) == old(self).runs(),
            origins(
                final(self).runs().subrange(
                    old(self).runs().len() as int,
                    final(self).runs().len() as int,
                ),
            ).to_multiset() == origins(old(self).trails()).to_multiset(),
            passes <= final(self).last_passes(),
            final(self).last_passes() <= passes_needed(old(self).pending()),
            old(self).pending().len() == 0 ==> passes == 0,
    {
        broadcast use vstd::multiset::group_multiset_axioms;

        let ghost m = passes_needed(self.futures@);
        let ghost fin0 = self.done@;
        let ghost h0 = self.history@;
        let ghost o0 = origins(self.paths@).to_multiset();
        let ghost total = self.done@.len() + self.futures@.len();
        proof {
            lemma_passes_needed_bounds(self.futures@);
            assert forall|i: int| 0 <= i < self.futures@.len() implies #[trigger] self.futures@[
                i
            ].live() && self.futures@[i].steps() + 1 + 0 <= m by {
                assert(self.futures@[i].live());
                assert(self.futures@[i].steps() + 1 <= m);
            }
            assert(self.history@.subrange(h0.len() as int, self.history@.len() as int)
                =~= Seq::<Seq<F>>::empty());
            assert(origins(Seq::<Seq<F>>::empty()) =~= Seq::<F>::empty());
            lemma_empty_multiset(origins(Seq::<Seq<F>>::empty()));
            assert(self.history@.subrange(0, h0.len() as int) =~= h0);
        }
        let mut passes: u64 = 0;
        self.passes = Ghost(0);
        while self.futures.len() > 0
            invariant
                self.inv(),
                forall|i: int|
                    0 <= i < self.futures@.len() ==> #[trigger] self.futures@[i].steps() + 1
                        + self.passes@ <= m,
                fin0.len() <= self.done@.len(),
                self.done@.subrange(0, fin0.len() as int) == fin0,
                self.done@.len() + self.futures@.len() == total,
                h0.len() <= self.history@.len(),
                self.history@.subrange(0, h0.len() as int) == h0,
                origins(self.history@.subrange(h0.len() as int, self.history@.len() as int)).to_multiset().add(
                    origins(self.paths@).to_multiset(),
                ) == o0,
                passes <= self.passes@,
                self.passes@ <= m,
                old(self).pending().len() == 0 ==> m == 0,
            decreases m - self.passes@,
        {
            assert(self.futures@[0].steps() + 1 + self.passes@ <= m);
            let mut rest: Vec<F> = Vec::new();
            let ghost mut rest_paths: Seq<Seq<F>> = Seq::empty();
            let ghost p0 = self.passes@;
            proof {
                assert(origins(rest_paths) =~= Seq::<F>::empty());
                lemma_empty_multiset(origins(rest_paths));
            }
            while self.futures.len() > 0
                invariant
                    self.passes@ == p0,
                    self.passes@ < m,
                    self.inv(),
                    forall|i: int|
                        0 <= i < self.futures@.len() ==> #[trigger] self.futures@[i].steps() + 1
                            + self.passes@ <= m,
                    forall|i: int|
                        0 <= i < rest@.len() ==> #[trigger] rest@[i].live() && rest@[i].steps()
                            + 1 + self.passes@ + 1 <= m,
                    rest_paths.len() == rest@.len(),
                    forall|i: int|
                        0 <= i < rest_paths.len() ==> not_ready_run(#[trigger] rest_paths[i])
                            && rest_paths[i].last() == rest@[i],
                    fin0.len() <= self.done@.len(),
                    self.done@.subrange(0, fin0.len() as int) == fin0,
                    self.done@.len() + self.futures@.len() + rest@.len() == total,
                    h0.len() <= self.history@.len(),
                    self.history@.subrange(0, h0.len() as int) == h0,
                    origins(self.history@.subrange(h0.len() as int, self.history@.len() as int)).to_multiset().add(
                        origins(self.paths@).to_multiset(),
                    ).add(origins(rest_paths).to_multiset()) == o0,
                decreases self.futures.len(),
            {
                let ghost before = self.futures@;
                let ghost paths_before = self.paths@;
                let ghost rest_before = rest@;
                let ghost rest_paths_before = rest_paths;
                let ghost done_before = self.done@;
                let ghost hist_before = self.history@;
                let ghost trail = self.paths@[0];
                let mut f = self.futures.remove(0);
                let ghost f0 = f;
                proof {
                    self.paths@ = self.paths@.remove(0);
                    assert(f == before[0]);
                    assert(trail.last() == f && not_ready_run(trail));
                    assert(f.live() && f.steps() + 1 + self.passes@ <= m);
                    assert forall|i: int| 0 <= i < self.futures@.len() implies #[trigger] self.futures@[i]
                        == before[i + 1] && self.paths@[i] == paths_before[i + 1] by {}
                    lemma_origins_remove_first(paths_before);
                }
                let pf = f.poll();
                let ghost rf = pf;
                let ghost new_trail = trail.push(f);
                proof {
                    assert(new_trail.drop_last() =~= trail);
                    assert(new_trail[new_trail.len() - 2] == f0);
                    assert(new_trail[0] == trail[0]);
                }
                match pf {
                    Poll::Ready(u) => {
                        assert(rf == Poll::Ready(()));
                        self.done = Ghost(self.done@.push(f));
                        proof {
                            self.history@ = self.history@.push(new_trail);
                            assert(completed_run(new_trail, ()));
                            assert(self.done@.subrange(0, fin0.len() as int) =~= done_before.subrange(
                                0,
                                fin0.len() as int,
                            ));
                            assert(self.history@.subrange(0, h0.len() as int) =~= hist_before.subrange(
                                0,
                                h0.len() as int,
                            ));
                            let hn = hist_before.subrange(h0.len() as int, hist_before.len() as int);
                            assert(self.history@.subrange(h0.len() as int, self.history@.len() as int)
                                =~= hn.push(new_trail));
                            lemma_origins_push(hn, new_trail);
                            assert forall|i: int| 0 <= i < self.done@.len() implies !(
                            #[trigger] self.done@[i]).live() by {
                                if i < done_before.len() {
                                    assert(self.done@[i] == done_before[i]);
                                }
                            }
                            assert forall|i: int| 0 <= i < self.history@.len() implies completed_run(
                                #[trigger] self.history@[i],
                                (),
                            ) && self.history@[i].last() == self.done@[i] by {
                                if i < hist_before.len() {
                                    assert(self.history@[i] == hist_before[i]);
                                    assert(self.done@[i] == done_before[i]);
                                }
                            }
                            assert(origins(self.history@.subrange(
                                h0.len() as int,
                                self.history@.len() as int,
                            )).to_multiset().add(origins(self.paths@).to_multiset()).add(
                                origins(rest_paths).to_multiset(),
                            ) =~= o0);
                        }
                    },
                    Poll::NotReady => {
                        rest.push(f);
                        proof {
                            rest_paths = rest_paths.push(new_trail);
                            lemma_origins_push(rest_paths_before, new_trail);
                            assert(not_ready_run(new_trail)) by {
                                assert forall|i: int| 0 <= i < new_trail.len() - 1 implies #[trigger] new_trail[i].step(
                                    &new_trail[i + 1],
                                    Poll::NotReady,
                                ) by {
                                    if i < trail.len() - 1 {
                                        assert(new_trail[i] == trail[i] && new_trail[i + 1] == trail[i + 1]);
                                    }
                                }
                            }
                            assert forall|i: int| 0 <= i < rest@.len() implies #[trigger] rest@[i].live()
                                && rest@[i].steps() + 1 + self.passes@ + 1 <= m by {
                                if i < rest_before.len() {
                                    assert(rest@[i] == rest_before[i]);
                                }
                            }
                            assert forall|i: int| 0 <= i < rest_paths.len() implies not_ready_run(
                                #[trigger] rest_paths[i],
                            ) && rest_paths[i].last() == rest@[i] by {
                                if i < rest_paths_before.len() {
                                    assert(rest_paths[i] == rest_paths_before[i]);
                                    assert(rest@[i] == rest_before[i]);
                                }
                            }
                            assert(origins(self.history@.subrange(
                                h0.len() as int,
                                self.history@.len() as int,
                            )).to_multiset().add(origins(self.paths@).to_multiset()).add(
                                origins(rest_paths).to_multiset(),
                            ) =~= o0);
                        }
                    },
                }
            }
            self.futures = rest;
            proof {
                assert(origins(self.paths@) =~= Seq::<F>::empty());
                lemma_empty_multiset(origins(self.paths@));
                self.paths@ = rest_paths;
                assert(origins(self.history@.subrange(h0.len() as int, self.history@.len() as int)).to_multiset().add(
                    origins(self.paths@).to_multiset(),
                ) =~= o0);
            }
            self.passes = Ghost(self.passes@ + 1);
            assert forall|i: int| 0 <= i < self.futures@.len() implies #[trigger] self.futures@[
                i
            ].steps() + 1 + self.passes@ <= m by {
                assert(rest@[i].live());
            }
            if passes < u64::MAX {
                passes = passes + 1;
            }
        }
        proof {
            assert(origins(self.paths@) =~= Seq::<F>::empty());
            lemma_empty_multiset(origins(self.paths@));
            assert(origins(self.history@.subrange(h0.len() as int, self.history@.len() as int)).to_multiset().add(
                origins(self.paths@).to_multiset(),
            ) =~= origins(self.history@.subrange(h0.len() as int, self.history@.len() as int)).to_multiset());
        }
        passes
    }
}

proof fn lemma_empty_multiset<A>(s: Seq<A>)
    requires
        s.len() == 0,
    ensures
        s.to_multiset() =~= Multiset::<A>::empty(),
{
    s.to_multiset_ensures();
    vstd::multiset::lemma_multiset_empty_len(s.to_multiset());
}

proof fn lemma_origins_remove_first<F>(s: Seq<Seq<F>>)
    requires
        s.len() >= 1,
    ensures
        origins(s.remove(0)).to_multiset() == origins(s).to_multiset().remove(s[0][0]),
        origins(s).to_multiset().count(s[0][0]) > 0,
{
    assert(origins(s.remove(0)) =~= origins(s).remove(0));
    origins(s).to_multiset_ensures();
    assert(origins(s).contains(s[0][0])) by {
        assert(origins(s)[0] == s[0][0]);
    }
}

proof fn lemma_origins_push<F>(s: Seq<Seq<F>>, t: Seq<F>)
    ensures
        origins(s.push(t)).to_multiset() == origins(s).to_multiset().insert(t[0]),
{
    assert(origins(s.push(t)) =~= origins(s).push(t[0]));
    origins(s).to_multiset_ensures();
}

impl<F: Future<Item = ()>> Executor<F> for SingleThreadExecutor<F> {
    closed spec fn inv(&self) -> bool {
        &&& forall|i: int| 0 <= i < self.futures@.len() ==> #[trigger] self.futures@[i].live()
        &&& forall|i: int| 0 <= i < self.done@.len() ==> !(#[trigger] self.done@[i]).live()
        &&& self.paths@.len() == self.futures@.len()
        &&& forall|i: int|
            0 <= i < self.paths@.len() ==> not_ready_run(#[trigger] self.paths@[i])
                && self.paths@[i].last() == self.futures@[i]
        &&& self.history@.len() == self.done@.len()
        &&& forall|i: int|
            0 <= i < self.history@.len() ==> completed_run(#[trigger] self.history@[i], ())
                && self.history@[i].last() == self.done@[i]
    }

    closed spec fn outstanding(&self) -> nat {
        self.futures@.len()
    }

    closed spec fn finished(&self) -> Seq<F> {
        self.done@
    }

    /// Polls `f` once. If that poll is `NotReady`, the polled future joins
    /// the end of the pending set, with the trail `[f, polled]`, and its step
    /// bound is below `f`'s; if it is `Ready`, its last state joins
    /// `finished`, with the run `[f, last]`, and the pending set stays as it
    /// was.
    fn spawn(&mut self, f: F)
        ensures
            final(self).outstanding() == final(self).pending().len(),
            ({
                &&& final(self).pending().drop_last() == old(self).pending()
                &&& final(self).pending().len() == old(self).pending().len() + 1
                &&& f.step(&final(self).pending().last(), Poll::NotReady)
                &&& final(self).pending().last().steps() < f.steps()
                &&& final(self).trails() == old(self).trails().push(
                    seq![f, final(self).pending().last()],
                )
                &&& final(self).finished() == old(self).finished()
                &&& final(self).runs() == old(self).runs()
            }) || ({
                &&& final(self).pending() == old(self).pending()
                &&& final(self).trails() == old(self).trails()
                &&& final(self).finished().drop_last() == old(self).finished()
                &&& final(self).finished().len() == old(self).finished().len() + 1
                &&& f.step(&final(self).finished().last(), Poll::Ready(()))
                &&& final(self).runs() == old(self).runs().push(
                    seq![f, final(self).finished().last()],
                )
            }),
    {
        let mut f = f;
        let ghost f0 = f;
        let pf = f.poll();
        let ghost rf = pf;
        let ghost run = seq![f0, f];
        match pf {
            Poll::NotReady => {
                self.futures.push(f);
                proof {
                    self.paths@ = self.paths@.push(run);
                    assert(not_ready_run(run));
                }
                assert forall|i: int| 0 <= i < self.futures@.len() implies #[trigger] self.futures@[
                    i
                ].live() by {
                    if i < old(self).futures@.len() {
                        assert(self.futures@[i] == old(self).futures@[i]);
                    }
                }
                assert forall|i: int| 0 <= i < self.paths@.len() implies not_ready_run(
                    #[trigger] self.paths@[i],
                ) && self.paths@[i].last() == self.futures@[i] by {
                    if i < old(self).paths@.len() {
                        assert(self.paths@[i] == old(self).paths@[i]);
                        assert(self.futures@[i] == old(self).futures@[i]);
                    }
                }
                assert(self.futures@.drop_last() =~= old(self).futures@);
                assert(self.done@.subrange(0, self.done@.len() as int) =~= self.done@);
            },
            Poll::Ready(u) => {
                assert(rf == Poll::Ready(()));
                self.done = Ghost(self.done@.push(f));
                proof {
                    self.history@ = self.history@.push(run);
                    assert(run.drop_last() =~= seq![f0]);
                    assert(completed_run(run, ()));
                }
                assert forall|i: int| 0 <= i < self.done@.len() implies !(
                #[trigger] self.done@[i]).live() by {
                    if i < old(self).done@.len() {
                        assert(self.done@[i] == old(self).done@[i]);
                    }
                }
                assert forall|i: int| 0 <= i < self.history@.len() implies completed_run(
                    #[trigger] self.history@[i],
                    (),
                ) && self.history@[i].last() == self.done@[i] by {
                    if i < old(self).history@.len() {
                        assert(self.history@[i] == old(self).history@[i]);
                        assert(self.done@[i] == old(self).done@[i]);
                    }
                }
                assert(self.done@.drop_last() =~= old(self).done@);
                assert(self.done@.subrange(0, old(self).done@.len() as int) =~= old(self).done@);
            },
        }
    }

    /// Drives every pending future to completion, within `passes_needed` of
    /// the pending set full passes; the new runs start from exactly the
    /// futures the pending trails started from.
    fn wait(&mut self)
        ensures
            final(self).pending().len() == 0,
            final(self).last_passes() <= passes_needed(old(self).pending()),
            final(self).runs().subrange(0, old(self).runs().len() as int) == old(self).runs(),
            origins(
                final(self).runs().subrange(
                    old(self).runs().len() as int,
                    final(self).runs().len() as int,
                ),
            ).to_multiset() == origins(old(self).trails()).to_multiset(),
    {
        self.run_pending();
        assert forall|i: int|
            old(self).finished().len() <= i < self.finished().len() implies !(
            #[trigger] self.finished()[i]).live() by {}
    }
}

/// What a pool worker does with one item taken from the shared queue: a
/// future is handed to the worker's own executor's `spawn`; the shutdown
/// marker (`None`) makes it `wait`, driving every future it holds to
/// completion. Returns whether the worker stops.
pub fn worker_step<F: Future<Item = ()>>(
    local: &mut SingleThreadExecutor<F>,
    item: Option<F>,
) -> (stop: bool)
    requires
        old(local).inv(),
        item matches Some(f) ==> f.live(),
    ensures
        final(local).inv(),
        stop <==> item is None,
        item is None ==> {
            &&& final(local).pending().len() == 0
            &&& final(local).finished().len() == old(local).finished().len() + old(
                local,
            ).pending().len()
            &&& final(local).runs().subrange(0, old(local).runs().len() as int) == old(
                local,
            ).runs()
            &&& origins(
                final(local).runs().subrange(
                    old(local).runs().len() as int,
                    final(local).runs().len() as int,
                ),
            ).to_multiset() == origins(old(local).trails()).to_multiset()
        },
        item matches Some(f) ==> ({
            &&& final(local).pending().drop_last() == old(local).pending()
            &&& final(local).pending().len() == old(local).pending().len() + 1
            &&& f.step(&final(local).pending().last(), Poll::NotReady)
            &&& final(local).pending().last().steps() < f.steps()
            &&& final(local).trails() == old(local).trails().push(
                seq![f, final(local).pending().last()],
            )
            &&& final(local).finished() == old(local).finished()
            &&& final(local).runs() == old(local).runs()
        }) || ({
            &&& final(local).pending() == old(local).pending()
            &&& final(local).trails() == old(local).trails()
            &&& final(local).finished().drop_last() == old(local).finished()
            &&& final(local).finished().len() == old(local).finished().len() + 1
            &&& f.step(&final(local).finished().last(), Poll::Ready(()))
            &&& final(local).runs() == old(local).runs().push(
                seq![f, final(local).finished().last()],
            )
        }),
{
    match item {
        Some(f) => {
            local.spawn(f);
            false
        },
        None => {
            local.wait();
            true
        },
    }
}

} // verus!
