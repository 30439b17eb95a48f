use vstd::prelude::*;

verus! {

/// The bookkeeping that a pool of workers shares: the items nobody has
/// claimed yet, in order, and the first error any worker reported.
///
/// A run starts by handing one item to each of at most `n` workers. Each
/// worker reports the outcome of its item; while no error is recorded, a
/// success earns it the next unclaimed item, and a failure is recorded and
/// stops it. Once an error is recorded no item is handed out any more.
pub struct WorkQueue<T, E> {
    /// Unclaimed items, the next one last.
    items: Vec<T>,
    total: usize,
    error: Option<E>,
}

/// The part of a run that matters for its outcome: how many items have been
/// handed out and the recorded error.
pub struct Progress<E> {
    pub handed: nat,
    pub error: Option<E>,
}

/// What a report of `outcome` does to the progress of a run over `total`
/// items: `true` with the new progress when the reporting worker gets the
/// next item.
pub open spec fn after_report<E>(p: Progress<E>, total: nat, outcome: Option<E>) -> (Progress<E>, bool) {
    match p.error {
        Some(_) => (p, false),
        None => match outcome {
            Some(e) => (Progress { handed: p.handed, error: Some(e) }, false),
            None => if p.handed < total {
                (Progress { handed: p.handed + 1, error: None }, true)
            } else {
                (p, false)
            },
        },
    }
}

impl<T, E> WorkQueue<T, E> {
    pub closed spec fn wf(&self) -> bool {
        self.items@.len() <= self.total
    }

    /// The unclaimed items, in order.
    pub closed spec fn remaining(&self) -> Seq<T> {
        self.items@.reverse()
    }

    pub closed spec fn total(&self) -> nat {
        self.total as nat
    }

    pub closed spec fn progress(&self) -> Progress<E> {
        Progress { handed: (self.total - self.items@.len()) as nat, error: self.error }
    }

    /// Puts `items` in the queue and takes out the first `n` of them (fewer
    /// when there are fewer), one for each worker to start with.
    pub fn start(items: Vec<T>, n: usize) -> (r: (WorkQueue<T, E>, Vec<T>))
        requires
            n >= 1,
        ensures
            r.0.wf(),
            r.0.total() == items@.len(),
            r.1@ == items@.subrange(0, r.1@.len() as int),
            r.1@.len() == if n <= items@.len() { n as nat } else { items@.len() },
            r.0.remaining() == items@.subrange(r.1@.len() as int, items@.len() as int),
            r.0.progress() == (Progress::<E> { handed: r.1@.len(), error: None }),
    {
        let total = items.len();
        let mut rest: Vec<T> = Vec::new();
        let mut items = items;
        let ghost all = items@;
        while items.len() > 0
            invariant
                all.len() == total,
                rest@ + items@.reverse() == all.reverse(),
            decreases items@.len(),
        {
            let ghost before = items@;
            let x = items.pop().unwrap();
            proof {
                assert(before =~= items@.push(x));
                assert(before.reverse() =~= seq![x] + items@.reverse());
            }
            rest.push(x);
            assert(rest@ + items@.reverse() =~= all.reverse());
        }
        assert(rest@ =~= all.reverse());
        let mut queue = WorkQueue { items: rest, total, error: None };
        assert(queue.remaining() =~= all);
        let mut first: Vec<T> = Vec::new();
        loop
            invariant
                queue.wf(),
                queue.total == total,
                queue.error is None,
                first@.len() <= n,
                first@ + queue.remaining() == all,
                first@.len() + queue.items@.len() == total,
            ensures
                queue.wf(),
                queue.total == total,
                queue.error is None,
                first@ + queue.remaining() == all,
                first@.len() + queue.items@.len() == total,
                first@.len() == n || queue.items@.len() == 0,
            decreases n - first@.len(),
        {
            if first.len() >= n {
                break;
            }
            match queue.next_in_queue() {
                Some(x) => {
                    first.push(x);
                },
                None => {
                    break;
                },
            }
        }
        assert(all.subrange(0, first@.len() as int) =~= first@);
        assert(all.subrange(first@.len() as int, all.len() as int) =~= queue.remaining());
        (queue, first)
    }

    /// Takes the next unclaimed item.
    pub fn next_in_queue(&mut self) -> (r: Option<T>)
        requires
            old(self).wf(),
        ensures
            final(self).wf(),
            final(self).total() == old(self).total(),
            final(self).progress().error == old(self).progress().error,
            old(self).remaining().len() == 0 ==> r is None && final(self).remaining() == old(self).remaining()
                && final(self).progress() == old(self).progress(),
            old(self).remaining().len() > 0 ==> r == Some(old(self).remaining()[0])
                && final(self).remaining() == old(self).remaining().drop_first()
                && final(self).progress().handed == old(self).progress().handed + 1,
    {
        let ghost before = self.items@;
        let r = self.items.pop();
        proof {
            if before.len() > 0 {
                assert(before =~= self.items@.push(r.unwrap()));
                assert(before.reverse() =~= seq![r.unwrap()] + self.items@.reverse());
                assert(before.reverse().drop_first() =~= self.items@.reverse());
            }
        }
        r
    }

    /// No worker has reported an error yet.
    pub fn no_error(&self) -> (r: bool)
        ensures
            r == self.progress().error is None,
    {
        self.error.is_none()
    }

    /// Records `err` unless an error is recorded already.
    pub fn set_error(&mut self, err: E)
        requires
            old(self).wf(),
        ensures
            final(self).wf(),
            final(self).total() == old(self).total(),
            final(self).remaining() == old(self).remaining(),
            final(self).progress().handed == old(self).progress().handed,
            final(self).progress().error == if old(self).progress().error is None {
                Some(err)
            } else {
                old(self).progress().error
            },
    {
        if self.error.is_none() {
            self.error = Some(err);
        }
    }

    /// A worker reports the outcome of its item; it gets the next item to
    /// work on, or `None` when it is to stop.
    pub fn report(&mut self, outcome: Result<(), E>) -> (r: Option<T>)
        requires
            old(self).wf(),
        ensures
            final(self).wf(),
            final(self).total() == old(self).total(),
            ({
                let (p, more) = after_report(
                    old(self).progress(),
                    old(self).total(),
                    match outcome {
                        Ok(_) => None,
                        Err(e) => Some(e),
                    },
                );
                &&& final(self).progress() == p
                &&& more == r is Some
                &&& more ==> r == Some(old(self).remaining()[0]) && final(self).remaining()
                    == old(self).remaining().drop_first()
                &&& !more ==> final(self).remaining() == old(self).remaining()
            }),
    {
        if !self.no_error() {
            return None;
        }
        match outcome {
            Ok(()) => {
                proof {
                    assert(old(self).remaining().len() == old(self).items@.len());
                }
                self.next_in_queue()
            },
            Err(e) => {
                self.set_error(e);
                None
            },
        }
    }

    /// The result of the run: the recorded error, if any.
    pub fn finish(self) -> (r: Result<(), E>)
        ensures
            match r {
                Ok(_) => self.progress().error is None,
                Err(e) => self.progress().error == Some(e),
            },
    {
        match self.error {
            Some(e) => Err(e),
            None => Ok(()),
        }
    }
}

/// A run in progress: its progress and the items that the workers hold.
pub struct RunState<E> {
    pub progress: Progress<E>,
    pub held: Seq<nat>,
}

/// The start of a run over `total` items with `n` workers: each worker holds
/// one of the first items.
pub open spec fn run_start<E>(total: nat, n: nat) -> RunState<E> {
    let first = if n <= total { n } else { total };
    RunState {
        progress: Progress { handed: first, error: None },
        held: Seq::new(first, |i: int| i as nat),
    }
}

/// The worker holding `held[slot]` reports the outcome of its item.
pub open spec fn run_step<E>(s: RunState<E>, total: nat, outcome: spec_fn(nat) -> Option<E>, slot: int) -> RunState<E> {
    if 0 <= slot < s.held.len() {
        let (p, more) = after_report(s.progress, total, outcome(s.held[slot]));
        let rest = s.held.remove(slot);
        RunState { progress: p, held: if more { rest.push(s.progress.handed) } else { rest } }
    } else {
        s
    }
}

/// The run after the reports of the workers at the slots of `schedule`, in
/// that order.
pub open spec fn run_schedule<E>(
    s: RunState<E>,
    total: nat,
    outcome: spec_fn(nat) -> Option<E>,
    schedule: Seq<int>,
) -> RunState<E>
    decreases schedule.len(),
{
    if schedule.len() == 0 {
        s
    } else {
        run_schedule(run_step(s, total, outcome, schedule[0]), total, outcome, schedule.drop_first())
    }
}

/// Only item `k` fails, with `e`.
pub open spec fn single_failure<E>(k: nat, e: E) -> spec_fn(nat) -> Option<E> {
    |i: nat| if i == k { Some(e) } else { None }
}

/// Some item of the run fails.
pub open spec fn some_item_fails<E>(total: nat, outcome: spec_fn(nat) -> Option<E>) -> bool {
    exists|i: nat| i < total && (#[trigger] outcome(i)) is Some
}

spec fn run_invariant<E>(s: RunState<E>, total: nat, n: nat, outcome: spec_fn(nat) -> Option<E>) -> bool {
    &&& s.progress.handed <= total
    &&& forall|j: int| 0 <= j < s.held.len() ==> #[trigger] s.held[j] < s.progress.handed
    &&& (s.progress.error matches Some(e) ==> exists|i: nat|
        i < s.progress.handed && #[trigger] outcome(i) == Some(e))
    &&& (s.progress.error is None ==> forall|i: nat|
        i < s.progress.handed ==> s.held.contains(i) || (#[trigger] outcome(i)) is None)
    &&& (s.progress.error is None && s.progress.handed < total ==> s.held.len() == n)
}

proof fn lemma_run_step<E>(s: RunState<E>, total: nat, n: nat, outcome: spec_fn(nat) -> Option<E>, slot: int)
    requires
        n >= 1,
        run_invariant(s, total, n, outcome),
    ensures
        run_invariant(run_step(s, total, outcome, slot), total, n, outcome),
{
    if 0 <= slot < s.held.len() {
        let t = run_step(s, total, outcome, slot);
        let item = s.held[slot];
        let rest = s.held.remove(slot);
        assert forall|j: int| 0 <= j < rest.len() implies #[trigger] rest[j] < s.progress.handed by {
            if j < slot {
                assert(rest[j] == s.held[j]);
            } else {
                assert(rest[j] == s.held[j + 1]);
            }
        }
        if s.progress.error is None {
            if outcome(item) is Some {
                assert(item < s.progress.handed);
            } else {
                assert forall|i: nat| i < t.progress.handed implies t.held.contains(i) || (
                #[trigger] outcome(i)) is None by {
                    if i < s.progress.handed && i != item && outcome(i) is Some {
                        assert(s.held.contains(i));
                        let w = choose|w: int| 0 <= w < s.held.len() && s.held[w] == i;
                        assert(w != slot);
                        if w < slot {
                            assert(rest[w] == i);
                        } else {
                            assert(rest[w - 1] == i);
                        }
                        assert(rest.contains(i));
                        if s.progress.handed < total {
                            let pushed = rest.push(s.progress.handed);
                            let v = choose|v: int| 0 <= v < rest.len() && rest[v] == i;
                            assert(pushed[v] == i);
                        }
                    }
                    if i == s.progress.handed {
                        let pushed = rest.push(s.progress.handed);
                        assert(pushed[rest.len() as int] == i);
                    }
                }
            }
        }
    }
}

proof fn lemma_run_schedule<E>(
    s: RunState<E>,
    total: nat,
    n: nat,
    outcome: spec_fn(nat) -> Option<E>,
    schedule: Seq<int>,
)
    requires
        n >= 1,
        run_invariant(s, total, n, outcome),
    ensures
        run_invariant(run_schedule(s, total, outcome, schedule), total, n, outcome),
    decreases schedule.len(),
{
    if schedule.len() > 0 {
        lemma_run_step(s, total, n, outcome, schedule[0]);
        lemma_run_schedule(run_step(s, total, outcome, schedule[0]), total, n, outcome, schedule.drop_first());
    }
}

/// A run that has come to an end, every worker stopped, reports an error
/// exactly when some item fails, and the error it reports is the failure of
/// one of the items; this holds for every number of workers and every order
/// in which they report.
pub proof fn lemma_run_outcome<E>(total: nat, n: nat, outcome: spec_fn(nat) -> Option<E>, schedule: Seq<int>)
    requires
        n >= 1,
    ensures
        ({
            let end = run_schedule(run_start::<E>(total, n), total, outcome, schedule);
            end.held.len() == 0 ==> {
                &&& end.progress.error is Some <==> some_item_fails(total, outcome)
                &&& end.progress.error matches Some(e) ==> exists|i: nat|
                    i < total && #[trigger] outcome(i) == Some(e)
            }
        }),
{
    let s = run_start::<E>(total, n);
    assert forall|j: int| 0 <= j < s.held.len() implies #[trigger] s.held[j] < s.progress.handed by {}
    assert forall|i: nat| i < s.progress.handed implies s.held.contains(i) || (#[trigger] outcome(i))
        is None by {
        assert(s.held[i as int] == i);
    }
    lemma_run_schedule(s, total, n, outcome, schedule);
    let end = run_schedule(s, total, outcome, schedule);
    if end.held.len() == 0 {
        if end.progress.error is None {
            assert(end.progress.handed == total);
            if some_item_fails(total, outcome) {
                let i = choose|i: nat| i < total && (#[trigger] outcome(i)) is Some;
                assert(!end.held.contains(i));
            }
        } else {
            let e = end.progress.error.unwrap();
            let i = choose|i: nat| i < end.progress.handed && #[trigger] outcome(i) == Some(e);
            assert(i < total && outcome(i) is Some);
        }
    }
}

/// Two runs over the same items, with any numbers of workers and any orders
/// of reports, that have both come to an end, both fail or both succeed.
pub proof fn lemma_worker_count_irrelevant<E>(
    total: nat,
    outcome: spec_fn(nat) -> Option<E>,
    n1: nat,
    schedule1: Seq<int>,
    n2: nat,
    schedule2: Seq<int>,
)
    requires
        n1 >= 1,
        n2 >= 1,
    ensures
        ({
            let end1 = run_schedule(run_start::<E>(total, n1), total, outcome, schedule1);
            let end2 = run_schedule(run_start::<E>(total, n2), total, outcome, schedule2);
            end1.held.len() == 0 && end2.held.len() == 0 ==> (end1.progress.error is Some
                <==> end2.progress.error is Some)
        }),
{
    lemma_run_outcome(total, n1, outcome, schedule1);
    lemma_run_outcome(total, n2, outcome, schedule2);
}

/// With one failing item, a run that has come to an end, every worker
/// stopped, reports that failure, whatever the number of workers and
/// whatever the order in which they report; a run whose items all succeed
/// reports no error.
pub proof fn lemma_single_failure_reported<E>(total: nat, n: nat, k: nat, e: E, schedule: Seq<int>)
    requires
        n >= 1,
    ensures
        ({
            let end = run_schedule(run_start::<E>(total, n), total, single_failure(k, e), schedule);
            end.held.len() == 0 ==> end.progress.error == if k < total {
                Some(e)
            } else {
                None
            }
        }),
{
    let outcome = single_failure(k, e);
    lemma_run_outcome(total, n, outcome, schedule);
    let end = run_schedule(run_start::<E>(total, n), total, outcome, schedule);
    if end.held.len() == 0 {
        if k < total {
            assert(outcome(k) is Some);
            assert(some_item_fails(total, outcome));
        } else {
            assert forall|i: nat| i < total implies (#[trigger] outcome(i)) is None by {}
        }
    }
}

} // verus!
