//! The stacks of directories that are still to be compared.
//!
//! Every worker has a stack of its own, to which it alone adds and from whose
//! top it takes. A worker whose stack is empty steals from the stacks of the
//! others. One counter, shared by all, tells how many workers are not idle.

use crate::path::RelativePath;
use crossbeam_deque::{Steal, Stealer, Worker};
use std::sync::atomic::AtomicU16;
use std::sync::Arc;
use vstd::prelude::*;

verus! {

/// The worker's end of a deque of `crossbeam_deque`. Nothing is known of what
/// it holds: other threads take from it at any time.
#[verifier::external_type_specification]
#[verifier::external_body]
#[verifier::reject_recursive_types(T)]
pub struct ExWorker<T>(Worker<T>);

/// The end of a deque of `crossbeam_deque` from which other threads steal.
#[verifier::external_type_specification]
#[verifier::external_body]
#[verifier::reject_recursive_types(T)]
pub struct ExStealer<T>(Stealer<T>);

/// `Worker::new_lifo` of `crossbeam_deque` makes a deque whose owner adds and
/// takes at the same end. Nothing is claimed of it.
pub assume_specification<T>[ Worker::<T>::new_lifo ]() -> (worker: Worker<T>);

/// `Worker::stealer` of `crossbeam_deque` makes a handle by which other
/// threads take from the deque. Nothing is claimed of it.
pub assume_specification<T>[ Worker::<T>::stealer ](worker: &Worker<T>) -> (stealer: Stealer<T>);

/// `Worker::push` of `crossbeam_deque` adds a task to the deque. It is taken
/// to return on every input; nothing else is claimed.
pub assume_specification<T>[ Worker::<T>::push ](worker: &Worker<T>, task: T);

/// `Worker::pop` of `crossbeam_deque` takes a task from the deque, if it finds
/// one. Nothing is claimed of which, nor of when there is none.
pub assume_specification<T>[ Worker::<T>::pop ](worker: &Worker<T>) -> (task: Option<T>);

/// A directory that is still to be compared with its counterpart.
#[derive(Debug)]
pub struct StackUnit {
    pub dir: RelativePath,
}

impl View for StackUnit {
    type V = Seq<Seq<u8>>;

    open spec fn view(&self) -> Seq<Seq<u8>> {
        self.dir@
    }
}

/// How an attempt to steal ended, or a round of attempts.
#[derive(Debug)]
pub enum StealOutcome {
    /// There was nothing to steal.
    Empty,
    /// This directory was stolen.
    Success(StackUnit),
    /// Another thread was in the way: the attempt may succeed if repeated.
    Retry,
}

/// What the outcome of an attempt is, as a mathematical value.
pub enum StealView {
    Empty,
    Success(Seq<Seq<u8>>),
    Retry,
}

impl View for StealOutcome {
    type V = StealView;

    open spec fn view(&self) -> StealView {
        match self {
            StealOutcome::Empty => StealView::Empty,
            StealOutcome::Success(unit) => StealView::Success(unit@),
            StealOutcome::Retry => StealView::Retry,
        }
    }
}

/// The outcome of attempts that ended as `so_far`, followed by one that ended
/// as `next`: a success stays, a success that follows wins, and of the rest a
/// retry outweighs an empty stack.
pub open spec fn outcome_after(so_far: StealView, next: StealView) -> StealView {
    match so_far {
        StealView::Success(unit) => so_far,
        StealView::Retry => match next {
            StealView::Success(unit) => next,
            _ => StealView::Retry,
        },
        StealView::Empty => next,
    }
}

/// The outcome of a round of attempts, of which `attempts` are the outcomes
/// in the order in which they were made: the first success if there is one;
/// otherwise a retry if any attempt asks for one; otherwise empty.
pub open spec fn round_outcome(attempts: Seq<StealView>) -> StealView
    decreases attempts.len(),
{
    if attempts.len() == 0 {
        StealView::Empty
    } else {
        outcome_after(round_outcome(attempts.drop_last()), attempts.last())
    }
}

/// A round ends at its first success; every attempt before the last one of a
/// round has failed.
pub open spec fn is_round(attempts: Seq<StealView>) -> bool {
    forall|i: int| 0 <= i < attempts.len() - 1 ==> !(#[trigger] attempts[i] is Success)
}

/// What a round comes to. It is a success exactly if its last attempt was
/// one, and then with what that attempt stole; failing that it is a retry
/// exactly if some attempt asked for one, and empty exactly if every stack
/// was found empty.
pub proof fn lemma_round_outcome(attempts: Seq<StealView>)
    requires
        is_round(attempts),
    ensures
        round_outcome(attempts) is Success <==> attempts.len() > 0 && attempts.last() is Success,
        round_outcome(attempts) is Success ==> round_outcome(attempts) == attempts.last(),
        round_outcome(attempts) is Retry <==> !(round_outcome(attempts) is Success) && exists|
            i: int,
        |
            0 <= i < attempts.len() && #[trigger] attempts[i] is Retry,
        round_outcome(attempts) is Empty <==> forall|i: int|
            0 <= i < attempts.len() ==> #[trigger] attempts[i] is Empty,
    decreases attempts.len(),
{
    if attempts.len() > 0 {
        let before = attempts.drop_last();
        assert(is_round(before)) by {
            assert forall|i: int| 0 <= i < before.len() - 1 implies !(#[trigger] before[i]
                is Success) by {
                assert(before[i] == attempts[i]);
            }
        }
        lemma_round_outcome(before);
        if before.len() > 0 {
            assert(before.last() == attempts[attempts.len() - 2]);
        }
        assert(!(round_outcome(before) is Success));
        if round_outcome(before) is Retry {
            let i = choose|i: int| 0 <= i < before.len() && #[trigger] before[i] is Retry;
            assert(attempts[i] is Retry);
        }
        if exists|i: int| 0 <= i < attempts.len() && #[trigger] attempts[i] is Retry {
            let i = choose|i: int| 0 <= i < attempts.len() && #[trigger] attempts[i] is Retry;
            if i < before.len() {
                assert(before[i] is Retry);
            }
        }
        if round_outcome(attempts) is Empty {
            assert forall|i: int| 0 <= i < attempts.len() implies #[trigger] attempts[i]
                is Empty by {
                if i < before.len() {
                    assert(before[i] is Empty);
                }
            }
        }
        if forall|i: int| 0 <= i < attempts.len() ==> #[trigger] attempts[i] is Empty {
            assert forall|i: int| 0 <= i < before.len() implies #[trigger] before[i]
                is Empty by {
                assert(attempts[i] is Empty);
            }
            assert(attempts[attempts.len() - 1] is Empty);
        }
    }
}

impl StealOutcome {
    /// Whether something was stolen.
    pub fn is_success(&self) -> (success: bool)
        ensures
            success == (self@ is Success),
    {
        match self {
            StealOutcome::Success(_) => true,
            _ => false,
        }
    }

    /// The outcome of the attempts so far, of which `self` is the outcome,
    /// followed by one that ended as `next`.
    pub fn followed_by(self, next: StealOutcome) -> (both: StealOutcome)
        ensures
            both@ == outcome_after(self@, next@),
    {
        match self {
            StealOutcome::Success(unit) => StealOutcome::Success(unit),
            StealOutcome::Retry => match next {
                StealOutcome::Success(unit) => StealOutcome::Success(unit),
                _ => StealOutcome::Retry,
            },
            StealOutcome::Empty => next,
        }
    }
}

/// Makes one attempt with `Stealer::steal` of `crossbeam_deque` and tells how
/// it ended. Nothing is claimed of the outcome.
#[verifier::external_body]
fn steal_from(stealer: &Stealer<StackUnit>) -> (outcome: StealOutcome) {
    match stealer.steal() {
        Steal::Empty => StealOutcome::Empty,
        Steal::Success(unit) => StealOutcome::Success(unit),
        Steal::Retry => StealOutcome::Retry,
    }
}

/// `Arc::clone` of std gives one more handle to the counter that `counter`
/// leads to: both lead to the same counter.
#[verifier::external_body]
fn share_counter(counter: &Arc<AtomicU16>) -> (shared: Arc<AtomicU16>)
    ensures
        shared == *counter,
{
    Arc::clone(counter)
}

/// What one worker holds of the stacks: its own stack, the means to steal
/// from the stacks of all the other workers, and the counter of the workers
/// that are not idle.
pub struct StackHandle {
    own: Worker<StackUnit>,
    stealers: Vec<Stealer<StackUnit>>,
    non_idle: Arc<AtomicU16>,
    /// The number under which the worker was made: the first has 0.
    index: Ghost<nat>,
    /// The numbers of the workers from whose stacks the stealers were made,
    /// in the order of the stealers.
    victims: Ghost<Seq<nat>>,
}

/// The numbers of all of `n` workers but `index`, in ascending order.
pub open spec fn all_but(n: nat, index: nat) -> Seq<nat> {
    Seq::new(
        (n - 1) as nat,
        |k: int|
            if k < index {
                k as nat
            } else {
                (k + 1) as nat
            },
    )
}

impl StackHandle {
    /// The number under which the worker that holds this was made: the first
    /// has 0.
    pub closed spec fn index(&self) -> nat {
        self.index@
    }

    /// The numbers of the workers from whose stacks the stealers of this
    /// worker were made, in the order in which it tries them.
    pub closed spec fn victims(&self) -> Seq<nat> {
        self.victims@
    }

    /// The counter of the workers that are not idle.
    pub closed spec fn counter(&self) -> AtomicU16 {
        *self.non_idle
    }

    /// How many stealers the worker has.
    pub closed spec fn stealer_count(&self) -> nat {
        self.stealers@.len()
    }

    /// Makes the stacks of `n_threads` workers. Each worker gets a stealer
    /// for the stack of every other worker and none for its own, and all
    /// share one counter, which is made with the number of workers in it.
    pub fn new(n_threads: u16) -> (handles: Vec<Self>)
        ensures
            handles.len() == n_threads,
            forall|i: int|
                0 <= i < handles.len() ==> {
                    &&& (#[trigger] handles[i]).index() == i
                    &&& handles[i].stealer_count() == handles[i].victims().len()
                    &&& handles[i].victims() == all_but(n_threads as nat, i as nat)
                    &&& handles[i].counter() == handles[0].counter()
                },
    {
        let n: usize = n_threads as usize;
        let mut workers: Vec<Worker<StackUnit>> = Vec::new();
        let mut i: usize = 0;
        while i < n
            invariant
                i <= n,
                workers.len() == i,
            decreases n - i,
        {
            workers.push(Worker::new_lifo());
            i += 1;
        }
        let mut stealers: Vec<Vec<Stealer<StackUnit>>> = Vec::new();
        let ghost mut victims: Seq<Seq<nat>> = Seq::empty();
        let mut j: usize = 0;
        while j < n
            invariant
                j <= n,
                n == n_threads,
                workers.len() == n,
                stealers.len() == j,
                victims.len() == j,
                forall|k: int| 0 <= k < j ==> (#[trigger] stealers[k]).len() == n - 1,
                forall|k: int|
                    0 <= k < j ==> #[trigger] victims[k] == all_but(n as nat, k as nat),
            decreases n - j,
        {
            let mut stlrs: Vec<Stealer<StackUnit>> = Vec::new();
            let ghost mut reached: Seq<nat> = Seq::empty();
            let mut i: usize = 0;
            while i < n
                invariant
                    i <= n,
                    j < n,
                    workers.len() == n,
                    stlrs.len() == reached.len(),
                    reached.len() == if i <= j {
                        i as int
                    } else {
                        i - 1
                    },
                    forall|k: int|
                        0 <= k < reached.len() ==> #[trigger] reached[k] == if k < j {
                            k
                        } else {
                            k + 1
                        },
                decreases n - i,
            {
                if i != j {
                    stlrs.push(workers[i].stealer());
                    proof {
                        reached = reached.push(i as nat);
                    }
                }
                i += 1;
            }
            proof {
                assert(reached =~= all_but(n as nat, j as nat));
                victims = victims.push(reached);
            }
            stealers.push(stlrs);
            j += 1;
        }
        let non_idle = Arc::new(AtomicU16::new(n_threads));
        let mut last_first: Vec<StackHandle> = Vec::new();
        while workers.len() > 0
            invariant
                n == n_threads,
                workers.len() <= n,
                stealers.len() == workers.len(),
                victims.len() == n,
                last_first.len() == n - workers.len(),
                forall|k: int|
                    0 <= k < stealers.len() ==> (#[trigger] stealers[k]).len() == n - 1,
                forall|k: int|
                    0 <= k < n ==> #[trigger] victims[k] == all_but(n as nat, k as nat),
                forall|k: int|
                    0 <= k < last_first.len() ==> {
                        &&& (#[trigger] last_first[k]).index() == n - 1 - k
                        &&& last_first[k].stealer_count() == n - 1
                        &&& last_first[k].victims() == all_but(n as nat, (n - 1 - k) as nat)
                        &&& last_first[k].counter() == *non_idle
                    },
            decreases workers.len(),
        {
            let ghost index = (workers.len() - 1) as nat;
            let w = workers.pop().unwrap();
            let stlrs = stealers.pop().unwrap();
            last_first.push(
                StackHandle {
                    own: w,
                    stealers: stlrs,
                    non_idle: share_counter(&non_idle),
                    index: Ghost(index),
                    victims: Ghost(victims[index as int]),
                },
            );
        }
        let mut res: Vec<StackHandle> = Vec::new();
        while last_first.len() > 0
            invariant
                n == n_threads,
                last_first.len() <= n,
                res.len() == n - last_first.len(),
                forall|k: int|
                    0 <= k < last_first.len() ==> {
                        &&& (#[trigger] last_first[k]).index() == n - 1 - k
                        &&& last_first[k].stealer_count() == n - 1
                        &&& last_first[k].victims() == all_but(n as nat, (n - 1 - k) as nat)
                        &&& last_first[k].counter() == *non_idle
                    },
                forall|k: int|
                    0 <= k < res.len() ==> {
                        &&& (#[trigger] res[k]).index() == k
                        &&& res[k].stealer_count() == n - 1
                        &&& res[k].victims() == all_but(n as nat, k as nat)
                        &&& res[k].counter() == *non_idle
                    },
            decreases last_first.len(),
        {
            let handle = last_first.pop().unwrap();
            res.push(handle);
        }
        res
    }

    /// Puts a directory on top of the worker's own stack.
    pub(crate) fn push(&self, unit: StackUnit) {
        self.own.push(unit)
    }

    /// Takes the directory on top of the worker's own stack, if there is one.
    pub(crate) fn pop(&self) -> (unit: Option<StackUnit>) {
        self.own.pop()
    }

    /// Counts the worker out of those that are not idle.
    pub(crate) fn enter_idle(&self) {
        self.non_idle.fetch_sub(1, std::sync::atomic::Ordering::SeqCst);
    }

    /// Counts the worker among those that are not idle again.
    pub(crate) fn leave_idle(&self) {
        self.non_idle.fetch_add(1, std::sync::atomic::Ordering::SeqCst);
    }

    /// How many workers were not idle when the counter was read.
    pub(crate) fn non_idle(&self) -> (count: u16) {
        self.non_idle.load(std::sync::atomic::Ordering::SeqCst)
    }

    /// How many other workers this one can steal from.
    pub fn peers(&self) -> (count: usize)
        ensures
            count == self.stealer_count(),
    {
        self.stealers.len()
    }

    /// Tries to steal from one worker after the other, in the order of the
    /// stealers, and stops at the first success. What comes out is the outcome
    /// of a round of attempts, one for each of the other workers unless a
    /// success came before: with no other worker there is nothing to steal.
    pub fn steal_round(&self) -> (stolen: StealOutcome)
        ensures
            exists|attempts: Seq<StealView>|
                {
                    &&& is_round(attempts)
                    &&& #[trigger] round_outcome(attempts) == stolen@
                    &&& attempts.len() <= self.stealer_count()
                    &&& stolen@ is Success || attempts.len() == self.stealer_count()
                },
    {
        let mut so_far = StealOutcome::Empty;
        let ghost mut attempts: Seq<StealView> = Seq::empty();
        let mut i: usize = 0;
        while i < self.stealers.len() && !so_far.is_success()
            invariant
                i <= self.stealers.len(),
                attempts.len() == i,
                is_round(attempts),
                round_outcome(attempts) == so_far@,
                so_far@ is Success ==> i > 0 && attempts.last() is Success,
            decreases self.stealers.len() - i,
        {
            let next = steal_from(&self.stealers[i]);
            proof {
                let before = attempts;
                attempts = attempts.push(next@);
                assert(attempts.drop_last() =~= before);
                assert forall|k: int| 0 <= k < attempts.len() - 1 implies !(#[trigger] attempts[k]
                    is Success) by {
                    if k < before.len() - 1 {
                        assert(before[k] == attempts[k]);
                    }
                }
            }
            so_far = so_far.followed_by(next);
            i += 1;
        }
        so_far
    }
}

} // verus!
