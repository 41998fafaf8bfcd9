//! One worker of the comparison.
//!
//! A worker takes a directory from its stack, or steals one, and compares it
//! with its counterpart: it reports the entries that are on one side only,
//! puts the directories that are on both sides on its stack, and asks for the
//! files and links that are on both sides to be looked at.

use crate::diff::{Diff, DiffHandler, DiffView};
use crate::merge::{action_of, Action, ActionView, DirMerge, PairTask, Step};
use crate::path::RelativePath;
use crate::stack::{StackHandle, StackUnit, StealOutcome, StealView};
use crossbeam_utils::Backoff;
use std::sync::Arc;
use vstd::prelude::*;

verus! {

/// The `Backoff` of `crossbeam_utils`, which makes a thread wait a little
/// longer each time it finds nothing to do.
#[verifier::external_type_specification]
#[verifier::external_body]
pub struct ExBackoff(Backoff);

/// `Backoff::new` of `crossbeam_utils` makes a backoff that has not waited
/// yet. Nothing is claimed of it.
pub assume_specification[ Backoff::new ]() -> (backoff: Backoff);

/// `Backoff::snooze` of `crossbeam_utils` waits for a moment and returns.
/// Nothing is claimed of how long.
pub assume_specification[ Backoff::snooze ](backoff: &Backoff);

/// What a worker finds when it looks for its next directory.
#[derive(Debug)]
pub enum NextWork {
    /// This directory is to be compared now.
    Dir(RelativePath),
    /// There was nothing to take, but there may be later: look again.
    Again,
    /// Every worker is idle and nothing is left: the comparison is over.
    Finished,
}

/// What an idle worker does after a round of attempts to steal.
#[derive(Debug)]
pub enum IdleStep {
    /// It counts itself in again and compares the directory that it has
    /// stolen.
    Resume(StackUnit),
    /// It waits a moment and tries again, because another thread was in its
    /// way.
    RetrySoon,
    /// It waits a moment and tries again, because there are workers that are
    /// not idle and may put directories on their stacks.
    WaitForWork,
    /// It ends: every stack was found empty and no worker is left that is not
    /// idle.
    Quit,
}

/// What an idle worker does after a round of attempts, as a mathematical
/// value.
pub enum IdleStepView {
    Resume(Seq<Seq<u8>>),
    RetrySoon,
    WaitForWork,
    Quit,
}

impl View for IdleStep {
    type V = IdleStepView;

    open spec fn view(&self) -> IdleStepView {
        match self {
            IdleStep::Resume(unit) => IdleStepView::Resume(unit@),
            IdleStep::RetrySoon => IdleStepView::RetrySoon,
            IdleStep::WaitForWork => IdleStepView::WaitForWork,
            IdleStep::Quit => IdleStepView::Quit,
        }
    }
}

/// What an idle worker does after a round of attempts that ended as `stolen`,
/// where `non_idle` is what it then read from the counter of the workers that
/// are not idle, if it read it. The counter matters after an empty round
/// only, and a worker that has not read zero from it does not end.
pub open spec fn idle_step_of(stolen: StealView, non_idle: Option<u16>) -> IdleStepView {
    match stolen {
        StealView::Success(unit) => IdleStepView::Resume(unit),
        StealView::Retry => IdleStepView::RetrySoon,
        StealView::Empty => if non_idle == Some(0u16) {
            IdleStepView::Quit
        } else {
            IdleStepView::WaitForWork
        },
    }
}

/// Decides what an idle worker does after a round of attempts to steal that
/// ended as `stolen`. The counter of the workers that are not idle is read
/// after an empty round only: `non_idle` is `None` where it was not read.
pub fn idle_step(stolen: StealOutcome, non_idle: Option<u16>) -> (step: IdleStep)
    ensures
        step@ == idle_step_of(stolen@, non_idle),
{
    match stolen {
        StealOutcome::Success(unit) => IdleStep::Resume(unit),
        StealOutcome::Retry => IdleStep::RetrySoon,
        StealOutcome::Empty => match non_idle {
            Some(0) => IdleStep::Quit,
            _ => IdleStep::WaitForWork,
        },
    }
}

/// The waiting of an idle worker.
struct IdleWait {
    /// Waits after a round in which every stack was found empty.
    empty_backoff: Backoff,
    /// Waits after a round in which another thread was in the way.
    retry_backoff: Backoff,
}

/// The leading steps of `steps` that a worker deals with by itself, up to the
/// first pair that has to be looked at: how many they are.
pub open spec fn quiet_steps(dir: Seq<Seq<u8>>, steps: Seq<Step>) -> nat
    decreases steps.len(),
{
    if steps.len() == 0 {
        0
    } else if action_of(dir, steps.first()) is Pair {
        0
    } else {
        1 + quiet_steps(dir, steps.drop_first())
    }
}

/// The differences that are reported for `steps` without a look at any
/// file, in the order of the steps.
pub open spec fn reports_of(dir: Seq<Seq<u8>>, steps: Seq<Step>) -> Seq<DiffView>
    decreases steps.len(),
{
    if steps.len() == 0 {
        Seq::empty()
    } else {
        match action_of(dir, steps.last()) {
            ActionView::Report(diff) => reports_of(dir, steps.drop_last()).push(diff),
            _ => reports_of(dir, steps.drop_last()),
        }
    }
}

/// The directories that are put on the stack for `steps`, in the order of
/// the steps.
pub open spec fn descents_of(dir: Seq<Seq<u8>>, steps: Seq<Step>) -> Seq<Seq<Seq<u8>>>
    decreases steps.len(),
{
    if steps.len() == 0 {
        Seq::empty()
    } else {
        match action_of(dir, steps.last()) {
            ActionView::Descend(path) => descents_of(dir, steps.drop_last()).push(path),
            _ => descents_of(dir, steps.drop_last()),
        }
    }
}

proof fn lemma_quiet_steps(dir: Seq<Seq<u8>>, steps: Seq<Step>, k: int)
    requires
        0 <= k <= steps.len(),
        forall|j: int| 0 <= j < k ==> !(#[trigger] action_of(dir, steps[j]) is Pair),
        k < steps.len() ==> action_of(dir, steps[k]) is Pair,
    ensures
        quiet_steps(dir, steps) == k,
    decreases steps.len(),
{
    if k > 0 {
        let rest = steps.drop_first();
        assert(!(action_of(dir, steps[0]) is Pair));
        assert forall|j: int| 0 <= j < k - 1 implies !(#[trigger] action_of(dir, rest[j])
            is Pair) by {
            assert(!(action_of(dir, steps[j + 1]) is Pair));
        }
        lemma_quiet_steps(dir, rest, k - 1);
    }
}

/// One worker of the comparison of the trees below `root1` and `root2`.
pub struct DirWorker<H: DiffHandler> {
    root1: Vec<u8>,
    root2: Vec<u8>,
    stack: StackHandle,
    diff_handler: Arc<H>,
    check_mtime: bool,
    follow_symlink: bool,
    /// The waiting of the worker while it is idle.
    idle: Option<IdleWait>,
    /// The differences that the worker has handed to the handler.
    reported: Ghost<Seq<DiffView>>,
    /// The directories that the worker has put on its stack.
    queued: Ghost<Seq<Seq<Seq<u8>>>>,
}

impl<H: DiffHandler> DirWorker<H> {
    /// The differences that the worker has handed to the handler so far, in
    /// the order in which it did.
    pub closed spec fn reported(&self) -> Seq<DiffView> {
        self.reported@
    }

    /// The directories that the worker has put on its stack so far, in the
    /// order in which it did.
    pub closed spec fn queued(&self) -> Seq<Seq<Seq<u8>>> {
        self.queued@
    }

    /// Whether the worker has found its stack empty and has not found a
    /// directory since.
    pub closed spec fn is_idle(&self) -> bool {
        self.idle is Some
    }

    /// The stacks as the worker holds them.
    pub closed spec fn stack(&self) -> StackHandle {
        self.stack
    }

    /// The roots of the two trees and the choices of the caller.
    pub closed spec fn setup(&self) -> (Seq<u8>, Seq<u8>, bool, bool) {
        (self.root1@, self.root2@, self.check_mtime, self.follow_symlink)
    }

    /// Makes a worker for the trees below `root1` and `root2`. It has
    /// reported nothing yet, has put nothing on its stack, and is not idle.
    pub fn new(
        root1: Vec<u8>,
        root2: Vec<u8>,
        diff_handler: Arc<H>,
        stack: StackHandle,
        check_mtime: bool,
        follow_symlink: bool,
    ) -> (worker: Self)
        ensures
            worker.setup() == (root1@, root2@, check_mtime, follow_symlink),
            worker.stack() == stack,
            worker.reported() == Seq::<DiffView>::empty(),
            worker.queued() == Seq::<Seq<Seq<u8>>>::empty(),
            !worker.is_idle(),
    {
        Self {
            root1,
            root2,
            stack,
            diff_handler,
            check_mtime,
            follow_symlink,
            idle: None,
            reported: Ghost(Seq::empty()),
            queued: Ghost(Seq::empty()),
        }
    }

    /// The root of the first tree.
    pub fn root1(&self) -> (root: &Vec<u8>)
        ensures
            root@ == self.setup().0,
    {
        &self.root1
    }

    /// The root of the second tree.
    pub fn root2(&self) -> (root: &Vec<u8>)
        ensures
            root@ == self.setup().1,
    {
        &self.root2
    }

    /// Whether files of the same content are compared by the time of their
    /// last modification.
    pub fn check_mtime(&self) -> (check: bool)
        ensures
            check == self.setup().2,
    {
        self.check_mtime
    }

    /// Whether symbolic links are replaced by what they lead to.
    pub fn follow_symlink(&self) -> (follow: bool)
        ensures
            follow == self.setup().3,
    {
        self.follow_symlink
    }

    /// Looks for the next directory to compare: on the worker's own stack
    /// first, then, once, on the stacks of the other workers. A worker that
    /// finds its own stack empty becomes idle and counts itself out, and
    /// stays so until it has stolen a directory. An idle worker that finds
    /// every stack empty and then reads from the counter that no worker is
    /// left that is not idle has finished.
    ///
    /// Which directory comes back, if any, depends on what the other workers
    /// do in the meantime.
    pub fn next_work(&mut self) -> (next: NextWork)
        ensures
            next is Dir <==> !final(self).is_idle(),
            old(self).is_idle() && old(self).stack().stealer_count() == 0 ==> !(next is Dir),
            final(self).setup() == old(self).setup(),
            final(self).stack() == old(self).stack(),
            final(self).reported() == old(self).reported(),
            final(self).queued() == old(self).queued(),
    {
        if self.idle.is_none() {
            if let Some(su) = self.stack.pop() {
                return NextWork::Dir(su.dir);
            }
            self.stack.enter_idle();
            self.idle = Some(
                IdleWait { empty_backoff: Backoff::new(), retry_backoff: Backoff::new() },
            );
        }
        let stolen = self.stack.steal_round();
        let non_idle = match stolen {
            StealOutcome::Empty => Some(self.stack.non_idle()),
            _ => None,
        };
        match idle_step(stolen, non_idle) {
            IdleStep::RetrySoon => {
                if let Some(wait) = &self.idle {
                    wait.retry_backoff.snooze();
                }
                NextWork::Again
            },
            IdleStep::WaitForWork => {
                if let Some(wait) = &self.idle {
                    wait.empty_backoff.snooze();
                }
                NextWork::Again
            },
            IdleStep::Quit => NextWork::Finished,
            IdleStep::Resume(su) => {
                self.stack.leave_idle();
                self.idle = None;
                NextWork::Dir(su.dir)
            },
        }
    }

    /// Hands a difference to the handler.
    pub fn process_diff(&mut self, diff: Diff)
        ensures
            final(self).reported() == old(self).reported().push(diff@),
            final(self).queued() == old(self).queued(),
            final(self).setup() == old(self).setup(),
            final(self).stack() == old(self).stack(),
            final(self).is_idle() == old(self).is_idle(),
    {
        proof {
            self.reported@ = self.reported@.push(diff@);
        }
        self.diff_handler.process(self.root1.as_slice(), self.root2.as_slice(), diff)
    }

    /// Puts a directory on the worker's stack, to be compared later.
    pub fn push_to_stack(&mut self, dir: RelativePath)
        ensures
            final(self).queued() == old(self).queued().push(dir@),
            final(self).reported() == old(self).reported(),
            final(self).setup() == old(self).setup(),
            final(self).stack() == old(self).stack(),
            final(self).is_idle() == old(self).is_idle(),
    {
        proof {
            self.queued@ = self.queued@.push(dir@);
        }
        self.stack.push(StackUnit { dir })
    }

    /// Goes on with the pairing `merge` up to the next pair that has to be
    /// looked at, which is returned, or to the end. On the way every entry
    /// that is on one side only is reported, and every directory that is on
    /// both sides is put on the stack.
    pub fn advance(&mut self, merge: &mut DirMerge) -> (task: Option<PairTask>)
        ensures
            ({
                let dir = old(merge).dir_view();
                let steps = old(merge).pending();
                let k = quiet_steps(dir, steps) as int;
                &&& final(self).reported() == old(self).reported() + reports_of(dir, steps.take(k))
                &&& final(self).queued() == old(self).queued() + descents_of(dir, steps.take(k))
                &&& match task {
                    Some(t) => {
                        &&& k < steps.len()
                        &&& ActionView::Pair(t@) == action_of(dir, steps[k])
                        &&& final(merge).pending() == steps.skip(k + 1)
                    },
                    None => k == steps.len() && final(merge).pending().len() == 0,
                }
            }),
            final(merge).dir_view() == old(merge).dir_view(),
            final(self).setup() == old(self).setup(),
            final(self).stack() == old(self).stack(),
            final(self).is_idle() == old(self).is_idle(),
    {
        let ghost dir = merge.dir_view();
        let ghost steps = merge.pending();
        let ghost mut k: int = 0;
        loop
            invariant
                0 <= k <= steps.len(),
                dir == old(merge).dir_view(),
                steps == old(merge).pending(),
                merge.dir_view() == dir,
                merge.pending() == steps.skip(k),
                forall|j: int| 0 <= j < k ==> !(#[trigger] action_of(dir, steps[j]) is Pair),
                self.reported() == old(self).reported() + reports_of(dir, steps.take(k)),
                self.queued() == old(self).queued() + descents_of(dir, steps.take(k)),
                self.setup() == old(self).setup(),
                self.stack() == old(self).stack(),
                self.is_idle() == old(self).is_idle(),
            decreases steps.len() - k,
        {
            let action = merge.next_action();
            proof {
                if k < steps.len() {
                    assert(steps.skip(k)[0] == steps[k]);
                    assert(steps.skip(k).skip(1) =~= steps.skip(k + 1));
                    assert(steps.take(k + 1).drop_last() =~= steps.take(k));
                    assert(steps.take(k + 1).last() == steps[k]);
                }
            }
            match action {
                None => {
                    proof {
                        lemma_quiet_steps(dir, steps, k);
                    }
                    return None;
                },
                Some(Action::Pair(task)) => {
                    proof {
                        lemma_quiet_steps(dir, steps, k);
                    }
                    return Some(task);
                },
                Some(Action::Report(diff)) => {
                    self.process_diff(diff);
                    proof {
                        assert(self.reported() =~= old(self).reported() + reports_of(
                            dir,
                            steps.take(k + 1),
                        ));
                    }
                },
                Some(Action::Descend(p)) => {
                    self.push_to_stack(p);
                    proof {
                        assert(self.queued() =~= old(self).queued() + descents_of(
                            dir,
                            steps.take(k + 1),
                        ));
                    }
                },
            }
            proof {
                k = k + 1;
            }
        }
    }
}

} // verus!
