//! A model of the workers and their stacks, and why no directory is lost.
//!
//! The workers run in threads of their own, and what one of them finds on a
//! stack depends on what the others did before. The model follows every
//! directory from the moment it is put on a stack to the moment it has been
//! compared, through the moves that the workers make in any order:
//!
//! - a worker takes a directory from its own stack, or finds the stack empty
//!   and rests, or steals and resumes, or quits: these are the moves of
//!   `DirWorker::next_work`;
//! - a worker puts the subdirectories of the directory in its hands on its
//!   stack and finishes: these are the moves of `DirWorker::advance`.
//!
//! Of every run of such moves the model shows that it ends after a number of
//! moves that the size of the trees bounds, that it does not get stuck before
//! every worker has quit, and that by then every directory that is on both
//! sides has been compared. It also shows what the counter of the workers
//! that are not idle is worth: while it is at zero every stack is empty.

use crate::entry::{
    key_lt, lemma_key_order_same, same_key, strictly_sorted, type_order, EntryView,
};
use crate::merge::{
    lemma_merge_steps_classify, lemma_merge_steps_mirrored, lemma_merge_steps_pairs_alike,
    merge_steps, mirrored_steps, Step,
};
use crate::worker::descents_of;
use vstd::prelude::*;

verus! {

/// A directory, by its path relative to the roots.
pub type Dir = Seq<Seq<u8>>;

/// The directories that are on both sides, below the two roots.
pub struct Forest {
    /// The names of the directories that are on both sides in a directory, in
    /// the order in which a worker puts them on its stack.
    pub subdirs: spec_fn(Dir) -> Seq<Seq<u8>>,
}

impl Forest {
    /// No directory holds two subdirectories of one name.
    pub open spec fn well_formed(self) -> bool {
        forall|d: Dir| #[trigger] (self.subdirs)(d).no_duplicates()
    }

    /// How many subdirectories of `d` are on both sides.
    pub open spec fn count(self, d: Dir) -> nat {
        (self.subdirs)(d).len()
    }

    /// The subdirectory of `d` that is put on the stack as number `j`.
    pub open spec fn child(self, d: Dir, j: int) -> Dir {
        d.push((self.subdirs)(d)[j])
    }

    /// The directory is on both sides, and so are all the directories above
    /// it: the comparison has to come to it.
    pub open spec fn reachable(self, d: Dir) -> bool
        decreases d.len(),
    {
        d.len() == 0 || (self.reachable(d.drop_last()) && (self.subdirs)(d.drop_last()).contains(
            d.last(),
        ))
    }
}

/// What a worker is doing.
pub enum Phase {
    /// It compares directories, or looks for one on its own stack.
    Busy,
    /// It has found its own stack empty and tries to steal.
    Idle,
    /// It has ended.
    Done,
}

/// Where a directory is.
pub enum Place {
    /// On the stack of this worker.
    Stacked(nat),
    /// In the hands of this worker, which has put this many of its
    /// subdirectories on its stack so far.
    Held(nat, nat),
    /// Behind: it has been compared.
    Compared,
}

impl Place {
    /// The directory is in the hands of the worker `w`.
    pub open spec fn in_hands_of(self, w: nat) -> bool {
        self matches Place::Held(v, _) && v == w
    }
}

/// The workers and the directories at one moment.
pub struct Pool {
    /// What each worker is doing.
    pub phase: Seq<Phase>,
    /// Where each directory is that has been put on a stack so far.
    pub place: Map<Dir, Place>,
    /// The counter of the workers that are not idle.
    pub non_idle: int,
}

/// A move of one worker.
pub enum Move {
    /// The worker takes the directory from its own stack.
    Take(nat, Dir),
    /// The worker puts the next subdirectory of the directory that it holds
    /// on its own stack.
    Put(nat, Dir),
    /// The worker has compared the directory that it holds.
    Finish(nat, Dir),
    /// The worker finds its own stack empty, becomes idle and counts itself
    /// out.
    Rest(nat),
    /// The idle worker steals the directory from the stack of another.
    Steal(nat, Dir),
    /// The idle worker that has stolen a directory counts itself in again.
    Resume(nat),
    /// The idle worker reads zero from the counter and ends.
    Quit(nat),
}

/// How many of the workers are busy.
pub open spec fn busy(phase: Seq<Phase>) -> nat
    decreases phase.len(),
{
    if phase.len() == 0 {
        0
    } else {
        busy(phase.drop_last()) + if phase.last() is Busy {
            1nat
        } else {
            0nat
        }
    }
}

impl Pool {
    /// How many workers there are.
    pub open spec fn workers(self) -> nat {
        self.phase.len()
    }

    /// The directory has been put on a stack at some time.
    pub open spec fn knows(self, d: Dir) -> bool {
        self.place.dom().contains(d)
    }

    /// The worker has no directory in its hands.
    pub open spec fn holds_nothing(self, w: nat) -> bool {
        forall|d: Dir| #[trigger] self.knows(d) ==> !self.place[d].in_hands_of(w)
    }

    /// The stack of the worker is empty.
    pub open spec fn stack_empty(self, w: nat) -> bool {
        forall|d: Dir| #[trigger] self.knows(d) ==> self.place[d] != Place::Stacked(w)
    }

    /// Every worker has ended.
    pub open spec fn all_done(self) -> bool {
        forall|w: int| 0 <= w < self.phase.len() ==> #[trigger] self.phase[w] is Done
    }

    /// The start: every worker is busy and counted, and the roots are on the
    /// stack of the first.
    pub open spec fn init(n: nat) -> Pool {
        Pool {
            phase: Seq::new(n, |w: int| Phase::Busy),
            place: Map::empty().insert(Seq::empty(), Place::Stacked(0)),
            non_idle: n as int,
        }
    }

    /// The pool after the move `mv`, which the worker is in a position to
    /// make.
    pub open spec fn moves(self, forest: Forest, mv: Move, after: Pool) -> bool {
        match mv {
            Move::Take(w, d) => {
                &&& w < self.workers()
                &&& self.phase[w as int] is Busy
                &&& self.holds_nothing(w)
                &&& self.knows(d)
                &&& self.place[d] == Place::Stacked(w)
                &&& after == Pool { place: self.place.insert(d, Place::Held(w, 0)), ..self }
            },
            Move::Put(w, d) => {
                &&& w < self.workers()
                &&& self.phase[w as int] is Busy
                &&& self.knows(d)
                &&& self.place[d] matches Place::Held(v, k)
                &&& v == w
                &&& k < forest.count(d)
                &&& after == Pool {
                    place: self.place.insert(forest.child(d, k as int), Place::Stacked(w)).insert(
                        d,
                        Place::Held(w, k + 1),
                    ),
                    ..self
                }
            },
            Move::Finish(w, d) => {
                &&& w < self.workers()
                &&& self.phase[w as int] is Busy
                &&& self.knows(d)
                &&& self.place[d] == Place::Held(w, forest.count(d))
                &&& after == Pool { place: self.place.insert(d, Place::Compared), ..self }
            },
            Move::Rest(w) => {
                &&& w < self.workers()
                &&& self.phase[w as int] is Busy
                &&& self.holds_nothing(w)
                &&& self.stack_empty(w)
                &&& after == Pool {
                    phase: self.phase.update(w as int, Phase::Idle),
                    non_idle: self.non_idle - 1,
                    ..self
                }
            },
            Move::Steal(w, d) => {
                &&& w < self.workers()
                &&& self.phase[w as int] is Idle
                &&& self.holds_nothing(w)
                &&& self.knows(d)
                &&& self.place[d] matches Place::Stacked(v)
                &&& v != w
                &&& after == Pool { place: self.place.insert(d, Place::Held(w, 0)), ..self }
            },
            Move::Resume(w) => {
                &&& w < self.workers()
                &&& self.phase[w as int] is Idle
                &&& !self.holds_nothing(w)
                &&& after == Pool {
                    phase: self.phase.update(w as int, Phase::Busy),
                    non_idle: self.non_idle + 1,
                    ..self
                }
            },
            Move::Quit(w) => {
                &&& w < self.workers()
                &&& self.phase[w as int] is Idle
                &&& self.holds_nothing(w)
                &&& self.non_idle == 0
                &&& after == Pool { phase: self.phase.update(w as int, Phase::Done), ..self }
            },
        }
    }

    /// How many subdirectories of a directory at `place` have been put on a
    /// stack, where it has `total` of them.
    pub open spec fn put_so_far(place: Place, total: nat) -> nat {
        match place {
            Place::Stacked(_) => 0,
            Place::Held(_, k) => k,
            Place::Compared => total,
        }
    }

    /// What holds of a directory that has been put on a stack. It is with a
    /// worker that can deal with it; those of its subdirectories that were put
    /// on a stack are known; and it was put on a stack for its parent.
    pub open spec fn accounts_for(self, forest: Forest, d: Dir) -> bool {
        &&& match self.place[d] {
            Place::Stacked(w) => w < self.workers() && self.phase[w as int] is Busy,
            Place::Held(w, k) => w < self.workers() && !(self.phase[w as int] is Done) && k
                <= forest.count(d),
            Place::Compared => true,
        }
        &&& forall|j: int|
            0 <= j < Self::put_so_far(self.place[d], forest.count(d)) ==> self.knows(
                #[trigger] forest.child(d, j),
            )
        &&& d.len() > 0 ==> {
            &&& self.knows(d.drop_last())
            &&& exists|j: int|
                0 <= j < Self::put_so_far(self.place[d.drop_last()], forest.count(d.drop_last()))
                    && #[trigger] forest.child(d.drop_last(), j) == d
        }
    }

    /// What holds at every moment: the counter tells how many workers are
    /// busy, the roots are known, and every known directory is accounted for.
    pub open spec fn inv(self, forest: Forest) -> bool {
        &&& self.non_idle == busy(self.phase)
        &&& self.knows(Seq::empty())
        &&& forall|d: Dir| #[trigger] self.knows(d) ==> self.accounts_for(forest, d)
    }
}

proof fn lemma_busy_all(n: nat)
    ensures
        busy(Seq::new(n, |w: int| Phase::Busy)) == n,
    decreases n,
{
    if n > 0 {
        lemma_busy_all((n - 1) as nat);
        assert(Seq::new(n, |w: int| Phase::Busy).drop_last() =~= Seq::new(
            (n - 1) as nat,
            |w: int| Phase::Busy,
        ));
    }
}

proof fn lemma_busy_update(phase: Seq<Phase>, w: int, to: Phase)
    requires
        0 <= w < phase.len(),
    ensures
        busy(phase.update(w, to)) == busy(phase) - (if phase[w] is Busy {
            1int
        } else {
            0int
        }) + (if to is Busy {
            1int
        } else {
            0int
        }),
    decreases phase.len(),
{
    if w == phase.len() - 1 {
        assert(phase.update(w, to).drop_last() =~= phase.drop_last());
    } else {
        lemma_busy_update(phase.drop_last(), w, to);
        assert(phase.update(w, to).drop_last() =~= phase.drop_last().update(w, to));
    }
}

proof fn lemma_busy_none(phase: Seq<Phase>, w: int)
    requires
        busy(phase) == 0,
        0 <= w < phase.len(),
    ensures
        !(phase[w] is Busy),
    decreases phase.len(),
{
    if w < phase.len() - 1 {
        lemma_busy_none(phase.drop_last(), w);
    }
}

/// At the start everything is in order.
pub proof fn lemma_init_inv(forest: Forest, n: nat)
    requires
        n > 0,
    ensures
        Pool::init(n).inv(forest),
{
    lemma_busy_all(n);
}

/// A subdirectory that a worker puts on its stack has not been on a stack
/// before: no directory is ever in two places.
pub proof fn lemma_put_is_new(pool: Pool, forest: Forest, w: nat, d: Dir, k: nat)
    requires
        forest.well_formed(),
        pool.inv(forest),
        pool.knows(d),
        pool.place[d] == Place::Held(w, k),
        k < forest.count(d),
    ensures
        !pool.knows(forest.child(d, k as int)),
{
    let c = forest.child(d, k as int);
    if pool.knows(c) {
        assert(pool.accounts_for(forest, c));
        assert(c.drop_last() =~= d);
        let j = choose|j: int|
            0 <= j < Pool::put_so_far(pool.place[c.drop_last()], forest.count(c.drop_last()))
                && #[trigger] forest.child(c.drop_last(), j) == c;
        assert(forest.child(d, j).last() == forest.child(d, k as int).last());
        assert((forest.subdirs)(d).no_duplicates());
        assert((forest.subdirs)(d)[j] == (forest.subdirs)(d)[k as int]);
    }
}

/// Every move keeps everything in order.
pub proof fn lemma_move_keeps_inv(pool: Pool, forest: Forest, mv: Move, after: Pool)
    requires
        forest.well_formed(),
        pool.inv(forest),
        pool.moves(forest, mv, after),
    ensures
        after.inv(forest),
{
    match mv {
        Move::Take(w, d) => {
            assert(after.place.dom() =~= pool.place.dom());
            assert forall|e: Dir| #[trigger] after.knows(e) implies after.accounts_for(
                forest,
                e,
            ) by {
                assert(pool.knows(e));
                assert(pool.accounts_for(forest, e));
                lemma_same_put_so_far(pool, forest, after, d, e);
            }
        },
        Move::Steal(w, d) => {
            assert(after.place.dom() =~= pool.place.dom());
            assert forall|e: Dir| #[trigger] after.knows(e) implies after.accounts_for(
                forest,
                e,
            ) by {
                assert(pool.knows(e));
                assert(pool.accounts_for(forest, e));
                lemma_same_put_so_far(pool, forest, after, d, e);
            }
        },
        Move::Finish(w, d) => {
            assert(after.place.dom() =~= pool.place.dom());
            assert forall|e: Dir| #[trigger] after.knows(e) implies after.accounts_for(
                forest,
                e,
            ) by {
                assert(pool.knows(e));
                assert(pool.accounts_for(forest, e));
                lemma_same_put_so_far(pool, forest, after, d, e);
            }
        },
        Move::Put(w, d) => {
            let k = pool.place[d]->Held_1;
            let c = forest.child(d, k as int);
            lemma_put_is_new(pool, forest, w, d, k);
            assert(c.drop_last() =~= d);
            assert(pool.accounts_for(forest, d));
            assert forall|e: Dir| #[trigger] after.knows(e) implies after.accounts_for(
                forest,
                e,
            ) by {
                if e == c {
                    assert(forest.child(d, k as int) == c);
                } else {
                    assert(pool.knows(e));
                    assert(pool.accounts_for(forest, e));
                    if e == d {
                        assert forall|j: int|
                            0 <= j < Pool::put_so_far(
                                after.place[e],
                                forest.count(e),
                            ) implies after.knows(#[trigger] forest.child(e, j)) by {
                            if j < k {
                                assert(pool.knows(forest.child(d, j)));
                            }
                        }
                    } else {
                        assert forall|j: int|
                            0 <= j < Pool::put_so_far(
                                after.place[e],
                                forest.count(e),
                            ) implies after.knows(#[trigger] forest.child(e, j)) by {
                            assert(pool.knows(forest.child(e, j)));
                        }
                    }
                    if e.len() > 0 {
                        let p = e.drop_last();
                        assert(pool.knows(p));
                        assert(p != c);
                        let j = choose|j: int|
                            0 <= j < Pool::put_so_far(pool.place[p], forest.count(p))
                                && #[trigger] forest.child(p, j) == e;
                        assert(0 <= j < Pool::put_so_far(after.place[p], forest.count(p))
                            && forest.child(p, j) == e);
                    }
                }
            }
        },
        Move::Rest(w) => {
            lemma_busy_update(pool.phase, w as int, Phase::Idle);
            assert forall|e: Dir| #[trigger] after.knows(e) implies after.accounts_for(
                forest,
                e,
            ) by {
                assert(pool.knows(e));
                assert(pool.accounts_for(forest, e));
                lemma_same_places(pool, forest, after, e);
            }
        },
        Move::Resume(w) => {
            lemma_busy_update(pool.phase, w as int, Phase::Busy);
            assert forall|e: Dir| #[trigger] after.knows(e) implies after.accounts_for(
                forest,
                e,
            ) by {
                assert(pool.knows(e));
                assert(pool.accounts_for(forest, e));
                lemma_same_places(pool, forest, after, e);
            }
        },
        Move::Quit(w) => {
            lemma_busy_update(pool.phase, w as int, Phase::Done);
            assert forall|e: Dir| #[trigger] after.knows(e) implies after.accounts_for(
                forest,
                e,
            ) by {
                assert(pool.knows(e));
                assert(pool.accounts_for(forest, e));
                lemma_same_places(pool, forest, after, e);
            }
        },
    }
}

/// Where a move changes the place of `d` only, and not how many of the
/// subdirectories of `d` have been put on a stack, what was known of the
/// subdirectories and of the parent of any directory `e` still holds.
proof fn lemma_same_put_so_far(pool: Pool, forest: Forest, after: Pool, d: Dir, e: Dir)
    requires
        pool.knows(d),
        pool.knows(e),
        pool.accounts_for(forest, e),
        after.place.dom() == pool.place.dom(),
        forall|x: Dir| x != d && pool.knows(x) ==> after.place[x] == pool.place[x],
        Pool::put_so_far(after.place[d], forest.count(d)) == Pool::put_so_far(
            pool.place[d],
            forest.count(d),
        ),
    ensures
        forall|j: int|
            0 <= j < Pool::put_so_far(after.place[e], forest.count(e)) ==> after.knows(
                #[trigger] forest.child(e, j),
            ),
        e.len() > 0 ==> {
            &&& after.knows(e.drop_last())
            &&& exists|j: int|
                0 <= j < Pool::put_so_far(after.place[e.drop_last()], forest.count(e.drop_last()))
                    && #[trigger] forest.child(e.drop_last(), j) == e
        },
{
    assert forall|j: int|
        0 <= j < Pool::put_so_far(after.place[e], forest.count(e)) implies after.knows(
        #[trigger] forest.child(e, j),
    ) by {
        assert(pool.knows(forest.child(e, j)));
    }
    if e.len() > 0 {
        let p = e.drop_last();
        let j = choose|j: int|
            0 <= j < Pool::put_so_far(pool.place[p], forest.count(p)) && #[trigger] forest.child(
                p,
                j,
            ) == e;
        assert(0 <= j < Pool::put_so_far(after.place[p], forest.count(p)) && forest.child(p, j)
            == e);
    }
}

/// Where a move changes no place, what was known of the subdirectories and
/// of the parent of any directory `e` still holds.
proof fn lemma_same_places(pool: Pool, forest: Forest, after: Pool, e: Dir)
    requires
        pool.knows(e),
        pool.accounts_for(forest, e),
        after.place == pool.place,
    ensures
        forall|j: int|
            0 <= j < Pool::put_so_far(after.place[e], forest.count(e)) ==> after.knows(
                #[trigger] forest.child(e, j),
            ),
        e.len() > 0 ==> {
            &&& after.knows(e.drop_last())
            &&& exists|j: int|
                0 <= j < Pool::put_so_far(after.place[e.drop_last()], forest.count(e.drop_last()))
                    && #[trigger] forest.child(e.drop_last(), j) == e
        },
{
}

/// While the counter is at zero, no worker is busy and every stack is empty.
/// A directory may still be in the hands of a worker that has stolen it and
/// has not counted itself in yet: a worker that ends then leaves the rest to
/// that one.
pub proof fn lemma_counter_at_zero(pool: Pool, forest: Forest)
    requires
        pool.inv(forest),
        pool.non_idle == 0,
    ensures
        forall|w: int| 0 <= w < pool.workers() ==> !(#[trigger] pool.phase[w] is Busy),
        forall|d: Dir| pool.knows(d) ==> !(#[trigger] pool.place[d] is Stacked),
{
    assert forall|w: int| 0 <= w < pool.workers() implies !(#[trigger] pool.phase[w] is Busy) by {
        lemma_busy_none(pool.phase, w);
    }
    assert forall|d: Dir| pool.knows(d) implies !(#[trigger] pool.place[d] is Stacked) by {
        assert(pool.accounts_for(forest, d));
        if let Place::Stacked(w) = pool.place[d] {
            lemma_busy_none(pool.phase, w as int);
        }
    }
}

proof fn lemma_known_is_reachable(pool: Pool, forest: Forest, d: Dir)
    requires
        pool.inv(forest),
        pool.knows(d),
    ensures
        forest.reachable(d),
    decreases d.len(),
{
    if d.len() > 0 {
        assert(pool.accounts_for(forest, d));
        let p = d.drop_last();
        lemma_known_is_reachable(pool, forest, p);
        let j = choose|j: int|
            0 <= j < Pool::put_so_far(pool.place[p], forest.count(p)) && #[trigger] forest.child(
                p,
                j,
            ) == d;
        assert(pool.accounts_for(forest, p));
        assert(forest.child(p, j).last() == (forest.subdirs)(p)[j]);
        assert((forest.subdirs)(p)[j] == d.last());
    }
}

proof fn lemma_reachable_is_compared(pool: Pool, forest: Forest, d: Dir)
    requires
        pool.inv(forest),
        pool.workers() > 0,
        pool.all_done(),
        forest.reachable(d),
    ensures
        pool.knows(d),
        pool.place[d] == Place::Compared,
    decreases d.len(),
{
    if d.len() == 0 {
        assert(d =~= Seq::empty());
    } else {
        let p = d.drop_last();
        lemma_reachable_is_compared(pool, forest, p);
        let names = (forest.subdirs)(p);
        let j = choose|j: int| 0 <= j < names.len() && names[j] == d.last();
        assert(pool.accounts_for(forest, p));
        assert(pool.knows(forest.child(p, j)));
        assert(forest.child(p, j) =~= d);
    }
    assert(pool.accounts_for(forest, d));
}

/// Once every worker has ended, the directories that have been compared are
/// those that are on both sides, with all the directories above them: none
/// is left out and none is left over. It does not matter how many workers
/// there were, nor in what order they made their moves.
pub proof fn lemma_all_done(pool: Pool, forest: Forest)
    requires
        pool.inv(forest),
        pool.workers() > 0,
        pool.all_done(),
    ensures
        forall|d: Dir|
            forest.reachable(d) <==> #[trigger] pool.knows(d) && pool.place[d] == Place::Compared,
{
    assert forall|d: Dir|
        forest.reachable(d) <==> #[trigger] pool.knows(d) && pool.place[d]
            == Place::Compared by {
        if forest.reachable(d) {
            lemma_reachable_is_compared(pool, forest, d);
        }
        if pool.knows(d) {
            lemma_known_is_reachable(pool, forest, d);
        }
    }
}

/// One move of one worker leads from `before` to `after`.
pub open spec fn follows(forest: Forest, before: Pool, after: Pool) -> bool {
    exists|mv: Move| before.moves(forest, mv, after)
}

/// The pools that the workers go through, from the start on, each one move
/// after the one before.
pub open spec fn is_run(forest: Forest, run: Seq<Pool>) -> bool {
    &&& run.len() > 0
    &&& run[0].workers() > 0
    &&& run[0] == Pool::init(run[0].workers())
    &&& forall|i: int| 0 <= i < run.len() - 1 ==> follows(forest, #[trigger] run[i], run[i + 1])
}

/// Whatever the workers do, everything stays in order.
pub proof fn lemma_run_inv(forest: Forest, run: Seq<Pool>)
    requires
        forest.well_formed(),
        is_run(forest, run),
    ensures
        run.last().inv(forest),
        run.last().workers() == run[0].workers(),
    decreases run.len(),
{
    if run.len() == 1 {
        lemma_init_inv(forest, run[0].workers());
    } else {
        let before = run.drop_last();
        assert(is_run(forest, before)) by {
            assert forall|i: int| 0 <= i < before.len() - 1 implies follows(
                forest,
                #[trigger] before[i],
                before[i + 1],
            ) by {
                assert(follows(forest, run[i], run[i + 1]));
            }
        }
        lemma_run_inv(forest, before);
        let last_but_one = run[run.len() - 2];
        let last = run[run.len() - 1];
        assert(follows(forest, last_but_one, last));
        let mv = choose|mv: Move| last_but_one.moves(forest, mv, last);
        lemma_move_keeps_inv(last_but_one, forest, mv, last);
    }
}

/// However many workers there are and whatever they do: once all of them
/// have ended, every directory that is on both sides has been compared, and
/// nothing else has.
pub proof fn lemma_run_compares_all(forest: Forest, run: Seq<Pool>)
    requires
        forest.well_formed(),
        is_run(forest, run),
        run.last().all_done(),
    ensures
        forall|d: Dir|
            forest.reachable(d) <==> #[trigger] run.last().knows(d) && run.last().place[d]
                == Place::Compared,
{
    lemma_run_inv(forest, run);
    lemma_all_done(run.last(), forest);
}

/// While a worker has not ended, some worker can make a move: the workers
/// never wait for one another.
pub proof fn lemma_some_move_is_possible(pool: Pool, forest: Forest)
    requires
        pool.inv(forest),
        !pool.all_done(),
    ensures
        exists|mv: Move, after: Pool| pool.moves(forest, mv, after),
{
    let w = choose|w: int| 0 <= w < pool.phase.len() && !(#[trigger] pool.phase[w] is Done);
    if exists|b: int| 0 <= b < pool.phase.len() && #[trigger] pool.phase[b] is Busy {
        let b = choose|b: int| 0 <= b < pool.phase.len() && #[trigger] pool.phase[b] is Busy;
        let bn = b as nat;
        if !pool.holds_nothing(bn) {
            let d = choose|d: Dir| #[trigger] pool.knows(d) && pool.place[d].in_hands_of(bn);
            assert(pool.accounts_for(forest, d));
            let k = pool.place[d]->Held_1;
            if k < forest.count(d) {
                let after = Pool {
                    place: pool.place.insert(forest.child(d, k as int), Place::Stacked(bn)).insert(
                        d,
                        Place::Held(bn, k + 1),
                    ),
                    ..pool
                };
                assert(pool.moves(forest, Move::Put(bn, d), after));
            } else {
                let after = Pool { place: pool.place.insert(d, Place::Compared), ..pool };
                assert(pool.moves(forest, Move::Finish(bn, d), after));
            }
        } else if !pool.stack_empty(bn) {
            let d = choose|d: Dir| #[trigger] pool.knows(d) && pool.place[d] == Place::Stacked(bn);
            let after = Pool { place: pool.place.insert(d, Place::Held(bn, 0)), ..pool };
            assert(pool.moves(forest, Move::Take(bn, d), after));
        } else {
            let after = Pool {
                phase: pool.phase.update(b, Phase::Idle),
                non_idle: pool.non_idle - 1,
                ..pool
            };
            assert(pool.moves(forest, Move::Rest(bn), after));
        }
    } else {
        let wn = w as nat;
        assert(pool.phase[w] is Idle);
        if !pool.holds_nothing(wn) {
            let after = Pool {
                phase: pool.phase.update(w, Phase::Busy),
                non_idle: pool.non_idle + 1,
                ..pool
            };
            assert(pool.moves(forest, Move::Resume(wn), after));
        } else {
            lemma_busy_is_zero(pool.phase);
            let after = Pool { phase: pool.phase.update(w, Phase::Done), ..pool };
            assert(pool.moves(forest, Move::Quit(wn), after));
        }
    }
}

proof fn lemma_busy_is_zero(phase: Seq<Phase>)
    requires
        forall|w: int| 0 <= w < phase.len() ==> !(#[trigger] phase[w] is Busy),
    ensures
        busy(phase) == 0,
    decreases phase.len(),
{
    if phase.len() > 0 {
        assert forall|w: int| 0 <= w < phase.drop_last().len() implies !(
        #[trigger] phase.drop_last()[w] is Busy) by {
            assert(phase[w] == phase.drop_last()[w]);
        }
        lemma_busy_is_zero(phase.drop_last());
        assert(!(phase[phase.len() - 1] is Busy));
    }
}

/// How far a directory is from having been compared: the moves that it has
/// before it, counted generously.
pub open spec fn distance(pool: Pool, d: Dir) -> nat {
    if !pool.knows(d) {
        5
    } else {
        match pool.place[d] {
            Place::Stacked(_) => 4,
            Place::Held(w, _) => if w < pool.workers() && pool.phase[w as int] is Idle {
                3
            } else {
                1
            },
            Place::Compared => 0,
        }
    }
}

/// The distances of the directories `dirs`, added up.
pub open spec fn total_distance(pool: Pool, dirs: Seq<Dir>) -> nat
    decreases dirs.len(),
{
    if dirs.len() == 0 {
        0
    } else {
        total_distance(pool, dirs.drop_last()) + distance(pool, dirs.last())
    }
}

/// How far a worker is from having ended: two moves if it is busy, one if it
/// is idle.
pub open spec fn phase_distance(phase: Phase) -> nat {
    match phase {
        Phase::Busy => 2,
        Phase::Idle => 1,
        Phase::Done => 0,
    }
}

/// The distances of the workers from their end, added up.
pub open spec fn total_phases(phase: Seq<Phase>) -> nat
    decreases phase.len(),
{
    if phase.len() == 0 {
        0
    } else {
        total_phases(phase.drop_last()) + phase_distance(phase.last())
    }
}

/// A bound on the moves that are still to come, where `dirs` are the
/// directories that are on both sides.
pub open spec fn moves_left(pool: Pool, dirs: Seq<Dir>) -> nat {
    total_distance(pool, dirs) + total_phases(pool.phase)
}

proof fn lemma_total_phases_update(phase: Seq<Phase>, w: int, to: Phase)
    requires
        0 <= w < phase.len(),
    ensures
        total_phases(phase.update(w, to)) + phase_distance(phase[w]) == total_phases(phase)
            + phase_distance(to),
    decreases phase.len(),
{
    if w == phase.len() - 1 {
        assert(phase.update(w, to).drop_last() =~= phase.drop_last());
    } else {
        lemma_total_phases_update(phase.drop_last(), w, to);
        assert(phase.update(w, to).drop_last() =~= phase.drop_last().update(w, to));
    }
}

proof fn lemma_total_phases_start(n: nat)
    ensures
        total_phases(Seq::new(n, |w: int| Phase::Busy)) == 2 * n,
    decreases n,
{
    if n > 0 {
        lemma_total_phases_start((n - 1) as nat);
        assert(Seq::new(n, |w: int| Phase::Busy).drop_last() =~= Seq::new(
            (n - 1) as nat,
            |w: int| Phase::Busy,
        ));
    }
}

proof fn lemma_total_distance_bound(pool: Pool, dirs: Seq<Dir>)
    ensures
        total_distance(pool, dirs) <= 5 * dirs.len(),
    decreases dirs.len(),
{
    if dirs.len() > 0 {
        lemma_total_distance_bound(pool, dirs.drop_last());
    }
}

/// Where no directory is farther from having been compared after a move than
/// before, the distances do not add up to more; and where the directory
/// `dirs[at]` has come nearer by `gain`, they add up to that much less.
proof fn lemma_total_distance_falls(pool: Pool, after: Pool, dirs: Seq<Dir>, at: int, gain: nat)
    requires
        forall|i: int| 0 <= i < dirs.len() ==> distance(after, #[trigger] dirs[i]) <= distance(
            pool,
            dirs[i],
        ),
        0 <= at < dirs.len() ==> distance(after, dirs[at]) + gain <= distance(pool, dirs[at]),
    ensures
        total_distance(after, dirs) <= total_distance(pool, dirs),
        0 <= at < dirs.len() ==> total_distance(after, dirs) + gain <= total_distance(pool, dirs),
    decreases dirs.len(),
{
    if dirs.len() > 0 {
        let front = dirs.drop_last();
        assert forall|i: int| 0 <= i < front.len() implies distance(after, #[trigger] front[i])
            <= distance(pool, front[i]) by {
            assert(front[i] == dirs[i]);
        }
        assert(distance(after, dirs[dirs.len() - 1]) <= distance(pool, dirs[dirs.len() - 1]));
        if 0 <= at < front.len() {
            assert(front[at] == dirs[at]);
            lemma_total_distance_falls(pool, after, front, at, gain);
        } else {
            lemma_total_distance_falls(pool, after, front, -1, gain);
        }
    }
}

/// Every move brings the end nearer. `dirs` holds the directories that are
/// on both sides.
pub proof fn lemma_move_uses_up(pool: Pool, forest: Forest, mv: Move, after: Pool, dirs: Seq<Dir>)
    requires
        forest.well_formed(),
        pool.inv(forest),
        pool.moves(forest, mv, after),
        forall|d: Dir| forest.reachable(d) ==> dirs.contains(d),
    ensures
        moves_left(after, dirs) < moves_left(pool, dirs),
{
    match mv {
        Move::Take(w, d) => {
            lemma_moved_dir(pool, forest, after, dirs, d, 3);
        },
        Move::Steal(w, d) => {
            lemma_moved_dir(pool, forest, after, dirs, d, 1);
        },
        Move::Finish(w, d) => {
            assert(pool.accounts_for(forest, d));
            lemma_moved_dir(pool, forest, after, dirs, d, 1);
        },
        Move::Put(w, d) => {
            let k = pool.place[d]->Held_1;
            let c = forest.child(d, k as int);
            lemma_put_is_new(pool, forest, w, d, k);
            lemma_known_is_reachable(pool, forest, d);
            assert(c.drop_last() =~= d);
            assert((forest.subdirs)(d)[k as int] == c.last());
            assert(forest.reachable(c));
            assert(dirs.contains(c));
            let at = choose|at: int| 0 <= at < dirs.len() && dirs[at] == c;
            assert forall|i: int| 0 <= i < dirs.len() implies distance(after, #[trigger] dirs[i])
                <= distance(pool, dirs[i]) by {
                if dirs[i] != c && dirs[i] != d && pool.knows(dirs[i]) {
                    assert(after.place[dirs[i]] == pool.place[dirs[i]]);
                }
            }
            lemma_total_distance_falls(pool, after, dirs, at, 1);
        },
        Move::Rest(w) => {
            lemma_total_phases_update(pool.phase, w as int, Phase::Idle);
            assert forall|i: int| 0 <= i < dirs.len() implies distance(after, #[trigger] dirs[i])
                <= distance(pool, dirs[i]) by {
                if pool.knows(dirs[i]) {
                    assert(!pool.place[dirs[i]].in_hands_of(w));
                }
            }
            lemma_total_distance_falls(pool, after, dirs, -1, 0);
        },
        Move::Quit(w) => {
            lemma_total_phases_update(pool.phase, w as int, Phase::Done);
            assert forall|i: int| 0 <= i < dirs.len() implies distance(after, #[trigger] dirs[i])
                <= distance(pool, dirs[i]) by {
                if pool.knows(dirs[i]) {
                    assert(!pool.place[dirs[i]].in_hands_of(w));
                }
            }
            lemma_total_distance_falls(pool, after, dirs, -1, 0);
        },
        Move::Resume(w) => {
            lemma_total_phases_update(pool.phase, w as int, Phase::Busy);
            let d = choose|d: Dir| #[trigger] pool.knows(d) && pool.place[d].in_hands_of(w);
            lemma_known_is_reachable(pool, forest, d);
            assert(dirs.contains(d));
            let at = choose|at: int| 0 <= at < dirs.len() && dirs[at] == d;
            assert forall|i: int| 0 <= i < dirs.len() implies distance(after, #[trigger] dirs[i])
                <= distance(pool, dirs[i]) by {
            }
            lemma_total_distance_falls(pool, after, dirs, at, 2);
        },
    }
}

/// A move that changes the place of the directory `d` alone, and brings it
/// nearer by `gain`, brings the end nearer.
proof fn lemma_moved_dir(
    pool: Pool,
    forest: Forest,
    after: Pool,
    dirs: Seq<Dir>,
    d: Dir,
    gain: nat,
)
    requires
        pool.inv(forest),
        pool.knows(d),
        after.phase == pool.phase,
        after.place.dom() =~= pool.place.dom(),
        forall|x: Dir| x != d && pool.knows(x) ==> after.place[x] == pool.place[x],
        distance(after, d) + gain <= distance(pool, d),
        gain > 0,
        forall|x: Dir| forest.reachable(x) ==> dirs.contains(x),
    ensures
        moves_left(after, dirs) < moves_left(pool, dirs),
{
    lemma_known_is_reachable(pool, forest, d);
    assert(dirs.contains(d));
    let at = choose|at: int| 0 <= at < dirs.len() && dirs[at] == d;
    assert forall|i: int| 0 <= i < dirs.len() implies distance(after, #[trigger] dirs[i])
        <= distance(pool, dirs[i]) by {
        if dirs[i] != d && pool.knows(dirs[i]) {
            assert(after.place[dirs[i]] == pool.place[dirs[i]]);
        }
    }
    lemma_total_distance_falls(pool, after, dirs, at, gain);
}

/// The workers come to an end. Where the directories that are on both sides
/// are finitely many, `dirs`, no run of `n` workers is longer than five moves
/// for each directory and two for each worker.
pub proof fn lemma_run_bounded(forest: Forest, run: Seq<Pool>, dirs: Seq<Dir>)
    requires
        forest.well_formed(),
        is_run(forest, run),
        forall|d: Dir| forest.reachable(d) ==> dirs.contains(d),
    ensures
        run.len() - 1 + moves_left(run.last(), dirs) <= 5 * dirs.len() + 2 * run[0].workers(),
    decreases run.len(),
{
    if run.len() == 1 {
        lemma_total_phases_start(run[0].workers());
        lemma_total_distance_bound(run[0], dirs);
    } else {
        let before = run.drop_last();
        assert(is_run(forest, before)) by {
            assert forall|i: int| 0 <= i < before.len() - 1 implies follows(
                forest,
                #[trigger] before[i],
                before[i + 1],
            ) by {
                assert(follows(forest, run[i], run[i + 1]));
            }
        }
        lemma_run_bounded(forest, before, dirs);
        lemma_run_inv(forest, before);
        let last_but_one = run[run.len() - 2];
        let last = run[run.len() - 1];
        assert(follows(forest, last_but_one, last));
        let mv = choose|mv: Move| last_but_one.moves(forest, mv, last);
        lemma_move_uses_up(last_but_one, forest, mv, last, dirs);
    }
}

/// The sorted listings of all the directories of the two trees.
pub struct Trees {
    pub left: spec_fn(Dir) -> Seq<EntryView>,
    pub right: spec_fn(Dir) -> Seq<EntryView>,
}

impl Trees {
    /// The listing of the directory `d` of the left tree.
    pub open spec fn left_of(self, d: Dir) -> Seq<EntryView> {
        (self.left)(d)
    }

    /// The listing of the directory `d` of the right tree.
    pub open spec fn right_of(self, d: Dir) -> Seq<EntryView> {
        (self.right)(d)
    }

    /// No listing holds two entries of one rank and name.
    pub open spec fn well_formed(self) -> bool {
        forall|d: Dir|
            strictly_sorted(#[trigger] self.left_of(d)) && strictly_sorted(self.right_of(d))
    }

    /// The directories that a worker puts on its stack when it compares the
    /// directory `d`, in their order.
    pub open spec fn descents(self, d: Dir) -> Seq<Dir> {
        descents_of(d, merge_steps(self.left_of(d), self.right_of(d)))
    }

    /// The two trees exchanged.
    pub open spec fn swapped(self) -> Trees {
        Trees { left: self.right, right: self.left }
    }

    /// The directories that are on both sides in the two trees.
    pub open spec fn forest(self) -> Forest {
        Forest {
            subdirs: |d: Dir| Seq::new(self.descents(d).len(), |j: int| self.descents(d)[j].last()),
        }
    }
}

/// No two of the steps take entries of one rank and name from the left
/// listing.
spec fn left_keys_distinct(steps: Seq<Step>) -> bool {
    forall|i: int, j: int|
        0 <= i < j < steps.len() && (#[trigger] steps[i]).left() is Some && (
        #[trigger] steps[j]).left() is Some ==> !same_key(
            steps[i].left()->0,
            steps[j].left()->0,
        )
}

proof fn lemma_left_keys_distinct(l: Seq<EntryView>, r: Seq<EntryView>)
    requires
        strictly_sorted(l),
        strictly_sorted(r),
    ensures
        left_keys_distinct(merge_steps(l, r)),
    decreases l.len() + r.len(),
{
    let steps = merge_steps(l, r);
    if l.len() == 0 {
    } else if r.len() == 0 {
        assert forall|i: int, j: int|
            0 <= i < j < steps.len() && (#[trigger] steps[i]).left() is Some && (
            #[trigger] steps[j]).left() is Some implies !same_key(
            steps[i].left()->0,
            steps[j].left()->0,
        ) by {
            assert(key_lt(l[i], l[j]));
            lemma_key_order_same(l[i], l[j]);
        }
    } else {
        let (l2, r2) = if key_lt(l.last(), r.last()) {
            (l, r.drop_last())
        } else if key_lt(r.last(), l.last()) {
            (l.drop_last(), r)
        } else {
            (l.drop_last(), r.drop_last())
        };
        assert(strictly_sorted(l2)) by {
            assert forall|i: int, j: int| 0 <= i < j < l2.len() implies key_lt(l2[i], l2[j]) by {
                assert(key_lt(l[i], l[j]));
            }
        }
        assert(strictly_sorted(r2)) by {
            assert forall|i: int, j: int| 0 <= i < j < r2.len() implies key_lt(r2[i], r2[j]) by {
                assert(key_lt(r[i], r[j]));
            }
        }
        let rest = merge_steps(l2, r2);
        lemma_left_keys_distinct(l2, r2);
        lemma_merge_steps_classify(l2, r2);
        assert forall|i: int, j: int|
            0 <= i < j < steps.len() && (#[trigger] steps[i]).left() is Some && (
            #[trigger] steps[j]).left() is Some implies !same_key(
            steps[i].left()->0,
            steps[j].left()->0,
        ) by {
            assert(steps[j] == rest[j - 1]);
            if i > 0 {
                assert(steps[i] == rest[i - 1]);
            } else {
                let a = l.last();
                let e = steps[j].left()->0;
                match rest[j - 1] {
                    Step::OnlyLeft(x) => {
                        assert(rest.contains(Step::OnlyLeft(x)));
                    },
                    Step::Both(x, y) => {
                        assert(rest.contains(Step::Both(x, y)));
                    },
                    Step::OnlyRight(_) => {},
                }
                assert(l2.contains(e));
                let at = choose|at: int| 0 <= at < l2.len() && l2[at] == e;
                assert(key_lt(l[at], l[l.len() - 1]));
                lemma_key_order_same(e, a);
                lemma_key_order_same(a, e);
            }
        }
    }
}

/// The step is a pair of directories, and `path` is the directory in `dir`
/// of the name of the pair.
spec fn descends_to(dir: Dir, step: Step, path: Dir) -> bool {
    step matches Step::Both(a, b) && type_order(a.file_type) == 0 && path == dir.push(a.name)
}

/// Every directory that is put on the stack for `steps` is there for a pair
/// of directories, and lies in `dir` under the name of the pair.
proof fn lemma_descent_is_child(dir: Dir, steps: Seq<Step>, x: int)
    requires
        0 <= x < descents_of(dir, steps).len(),
    ensures
        exists|i: int|
            0 <= i < steps.len() && descends_to(
                dir,
                #[trigger] steps[i],
                descents_of(dir, steps)[x],
            ),
    decreases steps.len(),
{
    if steps.len() > 0 {
        let front = steps.drop_last();
        if x < descents_of(dir, front).len() {
            lemma_descent_is_child(dir, front, x);
            let i = choose|i: int|
                0 <= i < front.len() && descends_to(
                    dir,
                    #[trigger] front[i],
                    descents_of(dir, front)[x],
                );
            assert(steps[i] == front[i]);
        } else {
            assert(descends_to(dir, steps[steps.len() - 1], descents_of(dir, steps)[x]));
        }
    }
}

proof fn lemma_descents_distinct(dir: Dir, steps: Seq<Step>)
    requires
        left_keys_distinct(steps),
    ensures
        forall|x: int, y: int|
            0 <= x < y < descents_of(dir, steps).len() ==> descents_of(dir, steps)[x].last()
                != descents_of(dir, steps)[y].last(),
    decreases steps.len(),
{
    if steps.len() > 0 {
        let front = steps.drop_last();
        assert(left_keys_distinct(front)) by {
            assert forall|i: int, j: int|
                0 <= i < j < front.len() && (#[trigger] front[i]).left() is Some && (
                #[trigger] front[j]).left() is Some implies !same_key(
                front[i].left()->0,
                front[j].left()->0,
            ) by {
                assert(steps[i] == front[i] && steps[j] == front[j]);
            }
        }
        lemma_descents_distinct(dir, front);
        let all = descents_of(dir, steps);
        assert forall|x: int, y: int| 0 <= x < y < all.len() implies all[x].last()
            != all[y].last() by {
            if y == descents_of(dir, front).len() {
                lemma_descent_is_child(dir, front, x);
                let i = choose|i: int|
                    0 <= i < front.len() && descends_to(
                        dir,
                        #[trigger] front[i],
                        descents_of(dir, front)[x],
                    );
                assert(steps[i] == front[i]);
                assert(descends_to(dir, steps[steps.len() - 1], all[y]));
            }
        }
    }
}

/// The directories that are on both sides in two trees whose listings hold no
/// name twice make a forest of the kind that the model is about, and its
/// subdirectories are the directories that a worker puts on its stack.
pub proof fn lemma_forest_of_trees(trees: Trees)
    requires
        trees.well_formed(),
    ensures
        trees.forest().well_formed(),
        forall|d: Dir, j: int|
            0 <= j < trees.forest().count(d) ==> #[trigger] trees.forest().child(d, j)
                == trees.descents(d)[j],
        forall|d: Dir| #[trigger] trees.forest().count(d) == trees.descents(d).len(),
{
    let forest = trees.forest();
    assert forall|d: Dir| #[trigger] (forest.subdirs)(d).no_duplicates() by {
        assert(strictly_sorted(trees.left_of(d)));
        lemma_left_keys_distinct(trees.left_of(d), trees.right_of(d));
        lemma_descents_distinct(d, merge_steps(trees.left_of(d), trees.right_of(d)));
    }
    assert forall|d: Dir, j: int| 0 <= j < forest.count(d) implies #[trigger] forest.child(d, j)
        == trees.descents(d)[j] by {
        lemma_descent_is_child(d, merge_steps(trees.left_of(d), trees.right_of(d)), j);
        assert(forest.child(d, j) =~= trees.descents(d)[j]);
    }
}

/// Two forests with the same subdirectories in every directory have the same
/// directories.
pub proof fn lemma_same_forest(one: Forest, other: Forest, d: Dir)
    requires
        forall|x: Dir| #[trigger] (one.subdirs)(x) == (other.subdirs)(x),
    ensures
        one.reachable(d) == other.reachable(d),
    decreases d.len(),
{
    if d.len() > 0 {
        lemma_same_forest(one, other, d.drop_last());
        assert((one.subdirs)(d.drop_last()) == (other.subdirs)(d.drop_last()));
    }
}

proof fn lemma_descents_mirrored(dir: Dir, steps: Seq<Step>)
    requires
        forall|i: int|
            0 <= i < steps.len() ==> ((#[trigger] steps[i]) matches Step::Both(a, b) ==> same_key(
                a,
                b,
            )),
    ensures
        descents_of(dir, mirrored_steps(steps)) == descents_of(dir, steps),
    decreases steps.len(),
{
    if steps.len() > 0 {
        let front = steps.drop_last();
        assert forall|i: int| 0 <= i < front.len() implies ((#[trigger] front[i]) matches Step::Both(
            a,
            b,
        ) ==> same_key(a, b)) by {
            assert(front[i] == steps[i]);
        }
        lemma_descents_mirrored(dir, front);
        assert(mirrored_steps(steps).drop_last() =~= mirrored_steps(front));
        assert(mirrored_steps(steps).last() == steps.last().mirrored());
        assert(steps[steps.len() - 1] == steps.last());
    }
}

/// With the two trees exchanged, the directories that are on both sides are
/// the same, and the same directories are put on the stack for each.
pub proof fn lemma_forest_swapped(trees: Trees, d: Dir)
    ensures
        trees.swapped().descents(d) == trees.descents(d),
        trees.swapped().forest().reachable(d) == trees.forest().reachable(d),
{
    assert forall|x: Dir| #[trigger] trees.swapped().descents(x) == trees.descents(x) by {
        let l = trees.left_of(x);
        let r = trees.right_of(x);
        lemma_merge_steps_mirrored(l, r);
        assert forall|i: int| 0 <= i < merge_steps(l, r).len() implies ((#[trigger] merge_steps(
            l,
            r,
        )[i]) matches Step::Both(a, b) ==> same_key(a, b)) by {
            lemma_merge_steps_pairs_alike(l, r, i);
        }
        lemma_descents_mirrored(x, merge_steps(l, r));
    }
    assert forall|x: Dir| #[trigger]
        (trees.swapped().forest().subdirs)(x) == (trees.forest().subdirs)(x) by {
        assert(trees.swapped().descents(x) == trees.descents(x));
        assert((trees.swapped().forest().subdirs)(x) =~= (trees.forest().subdirs)(x));
    }
    lemma_same_forest(trees.swapped().forest(), trees.forest(), d);
}

} // verus!
