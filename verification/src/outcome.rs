//! What the comparison comes to, for one directory and for two whole trees.
//!
//! The steps of the pairing and the judgement of each pair are put together
//! here, as a function of the listings and of what the file system holds
//! behind the entries. It is a statement of what the workers and their caller
//! bring about between them, and of what holds of it.

use crate::content::{file_diff_view, file_difference, link_diff_view, FileModel};
use crate::diff::DiffView;
use crate::entry::{distinct_names, sorted, type_order, EntryView};
use crate::merge::{
    lemma_merge_steps_bounded, lemma_merge_steps_deterministic, lemma_merge_steps_empty_side,
    lemma_merge_steps_mirrored, lemma_merge_steps_pairs_alike, lemma_merge_steps_reflexive,
    merge_steps, pair_action, ActionView, PairTaskView, Step,
};
use crate::pool::{
    is_run, lemma_forest_of_trees, lemma_forest_swapped, lemma_run_compares_all, Dir, Place, Pool,
    Trees,
};
use vstd::prelude::*;

verus! {

/// What the file system holds behind the entries of the two directories. The
/// side is `true` for the left tree and `false` for the right one.
pub struct Facts {
    /// The target that a symbolic link names, as it is written in the link.
    pub link_target: spec_fn(bool, EntryView) -> Seq<u8>,
    /// The regular file behind an entry.
    pub file: spec_fn(bool, EntryView) -> FileModel,
}

impl Facts {
    /// The same facts with the two trees exchanged.
    pub open spec fn swapped(self) -> Facts {
        Facts {
            link_target: |side: bool, e: EntryView| (self.link_target)(!side, e),
            file: |side: bool, e: EntryView| (self.file)(!side, e),
        }
    }

    /// Behind an entry the two trees hold the same: links name the same
    /// target and files have the same content.
    pub open spec fn same_on_both_sides(self) -> bool {
        forall|e: EntryView|
            #![trigger (self.link_target)(true, e)]
            #![trigger (self.file)(true, e)]
            (self.link_target)(true, e) == (self.link_target)(false, e) && (self.file)(
                true,
                e,
            ).content == (self.file)(false, e).content
    }
}

/// What is reported for the pair `a` and `b` of the directory `dir`: nothing
/// for two directories, which are compared later, and nothing for what cannot
/// be compared; for two links and for two regular files, the difference
/// between them if there is one.
pub open spec fn pair_report(
    dir: Seq<Seq<u8>>,
    a: EntryView,
    b: EntryView,
    facts: Facts,
    check_mtime: bool,
) -> Option<DiffView> {
    match pair_action(dir, a, b) {
        ActionView::Pair(PairTaskView::CompareLinks(a, b)) => link_diff_view(
            dir,
            a,
            (facts.link_target)(true, a),
            (facts.link_target)(false, b),
        ),
        ActionView::Pair(PairTaskView::CompareFiles(a, b)) => match file_difference(
            (facts.file)(true, a),
            (facts.file)(false, b),
            check_mtime,
        ) {
            Some(difference) => Some(file_diff_view(dir, a, b, difference)),
            None => None,
        },
        _ => None,
    }
}

/// What is reported for one step of the pairing.
pub open spec fn step_report(
    dir: Seq<Seq<u8>>,
    step: Step,
    facts: Facts,
    check_mtime: bool,
) -> Option<DiffView> {
    match step {
        Step::OnlyLeft(e) => Some(DiffView::InDir1Only(dir, e.name)),
        Step::OnlyRight(e) => Some(DiffView::InDir2Only(dir, e.name)),
        Step::Both(a, b) => pair_report(dir, a, b, facts, check_mtime),
    }
}

/// What is reported for the directory `dir` with the sorted listings `l` and
/// `r`, step by step: the difference that a step brings to light, or none. A
/// worker that meets a pair that cannot be compared stops there, and the later
/// steps are not taken.
pub open spec fn directory_reports(
    dir: Seq<Seq<u8>>,
    l: Seq<EntryView>,
    r: Seq<EntryView>,
    facts: Facts,
    check_mtime: bool,
) -> Seq<Option<DiffView>> {
    Seq::new(
        merge_steps(l, r).len(),
        |i: int| step_report(dir, merge_steps(l, r)[i], facts, check_mtime),
    )
}

/// A report as it reads with the two trees exchanged.
pub open spec fn mirrored_report(report: Option<DiffView>) -> Option<DiffView> {
    match report {
        Some(diff) => Some(diff.mirrored()),
        None => None,
    }
}

/// The comparison of a directory ends: there are no more reports than the two
/// directories have entries.
pub proof fn lemma_directory_reports_bounded(
    dir: Seq<Seq<u8>>,
    l: Seq<EntryView>,
    r: Seq<EntryView>,
    facts: Facts,
    check_mtime: bool,
)
    ensures
        directory_reports(dir, l, r, facts, check_mtime).len() <= l.len() + r.len(),
{
    lemma_merge_steps_bounded(l, r);
}

/// What is reported for a directory does not depend on the order in which the
/// two directories were listed, as long as no name occurs twice in one.
pub proof fn lemma_directory_reports_deterministic(
    dir: Seq<Seq<u8>>,
    l1: Seq<EntryView>,
    r1: Seq<EntryView>,
    l2: Seq<EntryView>,
    r2: Seq<EntryView>,
    facts: Facts,
    check_mtime: bool,
)
    requires
        sorted(l1),
        sorted(r1),
        sorted(l2),
        sorted(r2),
        distinct_names(l1),
        distinct_names(r1),
        l1.to_multiset() == l2.to_multiset(),
        r1.to_multiset() == r2.to_multiset(),
    ensures
        directory_reports(dir, l1, r1, facts, check_mtime) == directory_reports(
            dir,
            l2,
            r2,
            facts,
            check_mtime,
        ),
{
    lemma_merge_steps_deterministic(l1, r1, l2, r2);
}

/// With the two trees exchanged, what was reported as being in the first
/// directory only is reported as being in the second only, and the other way
/// round; every other report stays as it is.
pub proof fn lemma_directory_reports_mirrored(
    dir: Seq<Seq<u8>>,
    l: Seq<EntryView>,
    r: Seq<EntryView>,
    facts: Facts,
    check_mtime: bool,
)
    ensures
        directory_reports(dir, r, l, facts.swapped(), check_mtime).len() == directory_reports(
            dir,
            l,
            r,
            facts,
            check_mtime,
        ).len(),
        forall|i: int|
            0 <= i < merge_steps(l, r).len() ==> #[trigger] directory_reports(
                dir,
                r,
                l,
                facts.swapped(),
                check_mtime,
            )[i] == mirrored_report(directory_reports(dir, l, r, facts, check_mtime)[i]),
{
    lemma_merge_steps_mirrored(l, r);
    assert forall|i: int| 0 <= i < merge_steps(l, r).len() implies #[trigger] directory_reports(
        dir,
        r,
        l,
        facts.swapped(),
        check_mtime,
    )[i] == mirrored_report(directory_reports(dir, l, r, facts, check_mtime)[i]) by {
        lemma_merge_steps_pairs_alike(l, r, i);
        let step = merge_steps(l, r)[i];
        assert(merge_steps(r, l)[i] == step.mirrored());
    }
}

/// A directory compared with one that holds the same gives no report, as long
/// as the times of modification are not looked at.
pub proof fn lemma_directory_reports_reflexive(
    dir: Seq<Seq<u8>>,
    l: Seq<EntryView>,
    facts: Facts,
)
    requires
        facts.same_on_both_sides(),
    ensures
        forall|i: int|
            0 <= i < directory_reports(dir, l, l, facts, false).len()
                ==> #[trigger] directory_reports(dir, l, l, facts, false)[i] is None,
{
    lemma_merge_steps_reflexive(l);
}

/// To look at the times of modification adds reports and changes none. With
/// the check every step reports what it reports without it, but for files of
/// the same content, which are then reported for their times if these
/// differ; without the check nothing is reported for its time.
pub proof fn lemma_directory_reports_mtime_additive(
    dir: Seq<Seq<u8>>,
    l: Seq<EntryView>,
    r: Seq<EntryView>,
    facts: Facts,
)
    ensures
        directory_reports(dir, l, r, facts, true).len() == directory_reports(
            dir,
            l,
            r,
            facts,
            false,
        ).len(),
        forall|i: int|
            0 <= i < merge_steps(l, r).len() ==> {
                let with = #[trigger] directory_reports(dir, l, r, facts, true)[i];
                let without = directory_reports(dir, l, r, facts, false)[i];
                &&& !(without matches Some(DiffView::SameButDifferentMTime(_, _)))
                &&& with == without || (without is None && with matches Some(
                    DiffView::SameButDifferentMTime(_, _),
                ))
            },
{
}

/// An empty directory gives no report of its own. Where one of the two
/// directories is empty, every entry of the other is reported as being on
/// its side only; where both are empty nothing is reported. Two directories
/// that are a pair are not reported either.
pub proof fn lemma_directory_reports_empty(
    dir: Seq<Seq<u8>>,
    s: Seq<EntryView>,
    facts: Facts,
    check_mtime: bool,
)
    ensures
        directory_reports(dir, Seq::empty(), Seq::empty(), facts, check_mtime).len() == 0,
        directory_reports(dir, s, Seq::empty(), facts, check_mtime) == Seq::new(
            s.len(),
            |i: int| Some(DiffView::InDir1Only(dir, s[i].name)),
        ),
        directory_reports(dir, Seq::empty(), s, facts, check_mtime) == Seq::new(
            s.len(),
            |i: int| Some(DiffView::InDir2Only(dir, s[i].name)),
        ),
        forall|a: EntryView, b: EntryView|
            type_order(a.file_type) == 0 ==> #[trigger] pair_report(dir, a, b, facts, check_mtime)
                is None,
{
    lemma_merge_steps_empty_side(s);
    lemma_merge_steps_empty_side(Seq::empty());
    assert(directory_reports(dir, s, Seq::empty(), facts, check_mtime) =~= Seq::new(
        s.len(),
        |i: int| Some(DiffView::InDir1Only(dir, s[i].name)),
    ));
    assert(directory_reports(dir, Seq::empty(), s, facts, check_mtime) =~= Seq::new(
        s.len(),
        |i: int| Some(DiffView::InDir2Only(dir, s[i].name)),
    ));
}

/// The comparison of two trees: their listings, what the file system holds
/// behind the entries of each directory, and whether the times of
/// modification are looked at.
pub struct Comparison {
    pub trees: Trees,
    pub facts: spec_fn(Dir) -> Facts,
    pub check_mtime: bool,
}

impl Comparison {
    /// What the file system holds behind the entries of the directory `d`.
    pub open spec fn facts_of(self, d: Dir) -> Facts {
        (self.facts)(d)
    }

    /// What is reported for the directory `d`, step by step.
    pub open spec fn reports_in(self, d: Dir) -> Seq<Option<DiffView>> {
        directory_reports(
            d,
            self.trees.left_of(d),
            self.trees.right_of(d),
            self.facts_of(d),
            self.check_mtime,
        )
    }

    /// The difference is reported for the directory `d` at the step `i`.
    pub open spec fn reported_at(self, d: Dir, i: int, diff: DiffView) -> bool {
        self.trees.forest().reachable(d) && 0 <= i < self.reports_in(d).len() && self.reports_in(
            d,
        )[i] == Some(diff)
    }

    /// The difference is reported somewhere in the two trees: for a directory
    /// that is on both sides, with all the directories above it. This is
    /// said of a comparison that meets no pair that cannot be compared.
    pub open spec fn reported(self, diff: DiffView) -> bool {
        exists|d: Dir, i: int| #[trigger] self.reported_at(d, i, diff)
    }

    /// The same comparison with the two trees exchanged.
    pub open spec fn swapped(self) -> Comparison {
        Comparison {
            trees: self.trees.swapped(),
            facts: |d: Dir| self.facts_of(d).swapped(),
            check_mtime: self.check_mtime,
        }
    }

    /// The same comparison with or without a look at the times of
    /// modification.
    pub open spec fn with_check(self, check_mtime: bool) -> Comparison {
        Comparison { check_mtime, ..self }
    }

    /// The two trees hold the same: every directory lists the same entries on
    /// both sides, with the same behind them.
    pub open spec fn of_same_trees(self) -> bool {
        forall|d: Dir|
            #![trigger self.trees.left_of(d)]
            #![trigger self.facts_of(d)]
            self.trees.left_of(d) == self.trees.right_of(d) && self.facts_of(
                d,
            ).same_on_both_sides()
    }
}

proof fn lemma_reported_at_swapped(c: Comparison, d: Dir, i: int, diff: DiffView)
    requires
        c.reported_at(d, i, diff),
    ensures
        c.swapped().reported_at(d, i, diff.mirrored()),
{
    lemma_forest_swapped(c.trees, d);
    lemma_directory_reports_mirrored(
        d,
        c.trees.left_of(d),
        c.trees.right_of(d),
        c.facts_of(d),
        c.check_mtime,
    );
    assert(c.swapped().reports_in(d)[i] == mirrored_report(c.reports_in(d)[i]));
}

proof fn lemma_reported_at_swapped_back(c: Comparison, d: Dir, i: int, diff: DiffView)
    requires
        c.swapped().reported_at(d, i, diff.mirrored()),
    ensures
        c.reported_at(d, i, diff),
{
    lemma_forest_swapped(c.trees, d);
    lemma_directory_reports_mirrored(
        d,
        c.trees.left_of(d),
        c.trees.right_of(d),
        c.facts_of(d),
        c.check_mtime,
    );
    assert(c.swapped().reports_in(d)[i] == mirrored_report(c.reports_in(d)[i]));
    assert(c.reports_in(d)[i]->0.mirrored().mirrored() == c.reports_in(d)[i]->0);
}

/// With the two trees exchanged, what was reported as being in the first
/// tree only is reported as being in the second only, and the other way
/// round; every other report is made as before, and none is added.
pub proof fn lemma_comparison_mirrored(c: Comparison, diff: DiffView)
    ensures
        c.swapped().reported(diff.mirrored()) <==> c.reported(diff),
{
    if c.reported(diff) {
        let (d, i) = choose|d: Dir, i: int| #[trigger] c.reported_at(d, i, diff);
        lemma_reported_at_swapped(c, d, i, diff);
    }
    if c.swapped().reported(diff.mirrored()) {
        let (d, i) = choose|d: Dir, i: int| #[trigger]
            c.swapped().reported_at(d, i, diff.mirrored());
        lemma_reported_at_swapped_back(c, d, i, diff);
    }
}

/// Two trees that hold the same give no report, as long as the times of
/// modification are not looked at.
pub proof fn lemma_comparison_reflexive(c: Comparison, diff: DiffView)
    requires
        c.of_same_trees(),
        !c.check_mtime,
    ensures
        !c.reported(diff),
{
    if c.reported(diff) {
        let (d, i) = choose|d: Dir, i: int| #[trigger] c.reported_at(d, i, diff);
        assert(c.trees.left_of(d) == c.trees.right_of(d));
        assert(c.facts_of(d).same_on_both_sides());
        lemma_directory_reports_reflexive(d, c.trees.left_of(d), c.facts_of(d));
        assert(c.reports_in(d)[i] is None);
    }
}

/// To look at the times of modification adds reports and changes none: a
/// difference of another kind is reported with the check exactly if it is
/// reported without it, and without it no file is reported for its time.
pub proof fn lemma_comparison_mtime_additive(c: Comparison, diff: DiffView)
    ensures
        !(diff is SameButDifferentMTime) ==> (c.with_check(true).reported(diff) <==> c.with_check(
            false,
        ).reported(diff)),
        diff is SameButDifferentMTime ==> !c.with_check(false).reported(diff),
{
    let on = c.with_check(true);
    let off = c.with_check(false);
    if on.reported(diff) && !(diff is SameButDifferentMTime) {
        let (d, i) = choose|d: Dir, i: int| #[trigger] on.reported_at(d, i, diff);
        lemma_directory_reports_mtime_additive(
            d,
            c.trees.left_of(d),
            c.trees.right_of(d),
            c.facts_of(d),
        );
        assert(directory_reports(d, c.trees.left_of(d), c.trees.right_of(d), c.facts_of(d), true)[i]
            == Some(diff));
        assert(off.reported_at(d, i, diff));
    }
    if off.reported(diff) {
        let (d, i) = choose|d: Dir, i: int| #[trigger] off.reported_at(d, i, diff);
        lemma_directory_reports_mtime_additive(
            d,
            c.trees.left_of(d),
            c.trees.right_of(d),
            c.facts_of(d),
        );
        assert(directory_reports(
            d,
            c.trees.left_of(d),
            c.trees.right_of(d),
            c.facts_of(d),
            false,
        )[i] == Some(diff));
        assert(directory_reports(d, c.trees.left_of(d), c.trees.right_of(d), c.facts_of(d), true)[i]
            == Some(diff));
        assert(on.reported_at(d, i, diff));
    }
}

/// The number of the workers and the order of their moves do not change what
/// is reported. Once all the workers have ended, the directories that they
/// have compared are those whose differences are reported: each of them has
/// been compared, and no other directory has.
pub proof fn lemma_comparison_by_any_workers(c: Comparison, run: Seq<Pool>)
    requires
        c.trees.well_formed(),
        is_run(c.trees.forest(), run),
        run.last().all_done(),
    ensures
        forall|d: Dir|
            c.trees.forest().reachable(d) <==> #[trigger] run.last().knows(d) && run.last().place[d]
                == Place::Compared,
        forall|d: Dir, i: int, diff: DiffView| #[trigger]
            c.reported_at(d, i, diff) ==> run.last().knows(d) && run.last().place[d]
                == Place::Compared,
{
    lemma_forest_of_trees(c.trees);
    lemma_run_compares_all(c.trees.forest(), run);
}

} // verus!


