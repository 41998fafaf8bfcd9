//! The pairing of the entries of two directories.
//!
//! Both listings are sorted in the same way. The pairing takes them from their
//! high ends: of the two entries that sort last, the later one has no partner
//! and is on its side only; two that sort alike are a pair. Once one listing
//! is used up, what is left of the other has no partner.

use crate::diff::{Diff, DiffView};
use crate::entry::{
    distinct_names, key_lt, lemma_distinct_names_permuted, lemma_key_lt_asymmetric,
    lemma_key_lt_irreflexive, lemma_key_lt_transitive, lemma_key_order_same,
    lemma_sorted_distinct_strict, lemma_strictly_sorted_unique, listing, same_key, sort_listing,
    sorted, strictly_sorted, type_order, EntryView, FileT,
};
use crate::file_type_enum::FileType;
use crate::path::{Precedence, RelativePath};
use vstd::prelude::*;

verus! {

/// One step of the pairing: an entry without a partner, or a pair.
pub enum Step {
    OnlyLeft(EntryView),
    OnlyRight(EntryView),
    Both(EntryView, EntryView),
}

/// The steps for entries that are all on the left side only, in their order.
pub open spec fn only_left(s: Seq<EntryView>) -> Seq<Step> {
    Seq::new(s.len(), |i: int| Step::OnlyLeft(s[i]))
}

/// The steps for entries that are all on the right side only, in their order.
pub open spec fn only_right(s: Seq<EntryView>) -> Seq<Step> {
    Seq::new(s.len(), |i: int| Step::OnlyRight(s[i]))
}

/// The steps of the pairing of the listings `l` and `r`, in the order in which
/// they are taken.
pub open spec fn merge_steps(l: Seq<EntryView>, r: Seq<EntryView>) -> Seq<Step>
    decreases l.len() + r.len(),
{
    if l.len() == 0 {
        only_right(r)
    } else if r.len() == 0 {
        only_left(l)
    } else if key_lt(l.last(), r.last()) {
        seq![Step::OnlyRight(r.last())] + merge_steps(l, r.drop_last())
    } else if key_lt(r.last(), l.last()) {
        seq![Step::OnlyLeft(l.last())] + merge_steps(l.drop_last(), r)
    } else {
        seq![Step::Both(l.last(), r.last())] + merge_steps(l.drop_last(), r.drop_last())
    }
}

/// A pair that cannot be judged by the entries alone.
#[derive(Debug)]
pub enum PairTask {
    /// Both sides have a symbolic link of this name: compare where they point.
    CompareLinks(FileT, FileT),
    /// Both sides have a regular file of this name: compare their contents.
    CompareFiles(FileT, FileT),
    /// Both sides have something of this path, of this type, that cannot be
    /// compared.
    Unsupported(RelativePath, FileType),
}

/// What is to be done for one step of the pairing.
#[derive(Debug)]
pub enum Action {
    /// Report a difference that is already certain.
    Report(Diff),
    /// Both sides have a directory of this path: compare the two later.
    Descend(RelativePath),
    /// Look at the two files behind a pair.
    Pair(PairTask),
}

/// What a pair to look at is, as a mathematical value.
pub enum PairTaskView {
    CompareLinks(EntryView, EntryView),
    CompareFiles(EntryView, EntryView),
    Unsupported(Seq<Seq<u8>>, FileType),
}

/// What an action is, as a mathematical value.
pub enum ActionView {
    Report(DiffView),
    Descend(Seq<Seq<u8>>),
    Pair(PairTaskView),
}

impl View for PairTask {
    type V = PairTaskView;

    open spec fn view(&self) -> PairTaskView {
        match self {
            PairTask::CompareLinks(a, b) => PairTaskView::CompareLinks(a@, b@),
            PairTask::CompareFiles(a, b) => PairTaskView::CompareFiles(a@, b@),
            PairTask::Unsupported(path, file_type) => PairTaskView::Unsupported(path@, *file_type),
        }
    }
}

impl View for Action {
    type V = ActionView;

    open spec fn view(&self) -> ActionView {
        match self {
            Action::Report(diff) => ActionView::Report(diff@),
            Action::Descend(dir) => ActionView::Descend(dir@),
            Action::Pair(task) => ActionView::Pair(task@),
        }
    }
}

/// What is to be done for a pair found in the directory `dir`: it goes by the
/// rank of the type, which the two have in common. Directories are compared
/// later, links and regular files are looked at, and nothing can be done
/// for the rest.
pub open spec fn pair_action(dir: Seq<Seq<u8>>, a: EntryView, b: EntryView) -> ActionView {
    if type_order(a.file_type) == 0 {
        ActionView::Descend(dir.push(a.name))
    } else if type_order(a.file_type) == 1 {
        ActionView::Pair(PairTaskView::CompareLinks(a, b))
    } else if type_order(a.file_type) == 2 {
        ActionView::Pair(PairTaskView::CompareFiles(a, b))
    } else {
        ActionView::Pair(PairTaskView::Unsupported(dir.push(a.name), a.file_type))
    }
}

/// What is to be done for a step of the pairing in the directory `dir`.
pub open spec fn action_of(dir: Seq<Seq<u8>>, step: Step) -> ActionView {
    match step {
        Step::OnlyLeft(e) => ActionView::Report(DiffView::InDir1Only(dir, e.name)),
        Step::OnlyRight(e) => ActionView::Report(DiffView::InDir2Only(dir, e.name)),
        Step::Both(a, b) => pair_action(dir, a, b),
    }
}

/// The pairing of the entries of one directory of the left tree with those of
/// the same directory of the right tree, as far as it has come.
#[derive(Debug)]
pub struct DirMerge {
    dir: RelativePath,
    left: Vec<FileT>,
    right: Vec<FileT>,
    /// How many entries of the one listing that is left have been handed out.
    handed_out: usize,
}

/// The entries of `s` from position `from` on; none where `s` is shorter.
spec fn rest_of(s: Seq<EntryView>, from: int) -> Seq<EntryView> {
    if 0 <= from <= s.len() {
        s.skip(from)
    } else {
        Seq::empty()
    }
}

/// The steps of the pairing of `l` and `r` where, once one of the two is used
/// up, the first `from` entries of the other have been handed out already.
spec fn steps_from(l: Seq<EntryView>, r: Seq<EntryView>, from: int) -> Seq<Step>
    decreases l.len() + r.len(),
{
    if l.len() == 0 {
        only_right(rest_of(r, from))
    } else if r.len() == 0 {
        only_left(rest_of(l, from))
    } else if key_lt(l.last(), r.last()) {
        seq![Step::OnlyRight(r.last())] + steps_from(l, r.drop_last(), from)
    } else if key_lt(r.last(), l.last()) {
        seq![Step::OnlyLeft(l.last())] + steps_from(l.drop_last(), r, from)
    } else {
        seq![Step::Both(l.last(), r.last())] + steps_from(l.drop_last(), r.drop_last(), from)
    }
}

proof fn lemma_steps_from_start(l: Seq<EntryView>, r: Seq<EntryView>)
    ensures
        steps_from(l, r, 0) == merge_steps(l, r),
    decreases l.len() + r.len(),
{
    if l.len() == 0 {
        assert(rest_of(r, 0) =~= r);
    } else if r.len() == 0 {
        assert(rest_of(l, 0) =~= l);
    } else if key_lt(l.last(), r.last()) {
        lemma_steps_from_start(l, r.drop_last());
    } else if key_lt(r.last(), l.last()) {
        lemma_steps_from_start(l.drop_last(), r);
    } else {
        lemma_steps_from_start(l.drop_last(), r.drop_last());
    }
}

impl DirMerge {
    /// The directory whose entries are paired, relative to the roots.
    pub closed spec fn dir_view(self) -> Seq<Seq<u8>> {
        self.dir@
    }

    /// The sorted listing of the left directory, as far as the pairing has
    /// not taken it from its high end.
    pub closed spec fn left_view(self) -> Seq<EntryView> {
        listing(self.left@)
    }

    /// The sorted listing of the right directory, as far as the pairing has
    /// not taken it from its high end.
    pub closed spec fn right_view(self) -> Seq<EntryView> {
        listing(self.right@)
    }

    /// The steps that are still to come, in their order.
    pub closed spec fn pending(self) -> Seq<Step> {
        steps_from(listing(self.left@), listing(self.right@), self.handed_out as int)
    }

    /// Starts the pairing of the entries `left` and `right` of the directory
    /// `dir`. The listings may come in any order: they are sorted here.
    pub fn new(dir: RelativePath, left: Vec<FileT>, right: Vec<FileT>) -> (merge: Self)
        ensures
            merge.dir_view() == dir@,
            sorted(merge.left_view()),
            sorted(merge.right_view()),
            merge.left_view().to_multiset() == listing(left@).to_multiset(),
            merge.right_view().to_multiset() == listing(right@).to_multiset(),
            merge.pending() == merge_steps(merge.left_view(), merge.right_view()),
    {
        // Directories sort first and are taken last: the files of a directory
        // are dealt with before its subdirectories are put on the stack.
        let left = sort_listing(left);
        let right = sort_listing(right);
        proof {
            lemma_steps_from_start(listing(left@), listing(right@));
        }
        DirMerge { dir, left, right, handed_out: 0 }
    }

    /// The directory whose entries are paired.
    pub fn dir(&self) -> (dir: &RelativePath)
        ensures
            dir@ == self.dir_view(),
    {
        &self.dir
    }

    /// Takes the next step of the pairing and tells what is to be done for
    /// it; `None` once every entry has been taken.
    pub fn next_action(&mut self) -> (action: Option<Action>)
        ensures
            final(self).dir_view() == old(self).dir_view(),
            old(self).pending().len() == 0 ==> action is None && final(self).pending() == old(
                self,
            ).pending(),
            old(self).pending().len() > 0 ==> action is Some && action->0@ == action_of(
                old(self).dir_view(),
                old(self).pending()[0],
            ) && final(self).pending() == old(self).pending().skip(1),
    {
        if self.left.len() == 0 {
            if self.handed_out < self.right.len() {
                let name = self.right[self.handed_out].filename();
                self.handed_out += 1;
                return Some(Action::Report(Diff::InDir2Only(self.dir.clone(), name)));
            }
            return None;
        }
        if self.right.len() == 0 {
            if self.handed_out < self.left.len() {
                let name = self.left[self.handed_out].filename();
                self.handed_out += 1;
                return Some(Action::Report(Diff::InDir1Only(self.dir.clone(), name)));
            }
            return None;
        }
        let order = self.left[self.left.len() - 1].compare(&self.right[self.right.len() - 1]);
        let ghost l = listing(self.left@);
        let ghost r = listing(self.right@);
        let ghost from = self.handed_out as int;
        match order {
            Precedence::Before => {
                let e = self.right.pop().unwrap();
                proof {
                    assert(listing(self.right@) =~= r.drop_last());
                    let rest = steps_from(l, r.drop_last(), from);
                    assert((seq![Step::OnlyRight(r.last())] + rest).skip(1) =~= rest);
                }
                Some(Action::Report(Diff::InDir2Only(self.dir.clone(), e.filename())))
            },
            Precedence::After => {
                let e = self.left.pop().unwrap();
                proof {
                    assert(listing(self.left@) =~= l.drop_last());
                    let rest = steps_from(l.drop_last(), r, from);
                    assert((seq![Step::OnlyLeft(l.last())] + rest).skip(1) =~= rest);
                }
                Some(Action::Report(Diff::InDir1Only(self.dir.clone(), e.filename())))
            },
            Precedence::Same => {
                let e1 = self.left.pop().unwrap();
                let e2 = self.right.pop().unwrap();
                proof {
                    assert(listing(self.left@) =~= l.drop_last());
                    assert(listing(self.right@) =~= r.drop_last());
                    let rest = steps_from(l.drop_last(), r.drop_last(), from);
                    assert((seq![Step::Both(l.last(), r.last())] + rest).skip(1) =~= rest);
                }
                let ft1 = e1.file_type_order();
                if ft1 == 0 {
                    let mut p = self.dir.clone();
                    p.push(e1.filename());
                    Some(Action::Descend(p))
                } else if ft1 == 1 {
                    Some(Action::Pair(PairTask::CompareLinks(e1, e2)))
                } else if ft1 == 2 {
                    Some(Action::Pair(PairTask::CompareFiles(e1, e2)))
                } else {
                    let mut p = self.dir.clone();
                    p.push(e1.filename());
                    Some(Action::Pair(PairTask::Unsupported(p, e1.file_type)))
                }
            },
        }
    }
}


impl Step {
    /// The step as it reads with the two sides exchanged.
    pub open spec fn mirrored(self) -> Step {
        match self {
            Step::OnlyLeft(e) => Step::OnlyRight(e),
            Step::OnlyRight(e) => Step::OnlyLeft(e),
            Step::Both(a, b) => Step::Both(b, a),
        }
    }

    /// The entry that the step takes from the left listing, if it takes one.
    pub open spec fn left(self) -> Option<EntryView> {
        match self {
            Step::OnlyLeft(e) => Some(e),
            Step::OnlyRight(_) => None,
            Step::Both(a, _) => Some(a),
        }
    }

    /// The entry that the step takes from the right listing, if it takes one.
    pub open spec fn right(self) -> Option<EntryView> {
        match self {
            Step::OnlyLeft(_) => None,
            Step::OnlyRight(e) => Some(e),
            Step::Both(_, b) => Some(b),
        }
    }
}

/// The steps with the two sides exchanged in each.
pub open spec fn mirrored_steps(steps: Seq<Step>) -> Seq<Step> {
    Seq::new(steps.len(), |i: int| steps[i].mirrored())
}

/// The entries that the steps take from the left listing, in the order of the
/// steps.
pub open spec fn taken_left(steps: Seq<Step>) -> Seq<EntryView>
    decreases steps.len(),
{
    if steps.len() == 0 {
        Seq::empty()
    } else {
        match steps.first().left() {
            Some(e) => seq![e] + taken_left(steps.drop_first()),
            None => taken_left(steps.drop_first()),
        }
    }
}

/// The entries that the steps take from the right listing, in the order of
/// the steps.
pub open spec fn taken_right(steps: Seq<Step>) -> Seq<EntryView>
    decreases steps.len(),
{
    if steps.len() == 0 {
        Seq::empty()
    } else {
        match steps.first().right() {
            Some(e) => seq![e] + taken_right(steps.drop_first()),
            None => taken_right(steps.drop_first()),
        }
    }
}

/// The pairing ends: it takes no more steps than the two listings have
/// entries, and no fewer than the longer one has.
pub proof fn lemma_merge_steps_bounded(l: Seq<EntryView>, r: Seq<EntryView>)
    ensures
        merge_steps(l, r).len() <= l.len() + r.len(),
        merge_steps(l, r).len() >= l.len(),
        merge_steps(l, r).len() >= r.len(),
    decreases l.len() + r.len(),
{
    if l.len() == 0 || r.len() == 0 {
    } else if key_lt(l.last(), r.last()) {
        lemma_merge_steps_bounded(l, r.drop_last());
    } else if key_lt(r.last(), l.last()) {
        lemma_merge_steps_bounded(l.drop_last(), r);
    } else {
        lemma_merge_steps_bounded(l.drop_last(), r.drop_last());
    }
}

/// Where one of the two directories is empty, every entry of the other is on
/// its side only, and where both are empty there is nothing to do.
pub proof fn lemma_merge_steps_empty_side(s: Seq<EntryView>)
    ensures
        merge_steps(Seq::empty(), s) == only_right(s),
        merge_steps(s, Seq::empty()) == only_left(s),
        merge_steps(Seq::empty(), Seq::empty()) == Seq::<Step>::empty(),
{
    if s.len() == 0 {
        assert(only_left(s) =~= only_right(s));
    }
    assert(only_right(Seq::<EntryView>::empty()) =~= Seq::<Step>::empty());
}

/// Exchanging the two trees exchanges "left only" and "right only" and the
/// two halves of each pair, and changes nothing else: the same steps are
/// taken in the same order.
pub proof fn lemma_merge_steps_mirrored(l: Seq<EntryView>, r: Seq<EntryView>)
    ensures
        merge_steps(r, l) == mirrored_steps(merge_steps(l, r)),
    decreases l.len() + r.len(),
{
    let steps = merge_steps(l, r);
    if l.len() == 0 || r.len() == 0 {
        assert(merge_steps(r, l) =~= mirrored_steps(steps));
    } else {
        lemma_key_lt_asymmetric(l.last(), r.last());
        if key_lt(l.last(), r.last()) {
            lemma_merge_steps_mirrored(l, r.drop_last());
        } else if key_lt(r.last(), l.last()) {
            lemma_merge_steps_mirrored(l.drop_last(), r);
        } else {
            lemma_merge_steps_mirrored(l.drop_last(), r.drop_last());
        }
        assert(merge_steps(r, l) =~= mirrored_steps(steps));
    }
}

/// A directory compared with itself pairs every entry with itself: no entry
/// is on one side only.
pub proof fn lemma_merge_steps_reflexive(l: Seq<EntryView>)
    ensures
        merge_steps(l, l).len() == l.len(),
        forall|i: int|
            0 <= i < l.len() ==> #[trigger] merge_steps(l, l)[i] == Step::Both(
                l[l.len() - 1 - i],
                l[l.len() - 1 - i],
            ),
    decreases l.len(),
{
    if l.len() > 0 {
        lemma_key_lt_irreflexive(l.last());
        lemma_merge_steps_reflexive(l.drop_last());
        let rest = merge_steps(l.drop_last(), l.drop_last());
        assert forall|i: int| 0 <= i < l.len() implies #[trigger] merge_steps(l, l)[i]
            == Step::Both(l[l.len() - 1 - i], l[l.len() - 1 - i]) by {
            if i > 0 {
                assert(merge_steps(l, l)[i] == rest[i - 1]);
            }
        }
    }
}

/// The two entries of a pair have the same rank and the same name.
pub proof fn lemma_merge_steps_pairs_alike(l: Seq<EntryView>, r: Seq<EntryView>, i: int)
    requires
        0 <= i < merge_steps(l, r).len(),
    ensures
        merge_steps(l, r)[i] matches Step::Both(a, b) ==> same_key(a, b),
    decreases l.len() + r.len(),
{
    if l.len() == 0 || r.len() == 0 {
    } else if i == 0 {
        lemma_key_order_same(l.last(), r.last());
    } else if key_lt(l.last(), r.last()) {
        lemma_merge_steps_pairs_alike(l, r.drop_last(), i - 1);
    } else if key_lt(r.last(), l.last()) {
        lemma_merge_steps_pairs_alike(l.drop_last(), r, i - 1);
    } else {
        lemma_merge_steps_pairs_alike(l.drop_last(), r.drop_last(), i - 1);
    }
}


proof fn lemma_taken_one_sided(s: Seq<EntryView>)
    ensures
        taken_left(only_left(s)) == s,
        taken_right(only_left(s)) == Seq::<EntryView>::empty(),
        taken_left(only_right(s)) == Seq::<EntryView>::empty(),
        taken_right(only_right(s)) == s,
    decreases s.len(),
{
    if s.len() > 0 {
        lemma_taken_one_sided(s.drop_first());
        assert(only_left(s).drop_first() =~= only_left(s.drop_first()));
        assert(only_right(s).drop_first() =~= only_right(s.drop_first()));
        assert(seq![s.first()] + s.drop_first() =~= s);
    }
}

proof fn lemma_taken_first(x: Step, rest: Seq<Step>)
    ensures
        taken_left(seq![x] + rest) == match x.left() {
            Some(e) => seq![e] + taken_left(rest),
            None => taken_left(rest),
        },
        taken_right(seq![x] + rest) == match x.right() {
            Some(e) => seq![e] + taken_right(rest),
            None => taken_right(rest),
        },
{
    assert((seq![x] + rest).drop_first() =~= rest);
}

proof fn lemma_multiset_with_last(s: Seq<EntryView>, t: Seq<EntryView>)
    requires
        s.len() > 0,
        t.to_multiset() == s.drop_last().to_multiset(),
    ensures
        (seq![s.last()] + t).to_multiset() == s.to_multiset(),
{
    let e = s.last();
    vstd::seq_lib::lemma_seq_union_to_multiset_commutative(seq![e], t);
    assert(t + seq![e] =~= t.push(e));
    vstd::seq_lib::to_multiset_build(t, e);
    assert(s.drop_last().push(e) =~= s);
    vstd::seq_lib::to_multiset_build(s.drop_last(), e);
}

/// Every entry is taken exactly once: the entries that the steps take from
/// the left listing are those of the left listing, each as often as it is
/// there, and so for the right.
pub proof fn lemma_merge_steps_take_all(l: Seq<EntryView>, r: Seq<EntryView>)
    ensures
        taken_left(merge_steps(l, r)).to_multiset() == l.to_multiset(),
        taken_right(merge_steps(l, r)).to_multiset() == r.to_multiset(),
    decreases l.len() + r.len(),
{
    if l.len() == 0 {
        lemma_taken_one_sided(r);
        assert(l =~= Seq::<EntryView>::empty());
    } else if r.len() == 0 {
        lemma_taken_one_sided(l);
        assert(r =~= Seq::<EntryView>::empty());
    } else if key_lt(l.last(), r.last()) {
        let rest = merge_steps(l, r.drop_last());
        lemma_merge_steps_take_all(l, r.drop_last());
        lemma_taken_first(Step::OnlyRight(r.last()), rest);
        lemma_multiset_with_last(r, taken_right(rest));
    } else if key_lt(r.last(), l.last()) {
        let rest = merge_steps(l.drop_last(), r);
        lemma_merge_steps_take_all(l.drop_last(), r);
        lemma_taken_first(Step::OnlyLeft(l.last()), rest);
        lemma_multiset_with_last(l, taken_left(rest));
    } else {
        let rest = merge_steps(l.drop_last(), r.drop_last());
        lemma_merge_steps_take_all(l.drop_last(), r.drop_last());
        lemma_taken_first(Step::Both(l.last(), r.last()), rest);
        lemma_multiset_with_last(l, taken_left(rest));
        lemma_multiset_with_last(r, taken_right(rest));
    }
}


/// The listing `s` has an entry of the rank and name of `e`.
pub open spec fn has_partner(e: EntryView, s: Seq<EntryView>) -> bool {
    exists|i: int| 0 <= i < s.len() && same_key(e, #[trigger] s[i])
}

proof fn lemma_contains_first(x: Step, rest: Seq<Step>, y: Step)
    ensures
        (seq![x] + rest).contains(y) <==> x == y || rest.contains(y),
{
    let s = seq![x] + rest;
    if s.contains(y) {
        let i = choose|i: int| 0 <= i < s.len() && s[i] == y;
        if i > 0 {
            assert(rest[i - 1] == y);
        }
    }
    if rest.contains(y) {
        let i = choose|i: int| 0 <= i < rest.len() && rest[i] == y;
        assert(s[i + 1] == y);
    }
    if x == y {
        assert(s[0] == y);
    }
}

proof fn lemma_contains_last(s: Seq<EntryView>, e: EntryView)
    requires
        s.len() > 0,
    ensures
        s.contains(e) <==> s.last() == e || s.drop_last().contains(e),
        has_partner(e, s) <==> same_key(e, s.last()) || has_partner(e, s.drop_last()),
{
    let t = s.drop_last();
    if s.contains(e) {
        let i = choose|i: int| 0 <= i < s.len() && s[i] == e;
        if i < s.len() - 1 {
            assert(t[i] == e);
        }
    }
    if t.contains(e) {
        let i = choose|i: int| 0 <= i < t.len() && t[i] == e;
        assert(s[i] == e);
    }
    if has_partner(e, s) {
        let i = choose|i: int| 0 <= i < s.len() && same_key(e, #[trigger] s[i]);
        if i < s.len() - 1 {
            assert(same_key(e, t[i]));
        }
    }
    if has_partner(e, t) {
        let i = choose|i: int| 0 <= i < t.len() && same_key(e, #[trigger] t[i]);
        assert(same_key(e, s[i]));
    }
    if same_key(e, s.last()) {
        assert(same_key(e, s[s.len() - 1]));
    }
}

proof fn lemma_contains_one_sided(s: Seq<EntryView>, step: Step)
    ensures
        only_left(s).contains(step) <==> (step matches Step::OnlyLeft(e) && s.contains(e)),
        only_right(s).contains(step) <==> (step matches Step::OnlyRight(e) && s.contains(e)),
{
    if only_left(s).contains(step) {
        let i = choose|i: int| 0 <= i < only_left(s).len() && only_left(s)[i] == step;
        assert(s[i] == step->OnlyLeft_0);
    }
    if only_right(s).contains(step) {
        let i = choose|i: int| 0 <= i < only_right(s).len() && only_right(s)[i] == step;
        assert(s[i] == step->OnlyRight_0);
    }
    if let Step::OnlyLeft(e) = step {
        if s.contains(e) {
            let i = choose|i: int| 0 <= i < s.len() && s[i] == e;
            assert(only_left(s)[i] == step);
        }
    }
    if let Step::OnlyRight(e) = step {
        if s.contains(e) {
            let i = choose|i: int| 0 <= i < s.len() && s[i] == e;
            assert(only_right(s)[i] == step);
        }
    }
}

/// In a strictly sorted listing every entry but the last sorts before the
/// last, and the listing without its last entry is strictly sorted.
proof fn lemma_strictly_sorted_last(s: Seq<EntryView>, e: EntryView)
    requires
        strictly_sorted(s),
        s.len() > 0,
    ensures
        strictly_sorted(s.drop_last()),
        s.drop_last().contains(e) ==> key_lt(e, s.last()),
{
    let t = s.drop_last();
    assert forall|i: int, j: int| 0 <= i < j < t.len() implies key_lt(t[i], t[j]) by {
        assert(key_lt(s[i], s[j]));
    }
    if t.contains(e) {
        let i = choose|i: int| 0 <= i < t.len() && t[i] == e;
        assert(key_lt(s[i], s[s.len() - 1]));
    }
}

/// An entry that sorts after the last entry of a strictly sorted listing has
/// no partner in it.
proof fn lemma_no_partner_below(s: Seq<EntryView>, top: EntryView)
    requires
        strictly_sorted(s),
        s.len() > 0,
        key_lt(s.last(), top),
    ensures
        !has_partner(top, s),
    decreases s.len(),
{
    if has_partner(top, s) {
        let i = choose|i: int| 0 <= i < s.len() && same_key(top, #[trigger] s[i]);
        if i < s.len() - 1 {
            assert(key_lt(s[i], s[s.len() - 1]));
            lemma_key_lt_transitive(s[i], s.last(), top);
        }
        lemma_key_order_same(top, s[i]);
    }
}

proof fn lemma_only_left_classified(l: Seq<EntryView>, r: Seq<EntryView>, e: EntryView)
    requires
        strictly_sorted(l),
        strictly_sorted(r),
    ensures
        merge_steps(l, r).contains(Step::OnlyLeft(e)) <==> l.contains(e) && !has_partner(e, r),
    decreases l.len() + r.len(),
{
    let want = Step::OnlyLeft(e);
    if l.len() == 0 {
        lemma_contains_one_sided(r, want);
    } else if r.len() == 0 {
        lemma_contains_one_sided(l, want);
    } else {
        let a = l.last();
        let b = r.last();
        lemma_strictly_sorted_last(l, e);
        lemma_strictly_sorted_last(r, e);
        lemma_contains_last(l, e);
        lemma_contains_last(r, e);
        lemma_key_order_same(a, b);
        lemma_key_order_same(e, b);
        lemma_key_order_same(e, a);
        if key_lt(a, b) {
            let rest = merge_steps(l, r.drop_last());
            lemma_only_left_classified(l, r.drop_last(), e);
            lemma_contains_first(Step::OnlyRight(b), rest, want);
            if l.contains(e) && e != a {
                lemma_key_lt_transitive(e, a, b);
            }
        } else if key_lt(b, a) {
            let rest = merge_steps(l.drop_last(), r);
            lemma_only_left_classified(l.drop_last(), r, e);
            lemma_contains_first(Step::OnlyLeft(a), rest, want);
            lemma_no_partner_below(r, a);
        } else {
            let rest = merge_steps(l.drop_last(), r.drop_last());
            lemma_only_left_classified(l.drop_last(), r.drop_last(), e);
            lemma_contains_first(Step::Both(a, b), rest, want);
        }
    }
}

proof fn lemma_both_classified(l: Seq<EntryView>, r: Seq<EntryView>, x: EntryView, y: EntryView)
    requires
        strictly_sorted(l),
        strictly_sorted(r),
    ensures
        merge_steps(l, r).contains(Step::Both(x, y)) <==> l.contains(x) && r.contains(y)
            && same_key(x, y),
    decreases l.len() + r.len(),
{
    let want = Step::Both(x, y);
    if l.len() == 0 {
        lemma_contains_one_sided(r, want);
    } else if r.len() == 0 {
        lemma_contains_one_sided(l, want);
    } else {
        let a = l.last();
        let b = r.last();
        lemma_strictly_sorted_last(l, x);
        lemma_strictly_sorted_last(r, y);
        lemma_contains_last(l, x);
        lemma_contains_last(r, y);
        lemma_key_order_same(a, b);
        lemma_key_order_same(x, y);
        lemma_key_order_same(y, x);
        if key_lt(a, b) {
            let rest = merge_steps(l, r.drop_last());
            lemma_both_classified(l, r.drop_last(), x, y);
            lemma_contains_first(Step::OnlyRight(b), rest, want);
            if l.contains(x) && x != a {
                lemma_key_lt_transitive(x, a, b);
            }
        } else if key_lt(b, a) {
            let rest = merge_steps(l.drop_last(), r);
            lemma_both_classified(l.drop_last(), r, x, y);
            lemma_contains_first(Step::OnlyLeft(a), rest, want);
            if r.contains(y) && y != b {
                lemma_key_lt_transitive(y, b, a);
            }
        } else {
            let rest = merge_steps(l.drop_last(), r.drop_last());
            lemma_both_classified(l.drop_last(), r.drop_last(), x, y);
            lemma_contains_first(Step::Both(a, b), rest, want);
        }
    }
}

proof fn lemma_mirrored_contains(steps: Seq<Step>, step: Step)
    ensures
        mirrored_steps(steps).contains(step.mirrored()) <==> steps.contains(step),
{
    let m = mirrored_steps(steps);
    if m.contains(step.mirrored()) {
        let i = choose|i: int| 0 <= i < m.len() && m[i] == step.mirrored();
        assert(steps[i].mirrored().mirrored() == steps[i]);
        assert(steps[i] == step);
    }
    if steps.contains(step) {
        let i = choose|i: int| 0 <= i < steps.len() && steps[i] == step;
        assert(m[i] == step.mirrored());
    }
}

/// The pairing is the ordered merge of the two listings. Where no listing
/// holds two entries of the same rank and name, an entry is on its side only
/// exactly if the other listing has no entry of its rank and name, and two
/// entries are a pair exactly if they are of the same rank and name.
pub proof fn lemma_merge_steps_classify(l: Seq<EntryView>, r: Seq<EntryView>)
    requires
        strictly_sorted(l),
        strictly_sorted(r),
    ensures
        forall|e: EntryView| #[trigger]
            merge_steps(l, r).contains(Step::OnlyLeft(e)) <==> l.contains(e) && !has_partner(e, r),
        forall|e: EntryView| #[trigger]
            merge_steps(l, r).contains(Step::OnlyRight(e)) <==> r.contains(e) && !has_partner(
                e,
                l,
            ),
        forall|a: EntryView, b: EntryView| #[trigger]
            merge_steps(l, r).contains(Step::Both(a, b)) <==> l.contains(a) && r.contains(b)
                && same_key(a, b),
{
    assert forall|e: EntryView| #[trigger]
        merge_steps(l, r).contains(Step::OnlyLeft(e)) <==> l.contains(e) && !has_partner(
            e,
            r,
        ) by {
        lemma_only_left_classified(l, r, e);
    }
    assert forall|e: EntryView| #[trigger]
        merge_steps(l, r).contains(Step::OnlyRight(e)) <==> r.contains(e) && !has_partner(
            e,
            l,
        ) by {
        lemma_only_left_classified(r, l, e);
        lemma_merge_steps_mirrored(l, r);
        lemma_mirrored_contains(merge_steps(l, r), Step::OnlyRight(e));
    }
    assert forall|a: EntryView, b: EntryView| #[trigger]
        merge_steps(l, r).contains(Step::Both(a, b)) <==> l.contains(a) && r.contains(b)
            && same_key(a, b) by {
        lemma_both_classified(l, r, a, b);
    }
}


/// The steps do not depend on the order in which the directories were
/// listed. Two sorted listings of the same entries of the left directory, and
/// two of the same entries of the right one, in which no name occurs twice,
/// give the same steps in the same order.
pub proof fn lemma_merge_steps_deterministic(
    l1: Seq<EntryView>,
    r1: Seq<EntryView>,
    l2: Seq<EntryView>,
    r2: Seq<EntryView>,
)
    requires
        sorted(l1),
        sorted(r1),
        sorted(l2),
        sorted(r2),
        distinct_names(l1),
        distinct_names(r1),
        l1.to_multiset() == l2.to_multiset(),
        r1.to_multiset() == r2.to_multiset(),
    ensures
        merge_steps(l1, r1) == merge_steps(l2, r2),
{
    lemma_distinct_names_permuted(l1, l2);
    lemma_distinct_names_permuted(r1, r2);
    lemma_sorted_distinct_strict(l1);
    lemma_sorted_distinct_strict(r1);
    lemma_sorted_distinct_strict(l2);
    lemma_sorted_distinct_strict(r2);
    lemma_strictly_sorted_unique(l1, l2);
    lemma_strictly_sorted_unique(r1, r2);
}

/// Two entries of the same name whose types are of different rank are never
/// a pair: each is reported as being on its side only. So it is for a
/// symbolic link that faces a file or a directory.
pub proof fn lemma_merge_steps_rank_mismatch(
    l: Seq<EntryView>,
    r: Seq<EntryView>,
    a: EntryView,
    b: EntryView,
)
    requires
        sorted(l),
        sorted(r),
        distinct_names(l),
        distinct_names(r),
        l.contains(a),
        r.contains(b),
        a.name == b.name,
        type_order(a.file_type) != type_order(b.file_type),
    ensures
        merge_steps(l, r).contains(Step::OnlyLeft(a)),
        merge_steps(l, r).contains(Step::OnlyRight(b)),
{
    lemma_sorted_distinct_strict(l);
    lemma_sorted_distinct_strict(r);
    lemma_merge_steps_classify(l, r);
    let ia = choose|i: int| 0 <= i < l.len() && l[i] == a;
    let ib = choose|i: int| 0 <= i < r.len() && r[i] == b;
    if has_partner(a, r) {
        let i = choose|i: int| 0 <= i < r.len() && same_key(a, #[trigger] r[i]);
        if i < ib {
            assert(r[i].name != r[ib].name);
        } else if ib < i {
            assert(r[ib].name != r[i].name);
        }
    }
    if has_partner(b, l) {
        let i = choose|i: int| 0 <= i < l.len() && same_key(b, #[trigger] l[i]);
        if i < ia {
            assert(l[i].name != l[ia].name);
        } else if ia < i {
            assert(l[ia].name != l[i].name);
        }
    }
    assert(merge_steps(l, r).contains(Step::OnlyLeft(a)));
    assert(merge_steps(l, r).contains(Step::OnlyRight(b)));
}

} // verus!
