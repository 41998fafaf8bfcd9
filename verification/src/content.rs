//! The comparison of a pair: two regular files, or two symbolic links.
//!
//! Two regular files differ if their contents differ. Their lengths are
//! compared first; only files of one length are read, buffer by buffer.
//! Files with the same content may still differ in the time of their last
//! modification, which is looked at only on request. Two symbolic links
//! differ if they do not name the same target, byte for byte.

use crate::diff::{Diff, DiffView};
use crate::entry::{EntryView, FileT};
use crate::path::{agree_before, same_bytes, RelativePath};
use vstd::prelude::*;

verus! {

/// In what two regular files of the same name differ.
#[derive(Debug, Clone, Copy, PartialEq, Eq, Structural)]
pub enum FileDifference {
    /// They do not hold the same bytes.
    Content,
    /// They hold the same bytes and were last modified at different times.
    MTimeOnly,
}

/// How far the comparison of two regular files has come: what has to be
/// looked at next, or what came out.
#[derive(Debug, Clone, Copy, PartialEq, Eq, Structural)]
pub enum FileProgress {
    /// The contents have to be read.
    ReadContent,
    /// The times of the last modification have to be read.
    ReadMTimes,
    /// The comparison is over, with this difference or with none.
    Done(Option<FileDifference>),
}

/// What two buffers, one filled from each file at the same position, show.
#[derive(Debug, Clone, Copy, PartialEq, Eq, Structural)]
pub enum BufferStep {
    /// Both files end here: they are the same.
    Equal,
    /// The files differ.
    Differ,
    /// The files agree on this many bytes from here, which are to be skipped
    /// in both before the buffers are filled again.
    Consume(usize),
}

/// What a regular file is to the comparison.
pub struct FileModel {
    /// The bytes that the file holds.
    pub content: Seq<u8>,
    /// The length that the file system gives for the file.
    pub len: u64,
    /// The time of the last modification, in nanoseconds since the epoch.
    pub mtime: i128,
}

impl FileModel {
    /// The file system gives the number of bytes in the file as its length.
    pub open spec fn consistent(self) -> bool {
        self.len == self.content.len()
    }
}

/// The difference between two regular files: in content first, and among
/// files of the same content in the time of modification, if that is asked
/// for.
pub open spec fn file_difference(left: FileModel, right: FileModel, check_mtime: bool) -> Option<
    FileDifference,
> {
    if left.content != right.content {
        Some(FileDifference::Content)
    } else if check_mtime && left.mtime != right.mtime {
        Some(FileDifference::MTimeOnly)
    } else {
        None
    }
}

/// What follows from the two lengths.
pub open spec fn progress_after_lengths(left_len: u64, right_len: u64) -> FileProgress {
    if left_len != right_len {
        FileProgress::Done(Some(FileDifference::Content))
    } else {
        FileProgress::ReadContent
    }
}

/// What follows once it is known whether the contents are the same.
pub open spec fn progress_after_content(same_content: bool, check_mtime: bool) -> FileProgress {
    if !same_content {
        FileProgress::Done(Some(FileDifference::Content))
    } else if check_mtime {
        FileProgress::ReadMTimes
    } else {
        FileProgress::Done(None)
    }
}

/// What follows from the two times of modification of files with the same
/// content.
pub open spec fn progress_after_mtimes(left_mtime: i128, right_mtime: i128) -> FileProgress {
    if left_mtime != right_mtime {
        FileProgress::Done(Some(FileDifference::MTimeOnly))
    } else {
        FileProgress::Done(None)
    }
}

/// The smaller of two lengths.
pub open spec fn common_len(a: Seq<u8>, b: Seq<u8>) -> nat {
    if a.len() <= b.len() {
        a.len()
    } else {
        b.len()
    }
}

/// What the buffers `a` and `b` show. An empty `a` means that the left file
/// has ended: the files are the same if the right one has ended too.
/// Otherwise the two buffers are compared as far as both reach.
pub open spec fn buffer_step(a: Seq<u8>, b: Seq<u8>) -> BufferStep {
    if a.len() == 0 {
        if b.len() == 0 {
            BufferStep::Equal
        } else {
            BufferStep::Differ
        }
    } else if a.take(common_len(a, b) as int) != b.take(common_len(a, b) as int) {
        BufferStep::Differ
    } else {
        BufferStep::Consume(common_len(a, b) as usize)
    }
}

/// Decides from the lengths alone where that is possible: files of different
/// lengths differ, and their contents need not be read.
pub fn after_lengths(left_len: u64, right_len: u64) -> (progress: FileProgress)
    ensures
        progress == progress_after_lengths(left_len, right_len),
{
    if left_len != right_len {
        FileProgress::Done(Some(FileDifference::Content))
    } else {
        FileProgress::ReadContent
    }
}

/// Compares two buffers, one filled from each file at the same position.
pub fn compare_buffers(left: &[u8], right: &[u8]) -> (step: BufferStep)
    ensures
        step == buffer_step(left@, right@),
{
    if left.len() == 0 {
        return if right.len() == 0 {
            BufferStep::Equal
        } else {
            BufferStep::Differ
        };
    }
    let common_size = if left.len() <= right.len() {
        left.len()
    } else {
        right.len()
    };
    let mut i: usize = 0;
    while i < common_size
        invariant
            i <= common_size,
            common_size == common_len(left@, right@),
            agree_before(left@, right@, i as int),
        decreases common_size - i,
    {
        if left[i] != right[i] {
            assert(left@.take(common_size as int)[i as int] != right@.take(
                common_size as int,
            )[i as int]);
            return BufferStep::Differ;
        }
        i += 1;
    }
    assert(left@.take(common_size as int) =~= right@.take(common_size as int));
    BufferStep::Consume(common_size)
}

/// Decides what is left to do once the contents have been compared.
pub fn after_content(same_content: bool, check_mtime: bool) -> (progress: FileProgress)
    ensures
        progress == progress_after_content(same_content, check_mtime),
{
    if !same_content {
        FileProgress::Done(Some(FileDifference::Content))
    } else if check_mtime {
        FileProgress::ReadMTimes
    } else {
        FileProgress::Done(None)
    }
}

/// Decides from the times of the last modification, for files with the same
/// content.
pub fn after_mtimes(left_mtime: i128, right_mtime: i128) -> (progress: FileProgress)
    ensures
        progress == progress_after_mtimes(left_mtime, right_mtime),
{
    if left_mtime != right_mtime {
        FileProgress::Done(Some(FileDifference::MTimeOnly))
    } else {
        FileProgress::Done(None)
    }
}

/// The report of a difference between two regular files that are a pair.
pub open spec fn file_diff_view(
    dir: Seq<Seq<u8>>,
    left: EntryView,
    right: EntryView,
    difference: FileDifference,
) -> DiffView {
    match difference {
        FileDifference::Content => DiffView::Different(dir, left.name),
        FileDifference::MTimeOnly => DiffView::SameButDifferentMTime(dir, right.name),
    }
}

/// Makes the report of a difference between the regular files `left` and
/// `right` of the directory `dir`.
pub fn file_diff(
    dir: &RelativePath,
    left: &FileT,
    right: &FileT,
    difference: FileDifference,
) -> (diff: Diff)
    ensures
        diff@ == file_diff_view(dir@, left@, right@, difference),
{
    match difference {
        FileDifference::Content => Diff::Different(dir.clone(), left.filename()),
        FileDifference::MTimeOnly => Diff::SameButDifferentMTime(dir.clone(), right.filename()),
    }
}

/// The report on two symbolic links that are a pair: they differ unless they
/// name the same target.
pub open spec fn link_diff_view(
    dir: Seq<Seq<u8>>,
    left: EntryView,
    left_target: Seq<u8>,
    right_target: Seq<u8>,
) -> Option<DiffView> {
    if left_target != right_target {
        Some(DiffView::Different(dir, left.name))
    } else {
        None
    }
}

/// Compares the symbolic links `left` and `right` of the directory `dir` by
/// the targets that they name, as they are written in the links.
pub fn compare_links(
    dir: &RelativePath,
    left: &FileT,
    right: &FileT,
    left_target: &[u8],
    right_target: &[u8],
) -> (diff: Option<Diff>)
    ensures
        match diff {
            Some(d) => link_diff_view(dir@, left@, left_target@, right_target@) == Some(d@),
            None => link_diff_view(dir@, left@, left_target@, right_target@) is None,
        },
{
    if !same_bytes(left_target, right_target) {
        Some(Diff::Different(dir.clone(), left.filename()))
    } else {
        None
    }
}


/// What two buffers show is true of the files. `l` and `r` are what is left
/// of the two files at the position where the buffers `a` and `b` were
/// filled; a buffer shows a first part of what is left, and is empty only at
/// the end of its file. Then: files that are said to be the same are the
/// same, files that are said to differ differ, and where bytes are to be
/// skipped the files agree on them, so that they are the same if they are the
/// same behind them. Nothing is skipped only if one file has ended and the
/// other has not.
pub proof fn lemma_buffer_step_sound(l: Seq<u8>, r: Seq<u8>, a: Seq<u8>, b: Seq<u8>)
    requires
        a.is_prefix_of(l),
        b.is_prefix_of(r),
        a.len() == 0 ==> l.len() == 0,
        b.len() == 0 ==> r.len() == 0,
        a.len() <= usize::MAX,
        b.len() <= usize::MAX,
    ensures
        match buffer_step(a, b) {
            BufferStep::Equal => l == r,
            BufferStep::Differ => l != r,
            BufferStep::Consume(n) => {
                &&& n <= a.len()
                &&& n <= b.len()
                &&& l.take(n as int) == r.take(n as int)
                &&& (l == r <==> l.skip(n as int) == r.skip(n as int))
                &&& (n == 0 ==> l.len() != r.len())
            },
        },
{
    let n = common_len(a, b) as int;
    assert(a.take(n) =~= l.take(n));
    assert(b.take(n) =~= r.take(n));
    match buffer_step(a, b) {
        BufferStep::Equal => {
            assert(l =~= r);
        },
        BufferStep::Differ => {
            if a.len() > 0 && l == r {
                assert(l.take(n) == r.take(n));
            }
        },
        BufferStep::Consume(m) => {
            assert(m == n);
            if l.skip(n) == r.skip(n) {
                assert(l =~= l.take(n) + l.skip(n));
                assert(r =~= r.take(n) + r.skip(n));
            }
        },
    }
}

/// The buffer that is filled from what is left of a file, where `fill` says
/// how many bytes are wanted: at least one byte while any is left, and never
/// more than there are, nor more than a buffer can hold.
pub open spec fn buffer_of(rest: Seq<u8>, fill: spec_fn(Seq<u8>) -> int) -> Seq<u8> {
    if rest.len() == 0 {
        rest
    } else if fill(rest) < 1 {
        rest.take(1)
    } else if fill(rest) <= rest.len() && fill(rest) <= usize::MAX {
        rest.take(fill(rest))
    } else if rest.len() <= usize::MAX {
        rest
    } else {
        rest.take(usize::MAX as int)
    }
}

/// What the comparison by buffers finds for two files of which `l` and `r`
/// are left: whether they are the same. The buffers are filled as `fill_l`
/// and `fill_r` say, compared, and the bytes on which they agree are skipped,
/// until the files are seen to be the same or to differ. Where there is
/// nothing to skip the reading never ends, and the files are not found the
/// same.
pub open spec fn same_by_buffers(
    l: Seq<u8>,
    r: Seq<u8>,
    fill_l: spec_fn(Seq<u8>) -> int,
    fill_r: spec_fn(Seq<u8>) -> int,
) -> bool
    decreases l.len(),
{
    match buffer_step(buffer_of(l, fill_l), buffer_of(r, fill_r)) {
        BufferStep::Equal => true,
        BufferStep::Differ => false,
        BufferStep::Consume(n) => if 0 < n <= l.len() {
            same_by_buffers(l.skip(n as int), r.skip(n as int), fill_l, fill_r)
        } else {
            false
        },
    }
}

/// The comparison by buffers is right however the buffers are filled: two
/// files of the same length are found the same exactly if they hold the same
/// bytes.
pub proof fn lemma_same_by_buffers(
    l: Seq<u8>,
    r: Seq<u8>,
    fill_l: spec_fn(Seq<u8>) -> int,
    fill_r: spec_fn(Seq<u8>) -> int,
)
    requires
        l.len() == r.len(),
    ensures
        same_by_buffers(l, r, fill_l, fill_r) == (l == r),
    decreases l.len(),
{
    let a = buffer_of(l, fill_l);
    let b = buffer_of(r, fill_r);
    lemma_buffer_step_sound(l, r, a, b);
    match buffer_step(a, b) {
        BufferStep::Consume(n) => {
            lemma_same_by_buffers(l.skip(n as int), r.skip(n as int), fill_l, fill_r);
        },
        _ => {},
    }
}

/// What the comparison of two regular files comes to when it is carried out
/// step by step: the lengths first, then the contents by buffers, then the
/// times of modification, each only if the step before asks for it.
pub open spec fn file_check(
    left: FileModel,
    right: FileModel,
    check_mtime: bool,
    fill_l: spec_fn(Seq<u8>) -> int,
    fill_r: spec_fn(Seq<u8>) -> int,
) -> Option<FileDifference> {
    match progress_after_lengths(left.len, right.len) {
        FileProgress::Done(difference) => difference,
        _ => match progress_after_content(
            same_by_buffers(left.content, right.content, fill_l, fill_r),
            check_mtime,
        ) {
            FileProgress::Done(difference) => difference,
            _ => match progress_after_mtimes(left.mtime, right.mtime) {
                FileProgress::Done(difference) => difference,
                _ => None,
            },
        },
    }
}

/// Carried out step by step, the comparison finds the difference between the
/// two files, however the buffers are filled. Files of different lengths
/// are found to differ without being read.
pub proof fn lemma_file_check(
    left: FileModel,
    right: FileModel,
    check_mtime: bool,
    fill_l: spec_fn(Seq<u8>) -> int,
    fill_r: spec_fn(Seq<u8>) -> int,
)
    requires
        left.consistent(),
        right.consistent(),
    ensures
        file_check(left, right, check_mtime, fill_l, fill_r) == file_difference(
            left,
            right,
            check_mtime,
        ),
        left.len != right.len ==> progress_after_lengths(left.len, right.len) == FileProgress::Done(
            Some(FileDifference::Content),
        ),
{
    if left.len == right.len {
        lemma_same_by_buffers(left.content, right.content, fill_l, fill_r);
    }
}

/// To look at the times of modification adds reports and changes none: two
/// files differ in content with the check exactly if they do without it, and
/// without it no pair is reported for its times.
pub proof fn lemma_mtime_check_additive(left: FileModel, right: FileModel)
    ensures
        file_difference(left, right, false) != Some(FileDifference::MTimeOnly),
        file_difference(left, right, true) == Some(FileDifference::Content) <==> file_difference(
            left,
            right,
            false,
        ) == Some(FileDifference::Content),
        file_difference(left, right, true) == file_difference(left, right, false)
            || file_difference(left, right, true) == Some(FileDifference::MTimeOnly),
{
}

/// It does not matter which of two files is the left one: they differ in the
/// same way.
pub proof fn lemma_file_difference_symmetric(left: FileModel, right: FileModel, check_mtime: bool)
    ensures
        file_difference(right, left, check_mtime) == file_difference(left, right, check_mtime),
{
}

} // verus!
