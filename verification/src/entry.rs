//! One entry of a directory, as the comparison sees it, and the order in
//! which the entries of a directory are put.

use crate::file_type_enum::FileType;
use crate::path::{
    compare_names, copy_bytes, lemma_name_lt_asymmetric, lemma_name_lt_irreflexive,
    lemma_name_lt_total, lemma_name_lt_transitive, name_lt, Precedence,
};
use vstd::multiset::Multiset;
use vstd::prelude::*;

verus! {

/// What a symbolic link leads to, once it has been followed to the end.
#[derive(Debug)]
pub struct LinkTarget {
    /// The canonical path of the file that the link leads to.
    pub path: Vec<u8>,
    /// The type of that file.
    pub file_type: FileType,
}

/// Extraction of useful metadata for iterated files.
#[derive(Debug)]
pub struct FileT {
    /// The name under which the directory lists the entry.
    pub name: Vec<u8>,
    /// The type that the comparison goes by: that of the entry, or that of
    /// the file it leads to where links are followed.
    pub file_type: FileType,
    /// The canonical path of the file that the entry leads to, for a link that
    /// was followed.
    pub path: Option<Vec<u8>>,
}

/// What an entry is, as a mathematical value.
pub struct EntryView {
    pub name: Seq<u8>,
    pub file_type: FileType,
    pub path: Option<Seq<u8>>,
}

impl View for LinkTarget {
    type V = (Seq<u8>, FileType);

    open spec fn view(&self) -> (Seq<u8>, FileType) {
        (self.path@, self.file_type)
    }
}

impl View for FileT {
    type V = EntryView;

    open spec fn view(&self) -> EntryView {
        EntryView {
            name: self.name@,
            file_type: self.file_type,
            path: match self.path {
                Some(p) => Some(p@),
                None => None,
            },
        }
    }
}

/// The rank of a file type in a sorted listing: directories first, then
/// links, then regular files, then all the rest.
pub open spec fn type_order(file_type: FileType) -> u8 {
    match file_type {
        FileType::Directory => 0,
        FileType::Symlink => 1,
        FileType::Regular => 2,
        _ => 3,
    }
}

/// Whether an entry of type `raw_type` is to be replaced by what it leads to.
pub open spec fn follows_link(raw_type: FileType, follow_link: bool) -> bool {
    follow_link && raw_type == FileType::Symlink
}

/// The entry that the comparison sees for a directory entry `name` of type
/// `raw_type`. A link that is followed shows the type and the path of its
/// target; every other entry shows its own type and no path.
pub open spec fn entry_view(
    name: Seq<u8>,
    raw_type: FileType,
    follow_link: bool,
    target: Option<(Seq<u8>, FileType)>,
) -> EntryView {
    match target {
        Some((path, file_type)) if follows_link(raw_type, follow_link) => EntryView {
            name,
            file_type,
            path: Some(path),
        },
        _ => EntryView { name, file_type: raw_type, path: None },
    }
}

/// Where links are followed, an entry that is no link is seen exactly as it
/// is seen where they are not: to follow links changes nothing in a tree
/// without links.
pub proof fn lemma_follow_changes_links_only(
    name: Seq<u8>,
    raw_type: FileType,
    target: Option<(Seq<u8>, FileType)>,
)
    requires
        raw_type != FileType::Symlink,
    ensures
        entry_view(name, raw_type, true, target) == entry_view(name, raw_type, false, None),
{
}

/// What a sequence of entries holds, entry by entry.
pub open spec fn listing(entries: Seq<FileT>) -> Seq<EntryView> {
    Seq::new(entries.len(), |i: int| entries[i]@)
}

/// `a` sorts before `b`: by the rank of the type first, by the name among
/// entries of one rank.
pub open spec fn key_lt(a: EntryView, b: EntryView) -> bool {
    type_order(a.file_type) < type_order(b.file_type) || (type_order(a.file_type) == type_order(
        b.file_type,
    ) && name_lt(a.name, b.name))
}

/// `a` and `b` have the same rank and the same name.
pub open spec fn same_key(a: EntryView, b: EntryView) -> bool {
    type_order(a.file_type) == type_order(b.file_type) && a.name == b.name
}

/// How `a` stands to `b` in a sorted listing.
pub open spec fn key_order(a: EntryView, b: EntryView) -> Precedence {
    if key_lt(a, b) {
        Precedence::Before
    } else if key_lt(b, a) {
        Precedence::After
    } else {
        Precedence::Same
    }
}

/// No entry of the listing sorts before an earlier one.
pub open spec fn sorted(s: Seq<EntryView>) -> bool {
    forall|i: int, j: int| 0 <= i < j < s.len() ==> !key_lt(s[j], s[i])
}

/// Every entry of the listing sorts before all later ones, so that no two
/// have the same rank and name.
pub open spec fn strictly_sorted(s: Seq<EntryView>) -> bool {
    forall|i: int, j: int| 0 <= i < j < s.len() ==> key_lt(s[i], s[j])
}

/// No entry sorts before itself.
pub proof fn lemma_key_lt_irreflexive(a: EntryView)
    ensures
        !key_lt(a, a),
{
    lemma_name_lt_irreflexive(a.name);
}

/// Of two entries at most one sorts before the other.
pub proof fn lemma_key_lt_asymmetric(a: EntryView, b: EntryView)
    ensures
        !(key_lt(a, b) && key_lt(b, a)),
{
    lemma_name_lt_asymmetric(a.name, b.name);
}

/// The sorting order is transitive.
pub proof fn lemma_key_lt_transitive(a: EntryView, b: EntryView, c: EntryView)
    requires
        key_lt(a, b),
        key_lt(b, c),
    ensures
        key_lt(a, c),
{
    if type_order(a.file_type) == type_order(b.file_type) && type_order(b.file_type) == type_order(
        c.file_type,
    ) {
        lemma_name_lt_transitive(a.name, b.name, c.name);
    }
}

/// Two entries of which neither sorts before the other have the same rank
/// and the same name, and the other way round.
pub proof fn lemma_key_order_same(a: EntryView, b: EntryView)
    ensures
        key_order(a, b) == Precedence::Same <==> same_key(a, b),
{
    if same_key(a, b) {
        lemma_name_lt_irreflexive(a.name);
    }
    if !key_lt(a, b) && !key_lt(b, a) {
        lemma_name_lt_total(a.name, b.name);
    }
}

/// No two entries of the listing have the same name.
pub open spec fn distinct_names(s: Seq<EntryView>) -> bool {
    forall|i: int, j: int| 0 <= i < j < s.len() ==> s[i].name != s[j].name
}

/// Two listings that hold the same entries, each as often, hold the same
/// entries.
pub proof fn lemma_same_entries(s: Seq<EntryView>, t: Seq<EntryView>, e: EntryView)
    requires
        s.to_multiset() == t.to_multiset(),
    ensures
        s.contains(e) <==> t.contains(e),
{
    vstd::seq_lib::to_multiset_contains(s, e);
    vstd::seq_lib::to_multiset_contains(t, e);
}

/// A listing in which no name occurs twice keeps that property in whatever
/// order its entries are put.
pub proof fn lemma_distinct_names_permuted(s: Seq<EntryView>, t: Seq<EntryView>)
    requires
        distinct_names(s),
        s.to_multiset() == t.to_multiset(),
    ensures
        distinct_names(t),
{
    assert(s.no_duplicates()) by {
        assert forall|i: int, j: int|
            0 <= i < s.len() && 0 <= j < s.len() && i != j implies s[i] != s[j] by {
            if i < j {
                assert(s[i].name != s[j].name);
            } else {
                assert(s[j].name != s[i].name);
            }
        }
    }
    s.lemma_multiset_has_no_duplicates();
    t.lemma_multiset_has_no_duplicates_conv();
    assert forall|i: int, j: int| 0 <= i < j < t.len() implies t[i].name != t[j].name by {
        assert(t[i] != t[j]);
        assert(t.contains(t[i]));
        assert(t.contains(t[j]));
        lemma_same_entries(s, t, t[i]);
        lemma_same_entries(s, t, t[j]);
        let p = choose|p: int| 0 <= p < s.len() && s[p] == t[i];
        let q = choose|q: int| 0 <= q < s.len() && s[q] == t[j];
        if p < q {
            assert(s[p].name != s[q].name);
        } else {
            assert(s[q].name != s[p].name);
        }
    }
}

/// A sorted listing in which no name occurs twice is strictly sorted.
pub proof fn lemma_sorted_distinct_strict(s: Seq<EntryView>)
    requires
        sorted(s),
        distinct_names(s),
    ensures
        strictly_sorted(s),
{
    assert forall|i: int, j: int| 0 <= i < j < s.len() implies key_lt(s[i], s[j]) by {
        assert(!key_lt(s[j], s[i]));
        assert(s[i].name != s[j].name);
        lemma_key_order_same(s[i], s[j]);
    }
}

/// There is one way only to put given entries in strictly ascending order:
/// how a listing comes out of sorting does not depend on the order in which
/// its entries went in.
pub proof fn lemma_strictly_sorted_unique(a: Seq<EntryView>, b: Seq<EntryView>)
    requires
        strictly_sorted(a),
        strictly_sorted(b),
        a.to_multiset() == b.to_multiset(),
    ensures
        a == b,
    decreases a.len(),
{
    vstd::seq_lib::to_multiset_len(a);
    vstd::seq_lib::to_multiset_len(b);
    if a.len() == 0 {
        assert(a =~= b);
    } else {
        let n = a.len() as int;
        assert(a.contains(a[n - 1]));
        assert(b.contains(b[n - 1]));
        lemma_same_entries(a, b, a[n - 1]);
        lemma_same_entries(a, b, b[n - 1]);
        let j = choose|j: int| 0 <= j < b.len() && b[j] == a[n - 1];
        let i = choose|i: int| 0 <= i < a.len() && a[i] == b[n - 1];
        if j < n - 1 {
            assert(key_lt(b[j], b[n - 1]));
            if i < n - 1 {
                assert(key_lt(a[i], a[n - 1]));
                lemma_key_lt_asymmetric(a[i], a[n - 1]);
            } else {
                lemma_key_lt_irreflexive(a[n - 1]);
            }
        }
        assert(a[n - 1] == b[n - 1]);
        vstd::seq_lib::to_multiset_remove(a, n - 1);
        vstd::seq_lib::to_multiset_remove(b, n - 1);
        assert(a.remove(n - 1) =~= a.drop_last());
        assert(b.remove(n - 1) =~= b.drop_last());
        assert forall|i: int, j: int| 0 <= i < j < a.drop_last().len() implies key_lt(
            a.drop_last()[i],
            a.drop_last()[j],
        ) by {
            assert(key_lt(a[i], a[j]));
        }
        assert forall|i: int, j: int| 0 <= i < j < b.drop_last().len() implies key_lt(
            b.drop_last()[i],
            b.drop_last()[j],
        ) by {
            assert(key_lt(b[i], b[j]));
        }
        lemma_strictly_sorted_unique(a.drop_last(), b.drop_last());
        assert(a =~= a.drop_last().push(a[n - 1]));
        assert(b =~= b.drop_last().push(b[n - 1]));
    }
}

impl Clone for FileT {
    fn clone(&self) -> (copy: Self)
        ensures
            copy@ == self@,
    {
        FileT {
            name: copy_bytes(self.name.as_slice()),
            file_type: self.file_type,
            path: match &self.path {
                Some(p) => Some(copy_bytes(p.as_slice())),
                None => None,
            },
        }
    }
}

impl FileT {
    /// Whether the target of an entry has to be looked up before the entry
    /// can be made: it has, for a link where links are followed.
    pub fn needs_target(raw_type: FileType, follow_link: bool) -> (needed: bool)
        ensures
            needed == follows_link(raw_type, follow_link),
    {
        follow_link && raw_type == FileType::Symlink
    }

    /// Create new extraction from directory entry.
    ///
    /// `raw_type` is the type of the entry itself. If `follow_link` is set and
    /// the entry is a symbolic link, then path and type of the target file are
    /// cached.
    pub fn new(
        name: Vec<u8>,
        raw_type: FileType,
        follow_link: bool,
        target: Option<LinkTarget>,
    ) -> (entry: Self)
        requires
            follows_link(raw_type, follow_link) ==> target is Some,
        ensures
            entry@.path is Some <==> follows_link(raw_type, follow_link),
            entry@ == entry_view(
                name@,
                raw_type,
                follow_link,
                match target {
                    Some(t) => Some(t@),
                    None => None,
                },
            ),
    {
        if follow_link && raw_type == FileType::Symlink {
            match target {
                Some(t) => FileT { name, file_type: t.file_type, path: Some(t.path) },
                None => FileT { name, file_type: raw_type, path: None },
            }
        } else {
            FileT { name, file_type: raw_type, path: None }
        }
    }

    /// Returns file name. If structure contains symlink, then its name will be
    /// returned instead of its target name.
    pub fn filename(&self) -> (name: Vec<u8>)
        ensures
            name@ == self@.name,
    {
        copy_bytes(self.name.as_slice())
    }

    /// Path to the file that a followed link leads to; `None` for an entry
    /// that stands for itself, which is found under its name in its directory.
    pub fn path(&self) -> (path: Option<&Vec<u8>>)
        ensures
            match path {
                Some(p) => self@.path == Some(p@),
                None => self@.path is None,
            },
    {
        self.path.as_ref()
    }

    /// Ordering files by their types
    pub fn file_type_order(&self) -> (order: u8)
        ensures
            order == type_order(self@.file_type),
    {
        match self.file_type {
            FileType::Directory => 0,
            FileType::Symlink => 1,
            FileType::Regular => 2,
            _ => 3,
        }
    }

    /// How this entry stands to `other` in a sorted listing.
    pub fn compare(&self, other: &FileT) -> (order: Precedence)
        ensures
            order == key_order(self@, other@),
            order == Precedence::Same <==> same_key(self@, other@),
    {
        proof {
            lemma_key_order_same(self@, other@);
        }
        let mine = self.file_type_order();
        let theirs = other.file_type_order();
        if mine < theirs {
            Precedence::Before
        } else if theirs < mine {
            Precedence::After
        } else {
            compare_names(self.name.as_slice(), other.name.as_slice())
        }
    }
}

/// `a` sorts no later than `b`.
pub open spec fn key_le(a: EntryView, b: EntryView) -> bool {
    !key_lt(b, a)
}

/// No entry of the listing sorts after an earlier one.
spec fn descending(s: Seq<EntryView>) -> bool {
    forall|i: int, j: int| 0 <= i < j < s.len() ==> key_le(s[j], s[i])
}

proof fn lemma_key_le_transitive(a: EntryView, b: EntryView, c: EntryView)
    requires
        key_le(a, b),
        key_le(b, c),
    ensures
        key_le(a, c),
{
    if key_lt(c, a) {
        lemma_key_order_same(a, b);
        if key_lt(a, b) {
            lemma_key_lt_transitive(c, a, b);
        }
    }
}

proof fn lemma_listing_empty(s: Seq<FileT>)
    requires
        s.len() == 0,
    ensures
        listing(s).to_multiset() == Multiset::<EntryView>::empty(),
{
    vstd::seq_lib::to_multiset_len(listing(s));
    assert(listing(s).to_multiset() =~= Multiset::<EntryView>::empty()) by {
        assert forall|x: EntryView| listing(s).to_multiset().count(x) == 0 by {
            vstd::seq_lib::to_multiset_contains(listing(s), x);
        }
    }
}

proof fn lemma_listing_push(s: Seq<FileT>, e: FileT)
    ensures
        listing(s.push(e)) == listing(s).push(e@),
{
    assert(listing(s.push(e)) =~= listing(s).push(e@));
}

proof fn lemma_listing_drop_last(s: Seq<FileT>)
    requires
        s.len() > 0,
    ensures
        listing(s.drop_last()) == listing(s).drop_last(),
        listing(s).last() == s.last()@,
        listing(s).to_multiset() == listing(s.drop_last()).to_multiset().insert(s.last()@),
{
    assert(listing(s.drop_last()) =~= listing(s).drop_last());
    assert(listing(s) =~= listing(s).drop_last().push(s.last()@));
    vstd::seq_lib::to_multiset_build(listing(s).drop_last(), s.last()@);
}

/// Puts a listing that comes in descending order in ascending order.
fn reversed(down: Vec<FileT>) -> (up: Vec<FileT>)
    requires
        descending(listing(down@)),
    ensures
        sorted(listing(up@)),
        listing(up@).to_multiset() == listing(down@).to_multiset(),
{
    let ghost all = listing(down@);
    let mut down = down;
    let mut up: Vec<FileT> = Vec::with_capacity(down.len());
    while down.len() > 0
        invariant
            down.len() + up.len() == all.len(),
            listing(down@) == all.take(down.len() as int),
            listing(up@) == all.reverse().take(up.len() as int),
        decreases down.len(),
    {
        let ghost before = down@;
        let ghost so_far = up@;
        let e = down.pop().unwrap();
        proof {
            assert(down@ == before.drop_last());
            lemma_listing_drop_last(before);
            lemma_listing_push(so_far, e);
        }
        up.push(e);
        assert(listing(down@) =~= all.take(down.len() as int));
        assert(listing(up@) =~= all.reverse().take(up.len() as int));
    }
    proof {
        assert(listing(up@) =~= all.reverse());
        all.lemma_reverse_to_multiset();
        assert forall|i: int, j: int| 0 <= i < j < all.reverse().len() implies !key_lt(
            all.reverse()[j],
            all.reverse()[i],
        ) by {
            assert(key_le(all[all.len() - 1 - i], all[all.len() - 1 - j]));
        }
    }
    up
}

/// Puts two sorted listings together into one.
fn merge_sorted(a: Vec<FileT>, b: Vec<FileT>) -> (merged: Vec<FileT>)
    requires
        sorted(listing(a@)),
        sorted(listing(b@)),
    ensures
        sorted(listing(merged@)),
        listing(merged@).to_multiset() == listing(a@).to_multiset().add(
            listing(b@).to_multiset(),
        ),
{
    let ghost a0 = listing(a@);
    let ghost b0 = listing(b@);
    let mut a = a;
    let mut b = b;
    // The greater of the two last entries is taken each time, so that the
    // entries come out in descending order.
    let mut down: Vec<FileT> = Vec::new();
    proof {
        lemma_listing_empty(down@);
        assert(listing(down@).to_multiset().add(a0.to_multiset()).add(b0.to_multiset())
            =~= a0.to_multiset().add(b0.to_multiset()));
    }
    while a.len() > 0 || b.len() > 0
        invariant
            sorted(a0),
            sorted(b0),
            a.len() <= a0.len(),
            b.len() <= b0.len(),
            listing(a@) == a0.take(a.len() as int),
            listing(b@) == b0.take(b.len() as int),
            descending(listing(down@)),
            down.len() > 0 ==> forall|i: int|
                0 <= i < a.len() ==> key_le(#[trigger] a0[i], listing(down@).last()),
            down.len() > 0 ==> forall|i: int|
                0 <= i < b.len() ==> key_le(#[trigger] b0[i], listing(down@).last()),
            listing(down@).to_multiset().add(listing(a@).to_multiset()).add(
                listing(b@).to_multiset(),
            ) == a0.to_multiset().add(b0.to_multiset()),
        decreases a.len() + b.len(),
    {
        let from_a = if b.len() == 0 {
            true
        } else if a.len() == 0 {
            false
        } else {
            match a[a.len() - 1].compare(&b[b.len() - 1]) {
                Precedence::Before => false,
                _ => true,
            }
        };
        let ghost old_a = a@;
        let ghost old_b = b@;
        let ghost old_down = down@;
        let e = if from_a {
            proof {
                lemma_listing_drop_last(old_a);
            }
            a.pop().unwrap()
        } else {
            proof {
                lemma_listing_drop_last(old_b);
            }
            b.pop().unwrap()
        };
        proof {
            lemma_listing_push(old_down, e);
            let d = listing(old_down);
            // The entry is no smaller than what is left of the two listings.
            assert forall|i: int| 0 <= i < a.len() implies key_le(#[trigger] a0[i], e@) by {
                if from_a {
                    assert(e@ == a0[old_a.len() - 1]);
                } else {
                    assert(e@ == b0[old_b.len() - 1]);
                    assert(listing(old_a)[old_a.len() - 1] == a0[old_a.len() - 1]);
                    lemma_key_lt_asymmetric(a0[old_a.len() - 1], e@);
                    if i < old_a.len() - 1 {
                        lemma_key_le_transitive(a0[i], a0[old_a.len() - 1], e@);
                    }
                }
            }
            assert forall|i: int| 0 <= i < b.len() implies key_le(#[trigger] b0[i], e@) by {
                if from_a {
                    assert(e@ == a0[old_a.len() - 1]);
                    if old_b.len() > 0 {
                        assert(listing(old_b)[old_b.len() - 1] == b0[old_b.len() - 1]);
                        lemma_key_order_same(a0[old_a.len() - 1], b0[old_b.len() - 1]);
                        if i < old_b.len() - 1 {
                            lemma_key_le_transitive(b0[i], b0[old_b.len() - 1], e@);
                        }
                    }
                } else {
                    assert(e@ == b0[old_b.len() - 1]);
                }
            }
            // And no greater than what has been taken.
            if old_down.len() > 0 {
                assert(key_le(e@, d.last())) by {
                    if from_a {
                        assert(e@ == a0[old_a.len() - 1]);
                    } else {
                        assert(e@ == b0[old_b.len() - 1]);
                    }
                }
                assert forall|i: int| 0 <= i < d.len() implies key_le(e@, #[trigger] d[i]) by {
                    if i < d.len() - 1 {
                        lemma_key_le_transitive(e@, d.last(), d[i]);
                    }
                }
            }
            assert(a0.take(a.len() as int) =~= listing(a@));
            assert(b0.take(b.len() as int) =~= listing(b@));
            vstd::seq_lib::to_multiset_build(d, e@);
            assert(listing(old_down.push(e)).to_multiset().add(listing(a@).to_multiset()).add(
                listing(b@).to_multiset(),
            ) =~= d.to_multiset().add(listing(old_a).to_multiset()).add(
                listing(old_b).to_multiset(),
            ));
        }
        down.push(e);
    }
    proof {
        lemma_listing_empty(a@);
        lemma_listing_empty(b@);
        assert(listing(down@).to_multiset() =~= listing(down@).to_multiset().add(
            listing(a@).to_multiset(),
        ).add(listing(b@).to_multiset()));
    }
    reversed(down)
}

/// Sorts a listing by the rank of the type and then by the name. The entries
/// are only moved: what comes out is what went in, each entry as often.
/// Entries of the same rank and name come out in no particular order.
pub fn sort_listing(entries: Vec<FileT>) -> (sorted_entries: Vec<FileT>)
    ensures
        sorted(listing(sorted_entries@)),
        listing(sorted_entries@).to_multiset() == listing(entries@).to_multiset(),
    decreases entries.len(),
{
    if entries.len() <= 1 {
        return entries;
    }
    let mut low = entries;
    let high = low.split_off(low.len() / 2);
    proof {
        assert(listing(entries@) =~= listing(low@) + listing(high@));
        vstd::seq_lib::lemma_multiset_commutative(listing(low@), listing(high@));
    }
    let low = sort_listing(low);
    let high = sort_listing(high);
    merge_sorted(low, high)
}

} // verus!
