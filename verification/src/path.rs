//! Names of directory entries and paths relative to the two roots.
//!
//! A name is the sequence of bytes under which the file system lists an
//! entry. Names are ordered byte by byte, a proper prefix before its
//! extensions.

use vstd::prelude::*;

verus! {

/// Whether `a` and `b` agree on every position before `i`, whether both end
/// there or not.
pub open spec fn agree_before(a: Seq<u8>, b: Seq<u8>, i: int) -> bool {
    forall|j: int| 0 <= j < i ==> a[j] == b[j]
}

/// `a` comes before `b`, as far as the bytes from position `i` on decide it.
pub open spec fn name_lt_from(a: Seq<u8>, b: Seq<u8>, i: int) -> bool
    decreases b.len() - i,
{
    if i < 0 || i >= b.len() {
        false
    } else if i >= a.len() {
        true
    } else if a[i] != b[i] {
        a[i] < b[i]
    } else {
        name_lt_from(a, b, i + 1)
    }
}

/// The strict order of names: at the first position where the two differ the
/// byte of `a` is the smaller one, or `a` ends there and `b` goes on.
pub open spec fn name_lt(a: Seq<u8>, b: Seq<u8>) -> bool {
    name_lt_from(a, b, 0)
}

/// No name comes before itself.
pub proof fn lemma_name_lt_irreflexive(a: Seq<u8>)
    ensures
        !name_lt(a, a),
{
    lemma_name_lt_from_irreflexive(a, 0);
}

proof fn lemma_name_lt_from_irreflexive(a: Seq<u8>, i: int)
    requires
        0 <= i,
    ensures
        !name_lt_from(a, a, i),
    decreases a.len() - i,
{
    if i < a.len() {
        lemma_name_lt_from_irreflexive(a, i + 1);
    }
}

/// Of two names at most one comes before the other.
pub proof fn lemma_name_lt_asymmetric(a: Seq<u8>, b: Seq<u8>)
    ensures
        !(name_lt(a, b) && name_lt(b, a)),
{
    lemma_name_lt_from_asymmetric(a, b, 0);
}

proof fn lemma_name_lt_from_asymmetric(a: Seq<u8>, b: Seq<u8>, i: int)
    requires
        0 <= i,
    ensures
        !(name_lt_from(a, b, i) && name_lt_from(b, a, i)),
    decreases a.len() - i,
{
    if i < a.len() && i < b.len() && a[i] == b[i] {
        lemma_name_lt_from_asymmetric(a, b, i + 1);
    }
}

/// The order of names is transitive.
pub proof fn lemma_name_lt_transitive(a: Seq<u8>, b: Seq<u8>, c: Seq<u8>)
    requires
        name_lt(a, b),
        name_lt(b, c),
    ensures
        name_lt(a, c),
{
    lemma_name_lt_from_transitive(a, b, c, 0);
}

proof fn lemma_name_lt_from_transitive(a: Seq<u8>, b: Seq<u8>, c: Seq<u8>, i: int)
    requires
        0 <= i,
        name_lt_from(a, b, i),
        name_lt_from(b, c, i),
    ensures
        name_lt_from(a, c, i),
    decreases c.len() - i,
{
    if i < a.len() && i < b.len() && i < c.len() && a[i] == b[i] && b[i] == c[i] {
        lemma_name_lt_from_transitive(a, b, c, i + 1);
    }
}

/// Two names of which neither comes before the other are the same name.
pub proof fn lemma_name_lt_total(a: Seq<u8>, b: Seq<u8>)
    requires
        !name_lt(a, b),
        !name_lt(b, a),
    ensures
        a == b,
{
    lemma_name_lt_from_total(a, b, 0);
    assert(a =~= b);
}

proof fn lemma_name_lt_from_total(a: Seq<u8>, b: Seq<u8>, i: int)
    requires
        0 <= i <= a.len(),
        i <= b.len(),
        !name_lt_from(a, b, i),
        !name_lt_from(b, a, i),
    ensures
        a.len() == b.len(),
        forall|j: int| i <= j < a.len() ==> a[j] == b[j],
    decreases a.len() - i,
{
    if i < a.len() && i < b.len() {
        lemma_name_lt_from_total(a, b, i + 1);
    }
}

/// Where two names agree on their first `i` bytes, the bytes from `i` on
/// decide their order.
pub proof fn lemma_name_lt_skips_common_prefix(a: Seq<u8>, b: Seq<u8>, i: int)
    requires
        0 <= i <= a.len(),
        i <= b.len(),
        agree_before(a, b, i),
    ensures
        name_lt(a, b) == name_lt_from(a, b, i),
    decreases i,
{
    if i > 0 {
        lemma_name_lt_skips_common_prefix(a, b, i - 1);
    }
}

/// How one thing stands to another in an order.
#[derive(Debug, Clone, Copy, PartialEq, Eq, Structural)]
pub enum Precedence {
    /// The first comes before the second.
    Before,
    /// The two are the same.
    Same,
    /// The first comes after the second.
    After,
}

/// How `a` stands to `b` in the order of names.
pub open spec fn name_order(a: Seq<u8>, b: Seq<u8>) -> Precedence {
    if name_lt(a, b) {
        Precedence::Before
    } else if name_lt(b, a) {
        Precedence::After
    } else {
        Precedence::Same
    }
}

/// Compares two names byte by byte.
pub fn compare_names(a: &[u8], b: &[u8]) -> (order: Precedence)
    ensures
        order == name_order(a@, b@),
        order == Precedence::Same <==> a@ == b@,
{
    let mut i: usize = 0;
    while i < a.len() && i < b.len()
        invariant
            i <= a.len(),
            i <= b.len(),
            agree_before(a@, b@, i as int),
        decreases a.len() - i,
    {
        if a[i] != b[i] {
            proof {
                lemma_name_lt_skips_common_prefix(a@, b@, i as int);
                lemma_name_lt_skips_common_prefix(b@, a@, i as int);
            }
            if a[i] < b[i] {
                return Precedence::Before;
            } else {
                return Precedence::After;
            }
        }
        i += 1;
    }
    proof {
        lemma_name_lt_skips_common_prefix(a@, b@, i as int);
        lemma_name_lt_skips_common_prefix(b@, a@, i as int);
        lemma_name_lt_irreflexive(a@);
        if a.len() == b.len() {
            assert(a@ =~= b@);
        }
    }
    if a.len() < b.len() {
        Precedence::Before
    } else if b.len() < a.len() {
        Precedence::After
    } else {
        Precedence::Same
    }
}

/// Whether two byte strings are the same, byte for byte.
pub fn same_bytes(a: &[u8], b: &[u8]) -> (same: bool)
    ensures
        same == (a@ == b@),
{
    if a.len() != b.len() {
        return false;
    }
    let mut i: usize = 0;
    while i < a.len()
        invariant
            i <= a.len(),
            a.len() == b.len(),
            agree_before(a@, b@, i as int),
        decreases a.len() - i,
    {
        if a[i] != b[i] {
            return false;
        }
        i += 1;
    }
    assert(a@ =~= b@);
    true
}

/// A copy of a byte string.
pub fn copy_bytes(a: &[u8]) -> (copy: Vec<u8>)
    ensures
        copy@ == a@,
{
    let mut copy: Vec<u8> = Vec::with_capacity(a.len());
    let mut i: usize = 0;
    while i < a.len()
        invariant
            i <= a.len(),
            copy@ == a@.take(i as int),
        decreases a.len() - i,
    {
        copy.push(a[i]);
        i += 1;
    }
    copy
}

/// A path below the two roots: the names of the directories to go through,
/// outermost first. The empty path stands for the roots themselves.
#[derive(Debug)]
pub struct RelativePath {
    pub components: Vec<Vec<u8>>,
}

/// The names that a sequence of stored names holds.
pub open spec fn names_of(components: Seq<Vec<u8>>) -> Seq<Seq<u8>> {
    Seq::new(components.len(), |i: int| components[i]@)
}

impl View for RelativePath {
    type V = Seq<Seq<u8>>;

    open spec fn view(&self) -> Seq<Seq<u8>> {
        names_of(self.components@)
    }
}

impl Clone for RelativePath {
    fn clone(&self) -> (copy: Self)
        ensures
            copy@ == self@,
    {
        let mut components: Vec<Vec<u8>> = Vec::with_capacity(self.components.len());
        let mut i: usize = 0;
        while i < self.components.len()
            invariant
                i <= self.components.len(),
                components.len() == i,
                names_of(components@) == self@.take(i as int),
            decreases self.components.len() - i,
        {
            let ghost before = components@;
            components.push(copy_bytes(self.components[i].as_slice()));
            i += 1;
            assert forall|j: int| 0 <= j < i implies names_of(components@)[j] == self@[j] by {
                if j < i - 1 {
                    assert(names_of(before)[j] == self@.take(i - 1)[j]);
                }
            }
            assert(names_of(components@) =~= self@.take(i as int));
        }
        RelativePath { components }
    }
}

impl RelativePath {
    /// The empty path, which stands for the roots.
    pub fn new() -> (path: Self)
        ensures
            path@ == Seq::<Seq<u8>>::empty(),
    {
        RelativePath { components: Vec::new() }
    }

    /// The path of the entry `name` of the directory at this path.
    pub fn child(&self, name: &[u8]) -> (path: Self)
        ensures
            path@ == self@.push(name@),
    {
        let mut path = self.clone();
        path.components.push(copy_bytes(name));
        path
    }

    /// Extends the path by the name of one of the directory's entries.
    pub fn push(&mut self, name: Vec<u8>)
        ensures
            final(self)@ == old(self)@.push(name@),
    {
        self.components.push(name);
    }
}

} // verus!
