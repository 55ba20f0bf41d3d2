//! Short lists of indices, kept inline while they are small.

use vstd::prelude::*;
use smallvec::SmallVec;

verus! {

/// A list of indices into one of the tables of a mesh. Up to sixteen
/// indices are stored without an allocation.
#[verifier::external_body]
#[derive(Debug)]
pub struct IndexList {
    inner: SmallVec<[usize; 16]>,
}

/// The indices that a list holds, in their order.
pub uninterp spec fn list_items(list: IndexList) -> Seq<usize>;

impl View for IndexList {
    type V = Seq<usize>;

    open spec fn view(&self) -> Seq<usize> {
        list_items(*self)
    }
}

/// `SmallVec::new`: a list that holds nothing.
#[verifier::external_body]
pub(crate) fn list_new() -> (list: IndexList)
    ensures
        list_items(list) == Seq::<usize>::empty(),
{
    IndexList { inner: SmallVec::new() }
}

/// `SmallVec::len`: the number of indices held.
#[verifier::external_body]
pub(crate) fn list_len(list: &IndexList) -> (n: usize)
    ensures
        n == list_items(*list).len(),
{
    list.inner.len()
}

/// Indexing a `SmallVec` through its slice: the index at position `i`.
#[verifier::external_body]
pub(crate) fn list_get(list: &IndexList, i: usize) -> (x: usize)
    requires
        i < list_items(*list).len(),
    ensures
        x == list_items(*list)[i as int],
{
    list.inner[i]
}

/// `SmallVec::push`: appends one index.
#[verifier::external_body]
pub(crate) fn list_push(list: &mut IndexList, x: usize)
    ensures
        list_items(*final(list)) == list_items(*old(list)).push(x),
{
    list.inner.push(x)
}

/// `SmallVec::remove`: takes out the index at position `i` and moves the
/// ones behind it one place forward.
#[verifier::external_body]
pub(crate) fn list_remove(list: &mut IndexList, i: usize) -> (x: usize)
    requires
        i < list_items(*old(list)).len(),
    ensures
        x == list_items(*old(list))[i as int],
        list_items(*final(list)) == list_items(*old(list)).remove(i as int),
{
    list.inner.remove(i)
}

/// `SmallVec::clone`: a list that holds the same indices.
#[verifier::external_body]
pub(crate) fn list_clone(list: &IndexList) -> (copy: IndexList)
    ensures
        list_items(copy) == list_items(*list),
{
    IndexList { inner: list.inner.clone() }
}

impl Clone for IndexList {
    /// A list that holds the same indices.
    fn clone(&self) -> (copy: Self)
        ensures
            copy@ == self@,
    {
        list_clone(self)
    }
}

impl IndexList {
    /// A list that holds nothing.
    pub fn new() -> (list: IndexList)
        ensures
            list@ == Seq::<usize>::empty(),
    {
        list_new()
    }

    /// The number of indices held.
    pub fn len(&self) -> (n: usize)
        ensures
            n == self@.len(),
    {
        list_len(self)
    }

    /// The index at position `i`.
    pub fn get(&self, i: usize) -> (x: usize)
        requires
            i < self@.len(),
        ensures
            x == self@[i as int],
    {
        list_get(self, i)
    }

    /// Appends `x`.
    pub fn push(&mut self, x: usize)
        ensures
            final(self)@ == old(self)@.push(x),
    {
        list_push(self, x)
    }

    /// Takes out the index at position `i`.
    pub fn remove(&mut self, i: usize) -> (x: usize)
        requires
            i < old(self)@.len(),
        ensures
            x == old(self)@[i as int],
            final(self)@ == old(self)@.remove(i as int),
    {
        list_remove(self, i)
    }

    /// A list that holds the same indices.
    pub fn duplicate(&self) -> (copy: IndexList)
        ensures
            copy@ == self@,
    {
        list_clone(self)
    }

    /// Whether `x` is one of the indices.
    pub fn contains(&self, x: usize) -> (found: bool)
        ensures
            found == self@.contains(x),
    {
        let n = self.len();
        let mut i: usize = 0;
        while i < n
            invariant
                n == self@.len(),
                i <= n,
                forall|k: int| 0 <= k < i ==> self@[k] != x,
            decreases n - i,
        {
            if self.get(i) == x {
                return true;
            }
            i += 1;
        }
        false
    }

    /// The position of the first occurrence of `x`.
    pub fn position(&self, x: usize) -> (at: Option<usize>)
        ensures
            match at {
                Some(i) => i < self@.len() && self@[i as int] == x && forall|k: int|
                    0 <= k < i ==> self@[k] != x,
                None => !self@.contains(x),
            },
    {
        let n = self.len();
        let mut i: usize = 0;
        while i < n
            invariant
                n == self@.len(),
                i <= n,
                forall|k: int| 0 <= k < i ==> self@[k] != x,
            decreases n - i,
        {
            if self.get(i) == x {
                return Some(i);
            }
            i += 1;
        }
        None
    }

    /// Whether no index occurs twice.
    pub fn is_distinct(&self) -> (ok: bool)
        ensures
            ok == self@.no_duplicates(),
    {
        let n = self.len();
        let mut i: usize = 0;
        while i < n
            invariant
                n == self@.len(),
                i <= n,
                forall|a: int, b: int| 0 <= a < i && 0 <= b < n && a != b ==> self@[a] != self@[b],
            decreases n - i,
        {
            let x = self.get(i);
            let mut j: usize = i + 1;
            while j < n
                invariant
                    n == self@.len(),
                    i < n,
                    i < j <= n,
                    x == self@[i as int],
                    forall|b: int| i < b < j ==> self@[b] != x,
                decreases n - j,
            {
                if self.get(j) == x {
                    return false;
                }
                j += 1;
            }
            i += 1;
        }
        true
    }

    /// The indices as a vector.
    pub fn to_vec(&self) -> (v: Vec<usize>)
        ensures
            v@ == self@,
    {
        let n = self.len();
        let mut v: Vec<usize> = Vec::new();
        let mut i: usize = 0;
        while i < n
            invariant
                n == self@.len(),
                i <= n,
                v@ == self@.take(i as int),
            decreases n - i,
        {
            v.push(self.get(i));
            assert(self@.take(i + 1) =~= self@.take(i as int).push(self@[i as int]));
            i += 1;
        }
        assert(self@.take(n as int) =~= self@);
        v
    }

    /// A list of the indices of `v`.
    pub fn from_vec(v: &Vec<usize>) -> (list: IndexList)
        ensures
            list@ == v@,
    {
        let mut list = IndexList::new();
        let mut i: usize = 0;
        while i < v.len()
            invariant
                i <= v@.len(),
                list@ == v@.take(i as int),
            decreases v@.len() - i,
        {
            list.push(v[i]);
            assert(v@.take(i + 1) =~= v@.take(i as int).push(v@[i as int]));
            i += 1;
        }
        assert(v@.take(v@.len() as int) =~= v@);
        list
    }
}

} // verus!
