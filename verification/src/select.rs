//! Choosing among candidates that are ordered by integer keys.
//!
//! A caller that orders its candidates by another kind of number hands in
//! keys that are ordered as those numbers are.

use vstd::prelude::*;

verus! {

/// Position `i` holds the least of the keys below `bound`, and no earlier
/// position holds the same key.
pub open spec fn is_first_least(keys: Seq<i32>, bound: i32, i: int) -> bool {
    &&& 0 <= i < keys.len()
    &&& keys[i] < bound
    &&& forall|j: int| 0 <= j < i ==> keys[j] > keys[i]
    &&& forall|j: int| i < j < keys.len() ==> keys[j] >= keys[i]
}

/// Position `i` holds the greatest of the keys above `bound`, and no
/// earlier position holds the same key.
pub open spec fn is_first_greatest(keys: Seq<i32>, bound: i32, i: int) -> bool {
    &&& 0 <= i < keys.len()
    &&& keys[i] > bound
    &&& forall|j: int| 0 <= j < i ==> keys[j] < keys[i]
    &&& forall|j: int| i < j < keys.len() ==> keys[j] <= keys[i]
}

/// Position `i` holds the greatest key, and no later position holds the
/// same key.
pub open spec fn is_last_greatest(keys: Seq<i32>, i: int) -> bool {
    &&& 0 <= i < keys.len()
    &&& forall|j: int| 0 <= j < i ==> keys[j] <= keys[i]
    &&& forall|j: int| i < j < keys.len() ==> keys[j] < keys[i]
}

/// Position `i` holds the least key, and no earlier position holds the
/// same key.
pub open spec fn is_first_smallest(keys: Seq<i32>, i: int) -> bool {
    &&& 0 <= i < keys.len()
    &&& forall|j: int| 0 <= j < i ==> keys[j] > keys[i]
    &&& forall|j: int| i < j < keys.len() ==> keys[j] >= keys[i]
}

/// The first position that holds the least key, or `None` if there are no
/// keys.
pub fn first_smallest(keys: &Vec<i32>) -> (found: Option<usize>)
    ensures
        match found {
            Some(i) => is_first_smallest(keys@, i as int),
            None => keys@.len() == 0,
        },
{
    if keys.len() == 0 {
        return None;
    }
    let mut at: usize = 0;
    let mut k: usize = 1;
    while k < keys.len()
        invariant
            1 <= k <= keys@.len(),
            is_first_smallest(keys@.take(k as int), at as int),
        decreases keys@.len() - k,
    {
        if keys[k] < keys[at] {
            at = k;
        }
        k += 1;
    }
    assert(keys@.take(k as int) =~= keys@);
    Some(at)
}

/// The first position that holds the least key below `bound`, or `None` if
/// no key is below `bound`.
pub fn first_least(keys: &Vec<i32>, bound: i32) -> (found: Option<usize>)
    ensures
        match found {
            Some(i) => is_first_least(keys@, bound, i as int),
            None => forall|j: int| 0 <= j < keys@.len() ==> keys@[j] >= bound,
        },
{
    let mut found: Option<usize> = None;
    let mut least = bound;
    let mut k: usize = 0;
    while k < keys.len()
        invariant
            k <= keys@.len(),
            least <= bound,
            match found {
                Some(i) => is_first_least(keys@.take(k as int), bound, i as int) && least
                    == keys@[i as int],
                None => least == bound && forall|j: int| 0 <= j < k ==> keys@[j] >= bound,
            },
        decreases keys@.len() - k,
    {
        if keys[k] < least {
            least = keys[k];
            found = Some(k);
        }
        k += 1;
    }
    assert(keys@.take(k as int) =~= keys@);
    found
}

/// The first position that holds the greatest key above `bound`, or `None`
/// if no key is above `bound`.
pub fn first_greatest(keys: &Vec<i32>, bound: i32) -> (found: Option<usize>)
    ensures
        match found {
            Some(i) => is_first_greatest(keys@, bound, i as int),
            None => forall|j: int| 0 <= j < keys@.len() ==> keys@[j] <= bound,
        },
{
    let mut found: Option<usize> = None;
    let mut greatest = bound;
    let mut k: usize = 0;
    while k < keys.len()
        invariant
            k <= keys@.len(),
            greatest >= bound,
            match found {
                Some(i) => is_first_greatest(keys@.take(k as int), bound, i as int) && greatest
                    == keys@[i as int],
                None => greatest == bound && forall|j: int| 0 <= j < k ==> keys@[j] <= bound,
            },
        decreases keys@.len() - k,
    {
        if keys[k] > greatest {
            greatest = keys[k];
            found = Some(k);
        }
        k += 1;
    }
    assert(keys@.take(k as int) =~= keys@);
    found
}

/// The last position that holds the greatest key, or `None` if there are
/// no keys.
pub fn last_greatest(keys: &Vec<i32>) -> (found: Option<usize>)
    ensures
        match found {
            Some(i) => is_last_greatest(keys@, i as int),
            None => keys@.len() == 0,
        },
{
    if keys.len() == 0 {
        return None;
    }
    let mut at: usize = 0;
    let mut k: usize = 1;
    assert(is_last_greatest(keys@.take(1), 0));
    while k < keys.len()
        invariant
            1 <= k <= keys@.len(),
            is_last_greatest(keys@.take(k as int), at as int),
        decreases keys@.len() - k,
    {
        if keys[k] >= keys[at] {
            at = k;
        }
        k += 1;
    }
    assert(keys@.take(k as int) =~= keys@);
    Some(at)
}

/// The positions that hold a key above `bound`, in rising order.
pub fn positions_above(keys: &Vec<i32>, bound: i32) -> (found: Vec<usize>)
    ensures
        forall|k: int| 0 <= k < found@.len() ==> (#[trigger] found@[k]) < keys@.len() && keys@[found@[k] as int]
            > bound,
        forall|k: int, l: int| 0 <= k < l < found@.len() ==> found@[k] < found@[l],
        forall|j: int| 0 <= j < keys@.len() && keys@[j] > bound ==> found@.contains(j as usize),
{
    let mut found: Vec<usize> = Vec::new();
    let mut j: usize = 0;
    while j < keys.len()
        invariant
            j <= keys@.len(),
            forall|k: int| 0 <= k < found@.len() ==> (#[trigger] found@[k]) < j && keys@[found@[k] as int]
                > bound,
            forall|k: int, l: int| 0 <= k < l < found@.len() ==> found@[k] < found@[l],
            forall|i: int| 0 <= i < j && keys@[i] > bound ==> found@.contains(i as usize),
        decreases keys@.len() - j,
    {
        if keys[j] > bound {
            let ghost before = found@;
            found.push(j);
            proof {
                assert(found@[before.len() as int] == j);
                assert forall|i: int| 0 <= i < j + 1 && keys@[i] > bound implies found@.contains(
                    i as usize,
                ) by {
                    if i < j {
                        let k = choose|k: int| 0 <= k < before.len() && before[k] == i as usize;
                        assert(found@[k] == i as usize);
                    }
                }
            }
        }
        j += 1;
    }
    found
}

/// Whether `x` is among `v`.
pub fn contains(v: &Vec<usize>, x: usize) -> (found: bool)
    ensures
        found == v@.contains(x),
{
    let mut i: usize = 0;
    while i < v.len()
        invariant
            i <= v@.len(),
            forall|k: int| 0 <= k < i ==> v@[k] != x,
        decreases v@.len() - i,
    {
        if v[i] == x {
            return true;
        }
        i += 1;
    }
    false
}

} // verus!
