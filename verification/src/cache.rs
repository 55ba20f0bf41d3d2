//! The cache of separating axes: for a pair of bodies, the axis that was
//! last found to separate them, kept for as long as the pair is among the
//! most recently used.

use vstd::prelude::*;
use lru::LruCache;

verus! {

/// A pair of bodies, by their handles in the order in which they were
/// tested.
pub type PairKey = (u64, u64);

/// An axis in world space: the bit patterns of its four coordinates.
pub type AxisBits = (u32, u32, u32, u32);

#[verifier::external_type_specification]
#[verifier::external_body]
#[verifier::reject_recursive_types(K)]
#[verifier::reject_recursive_types(V)]
#[verifier::reject_recursive_types(S)]
pub struct ExLruCache<K, V, S>(LruCache<K, V, S>);

#[verifier::external_type_specification]
#[verifier::external_body]
pub struct ExDefaultHasher(lru::DefaultHasher);

/// What a cache holds, from the entry used most recently to the one used
/// least recently.
pub uninterp spec fn cache_entries(cache: LruCache<PairKey, AxisBits>) -> Seq<(PairKey, AxisBits)>;

/// The number of entries that a cache was made to hold.
pub uninterp spec fn cache_capacity(cache: LruCache<PairKey, AxisBits>) -> nat;

/// The axis that `entries` holds for `key`.
pub open spec fn lookup(entries: Seq<(PairKey, AxisBits)>, key: PairKey) -> Option<AxisBits>
    decreases entries.len(),
{
    if entries.len() == 0 {
        None
    } else if entries[0].0 == key {
        Some(entries[0].1)
    } else {
        lookup(entries.drop_first(), key)
    }
}

/// Whether an entry is for another key than `key`.
pub open spec fn other_key(key: PairKey) -> spec_fn((PairKey, AxisBits)) -> bool {
    |e: (PairKey, AxisBits)| e.0 != key
}

/// The entries without those for `key`.
pub open spec fn without(entries: Seq<(PairKey, AxisBits)>, key: PairKey) -> Seq<(PairKey, AxisBits)> {
    entries.filter(other_key(key))
}

/// No two entries have the same key, and there are no more entries than
/// the cache was made to hold.
pub open spec fn cache_valid(cache: LruCache<PairKey, AxisBits>) -> bool {
    &&& cache_entries(cache).len() <= cache_capacity(cache)
    &&& forall|i: int, j: int|
        0 <= i < j < cache_entries(cache).len() ==> cache_entries(cache)[i].0 != cache_entries(
            cache,
        )[j].0
}

/// What the entries are after `key` was given the axis `axis`: the entry
/// is the most recently used one; if the key is new and the cache is full,
/// the least recently used entry has made room for it; a cache made to hold
/// nothing holds nothing.
pub open spec fn entries_after_put(
    entries: Seq<(PairKey, AxisBits)>,
    capacity: nat,
    key: PairKey,
    axis: AxisBits,
) -> Seq<(PairKey, AxisBits)> {
    if lookup(entries, key) is Some {
        seq![(key, axis)] + without(entries, key)
    } else if capacity == 0 {
        entries
    } else if entries.len() >= capacity {
        seq![(key, axis)] + entries.drop_last()
    } else {
        seq![(key, axis)] + entries
    }
}

/// What the entries are after `key` was looked up: if there is an entry
/// for it, it is the most recently used one.
pub open spec fn entries_after_get(entries: Seq<(PairKey, AxisBits)>, key: PairKey) -> Seq<
    (PairKey, AxisBits),
> {
    match lookup(entries, key) {
        Some(axis) => seq![(key, axis)] + without(entries, key),
        None => entries,
    }
}

/// Filtering twice is filtering once.
pub proof fn lemma_filter_twice(
    entries: Seq<(PairKey, AxisBits)>,
    pred: spec_fn((PairKey, AxisBits)) -> bool,
)
    ensures
        entries.filter(pred).filter(pred) == entries.filter(pred),
    decreases entries.len(),
{
    reveal(Seq::filter);
    if entries.len() > 0 {
        lemma_filter_twice(entries.drop_last(), pred);
        if pred(entries.last()) {
            let head = entries.drop_last().filter(pred);
            assert(head.push(entries.last()).drop_last() =~= head);
        }
    }
}

/// Forgetting a key forgets it whether or not it was looked up before.
pub proof fn lemma_forget_after_get(entries: Seq<(PairKey, AxisBits)>, key: PairKey)
    ensures
        without(entries_after_get(entries, key), key) == without(entries, key),
{
    reveal(Seq::filter);
    match lookup(entries, key) {
        Some(axis) => {
            let pred = other_key(key);
            let front = seq![(key, axis)];
            Seq::filter_distributes_over_add(front, without(entries, key), pred);
            lemma_filter_twice(entries, pred);
            assert(front.drop_last() =~= Seq::<(PairKey, AxisBits)>::empty());
            assert(front.drop_last().filter(pred) =~= Seq::<(PairKey, AxisBits)>::empty());
            assert(!pred(front.last()));
            assert(front.filter(pred) =~= Seq::<(PairKey, AxisBits)>::empty());
            assert(Seq::<(PairKey, AxisBits)>::empty() + without(entries, key) =~= without(
                entries,
                key,
            ));
        },
        None => {},
    }
}

/// Entries of which none is for `key` hold no axis for it.
pub proof fn lemma_lookup_absent(entries: Seq<(PairKey, AxisBits)>, key: PairKey)
    requires
        forall|i: int| 0 <= i < entries.len() ==> (#[trigger] entries[i]).0 != key,
    ensures
        lookup(entries, key) is None,
    decreases entries.len(),
{
    if entries.len() > 0 {
        assert(entries[0].0 != key);
        assert forall|i: int| 0 <= i < entries.drop_first().len() implies (
        #[trigger] entries.drop_first()[i]).0 != key by {
            assert(entries.drop_first()[i] == entries[i + 1]);
        }
        lemma_lookup_absent(entries.drop_first(), key);
    }
}

/// What was forgotten is not found.
pub proof fn lemma_forgotten(entries: Seq<(PairKey, AxisBits)>, key: PairKey)
    ensures
        lookup(without(entries, key), key) is None,
{
    entries.filter_lemma(other_key(key));
    lemma_lookup_absent(without(entries, key), key);
}

/// A key that had no axis has, after it was given one, that axis, unless
/// the cache holds nothing.
pub proof fn lemma_put_found(
    entries: Seq<(PairKey, AxisBits)>,
    capacity: nat,
    key: PairKey,
    axis: AxisBits,
)
    requires
        lookup(entries, key) is None,
    ensures
        lookup(entries_after_put(entries, capacity, key, axis), key) == if capacity == 0 {
            None
        } else {
            Some(axis)
        },
{
    if capacity != 0 {
        let after = entries_after_put(entries, capacity, key, axis);
        assert(after[0] == (key, axis));
    }
}

/// `LruCache::new`: an empty cache for at most `capacity` entries.
#[verifier::external_body]
pub(crate) fn cache_new(capacity: usize) -> (cache: LruCache<PairKey, AxisBits>)
    requires
        capacity <= 65536,
    ensures
        cache_entries(cache) == Seq::<(PairKey, AxisBits)>::empty(),
        cache_capacity(cache) == capacity,
        cache_valid(cache),
{
    LruCache::new(capacity)
}

/// `LruCache::get`: the axis held for `key`, if any; the entry becomes the
/// most recently used one.
#[verifier::external_body]
pub(crate) fn cache_get(cache: &mut LruCache<PairKey, AxisBits>, key: PairKey) -> (axis: Option<
    AxisBits,
>)
    requires
        cache_valid(*old(cache)),
    ensures
        axis == lookup(cache_entries(*old(cache)), key),
        cache_entries(*final(cache)) == entries_after_get(cache_entries(*old(cache)), key),
        cache_capacity(*final(cache)) == cache_capacity(*old(cache)),
        cache_valid(*final(cache)),
{
    cache.get(&key).copied()
}

/// `LruCache::pop`: takes out the entry for `key`, if there is one, and
/// returns its axis.
#[verifier::external_body]
pub(crate) fn cache_pop(cache: &mut LruCache<PairKey, AxisBits>, key: PairKey) -> (axis: Option<
    AxisBits,
>)
    requires
        cache_valid(*old(cache)),
    ensures
        axis == lookup(cache_entries(*old(cache)), key),
        cache_entries(*final(cache)) == without(cache_entries(*old(cache)), key),
        cache_capacity(*final(cache)) == cache_capacity(*old(cache)),
        cache_valid(*final(cache)),
{
    cache.pop(&key)
}

/// `LruCache::put`: gives `key` the axis `axis`, as `entries_after_put`
/// describes, and returns the axis that the key had before.
#[verifier::external_body]
pub(crate) fn cache_put(cache: &mut LruCache<PairKey, AxisBits>, key: PairKey, axis: AxisBits) -> (previous:
    Option<AxisBits>)
    requires
        cache_valid(*old(cache)),
    ensures
        previous == lookup(cache_entries(*old(cache)), key),
        cache_entries(*final(cache)) == entries_after_put(
            cache_entries(*old(cache)),
            cache_capacity(*old(cache)),
            key,
            axis,
        ),
        cache_capacity(*final(cache)) == cache_capacity(*old(cache)),
        cache_valid(*final(cache)),
{
    cache.put(key, axis)
}

/// `LruCache::len`: the number of entries.
#[verifier::external_body]
pub(crate) fn cache_len(cache: &LruCache<PairKey, AxisBits>) -> (n: usize)
    ensures
        n == cache_entries(*cache).len(),
{
    cache.len()
}

} // verus!
