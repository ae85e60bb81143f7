use crate::util::{filled, reversed};
use crate::vec_option::{all_present, lemma_present_values_of_all_present, VecOption};
use core::ops::Range;
use vstd::prelude::*;

verus! {

/// A mapping from dense integer keys to ordered lists of values, stored in two
/// flat vectors.
///
/// `index` holds one offset per key plus a final sentinel; the values of key
/// `k` are `values[index[k]..index[k + 1]]`. Values pushed after the last
/// finished key are *pending*: they belong to no key until `finish_key` is
/// called.
#[derive(Clone, Debug, PartialEq, Eq)]
pub struct RampTable<T> {
    /// Offsets into `values`; entry `k` is where the values of key `k` start.
    pub index: Vec<u32>,
    pub values: Vec<T>,
}

impl<T> View for RampTable<T> {
    type V = Seq<Seq<T>>;

    /// The table as a sequence of value lists, one per key.
    open spec fn view(&self) -> Seq<Seq<T>> {
        Seq::new((self.index@.len() - 1) as nat, |k: int| self.entry(k))
    }
}

impl<T> Default for RampTable<T> {
    /// An empty table.
    fn default() -> (table: Self)
        ensures
            table.wf(),
            table.index@ == seq![0u32],
            table.values@ == Seq::<T>::empty(),
    {
        RampTable::new()
    }
}

impl<T> RampTable<T> {
    /// The offsets start at zero, never decrease, and stay within `values`.
    pub open spec fn wf(&self) -> bool {
        &&& self.index@.len() >= 1
        &&& self.index@[0] == 0
        &&& forall|i: int, j: int|
            0 <= i <= j < self.index@.len() ==> self.index@[i] <= self.index@[j]
        &&& self.index@.last() as int <= self.values@.len()
    }

    /// The number of finished keys.
    pub open spec fn key_count(&self) -> int {
        self.index@.len() - 1
    }

    /// The values of key `k`, in insertion order.
    pub open spec fn entry(&self, k: int) -> Seq<T> {
        self.values@.subrange(self.index@[k] as int, self.index@[k + 1] as int)
    }

    /// The values pushed since the last finished key.
    pub open spec fn pending(&self) -> Seq<T> {
        self.values@.subrange(self.index@.last() as int, self.values@.len() as int)
    }

    /// Every value belongs to a key.
    pub open spec fn complete(&self) -> bool {
        self.index@.last() as int == self.values@.len()
    }

    /// Creates a new, empty table.
    pub fn new() -> (table: Self)
        ensures
            table.wf(),
            table.index@ == seq![0u32],
            table.values@ == Seq::<T>::empty(),
    {
        let mut index: Vec<u32> = Vec::new();
        index.push(0);
        RampTable { index, values: Vec::new() }
    }

    /// Creates a new, empty table with space set aside for keys and values.
    pub fn with_capacity(keys_capacity: usize, values_capacity: usize) -> (table: Self)
        ensures
            table.wf(),
            table.index@ == seq![0u32],
            table.values@ == Seq::<T>::empty(),
    {
        let index_capacity: usize = if keys_capacity < usize::MAX {
            keys_capacity + 1
        } else {
            keys_capacity
        };
        let mut index: Vec<u32> = Vec::with_capacity(index_capacity);
        index.push(0);
        RampTable { index, values: Vec::with_capacity(values_capacity) }
    }

    /// Whether the table has no keys. It may still hold pending values.
    pub fn is_empty(&self) -> (b: bool)
        requires
            self.wf(),
        ensures
            b == (self.key_count() == 0),
    {
        self.index.len() == 1
    }

    /// The number of keys.
    pub fn len(&self) -> (n: usize)
        requires
            self.wf(),
        ensures
            n == self.key_count(),
    {
        self.index.len() - 1
    }

    /// The number of keys.
    pub fn num_keys(&self) -> (n: usize)
        requires
            self.wf(),
        ensures
            n == self.key_count(),
    {
        self.index.len() - 1
    }

    /// The number of values, pending ones included.
    pub fn num_values(&self) -> (n: usize)
        ensures
            n == self.values@.len(),
    {
        self.values.len()
    }

    /// Appends a pending value; `finish_key` later gives it to the next key.
    pub fn push_value(&mut self, value: T)
        ensures
            final(self).index@ == old(self).index@,
            final(self).values@ == old(self).values@.push(value),
            old(self).wf() ==> final(self).wf(),
            old(self).wf() ==> final(self)@ == old(self)@,
            old(self).wf() ==> final(self).pending() == old(self).pending().push(value),
    {
        self.values.push(value);
        proof {
            if old(self).wf() {
                assert(final(self)@ =~= old(self)@) by {
                    assert forall|k: int| 0 <= k < old(self).key_count() implies
                        final(self).entry(k) =~= old(self).entry(k) by {}
                }
                assert(final(self).pending() =~= old(self).pending().push(value));
            }
        }
    }

    /// Closes the current key: the pending values become its values. Returns
    /// the key.
    pub fn finish_key(&mut self) -> (key: usize)
        requires
            old(self).wf(),
            old(self).values@.len() <= u32::MAX,
        ensures
            key == old(self).key_count(),
            final(self).wf(),
            final(self).complete(),
            final(self).values@ == old(self).values@,
            final(self).index@ == old(self).index@.push(old(self).values@.len() as u32),
            final(self)@ == old(self)@.push(old(self).pending()),
    {
        let key: usize = self.index.len() - 1;
        let end: u32 = self.values.len() as u32;
        self.index.push(end);
        proof {
            assert(final(self)@ =~= old(self)@.push(old(self).pending())) by {
                assert forall|k: int| 0 <= k < old(self).key_count() implies
                    final(self).entry(k) =~= old(self).entry(k) by {}
                assert(final(self).entry(key as int) =~= old(self).pending());
            }
        }
        key
    }

    /// Removes every key and value.
    pub fn clear(&mut self)
        ensures
            final(self).wf(),
            final(self).index@ == seq![0u32],
            final(self).values@ == Seq::<T>::empty(),
    {
        self.values.clear();
        self.index.clear();
        self.index.push(0);
    }
    /// The range of positions in `values` that holds the values of key
    /// `index`.
    pub fn entry_values_range(&self, index: usize) -> (range: Range<usize>)
        requires
            self.wf(),
            index < self.key_count(),
        ensures
            range.start == self.index@[index as int],
            range.end == self.index@[index + 1],
            range.start <= range.end <= self.values@.len(),
    {
        let key_count: usize = self.index.len() - 1;
        let start: usize = self.index[index] as usize;
        let end: usize = self.index[index + 1] as usize;
        Range { start, end }
    }

    /// The values of key `index`.
    pub fn entry_values(&self, index: usize) -> (values: &[T])
        requires
            self.wf(),
            index < self.key_count(),
        ensures
            values@ == self.entry(index as int),
            values@ == self@[index as int],
    {
        let key_count: usize = self.index.len() - 1;
        let start: usize = self.index[index] as usize;
        let end: usize = self.index[index + 1] as usize;
        vstd::slice::slice_subrange(self.values.as_slice(), start, end)
    }

    /// The values of each key, one slice per key, in the order of the keys.
    pub fn iter(&self) -> (entries: Vec<&[T]>)
        requires
            self.wf(),
        ensures
            entries@.len() == self.key_count(),
            forall|k: int| 0 <= k < entries@.len() ==> (#[trigger] entries@[k])@ == self@[k],
    {
        let num_keys: usize = self.index.len() - 1;
        let mut entries: Vec<&[T]> = Vec::with_capacity(num_keys);
        let mut k: usize = 0;
        while k < num_keys
            invariant
                0 <= k <= num_keys,
                num_keys == self.key_count(),
                self.wf(),
                entries@.len() == k,
                forall|j: int| 0 <= j < k ==> (#[trigger] entries@[j])@ == self@[j],
            decreases num_keys - k,
        {
            entries.push(self.entry_values(k));
            k += 1;
        }
        entries
    }

    /// The values of each key, one slice per key, for changing them in
    /// place. The slices are cut off the values one after the other, by the
    /// length of each key's list, so that no value is handed out twice.
    pub fn iter_mut(&mut self) -> (entries: Vec<&mut [T]>)
        requires
            old(self).wf(),
        ensures
            entries@.len() == old(self).key_count(),
            forall|k: int| 0 <= k < entries@.len() ==> entries@[k]@ == #[trigger] old(self)@[k],
            final(self).index@ == old(self).index@,
            final(self).values@ == joined(
                Seq::new(entries@.len(), |k: int| final(entries@[k])@),
                entries@.len() as int,
            ) + old(self).pending(),
    {
        let num_keys: usize = self.index.len() - 1;
        let mut entries: Vec<&mut [T]> = Vec::with_capacity(num_keys);
        let all: &mut [T] = self.values.as_mut_slice();
        let ghost whole = final(all)@;
        let mut rest: &mut [T] = all;
        let mut last_index: usize = 0;
        let mut k: usize = 0;
        while k < num_keys
            invariant
                0 <= k <= num_keys,
                num_keys == old(self).key_count(),
                old(self).wf(),
                self.index@ == old(self).index@,
                entries@.len() == k,
                last_index == old(self).index@[k as int],
                rest@ == old(self).values@.subrange(
                    last_index as int,
                    old(self).values@.len() as int,
                ),
                forall|j: int| 0 <= j < k ==> entries@[j]@ == #[trigger] old(self)@[j],
                whole == joined(Seq::new(k as nat, |j: int| final(entries@[j])@), k as int)
                    + final(rest)@,
            decreases num_keys - k,
        {
            let index: usize = self.index[k + 1] as usize;
            let entry_len: usize = index - last_index;
            let ghost before = Seq::new(k as nat, |j: int| final(entries@[j])@);
            proof {
                assert(old(self).index@[k + 1] <= old(self).index@.last());
            }
            let (head, tail) = rest.split_at_mut(entry_len);
            proof {
                assert(head@ =~= old(self).entry(k as int));
                assert(tail@ =~= old(self).values@.subrange(
                    index as int,
                    old(self).values@.len() as int,
                ));
            }
            entries.push(head);
            rest = tail;
            last_index = index;
            k += 1;
            proof {
                let now = Seq::new(k as nat, |j: int| final(entries@[j])@);
                lemma_joined_same(now, before, k - 1);
            }
        }
        entries
    }

    /// The values of key `index`, for changing them in place.
    pub fn entry_values_mut(&mut self, index: usize) -> (values: &mut [T])
        requires
            old(self).wf(),
            index < old(self).key_count(),
        ensures
            values@ == old(self).entry(index as int),
            final(self).index@ == old(self).index@,
            final(self).values@ == old(self).values@.subrange(
                0,
                old(self).index@[index as int] as int,
            ) + final(values)@ + old(self).values@.subrange(
                old(self).index@[index + 1] as int,
                old(self).values@.len() as int,
            ),
    {
        let num_keys: usize = self.index.len() - 1;
        let start: usize = self.index[index] as usize;
        let end: usize = self.index[index + 1] as usize;
        let all: &mut [T] = self.values.as_mut_slice();
        let (head, _tail) = all.split_at_mut(end);
        let (_before, entry) = head.split_at_mut(start);
        proof {
            assert(entry@ =~= old(self).entry(index as int));
        }
        entry
    }

    /// Every pair `(key, value)` of the table, in storage order; the keys
    /// never decrease. Pending values belong to no key and are left out.
    pub fn iter_pairs(&self) -> (pairs: Vec<(usize, &T)>)
        requires
            self.wf(),
        ensures
            is_pairs_of(pairs@, self),
    {
        let num_keys: usize = self.index.len() - 1;
        let mut pairs: Vec<(usize, &T)> = Vec::new();
        let mut k: usize = 0;
        while k < num_keys
            invariant
                0 <= k <= num_keys,
                num_keys == self.key_count(),
                self.wf(),
                pairs@.len() == self.index@[k as int],
                forall|s: int|
                    0 <= s < pairs@.len() ==> *(#[trigger] pairs@[s]).1 == self.values@[s]
                        && pairs@[s].0 < k && self.index@[pairs@[s].0 as int] <= s
                        < self.index@[pairs@[s].0 + 1],
            decreases num_keys - k,
        {
            let end: usize = self.index[k + 1] as usize;
            let mut s: usize = self.index[k] as usize;
            proof {
                assert(self.index@[k + 1] <= self.index@.last());
            }
            while s < end
                invariant
                    0 <= k < num_keys,
                    num_keys == self.key_count(),
                    self.wf(),
                    self.index@[k as int] <= s <= end,
                    end == self.index@[k + 1],
                    end <= self.values@.len(),
                    pairs@.len() == s,
                    forall|t: int|
                        0 <= t < pairs@.len() ==> *(#[trigger] pairs@[t]).1 == self.values@[t]
                            && pairs@[t].0 <= k && self.index@[pairs@[t].0 as int] <= t
                            < self.index@[pairs@[t].0 + 1],
                decreases end - s,
            {
                pairs.push((k, &self.values[s]));
                s += 1;
            }
            k += 1;
        }
        pairs
    }

    /// Every pair `(key, value)` of the table, as `iter_pairs` gives them,
    /// found in one pass over the values with a running count of the values
    /// that the current key still has to give.
    pub fn iter_pairs_manual(&self) -> (pairs: Vec<(usize, &T)>)
        requires
            self.wf(),
        ensures
            is_pairs_of(pairs@, self),
    {
        let num_keys: usize = self.index.len() - 1;
        let owned: usize = self.index[num_keys] as usize;
        let mut pairs: Vec<(usize, &T)> = Vec::new();
        let mut current_key: usize = 0;
        let mut s: usize = 0;
        while s < owned
            invariant
                0 <= s <= owned,
                owned == self.index@.last(),
                owned <= self.values@.len(),
                num_keys == self.key_count(),
                self.wf(),
                current_key <= num_keys,
                self.index@[current_key as int] <= s,
                pairs@.len() == s,
                forall|t: int|
                    0 <= t < pairs@.len() ==> *(#[trigger] pairs@[t]).1 == self.values@[t]
                        && pairs@[t].0 < num_keys && self.index@[pairs@[t].0 as int] <= t
                        < self.index@[pairs@[t].0 + 1],
            decreases owned - s,
        {
            // Which key is this value for?
            while self.index[current_key + 1] as usize <= s
                invariant
                    s < owned,
                    owned == self.index@.last(),
                    num_keys == self.key_count(),
                    self.wf(),
                    current_key < num_keys,
                    self.index@[current_key as int] <= s,
                decreases num_keys - current_key,
            {
                current_key += 1;
                proof {
                    if current_key == num_keys {
                        assert(self.index@[num_keys as int] == owned);
                    }
                }
            }
            pairs.push((current_key, &self.values[s]));
            s += 1;
        }
        pairs
    }

    /// Adds a key whose values are the pending values followed by copies of
    /// `values`.
    pub fn push_entry_copy(&mut self, values: &[T]) where T: Copy
        requires
            old(self).wf(),
            old(self).values@.len() + values@.len() <= u32::MAX,
        ensures
            final(self).wf(),
            final(self).complete(),
            final(self).values@ == old(self).values@ + values@,
            final(self).index@ == old(self).index@.push(
                (old(self).values@.len() + values@.len()) as u32,
            ),
            final(self)@ == old(self)@.push(old(self).pending() + values@),
    {
        let mut i: usize = 0;
        while i < values.len()
            invariant
                0 <= i <= values@.len(),
                self.index@ == old(self).index@,
                self.values@ == old(self).values@ + values@.take(i as int),
            decreases values@.len() - i,
        {
            self.values.push(values[i]);
            i += 1;
            assert(self.values@ =~= old(self).values@ + values@.take(i as int));
        }
        proof {
            assert(values@.take(values@.len() as int) =~= values@);
            assert(self.wf());
            assert(self.pending() =~= old(self).pending() + values@);
            assert(self@ =~= old(self)@) by {
                assert forall|k: int| 0 <= k < old(self).key_count() implies self.entry(k)
                    =~= old(self).entry(k) by {}
            }
        }
        self.finish_key();
    }

    /// Adds a key whose values are the pending values followed by clones of
    /// `values`.
    pub fn push_entry_clone(&mut self, values: &[T]) where T: Clone
        requires
            old(self).wf(),
            old(self).values@.len() + values@.len() <= u32::MAX,
        ensures
            final(self).wf(),
            final(self).complete(),
            final(self).values@.len() == old(self).values@.len() + values@.len(),
            forall|i: int|
                0 <= i < old(self).values@.len() ==> final(self).values@[i] == old(self).values@[i],
            forall|i: int|
                0 <= i < values@.len() ==> cloned(
                    values@[i],
                    #[trigger] final(self).values@[old(self).values@.len() + i],
                ),
            final(self).index@ == old(self).index@.push(
                (old(self).values@.len() + values@.len()) as u32,
            ),
    {
        let mut i: usize = 0;
        while i < values.len()
            invariant
                0 <= i <= values@.len(),
                self.index@ == old(self).index@,
                self.values@.len() == old(self).values@.len() + i,
                forall|j: int|
                    0 <= j < old(self).values@.len() ==> self.values@[j] == old(self).values@[j],
                forall|j: int|
                    0 <= j < i ==> cloned(
                        values@[j],
                        #[trigger] self.values@[old(self).values@.len() + j],
                    ),
            decreases values@.len() - i,
        {
            self.values.push(values[i].clone());
            i += 1;
        }
        self.finish_key();
    }

    /// Adds a key whose values are the pending values followed by `values`.
    pub fn push_entry_extend(&mut self, values: Vec<T>)
        requires
            old(self).wf(),
            old(self).values@.len() + values@.len() <= u32::MAX,
        ensures
            final(self).wf(),
            final(self).complete(),
            final(self).values@ == old(self).values@ + values@,
            final(self).index@ == old(self).index@.push(
                (old(self).values@.len() + values@.len()) as u32,
            ),
            final(self)@ == old(self)@.push(old(self).pending() + values@),
    {
        let ghost added = values@;
        let mut values = values;
        self.values.append(&mut values);
        proof {
            assert(self.wf());
            assert(self.pending() =~= old(self).pending() + added);
            assert(self@ =~= old(self)@) by {
                assert forall|k: int| 0 <= k < old(self).key_count() implies self.entry(k)
                    =~= old(self).entry(k) by {}
            }
        }
        self.finish_key();
    }

    /// Every value in the table, pending ones included, for changing them
    /// in place.
    pub fn all_values_mut(&mut self) -> (values: &mut [T])
        ensures
            values@ == old(self).values@,
            final(self).index@ == old(self).index@,
            final(self).values@ == final(values)@,
    {
        self.values.as_mut_slice()
    }

    /// Every value in the table, pending ones included, in storage order.
    pub fn all_values(&self) -> (values: &[T])
        ensures
            values@ == self.values@,
    {
        self.values.as_slice()
    }
}

/// The first `n` lists of `parts`, one after the other.
pub open spec fn joined<T>(parts: Seq<Seq<T>>, n: int) -> Seq<T>
    decreases n,
{
    if n <= 0 {
        Seq::empty()
    } else {
        joined(parts, n - 1) + parts[n - 1]
    }
}

/// Joining depends only on the lists that are joined.
pub proof fn lemma_joined_same<T>(a: Seq<Seq<T>>, b: Seq<Seq<T>>, n: int)
    requires
        n <= a.len(),
        n <= b.len(),
        forall|j: int| 0 <= j < n ==> a[j] == b[j],
    ensures
        joined(a, n) == joined(b, n),
    decreases n,
{
    if n > 0 {
        lemma_joined_same(a, b, n - 1);
    }
}

/// Whether `pairs` lists the values that belong to a key of `table`, in
/// storage order, each with its key.
pub open spec fn is_pairs_of<T>(pairs: Seq<(usize, &T)>, table: &RampTable<T>) -> bool {
    &&& pairs.len() == table.index@.last()
    &&& forall|s: int|
        0 <= s < pairs.len() ==> *(#[trigger] pairs[s]).1 == table.values@[s] && pairs[s].0
            < table.key_count() && table.index@[pairs[s].0 as int] <= s < table.index@[pairs[s].0
            + 1]
}

/// Offsets that never decrease from one entry to the next never decrease
/// over any distance.
pub proof fn lemma_steps_non_decreasing(index: Seq<u32>)
    requires
        forall|i: int| 0 <= i && i + 1 < index.len() ==> index[i] <= #[trigger] index[i + 1],
    ensures
        forall|i: int, j: int| 0 <= i <= j < index.len() ==> index[i] <= index[j],
{
    assert forall|i: int, j: int| 0 <= i <= j < index.len() implies index[i] <= index[j] by {
        lemma_steps_non_decreasing_between(index, i, j);
    }
}

/// Offsets that never decrease from one entry to the next do not decrease
/// from `i` to `j`.
proof fn lemma_steps_non_decreasing_between(index: Seq<u32>, i: int, j: int)
    requires
        forall|i: int| 0 <= i && i + 1 < index.len() ==> index[i] <= #[trigger] index[i + 1],
        0 <= i <= j < index.len(),
    ensures
        index[i] <= index[j],
    decreases j - i,
{
    if i < j {
        lemma_steps_non_decreasing_between(index, i, j - 1);
        assert(index[j - 1] <= index[(j - 1) + 1]);
    }
}

/// The values whose key is `k`, in order: `values[q]` for each position `q`
/// with `keys[q] == k`.
pub open spec fn values_with_key<T>(keys: Seq<u32>, values: Seq<T>, k: int) -> Seq<T>
    decreases keys.len(),
{
    if keys.len() == 0 {
        Seq::empty()
    } else {
        let n = keys.len() - 1;
        let rest = values_with_key(keys.take(n), values, k);
        if keys[n] == k {
            rest.push(values[n])
        } else {
            rest
        }
    }
}

/// Whether `x` is among the values whose key is below `k`.
pub open spec fn has_value_below<T>(keys: Seq<u32>, values: Seq<T>, k: int, x: T) -> bool {
    exists|q: int| 0 <= q < values.len() && keys[q] < k && #[trigger] values[q] == x
}

/// How many keys are less than `k`.
pub open spec fn keys_below(keys: Seq<u32>, k: int) -> nat
    decreases keys.len(),
{
    if keys.len() == 0 {
        0
    } else {
        let n = keys.len() - 1;
        keys_below(keys.take(n), k) + if keys[n] < k {
            1nat
        } else {
            0nat
        }
    }
}

/// The keys below `k + 1` are the keys below `k` and the keys equal to `k`.
proof fn lemma_keys_below_step<T>(keys: Seq<u32>, values: Seq<T>, k: int)
    ensures
        keys_below(keys, k + 1) == keys_below(keys, k) + values_with_key(keys, values, k).len(),
        keys_below(keys, k) <= keys.len(),
        keys_below(keys, 0) == 0,
    decreases keys.len(),
{
    if keys.len() > 0 {
        lemma_keys_below_step(keys.take(keys.len() - 1), values, k);
    }
}

/// One more key adds its value to the list of its own key and to no other.
pub proof fn lemma_values_with_key_step<T>(keys: Seq<u32>, values: Seq<T>, k: int, p: int)
    requires
        0 <= p < keys.len(),
    ensures
        values_with_key(keys.take(p + 1), values, k) == if keys[p] == k {
            values_with_key(keys.take(p), values, k).push(values[p])
        } else {
            values_with_key(keys.take(p), values, k)
        },
{
    assert(keys.take(p + 1).take(p) =~= keys.take(p));
}

/// A longer prefix of the keys holds at least as many values of each key.
pub proof fn lemma_values_with_key_grows<T>(keys: Seq<u32>, values: Seq<T>, k: int, a: int, b: int)
    requires
        0 <= a <= b <= keys.len(),
    ensures
        values_with_key(keys.take(a), values, k).len() <= values_with_key(
            keys.take(b),
            values,
            k,
        ).len(),
        values_with_key(keys.take(b), values, k).len() <= b,
    decreases b,
{
    if b > 0 {
        lemma_values_with_key_step(keys, values, k, b - 1);
        if a < b {
            lemma_values_with_key_grows(keys, values, k, a, b - 1);
        } else {
            lemma_values_with_key_grows(keys, values, k, b - 1, b - 1);
        }
    }
}

/// The value at rank `r` among those of key `k` stands at a position whose
/// key is `k` and which has `r` such positions before it.
pub proof fn lemma_values_with_key_rank<T>(keys: Seq<u32>, values: Seq<T>, k: int, r: int) -> (q: int)
    requires
        0 <= r < values_with_key(keys, values, k).len(),
    ensures
        0 <= q < keys.len(),
        keys[q] == k,
        values_with_key(keys.take(q), values, k).len() == r,
        values[q] == values_with_key(keys, values, k)[r],
    decreases keys.len(),
{
    let n = keys.len() - 1;
    if keys[n] == k && r == values_with_key(keys.take(n), values, k).len() {
        n
    } else {
        let q = lemma_values_with_key_rank(keys.take(n), values, k, r);
        assert(keys.take(n).take(q) =~= keys.take(q));
        q
    }
}

/// The value at a position whose key is `k` stands among the values of `k`,
/// at the rank given by the number of earlier positions of that key.
pub proof fn lemma_values_with_key_at<T>(keys: Seq<u32>, values: Seq<T>, k: int, q: int)
    requires
        0 <= q < keys.len(),
        keys[q] == k,
    ensures
        values_with_key(keys.take(q), values, k).len() < values_with_key(keys, values, k).len(),
        values_with_key(keys, values, k)[values_with_key(keys.take(q), values, k).len() as int]
            == values[q],
    decreases keys.len(),
{
    let n = keys.len() - 1;
    if q < n {
        lemma_values_with_key_at(keys.take(n), values, k, q);
        assert(keys.take(n).take(q) =~= keys.take(q));
    }
}

/// Where every key is below `k`, the keys below `k` are all of them.
pub proof fn lemma_keys_all_below(keys: Seq<u32>, k: int)
    requires
        forall|q: int| 0 <= q < keys.len() ==> keys[q] < k,
    ensures
        keys_below(keys, k) == keys.len(),
    decreases keys.len(),
{
    if keys.len() > 0 {
        lemma_keys_all_below(keys.take(keys.len() - 1), k);
    }
}

/// Between offsets that start at or below `s` and end above it lies a key
/// whose range holds `s`.
pub proof fn lemma_find_range(index: Seq<u32>, s: int, hi: int) -> (k: int)
    requires
        0 < hi < index.len(),
        index[0] <= s < index[hi],
    ensures
        0 <= k < hi,
        index[k] <= s < index[k + 1],
    decreases hi,
{
    if index[hi - 1] <= s {
        hi - 1
    } else {
        lemma_find_range(index, s, hi - 1)
    }
}

/// The place in the value vector that belongs to the item at position `q`:
/// the start of its key's range plus the number of earlier items of that key.
spec fn slot_of<T>(index: Seq<u32>, keys: Seq<u32>, values: Seq<T>, q: int) -> int {
    index[keys[q] as int] + values_with_key(keys.take(q), values, keys[q] as int).len()
}

/// The slot of an item lies within the range of its key.
proof fn lemma_slot_in_range<T>(index: Seq<u32>, keys: Seq<u32>, values: Seq<T>, q: int)
    requires
        0 <= q < keys.len(),
        keys[q] + 1 < index.len(),
        index[keys[q] + 1] == index[keys[q] as int] + values_with_key(
            keys,
            values,
            keys[q] as int,
        ).len(),
    ensures
        index[keys[q] as int] <= slot_of(index, keys, values, q) < index[keys[q] + 1],
{
    lemma_values_with_key_step(keys, values, keys[q] as int, q);
    lemma_values_with_key_grows(keys, values, keys[q] as int, q + 1, keys.len() as int);
    assert(keys.take(keys.len() as int) =~= keys);
}

/// Builds the table that gives each key below `num_keys` the values that
/// carry it, in the order in which they stand in `values`. `keys[q]` is the
/// key of `values[q]`; a value whose key is `num_keys` or more is dropped.
///
/// The table is built by counting the values of each key, summing the counts
/// into offsets, and moving each value to its place: no comparison sort.
pub fn group_by_key<T>(keys: &Vec<u32>, values: Vec<T>, num_keys: usize) -> (table: RampTable<T>)
    requires
        keys@.len() == values@.len(),
        keys@.len() <= u32::MAX,
    ensures
        table.wf(),
        table.complete(),
        table.key_count() == num_keys,
        forall|k: int|
            0 <= k < num_keys ==> #[trigger] table@[k] == values_with_key(keys@, values@, k),
        forall|k: int| 0 <= k <= num_keys ==> #[trigger] table.index@[k] == keys_below(keys@, k),
        forall|s: int|
            0 <= s < table.values@.len() ==> has_value_below(
                keys@,
                values@,
                num_keys as int,
                #[trigger] table.values@[s],
            ),
{
    let n: usize = keys.len();
    let ghost vals = values@;

    // Count the values of each key.
    let mut counts: Vec<u32> = filled(0u32, num_keys);
    let mut p: usize = 0;
    while p < n
        invariant
            0 <= p <= n,
            n == keys@.len(),
            n <= u32::MAX,
            counts@.len() == num_keys,
            forall|k: int|
                0 <= k < num_keys ==> #[trigger] counts@[k] == values_with_key(
                    keys@.take(p as int),
                    vals,
                    k,
                ).len(),
        decreases n - p,
    {
        let key: usize = keys[p] as usize;
        proof {
            assert forall|k: int| 0 <= k < num_keys implies values_with_key(
                keys@.take(p + 1),
                vals,
                k,
            ).len() == values_with_key(keys@.take(p as int), vals, k).len() + if keys@[p as int] == k {
                1int
            } else {
                0int
            } by {
                lemma_values_with_key_step(keys@, vals, k, p as int);
            }
            lemma_values_with_key_grows(keys@, vals, key as int, p as int, p as int);
        }
        if key < num_keys {
            counts[key] = counts[key] + 1;
        }
        p += 1;
    }
    proof {
        assert(keys@.take(n as int) =~= keys@);
    }

    // Sum the counts into offsets.
    let index_capacity: usize = if num_keys < usize::MAX {
        num_keys + 1
    } else {
        num_keys
    };
    let mut index: Vec<u32> = Vec::with_capacity(index_capacity);
    let mut cursor: Vec<u32> = Vec::with_capacity(num_keys);
    let mut sum: u32 = 0;
    index.push(0);
    let mut k: usize = 0;
    proof {
        lemma_keys_below_step(keys@, vals, 0);
    }
    while k < num_keys
        invariant
            0 <= k <= num_keys,
            n == keys@.len(),
            n <= u32::MAX,
            counts@.len() == num_keys,
            forall|j: int|
                0 <= j < num_keys ==> #[trigger] counts@[j] == values_with_key(keys@, vals, j).len(),
            index@.len() == k + 1,
            cursor@.len() == k,
            sum == keys_below(keys@, k as int),
            forall|j: int| 0 <= j <= k ==> #[trigger] index@[j] == keys_below(keys@, j),
            forall|j: int| 0 <= j < k ==> #[trigger] cursor@[j] == keys_below(keys@, j + 1),
        decreases num_keys - k,
    {
        proof {
            lemma_keys_below_step(keys@, vals, k as int);
            lemma_keys_below_step(keys@, vals, k + 1);
        }
        sum = sum + counts[k];
        index.push(sum);
        cursor.push(sum);
        k += 1;
    }
    let total: usize = sum as usize;
    proof {
        assert forall|i: int, j: int| 0 <= i <= j < index@.len() implies index@[i] <= index@[j] by {
            lemma_keys_below_grows(keys@, vals, i, j);
        }
    }

    // Move each value to its place, last value first.
    proof {
        assert forall|j: int| 0 <= j < num_keys implies #[trigger] cursor@[j] == index@[j]
            + values_with_key(keys@.take(n as int), vals, j).len() by {
            lemma_keys_below_step(keys@, vals, j);
        }
    }
    let mut rest: Vec<T> = values;
    let mut out: VecOption<T> = VecOption::new_repeat_none(total);
    let mut p: usize = n;
    while p > 0
        invariant
            0 <= p <= n,
            n == keys@.len(),
            n == vals.len(),
            rest@ == vals.take(p as int),
            index@.len() == num_keys + 1,
            cursor@.len() == num_keys,
            total == index@[num_keys as int],
            forall|j: int| 0 <= j <= num_keys ==> #[trigger] index@[j] == keys_below(keys@, j),
            forall|i: int, j: int| 0 <= i <= j < index@.len() ==> index@[i] <= index@[j],
            forall|j: int|
                0 <= j < num_keys ==> #[trigger] cursor@[j] == index@[j] + values_with_key(
                    keys@.take(p as int),
                    vals,
                    j,
                ).len(),
            out.wf(),
            out@.len() == total,
            forall|q: int|
                p <= q < n && keys@[q] < num_keys ==> 0 <= #[trigger] slot_of(index@, keys@, vals, q)
                    < total && out@[slot_of(index@, keys@, vals, q)] == Some(vals[q]),
        decreases p,
    {
        p -= 1;
        let x: T = rest.pop().unwrap();
        let key: usize = keys[p] as usize;
        proof {
            assert(vals.take(p + 1).drop_last() =~= vals.take(p as int));
            assert forall|j: int| 0 <= j < num_keys implies values_with_key(
                keys@.take(p + 1),
                vals,
                j,
            ).len() == values_with_key(keys@.take(p as int), vals, j).len() + if keys@[p as int] == j {
                1int
            } else {
                0int
            } by {
                lemma_values_with_key_step(keys@, vals, j, p as int);
            }
        }
        if key < num_keys {
            proof {
                lemma_keys_below_step(keys@, vals, key as int);
                lemma_slot_in_range(index@, keys@, vals, p as int);
                assert forall|q: int| p < q < n && keys@[q] < num_keys implies slot_of(
                    index@,
                    keys@,
                    vals,
                    q,
                ) != slot_of(index@, keys@, vals, p as int) by {
                    lemma_keys_below_step(keys@, vals, keys@[q] as int);
                    lemma_slot_in_range(index@, keys@, vals, q);
                    if keys@[q] == keys@[p as int] {
                        lemma_values_with_key_grows(keys@, vals, key as int, p + 1, q);
                    }
                }
            }
            let at: u32 = cursor[key] - 1;
            cursor[key] = at;
            let ghost before = out@;
            out.set_some(at as usize, x);
            proof {
                assert(at == slot_of(index@, keys@, vals, p as int));
                assert forall|q: int| p <= q < n && keys@[q] < num_keys implies 0 <= #[trigger] slot_of(
                    index@,
                    keys@,
                    vals,
                    q,
                ) < total && out@[slot_of(index@, keys@, vals, q)] == Some(vals[q]) by {
                    if q > p {
                        assert(before[slot_of(index@, keys@, vals, q)] == Some(vals[q]));
                    }
                }
            }
        }
    }

    proof {
        assert(keys@.take(0) =~= Seq::<u32>::empty());
    }
    let ghost slots = out@;
    let ghost placed = Seq::new(total as nat, |s: int| slots[s]->Some_0);
    proof {
        assert forall|s: int| 0 <= s < total implies slots[s] is Some by {
            let k = lemma_find_range(index@, s, num_keys as int);
            lemma_keys_below_step(keys@, vals, k);
            let q = lemma_values_with_key_rank(keys@, vals, k, s - index@[k]);
            assert(slots[slot_of(index@, keys@, vals, q)] == Some(vals[q]));
        }
        assert(slots =~= all_present(placed));
        lemma_present_values_of_all_present(placed);
    }
    let placed_values: Vec<T> = out.some_into_vec();
    let table = RampTable { index, values: placed_values };
    proof {
        assert forall|s: int| 0 <= s < table.values@.len() implies has_value_below(
            keys@,
            vals,
            num_keys as int,
            #[trigger] table.values@[s],
        ) by {
            let k = lemma_find_range(index@, s, num_keys as int);
            lemma_keys_below_step(keys@, vals, k);
            let q = lemma_values_with_key_rank(keys@, vals, k, s - index@[k]);
            assert(slots[slot_of(index@, keys@, vals, q)] == Some(vals[q]));
            assert(vals[q] == table.values@[s]);
        }
        assert forall|k: int| 0 <= k < num_keys implies #[trigger] table@[k] =~= values_with_key(
            keys@,
            vals,
            k,
        ) by {
            lemma_keys_below_step(keys@, vals, k);
            assert forall|r: int| 0 <= r < values_with_key(keys@, vals, k).len() implies table.entry(
                k,
            )[r] == values_with_key(keys@, vals, k)[r] by {
                let q = lemma_values_with_key_rank(keys@, vals, k, r);
                assert(slots[slot_of(index@, keys@, vals, q)] == Some(vals[q]));
            }
        }
    }
    table
}

/// The number of keys below `k` grows with `k`.
proof fn lemma_keys_below_grows<T>(keys: Seq<u32>, values: Seq<T>, i: int, j: int)
    requires
        i <= j,
    ensures
        keys_below(keys, i) <= keys_below(keys, j),
    decreases j - i,
{
    if i < j {
        lemma_keys_below_grows(keys, values, i, j - 1);
        lemma_keys_below_step(keys, values, j - 1);
    }
}

/// One more than the greatest key, or zero where there is no key.
pub open spec fn key_bound(keys: Seq<u32>) -> int
    decreases keys.len(),
{
    if keys.len() == 0 {
        0
    } else {
        let rest = key_bound(keys.take(keys.len() - 1));
        if keys.last() + 1 > rest {
            keys.last() + 1
        } else {
            rest
        }
    }
}

/// Every key is below the key bound, and the bound is no higher than it
/// has to be.
pub proof fn lemma_key_bound(keys: Seq<u32>)
    ensures
        0 <= key_bound(keys) <= u32::MAX + 1,
        forall|q: int| 0 <= q < keys.len() ==> #[trigger] keys[q] < key_bound(keys),
        key_bound(keys) > 0 ==> exists|q: int|
            0 <= q < keys.len() && #[trigger] keys[q] + 1 == key_bound(keys),
    decreases keys.len(),
{
    if keys.len() > 0 {
        let n = keys.len() - 1;
        lemma_key_bound(keys.take(n));
        assert forall|q: int| 0 <= q < keys.len() implies #[trigger] keys[q] < key_bound(keys) by {
            if q < n {
                assert(keys.take(n)[q] == keys[q]);
            }
        }
        if key_bound(keys) != keys.last() + 1 {
            let q = choose|q: int|
                0 <= q < keys.take(n).len() && #[trigger] keys.take(n)[q] + 1 == key_bound(
                    keys.take(n),
                );
            assert(keys[q] + 1 == key_bound(keys));
        }
    }
}

/// Where every key is below `b`, so is the greatest of them: the key bound
/// is at most `b`.
pub proof fn lemma_key_bound_below(keys: Seq<u32>, b: int)
    requires
        0 <= b,
        forall|q: int| 0 <= q < keys.len() ==> #[trigger] keys[q] < b,
    ensures
        key_bound(keys) <= b,
{
    lemma_key_bound(keys);
}

/// Grouping values that are all different gives a table whose values are
/// all different.
pub proof fn lemma_grouped_no_duplicates<T>(keys: Seq<u32>, values: Seq<T>, table: &RampTable<T>)
    requires
        keys.len() == values.len(),
        values.no_duplicates(),
        table.wf(),
        table.complete(),
        forall|k: int|
            0 <= k < table.key_count() ==> #[trigger] table@[k] == values_with_key(keys, values, k),
    ensures
        table.values@.no_duplicates(),
{
    assert forall|s1: int, s2: int|
        0 <= s1 < table.values@.len() && 0 <= s2 < table.values@.len() && s1 != s2 implies table.values@[s1]
        != table.values@[s2] by {
        let k1 = lemma_find_range(table.index@, s1, table.key_count());
        let k2 = lemma_find_range(table.index@, s2, table.key_count());
        assert(table@[k1][s1 - table.index@[k1]] == table.values@[s1]);
        assert(table@[k2][s2 - table.index@[k2]] == table.values@[s2]);
        let q1 = lemma_values_with_key_rank(keys, values, k1, s1 - table.index@[k1]);
        let q2 = lemma_values_with_key_rank(keys, values, k2, s2 - table.index@[k2]);
    }
}

/// Collects `(key, value)` pairs, in any order of the keys, and builds the
/// table that gives each key the values pushed with it, in the order in
/// which they were pushed.
pub struct RampTableBuilder<T> {
    keys: Vec<u32>,
    values: Vec<T>,
}

impl<T> View for RampTableBuilder<T> {
    type V = Seq<(u32, T)>;

    /// The pairs pushed so far, in order.
    closed spec fn view(&self) -> Seq<(u32, T)> {
        Seq::new(self.keys@.len(), |i: int| (self.keys@[i], self.values@[i]))
    }
}

impl<T> RampTableBuilder<T> {
    /// The keys pushed so far, in order.
    pub closed spec fn keys(&self) -> Seq<u32> {
        self.keys@
    }

    /// The values pushed so far, in order.
    pub closed spec fn values(&self) -> Seq<T> {
        self.values@
    }

    /// The builder holds one key for each value.
    pub closed spec fn wf(&self) -> bool {
        self.keys@.len() == self.values@.len()
    }

    /// The pairs are the keys and the values, side by side.
    pub proof fn lemma_pairs(&self)
        requires
            self.wf(),
        ensures
            self@.len() == self.keys().len(),
            self@.len() == self.values().len(),
            forall|i: int|
                0 <= i < self@.len() ==> #[trigger] self@[i] == (self.keys()[i], self.values()[i]),
    {
    }

    /// Creates a builder that holds no pairs.
    pub fn new() -> (builder: Self)
        ensures
            builder.wf(),
            builder.keys() == Seq::<u32>::empty(),
            builder.values() == Seq::<T>::empty(),
            builder@ == Seq::<(u32, T)>::empty(),
    {
        let builder = RampTableBuilder { keys: Vec::new(), values: Vec::new() };
        assert(builder@ =~= Seq::<(u32, T)>::empty());
        builder
    }

    /// Creates a builder that holds no pairs, with room for `capacity`.
    pub fn with_capacity(capacity: usize) -> (builder: Self)
        ensures
            builder.wf(),
            builder.keys() == Seq::<u32>::empty(),
            builder.values() == Seq::<T>::empty(),
            builder@ == Seq::<(u32, T)>::empty(),
    {
        let builder = RampTableBuilder {
            keys: Vec::with_capacity(capacity),
            values: Vec::with_capacity(capacity),
        };
        assert(builder@ =~= Seq::<(u32, T)>::empty());
        builder
    }

    /// The number of pairs pushed so far.
    pub fn len(&self) -> (n: usize)
        requires
            self.wf(),
        ensures
            n == self.keys().len(),
            n == self.values().len(),
            n == self@.len(),
    {
        self.keys.len()
    }

    /// Adds the pair `(key, value)`.
    pub fn push(&mut self, key: u32, value: T)
        requires
            old(self).wf(),
        ensures
            final(self).wf(),
            final(self).keys() == old(self).keys().push(key),
            final(self).values() == old(self).values().push(value),
            final(self)@ == old(self)@.push((key, value)),
    {
        self.keys.push(key);
        self.values.push(value);
        assert(final(self)@ =~= old(self)@.push((key, value)));
    }

    /// Adds the pairs of `items`, in order.
    pub fn extend(&mut self, items: Vec<(u32, T)>)
        requires
            old(self).wf(),
        ensures
            final(self).wf(),
            final(self)@ == old(self)@ + items@,
            final(self).keys() == old(self).keys() + Seq::new(
                items@.len(),
                |i: int| items@[i].0,
            ),
            final(self).values() == old(self).values() + Seq::new(
                items@.len(),
                |i: int| items@[i].1,
            ),
    {
        let mut rest: Vec<(u32, T)> = reversed(items);
        let ghost n = items@.len() as int;
        while rest.len() > 0
            invariant
                self.wf(),
                n == items@.len(),
                rest@.len() <= n,
                rest@ == items@.reverse().take(rest@.len() as int),
                self.keys@ == old(self).keys@ + Seq::new(
                    (n - rest@.len()) as nat,
                    |i: int| items@[i].0,
                ),
                self.values@ == old(self).values@ + Seq::new(
                    (n - rest@.len()) as nat,
                    |i: int| items@[i].1,
                ),
            decreases rest@.len(),
        {
            let ghost done = n - rest@.len();
            match rest.pop() {
                Some(pair) => {
                    proof {
                        assert(pair == items@[done]);
                        assert(rest@ =~= items@.reverse().take(rest@.len() as int));
                    }
                    self.keys.push(pair.0);
                    self.values.push(pair.1);
                    proof {
                        assert(self.keys@ =~= old(self).keys@ + Seq::new(
                            (done + 1) as nat,
                            |i: int| items@[i].0,
                        ));
                        assert(self.values@ =~= old(self).values@ + Seq::new(
                            (done + 1) as nat,
                            |i: int| items@[i].1,
                        ));
                    }
                },
                None => {},
            }
        }
        proof {
            assert(self@ =~= old(self)@ + items@);
        }
    }

    /// Builds the table: it has a key for every number up to the greatest
    /// key pushed, and gives each the values pushed with it, in the order in
    /// which they were pushed. A key that was never pushed has no values.
    pub fn finish(self) -> (table: RampTable<T>)
        requires
            self.wf(),
            self@.len() <= u32::MAX,
            key_bound(self.keys()) <= usize::MAX,
        ensures
            table.wf(),
            table.complete(),
            table.key_count() == key_bound(self.keys()),
            table.values@.len() == self@.len(),
            forall|k: int|
                0 <= k < table.key_count() ==> #[trigger] table@[k] == values_with_key(
                    self.keys(),
                    self.values(),
                    k,
                ),
            forall|s: int|
                0 <= s < table.values@.len() ==> has_value_below(
                    self.keys(),
                    self.values(),
                    table.key_count(),
                    #[trigger] table.values@[s],
                ),
    {
        let n: usize = self.keys.len();
        let mut num_keys: usize = 0;
        let mut i: usize = 0;
        while i < n
            invariant
                0 <= i <= n,
                n == self.keys@.len(),
                num_keys == key_bound(self.keys@.take(i as int)),
                key_bound(self.keys@) <= usize::MAX,
            decreases n - i,
        {
            proof {
                assert(self.keys@.take(i + 1).take(i as int) =~= self.keys@.take(i as int));
                lemma_key_bound_grows(self.keys@, i + 1, n as int);
                assert(self.keys@.take(n as int) =~= self.keys@);
            }
            let key: usize = self.keys[i] as usize;
            if key + 1 > num_keys {
                num_keys = key + 1;
            }
            i += 1;
        }
        proof {
            assert(self.keys@.take(n as int) =~= self.keys@);
            lemma_key_bound(self.keys@);
            lemma_keys_all_below(self.keys@, num_keys as int);
        }
        group_by_key(&self.keys, self.values, num_keys)
    }
}

/// A longer prefix of the keys has at least as high a key bound.
pub proof fn lemma_key_bound_grows(keys: Seq<u32>, a: int, b: int)
    requires
        0 <= a <= b <= keys.len(),
    ensures
        key_bound(keys.take(a)) <= key_bound(keys.take(b)),
    decreases b - a,
{
    if a < b {
        lemma_key_bound_grows(keys, a, b - 1);
        assert(keys.take(b).take(b - 1) =~= keys.take(b - 1));
    }
}

} // verus!
