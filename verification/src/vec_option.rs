use bit_vec::BitVec;
use core::ops::Range;
use vstd::prelude::*;

verus! {

/// `bit_vec::BitVec`, a growable list of bits. The library looks at its
/// bits only through `bit_vec_bits` and the functions below.
#[verifier::external_type_specification]
#[verifier::external_body]
#[verifier::reject_recursive_types(B)]
pub struct ExBitVec<B>(bit_vec::BitVec<B>);

/// The bits that a `BitVec` holds, first to last.
pub uninterp spec fn bit_vec_bits(b: BitVec) -> Seq<bool>;

/// `BitVec::new`: a bit vector that holds no bits.
#[verifier::external_body]
fn bits_new() -> (b: BitVec)
    ensures
        bit_vec_bits(b) == Seq::<bool>::empty(),
{
    BitVec::new()
}

/// `BitVec::from_elem`: a bit vector of `nbits` bits, each equal to `bit`.
#[verifier::external_body]
fn bits_from_elem(nbits: usize, bit: bool) -> (b: BitVec)
    ensures
        bit_vec_bits(b) == Seq::new(nbits as nat, |i: int| bit),
{
    BitVec::from_elem(nbits, bit)
}

/// `BitVec::with_capacity`: a bit vector that holds no bits; only storage is
/// set aside.
#[verifier::external_body]
fn bits_with_capacity(nbits: usize) -> (b: BitVec)
    ensures
        bit_vec_bits(b) == Seq::<bool>::empty(),
{
    BitVec::with_capacity(nbits)
}

/// `BitVec::len`: the number of bits held.
#[verifier::external_body]
fn bits_len(b: &BitVec) -> (n: usize)
    ensures
        n == bit_vec_bits(*b).len(),
{
    b.len()
}

/// `BitVec::get`: the bit at position `i`, or `None` past the end.
#[verifier::external_body]
fn bits_get(b: &BitVec, i: usize) -> (bit: Option<bool>)
    ensures
        bit == if i < bit_vec_bits(*b).len() {
            Some(bit_vec_bits(*b)[i as int])
        } else {
            None
        },
{
    b.get(i)
}

/// `BitVec::set`: stores `x` at position `i` and leaves the other bits as
/// they were. The call panics past the end, which the precondition excludes.
#[verifier::external_body]
fn bits_set(b: &mut BitVec, i: usize, x: bool)
    requires
        i < bit_vec_bits(*old(b)).len(),
    ensures
        bit_vec_bits(*final(b)) == bit_vec_bits(*old(b)).update(i as int, x),
{
    b.set(i, x)
}

/// `BitVec::push`: appends one bit. The call panics when the length would
/// pass `usize::MAX`, which the precondition excludes.
#[verifier::external_body]
fn bits_push(b: &mut BitVec, x: bool)
    requires
        bit_vec_bits(*old(b)).len() < usize::MAX,
    ensures
        bit_vec_bits(*final(b)) == bit_vec_bits(*old(b)).push(x),
{
    b.push(x)
}

/// `BitVec::pop`: removes the last bit and returns it, or returns `None` and
/// changes nothing when there is none.
#[verifier::external_body]
fn bits_pop(b: &mut BitVec) -> (bit: Option<bool>)
    ensures
        bit_vec_bits(*old(b)).len() == 0 ==> bit is None && bit_vec_bits(*final(b)) == bit_vec_bits(
            *old(b),
        ),
        bit_vec_bits(*old(b)).len() > 0 ==> bit == Some(bit_vec_bits(*old(b)).last())
            && bit_vec_bits(*final(b)) == bit_vec_bits(*old(b)).drop_last(),
{
    b.pop()
}

/// `BitVec::truncate`: keeps the first `len` bits; a `len` at or past the end
/// changes nothing.
#[verifier::external_body]
fn bits_truncate(b: &mut BitVec, len: usize)
    ensures
        bit_vec_bits(*final(b)) == if len < bit_vec_bits(*old(b)).len() {
            bit_vec_bits(*old(b)).subrange(0, len as int)
        } else {
            bit_vec_bits(*old(b))
        },
{
    b.truncate(len)
}

/// `BitVec::reserve`: sets storage aside and leaves the bits as they were.
/// The call panics when length plus `additional` overflows, which the
/// precondition excludes.
#[verifier::external_body]
fn bits_reserve(b: &mut BitVec, additional: usize)
    requires
        bit_vec_bits(*old(b)).len() + additional <= usize::MAX,
    ensures
        bit_vec_bits(*final(b)) == bit_vec_bits(*old(b)),
{
    b.reserve(additional)
}

/// The values that are present in `s`, in order.
pub open spec fn present_values<T>(s: Seq<Option<T>>) -> Seq<T>
    decreases s.len(),
{
    if s.len() == 0 {
        Seq::empty()
    } else {
        match s.last() {
            Some(x) => present_values(s.drop_last()).push(x),
            None => present_values(s.drop_last()),
        }
    }
}

/// A list wraps each of its values in `Some`.
pub open spec fn all_present<T>(s: Seq<T>) -> Seq<Option<T>> {
    Seq::new(s.len(), |i: int| Some(s[i]))
}

/// No more values are present in a list than it has entries.
pub proof fn lemma_present_values_len<T>(s: Seq<Option<T>>)
    ensures
        present_values(s).len() <= s.len(),
    decreases s.len(),
{
    if s.len() > 0 {
        lemma_present_values_len(s.drop_last());
    }
}

/// Where every entry is present, the present values are the entries.
pub proof fn lemma_present_values_of_all_present<T>(s: Seq<T>)
    ensures
        present_values(all_present(s)) == s,
    decreases s.len(),
{
    if s.len() > 0 {
        assert(all_present(s).drop_last() =~= all_present(s.drop_last()));
        lemma_present_values_of_all_present(s.drop_last());
        assert(present_values(all_present(s)) =~= s);
    } else {
        assert(present_values(all_present(s)) =~= s);
    }
}

/// A list of optional values: equal in meaning to `Vec<Option<T>>`, with a
/// bitmap beside the slots that records which of them hold a value.
///
/// The bitmap lets runs of present values be found without looking at the
/// slots, and `compact` turns the list into a plain dense vector in place.
#[derive(Debug)]
pub struct VecOption<T> {
    vec: Vec<Option<T>>,
    present: BitVec,
}

impl<T> View for VecOption<T> {
    type V = Seq<Option<T>>;

    /// The list as a sequence of optional values.
    closed spec fn view(&self) -> Seq<Option<T>> {
        self.vec@
    }
}

impl<T> VecOption<T> {
    /// The bitmap has one bit per slot, set exactly where the slot holds a
    /// value.
    pub closed spec fn wf(&self) -> bool {
        &&& bit_vec_bits(self.present).len() == self.vec@.len()
        &&& forall|i: int|
            0 <= i < self.vec@.len() ==> bit_vec_bits(self.present)[i] == (#[trigger] self.vec@[i]
                is Some)
    }

    /// Creates an empty list.
    pub fn new() -> (v: Self)
        ensures
            v.wf(),
            v@ == Seq::<Option<T>>::empty(),
    {
        VecOption { vec: Vec::new(), present: bits_new() }
    }

    /// Takes over a vector; every entry becomes a present value.
    pub fn from_vec(vec: Vec<T>) -> (v: Self)
        ensures
            v.wf(),
            v@ == all_present(vec@),
    {
        let len: usize = vec.len();
        let mut rest: Vec<T> = vec;
        let mut slots: Vec<Option<T>> = Vec::with_capacity(len);
        let mut i: usize = 0;
        while i < len
            invariant
                0 <= i <= len,
                len == vec@.len(),
                slots@.len() == i,
                rest@.len() == len - i,
                forall|j: int| 0 <= j < i ==> slots@[j] == Some(vec@[len - 1 - j]),
                forall|j: int| 0 <= j < len - i ==> rest@[j] == vec@[j],
            decreases len - i,
        {
            let x: Option<T> = rest.pop();
            slots.push(x);
            i += 1;
        }
        // The slots were filled from the back; turn them round.
        let mut a: usize = 0;
        let mut b: usize = len;
        while a + 1 < b
            invariant
                0 <= a <= b <= len,
                a + b == len,
                slots@.len() == len,
                forall|j: int| a <= j < b ==> slots@[j] == Some(vec@[len - 1 - j]),
                forall|j: int| 0 <= j < a || b <= j < len ==> slots@[j] == Some(vec@[j]),
            decreases b - a,
        {
            b -= 1;
            let x: Option<T> = slots[a].take();
            let y: Option<T> = slots[b].take();
            slots[a] = y;
            slots[b] = x;
            a += 1;
        }
        proof {
            assert(slots@ =~= all_present(vec@));
        }
        VecOption { vec: slots, present: bits_from_elem(len, true) }
    }

    /// Creates a list of `len` absent entries.
    pub fn new_repeat_none(len: usize) -> (v: Self)
        ensures
            v.wf(),
            v@ == Seq::new(len as nat, |i: int| None::<T>),
    {
        let mut slots: Vec<Option<T>> = Vec::with_capacity(len);
        let mut i: usize = 0;
        while i < len
            invariant
                0 <= i <= len,
                slots@ == Seq::new(i as nat, |j: int| None::<T>),
            decreases len - i,
        {
            slots.push(None);
            i += 1;
            assert(slots@ =~= Seq::new(i as nat, |j: int| None::<T>));
        }
        VecOption { vec: slots, present: bits_from_elem(len, false) }
    }

    /// Creates an empty list with room for `capacity` entries.
    pub fn with_capacity(capacity: usize) -> (v: Self)
        ensures
            v.wf(),
            v@ == Seq::<Option<T>>::empty(),
    {
        VecOption { vec: Vec::with_capacity(capacity), present: bits_with_capacity(capacity) }
    }

    /// The number of entries, present and absent.
    pub fn len(&self) -> (n: usize)
        ensures
            n == self@.len(),
    {
        self.vec.len()
    }

    /// Whether the list has no entries. A list of absent entries is not
    /// empty.
    pub fn is_empty(&self) -> (b: bool)
        ensures
            b == (self@.len() == 0),
    {
        self.vec.len() == 0
    }

    /// The value at `index`, if one is present.
    pub fn get_ref(&self, index: usize) -> (value: Option<&T>)
        requires
            self.wf(),
            index < self@.len(),
        ensures
            match value {
                Some(x) => self@[index as int] == Some(*x),
                None => self@[index as int] is None,
            },
    {
        match bits_get(&self.present, index) {
            Some(true) => self.vec[index].as_ref(),
            _ => None,
        }
    }

    /// A mutable reference to the value at `index`, if one is present.
    pub fn get_mut(&mut self, index: usize) -> (value: Option<&mut T>)
        requires
            old(self).wf(),
            index < old(self)@.len(),
        ensures
            match value {
                Some(x) => old(self)@[index as int] == Some(*x) && final(self)@ == old(self)@.update(
                    index as int,
                    Some(*final(x)),
                ),
                None => old(self)@[index as int] is None && final(self)@ == old(self)@,
            },
            final(self).wf(),
    {
        self.vec[index].as_mut()
    }

    /// A copy of the value at `index`, if one is present.
    pub fn get_copy(&self, index: usize) -> (value: Option<T>) where T: Copy
        requires
            self.wf(),
            index < self@.len(),
        ensures
            value == self@[index as int],
    {
        match self.get_ref(index) {
            Some(x) => Some(*x),
            None => None,
        }
    }

    /// A clone of the value at `index`, if one is present.
    pub fn get_clone(&self, index: usize) -> (value: Option<T>) where T: Clone
        requires
            self.wf(),
            index < self@.len(),
        ensures
            match value {
                Some(x) => self@[index as int] is Some && cloned(self@[index as int]->Some_0, x),
                None => self@[index as int] is None,
            },
    {
        match self.get_ref(index) {
            Some(x) => Some(x.clone()),
            None => None,
        }
    }

    /// Every entry, as an optional reference to its value, in order.
    pub fn iter(&self) -> (entries: Vec<Option<&T>>)
        requires
            self.wf(),
        ensures
            entries@.len() == self@.len(),
            forall|i: int|
                0 <= i < entries@.len() ==> match #[trigger] entries@[i] {
                    Some(x) => self@[i] == Some(*x),
                    None => self@[i] is None,
                },
    {
        let len: usize = self.vec.len();
        let mut entries: Vec<Option<&T>> = Vec::with_capacity(len);
        let mut i: usize = 0;
        while i < len
            invariant
                0 <= i <= len,
                len == self@.len(),
                self.wf(),
                entries@.len() == i,
                forall|j: int|
                    0 <= j < i ==> match #[trigger] entries@[j] {
                        Some(x) => self@[j] == Some(*x),
                        None => self@[j] is None,
                    },
            decreases len - i,
        {
            entries.push(self.get_ref(i));
            i += 1;
        }
        entries
    }

    /// Every entry, as an optional mutable reference to its value, in order.
    pub fn iter_mut(&mut self) -> (entries: Vec<Option<&mut T>>)
        requires
            old(self).wf(),
        ensures
            entries@.len() == old(self)@.len(),
            forall|i: int|
                0 <= i < entries@.len() ==> (match entries@[i] {
                    Some(x) => #[trigger] old(self)@[i] == Some(*x),
                    None => old(self)@[i] is None,
                }),
            final(self)@ == Seq::new(
                entries@.len(),
                |i: int|
                    match entries@[i] {
                        Some(x) => Some(*final(x)),
                        None => None,
                    },
            ),
            final(self).wf(),
    {
        let len: usize = self.vec.len();
        let mut entries: Vec<Option<&mut T>> = Vec::with_capacity(len);
        let all: &mut [Option<T>] = self.vec.as_mut_slice();
        let ghost whole = final(all)@;
        let mut rest: &mut [Option<T>] = all;
        let mut k: usize = 0;
        while k < len
            invariant
                0 <= k <= len,
                len == old(self)@.len(),
                entries@.len() == k,
                rest@ == old(self)@.subrange(k as int, len as int),
                forall|i: int|
                    0 <= i < k ==> (match entries@[i] {
                        Some(x) => #[trigger] old(self)@[i] == Some(*x),
                        None => old(self)@[i] is None,
                    }),
                whole == Seq::new(
                    k as nat,
                    |i: int|
                        match entries@[i] {
                            Some(x) => Some(*final(x)),
                            None => None,
                        },
                ) + final(rest)@,
            decreases len - k,
        {
            let ghost before = Seq::new(
                k as nat,
                |i: int|
                    match entries@[i] {
                        Some(x) => Some(*final(x)),
                        None => None,
                    },
            );
            let (head, tail) = rest.split_at_mut(1);
            let entry: Option<&mut T> = match head.first_mut() {
                Some(slot) => slot.as_mut(),
                None => None,
            };
            entries.push(entry);
            rest = tail;
            k += 1;
            proof {
                let now = Seq::new(
                    k as nat,
                    |i: int|
                        match entries@[i] {
                            Some(x) => Some(*final(x)),
                            None => None,
                        },
                );
                assert(now.take(k - 1) =~= before);
                assert(rest@ =~= old(self)@.subrange(k as int, len as int));
                assert(whole =~= now + final(rest)@);
            }
        }
        proof {
            assert forall|i: int| 0 <= i < len implies (#[trigger] whole[i] is Some) == (old(
                self,
            )@[i] is Some) by {
                assert(old(self)@[i] is Some || old(self)@[i] is None);
            }
        }
        entries
    }

    /// Stores `value` at `index` and returns what was there.
    pub fn replace(&mut self, index: usize, value: Option<T>) -> (previous: Option<T>)
        requires
            old(self).wf(),
            index < old(self)@.len(),
        ensures
            final(self).wf(),
            previous == old(self)@[index as int],
            final(self)@ == old(self)@.update(index as int, value),
    {
        match value {
            Some(x) => self.replace_some(index, x),
            None => self.replace_none(index),
        }
    }

    /// Stores a present value at `index` and returns what was there.
    pub fn replace_some(&mut self, index: usize, value: T) -> (previous: Option<T>)
        requires
            old(self).wf(),
            index < old(self)@.len(),
        ensures
            final(self).wf(),
            previous == old(self)@[index as int],
            final(self)@ == old(self)@.update(index as int, Some(value)),
    {
        let mut slot: Option<T> = Some(value);
        core::mem::swap(&mut self.vec[index], &mut slot);
        bits_set(&mut self.present, index, true);
        slot
    }

    /// Makes the entry at `index` absent and returns what was there.
    pub fn replace_none(&mut self, index: usize) -> (previous: Option<T>)
        requires
            old(self).wf(),
            index < old(self)@.len(),
        ensures
            final(self).wf(),
            previous == old(self)@[index as int],
            final(self)@ == old(self)@.update(index as int, None),
    {
        let previous: Option<T> = self.vec[index].take();
        bits_set(&mut self.present, index, false);
        previous
    }

    /// Stores `value` at `index`; what was there is dropped.
    pub fn set(&mut self, index: usize, value: Option<T>)
        requires
            old(self).wf(),
            index < old(self)@.len(),
        ensures
            final(self).wf(),
            final(self)@ == old(self)@.update(index as int, value),
    {
        let _ = self.replace(index, value);
    }

    /// Stores a present value at `index`; what was there is dropped.
    pub fn set_some(&mut self, index: usize, value: T)
        requires
            old(self).wf(),
            index < old(self)@.len(),
        ensures
            final(self).wf(),
            final(self)@ == old(self)@.update(index as int, Some(value)),
    {
        let _ = self.replace_some(index, value);
    }

    /// Makes the entry at `index` absent; what was there is dropped.
    pub fn set_none(&mut self, index: usize)
        requires
            old(self).wf(),
            index < old(self)@.len(),
        ensures
            final(self).wf(),
            final(self)@ == old(self)@.update(index as int, None),
    {
        let _ = self.replace_none(index);
    }

    /// Appends an entry.
    pub fn push(&mut self, value: Option<T>)
        requires
            old(self).wf(),
            old(self)@.len() < usize::MAX,
        ensures
            final(self).wf(),
            final(self)@ == old(self)@.push(value),
    {
        match value {
            Some(x) => self.push_some(x),
            None => self.push_none(),
        }
    }

    /// Appends a present value.
    pub fn push_some(&mut self, value: T)
        requires
            old(self).wf(),
            old(self)@.len() < usize::MAX,
        ensures
            final(self).wf(),
            final(self)@ == old(self)@.push(Some(value)),
    {
        bits_push(&mut self.present, true);
        self.vec.push(Some(value));
    }

    /// Appends an absent entry.
    pub fn push_none(&mut self)
        requires
            old(self).wf(),
            old(self)@.len() < usize::MAX,
        ensures
            final(self).wf(),
            final(self)@ == old(self)@.push(None),
    {
        bits_push(&mut self.present, false);
        self.vec.push(None);
    }

    /// Sets room aside for `additional` more entries.
    pub fn reserve(&mut self, additional: usize)
        requires
            old(self).wf(),
            old(self)@.len() + additional <= usize::MAX,
        ensures
            final(self).wf(),
            final(self)@ == old(self)@,
    {
        self.vec.reserve(additional);
        bits_reserve(&mut self.present, additional);
    }

    /// Removes the last entry and returns it; `None` where the list is empty.
    pub fn pop(&mut self) -> (entry: Option<Option<T>>)
        requires
            old(self).wf(),
        ensures
            final(self).wf(),
            old(self)@.len() == 0 ==> entry is None && final(self)@ == old(self)@,
            old(self)@.len() > 0 ==> entry == Some(old(self)@.last()) && final(self)@ == old(
                self,
            )@.drop_last(),
    {
        match bits_pop(&mut self.present) {
            Some(_) => self.vec.pop(),
            None => None,
        }
    }

    /// Removes entries from the end up to and including the last present
    /// value, and returns that value; `None` where no value is present, in
    /// which case the list ends up empty.
    pub fn pop_some(&mut self) -> (value: Option<T>)
        requires
            old(self).wf(),
        ensures
            final(self).wf(),
            match value {
                Some(x) => exists|n: int|
                    0 <= n < old(self)@.len() && old(self)@[n] == Some(x) && final(self)@ == old(
                        self,
                    )@.subrange(0, n) && forall|j: int|
                        n < j < old(self)@.len() ==> old(self)@[j] is None,
                None => final(self)@.len() == 0 && forall|j: int|
                    0 <= j < old(self)@.len() ==> old(self)@[j] is None,
            },
    {
        loop
            invariant
                self.wf(),
                self@.len() <= old(self)@.len(),
                self@ == old(self)@.subrange(0, self@.len() as int),
                forall|j: int| self@.len() <= j < old(self)@.len() ==> old(self)@[j] is None,
            decreases self@.len(),
        {
            let ghost before = self@;
            match self.pop() {
                Some(Some(x)) => {
                    proof {
                        let n = before.len() - 1;
                        assert(self@ =~= old(self)@.subrange(0, n));
                        assert(old(self)@[n] == Some(x));
                    }
                    return Some(x);
                },
                Some(None) => {
                    proof {
                        assert(self@ =~= old(self)@.subrange(0, self@.len() as int));
                    }
                },
                None => {
                    return None;
                },
            }
        }
    }

    /// Moves the present values to the front, keeping their order, and drops
    /// the absent entries. Returns the number of values kept, which is the
    /// new length.
    pub fn compact(&mut self) -> (kept: usize)
        requires
            old(self).wf(),
        ensures
            final(self).wf(),
            final(self)@ == all_present(present_values(old(self)@)),
            kept == present_values(old(self)@).len(),
    {
        let len: usize = self.vec.len();
        let mut num_keep: usize = 0;
        let mut i: usize = 0;
        while i < len
            invariant
                0 <= num_keep <= i <= len,
                len == old(self)@.len(),
                self.vec@.len() == len,
                self.present == old(self).present,
                bit_vec_bits(self.present).len() == len,
                num_keep == present_values(old(self)@.take(i as int)).len(),
                forall|j: int|
                    0 <= j < num_keep ==> self.vec@[j] == Some(
                        present_values(old(self)@.take(i as int))[j],
                    ),
                forall|j: int| i <= j < len ==> self.vec@[j] == old(self)@[j],
                forall|j: int|
                    0 <= j < len ==> bit_vec_bits(self.present)[j] == (#[trigger] old(self)@[j]
                        is Some),
            decreases len - i,
        {
            proof {
                assert(old(self)@.take(i + 1).drop_last() =~= old(self)@.take(i as int));
                assert(old(self)@.take(i + 1).last() == old(self)@[i as int]);
            }
            match bits_get(&self.present, i) {
                Some(true) => {
                    if i != num_keep {
                        let x: Option<T> = self.vec[i].take();
                        self.vec[num_keep] = x;
                    }
                    num_keep += 1;
                },
                _ => {},
            }
            i += 1;
        }
        proof {
            assert(old(self)@.take(len as int) =~= old(self)@);
        }
        self.vec.truncate(num_keep);
        let ghost slots = self.vec@;
        proof {
            assert(slots =~= all_present(present_values(old(self)@)));
        }
        let mut k: usize = 0;
        while k < num_keep
            invariant
                0 <= k <= num_keep <= len,
                bit_vec_bits(self.present).len() == len,
                self.vec@ == slots,
                slots.len() == num_keep,
                forall|j: int| 0 <= j < k ==> bit_vec_bits(self.present)[j],
            decreases num_keep - k,
        {
            bits_set(&mut self.present, k, true);
            k += 1;
        }
        bits_truncate(&mut self.present, num_keep);
        num_keep
    }

    /// Turns the list into a vector of its present values, in order.
    pub fn some_into_vec(self) -> (values: Vec<T>)
        requires
            self.wf(),
        ensures
            values@ == present_values(self@),
    {
        let mut this = self;
        let kept: usize = this.compact();
        let mut slots: Vec<Option<T>> = this.vec;
        let mut values: Vec<T> = Vec::with_capacity(kept);
        let mut i: usize = 0;
        while i < kept
            invariant
                0 <= i <= kept,
                kept == present_values(self@).len(),
                slots@.len() == kept,
                values@.len() == i,
                forall|j: int| 0 <= j < i ==> values@[j] == present_values(self@)[j],
                forall|j: int| i <= j < kept ==> slots@[j] == Some(present_values(self@)[j]),
            decreases kept - i,
        {
            let x: Option<T> = slots[i].take();
            values.push(x.unwrap());
            i += 1;
        }
        proof {
            assert(values@ =~= present_values(self@));
        }
        values
    }

    /// The positions of the present values with references to them, in
    /// order.
    pub fn iter_some_index(&self) -> (items: Vec<(usize, &T)>)
        requires
            self.wf(),
        ensures
            items@.len() == present_values(self@).len(),
            forall|j: int|
                0 <= j < items@.len() ==> *(#[trigger] items@[j]).1 == present_values(self@)[j]
                    && items@[j].0 < self@.len() && self@[items@[j].0 as int] == Some(
                    *items@[j].1,
                ),
            forall|j: int, k: int| 0 <= j < k < items@.len() ==> items@[j].0 < items@[k].0,
    {
        let mut items: Vec<(usize, &T)> = Vec::new();
        let len: usize = self.vec.len();
        let mut i: usize = 0;
        while i < len
            invariant
                0 <= i <= len,
                len == self@.len(),
                self.wf(),
                items@.len() == present_values(self@.take(i as int)).len(),
                forall|j: int|
                    0 <= j < items@.len() ==> *(#[trigger] items@[j]).1 == present_values(
                        self@.take(i as int),
                    )[j] && items@[j].0 < i && self@[items@[j].0 as int] == Some(*items@[j].1),
                forall|j: int, k: int| 0 <= j < k < items@.len() ==> items@[j].0 < items@[k].0,
            decreases len - i,
        {
            proof {
                assert(self@.take(i + 1).drop_last() =~= self@.take(i as int));
                assert(self@.take(i + 1).last() == self@[i as int]);
            }
            match self.get_ref(i) {
                Some(x) => {
                    items.push((i, x));
                },
                None => {},
            }
            i += 1;
        }
        proof {
            assert(self@.take(len as int) =~= self@);
        }
        items
    }

    /// The runs of present values: each range covers consecutive positions
    /// that hold a value, and is as long as it can be.
    pub fn iter_runs(&self) -> (runs: Vec<Range<usize>>)
        requires
            self.wf(),
        ensures
            forall|r: int|
                0 <= r < runs@.len() ==> is_run(self@, (#[trigger] runs@[r]).start as int, runs@[r].end as int),
            forall|r: int, s: int|
                0 <= r < s < runs@.len() ==> (#[trigger] runs@[r]).end < (#[trigger] runs@[s]).start,
            forall|i: int|
                0 <= i < self@.len() && self@[i] is Some ==> exists|r: int|
                    0 <= r < runs@.len() && (#[trigger] runs@[r]).start <= i < runs@[r].end,
    {
        let mut runs: Vec<Range<usize>> = Vec::new();
        let len: usize = self.vec.len();
        let mut next: usize = 0;
        loop
            invariant
                self.wf(),
                len == self@.len(),
                0 <= next <= len,
                next > 0 && next < len ==> self@[next as int] is None,
                forall|r: int|
                    0 <= r < runs@.len() ==> is_run(self@, (#[trigger] runs@[r]).start as int, runs@[r].end as int)
                        && runs@[r].end <= next,
                forall|r: int, s: int|
                    0 <= r < s < runs@.len() ==> (#[trigger] runs@[r]).end < (#[trigger] runs@[s]).start,
                forall|i: int|
                    0 <= i < next && self@[i] is Some ==> exists|r: int|
                        0 <= r < runs@.len() && (#[trigger] runs@[r]).start <= i < runs@[r].end,
            ensures
                next == len,
            decreases len - next,
        {
            let run: Range<usize> = find_next_run(self, next);
            if run.start < run.end {
                let ghost before = runs@;
                proof {
                    assert forall|r: int| 0 <= r < before.len() implies (#[trigger] before[r]).end
                        < run.start by {
                        if before[r].end == run.start {
                            assert(before[r].end == next);
                        }
                    }
                }
                runs.push(Range { start: run.start, end: run.end });
                proof {
                    assert forall|i: int| 0 <= i < run.end && self@[i] is Some implies exists|
                        r: int,
                    |
                        0 <= r < runs@.len() && (#[trigger] runs@[r]).start <= i < runs@[r].end by {
                        if i < next {
                            let r = choose|r: int|
                                0 <= r < before.len() && (#[trigger] before[r]).start <= i
                                    < before[r].end;
                            assert(runs@[r] == before[r]);
                        } else {
                            assert(runs@[before.len() as int].start <= i);
                        }
                    }
                }
                next = run.end;
            } else {
                next = len;
                break ;
            }
        }
        runs
    }
}

/// Whether positions `start..end` of `s` form a run of present values that
/// cannot be extended at either end.
pub open spec fn is_run<T>(s: Seq<Option<T>>, start: int, end: int) -> bool {
    &&& 0 <= start < end <= s.len()
    &&& forall|i: int| start <= i < end ==> (#[trigger] s[i]) is Some
    &&& (start > 0 ==> s[start - 1] is None)
    &&& (end < s.len() ==> s[end] is None)
}

/// Finds the first run of present values at or after `search`: the range
/// starts at the first present position from `search` on and ends at the
/// first absent position after that. Where no value is present from `search`
/// on, the range is empty and stands at the end of the list.
pub fn find_next_run<T>(vec: &VecOption<T>, search: usize) -> (run: Range<usize>)
    requires
        vec.wf(),
        search <= vec@.len(),
    ensures
        search <= run.start <= run.end <= vec@.len(),
        forall|i: int| search <= i < run.start ==> (#[trigger] vec@[i]) is None,
        forall|i: int| run.start <= i < run.end ==> (#[trigger] vec@[i]) is Some,
        run.end < vec@.len() ==> vec@[run.end as int] is None,
        run.start == run.end ==> run.start == vec@.len(),
{
    let len: usize = bits_len(&vec.present);
    let mut next: usize = search;
    while next < len && bits_get(&vec.present, next) != Some(true)
        invariant
            vec.wf(),
            len == vec@.len(),
            search <= next <= len,
            forall|i: int| search <= i < next ==> (#[trigger] vec@[i]) is None,
        decreases len - next,
    {
        next += 1;
    }
    let start: usize = next;
    while next < len && bits_get(&vec.present, next) == Some(true)
        invariant
            vec.wf(),
            len == vec@.len(),
            start <= next <= len,
            forall|i: int| start <= i < next ==> (#[trigger] vec@[i]) is Some,
        decreases len - next,
    {
        next += 1;
    }
    Range { start, end: next }
}

} // verus!
