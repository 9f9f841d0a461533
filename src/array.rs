//! Bounded sequence with a `Vec`-like interface.
//!
//! The live elements are kept in an owned buffer that never holds more than
//! `C` of them; every operation that would go past the capacity is either
//! rejected (`push`) or excluded by its precondition.
use vstd::prelude::*;

verus! {

/// Outcome of pushing `v` onto a sequence `s` bounded by `cap`: the value
/// handed back (the input itself when the sequence is full) and the new
/// contents.
pub open spec fn stack_push<T>(s: Seq<T>, v: T, cap: nat) -> (Option<T>, Seq<T>) {
    if s.len() < cap {
        (None, s.push(v))
    } else {
        (Some(v), s)
    }
}

/// Outcome of popping from `s`: the last element, if any, and what remains.
pub open spec fn stack_pop<T>(s: Seq<T>) -> (Option<T>, Seq<T>) {
    if s.len() == 0 {
        (None, s)
    } else {
        (Some(s.last()), s.drop_last())
    }
}

/// Results and final contents of pushing each of `vals`, in order, onto `s`
/// bounded by `cap`.
pub open spec fn stack_push_all<T>(s: Seq<T>, vals: Seq<T>, cap: nat) -> (Seq<Option<T>>, Seq<T>)
    decreases vals.len(),
{
    if vals.len() == 0 {
        (Seq::empty(), s)
    } else {
        let (r, next) = stack_push(s, vals[0], cap);
        let (rs, last) = stack_push_all(next, vals.drop_first(), cap);
        (seq![r] + rs, last)
    }
}

/// Values handed out by `n` successive pops from `s`, and what remains.
pub open spec fn stack_pop_n<T>(s: Seq<T>, n: nat) -> (Seq<T>, Seq<T>)
    decreases n,
{
    if n == 0 {
        (Seq::empty(), s)
    } else {
        match stack_pop(s) {
            (Some(v), next) => {
                let (vs, rest) = stack_pop_n(next, (n - 1) as nat);
                (seq![v] + vs, rest)
            },
            (None, _) => (Seq::empty(), s),
        }
    }
}

/// Pushes that stay within the capacity are all accepted and append their
/// values in order.
pub proof fn lemma_push_all_within_capacity<T>(s: Seq<T>, vals: Seq<T>, cap: nat)
    requires
        s.len() + vals.len() <= cap,
    ensures
        stack_push_all(s, vals, cap).0 == Seq::new(vals.len(), |i: int| None::<T>),
        stack_push_all(s, vals, cap).1 == s + vals,
    decreases vals.len(),
{
    if vals.len() > 0 {
        lemma_push_all_within_capacity(s.push(vals[0]), vals.drop_first(), cap);
        assert(s.push(vals[0]) + vals.drop_first() =~= s + vals);
        assert(seq![None::<T>] + Seq::new((vals.len() - 1) as nat, |i: int| None::<T>)
            =~= Seq::new(vals.len(), |i: int| None::<T>));
    } else {
        assert(s + vals =~= s);
    }
}

/// Popping a sequence built by pushes hands the pushed values back in
/// reverse order, leaving what was there before.
pub proof fn lemma_pops_reverse_pushes<T>(s: Seq<T>, vals: Seq<T>)
    ensures
        stack_pop_n(s + vals, vals.len()) == (vals.reverse(), s),
    decreases vals.len(),
{
    if vals.len() == 0 {
        assert(s + vals =~= s);
        assert(vals.reverse() =~= Seq::<T>::empty());
    } else {
        let front = vals.drop_last();
        assert((s + vals).drop_last() =~= s + front);
        assert((s + vals).last() == vals.last());
        lemma_pops_reverse_pushes(s, front);
        assert(seq![vals.last()] + front.reverse() =~= vals.reverse());
    }
}

/// Pushing into an empty sequence of capacity `cap` and popping everything
/// again yields the pushed values in reverse order.
pub proof fn lemma_lifo<T>(vals: Seq<T>, cap: nat)
    requires
        vals.len() <= cap,
    ensures
        stack_pop_n(stack_push_all(Seq::empty(), vals, cap).1, vals.len()).0 == vals.reverse(),
{
    lemma_push_all_within_capacity(Seq::empty(), vals, cap);
    assert(Seq::<T>::empty() + vals =~= vals);
    lemma_pops_reverse_pushes(Seq::<T>::empty(), vals);
}

/// Filling an empty sequence with `cap` values accepts every one of them;
/// one push more hands its value back unchanged and keeps the length at
/// `cap`.
pub proof fn lemma_fill_then_reject<T>(vals: Seq<T>, extra: T, cap: nat)
    requires
        vals.len() == cap,
    ensures
        stack_push_all(Seq::empty(), vals, cap).0 == Seq::new(cap, |i: int| None::<T>),
        stack_push_all(Seq::empty(), vals, cap).1 == vals,
        stack_push(vals, extra, cap) == (Some(extra), vals),
{
    lemma_push_all_within_capacity(Seq::empty(), vals, cap);
    assert(Seq::<T>::empty() + vals =~= vals);
}

/// After clearing, a sequence is empty and a pop finds nothing.
pub proof fn lemma_cleared_is_empty<T>(s: Seq<T>)
    requires
        s == Seq::<T>::empty(),
    ensures
        s.len() == 0,
        stack_pop(s) == (None::<T>, s),
{
}

/// Sequence holding at most `C` elements.
///
/// Two sequences are equal when their live elements are.
#[derive(PartialEq, Eq, Debug)]
pub struct Array<T, const C: usize> {
    items: Vec<T>,
}

impl<T, const C: usize> View for Array<T, C> {
    type V = Seq<T>;

    /// The live elements, in storage order.
    closed spec fn view(&self) -> Seq<T> {
        self.items@
    }
}

impl<T, const C: usize> Array<T, C> {
    /// Live elements fit the capacity.
    pub closed spec fn wf(&self) -> bool {
        self.items@.len() <= C
    }

    /// A well-formed sequence holds at most `C` elements.
    pub proof fn lemma_within_capacity(&self)
        requires
            self.wf(),
        ensures
            self@.len() <= C,
    {
    }

    /// Creates a new empty sequence.
    pub fn new() -> (r: Self)
        ensures
            r.wf(),
            r@ == Seq::<T>::empty(),
    {
        Array { items: Vec::new() }
    }

    /// Returns the number of live elements.
    pub fn len(&self) -> (r: usize)
        requires
            self.wf(),
        ensures
            r == self@.len(),
            r <= C,
    {
        self.items.len()
    }

    /// Returns whether the sequence holds no element.
    pub fn is_empty(&self) -> (r: bool)
        requires
            self.wf(),
        ensures
            r == (self@.len() == 0),
    {
        self.items.len() == 0
    }

    /// Returns the capacity.
    pub fn capacity(&self) -> (r: usize)
        ensures
            r == C,
    {
        C
    }

    /// Returns the live elements as a slice.
    pub fn as_slice(&self) -> (r: &[T])
        ensures
            r@ == self@,
    {
        self.items.as_slice()
    }

    /// Returns a reference to the element at `index`, which must be live.
    pub fn get_unchecked(&self, index: usize) -> (r: &T)
        requires
            index < self@.len(),
        ensures
            *r == self@[index as int],
    {
        &self.items[index]
    }

    /// Returns a mutable reference to the element at `index`, which must be
    /// live.
    pub fn get_unchecked_mut(&mut self, index: usize) -> (r: &mut T)
        requires
            index < old(self)@.len(),
        ensures
            *r == old(self)@[index as int],
            final(self)@ == old(self)@.update(index as int, *final(r)),
            old(self).wf() ==> final(self).wf(),
    {
        &mut self.items[index]
    }

    /// Shortens the sequence to its first `len` elements, dropping the rest.
    ///
    /// Does nothing if `len` is not below the current length.
    pub fn truncate(&mut self, len: usize)
        requires
            old(self).wf(),
        ensures
            final(self).wf(),
            len < old(self)@.len() ==> final(self)@ == old(self)@.subrange(0, len as int),
            len >= old(self)@.len() ==> final(self)@ == old(self)@,
    {
        if len >= self.items.len() {
            return;
        }
        self.inner_truncate(len);
    }

    /// Drops elements from the end until `len` remain.
    fn inner_truncate(&mut self, len: usize)
        requires
            old(self).wf(),
            len < old(self)@.len(),
        ensures
            final(self).wf(),
            final(self)@ == old(self)@.subrange(0, len as int),
    {
        while self.items.len() > len
            invariant
                len <= self.items@.len() <= old(self)@.len(),
                old(self)@.len() <= C,
                self.items@ == old(self)@.subrange(0, self.items@.len() as int),
            decreases self.items@.len(),
        {
            let _dropped = self.items.pop();
        }
    }

    /// Removes every element.
    pub fn clear(&mut self)
        requires
            old(self).wf(),
        ensures
            final(self).wf(),
            final(self)@ == Seq::<T>::empty(),
    {
        self.truncate(0);
    }

    /// Appends `value`; the capacity must not be reached yet.
    pub fn push_unchecked(&mut self, value: T)
        requires
            old(self).wf(),
            old(self)@.len() < C,
        ensures
            final(self).wf(),
            final(self)@ == old(self)@.push(value),
    {
        self.items.push(value);
    }

    /// Appends `value` at the end.
    ///
    /// When the sequence is full, hands `value` back and changes nothing.
    #[must_use]
    pub fn push(&mut self, value: T) -> (r: Option<T>)
        requires
            old(self).wf(),
        ensures
            final(self).wf(),
            (r, final(self)@) == stack_push(old(self)@, value, C as nat),
    {
        if self.items.len() == C {
            Some(value)
        } else {
            self.push_unchecked(value);
            None
        }
    }

    /// Removes and returns the last element; the sequence must not be empty.
    pub fn pop_unchecked(&mut self) -> (r: T)
        requires
            old(self).wf(),
            old(self)@.len() > 0,
        ensures
            final(self).wf(),
            r == old(self)@.last(),
            final(self)@ == old(self)@.drop_last(),
    {
        self.items.pop().unwrap()
    }

    /// Removes and returns the last element, if any.
    pub fn pop(&mut self) -> (r: Option<T>)
        requires
            old(self).wf(),
        ensures
            final(self).wf(),
            (r, final(self)@) == stack_pop(old(self)@),
    {
        if self.items.len() == 0 {
            None
        } else {
            Some(self.pop_unchecked())
        }
    }

    /// Removes the element at `index`, moving the last element into its
    /// place; `index` must be live.
    pub fn swap_remove_unchecked(&mut self, index: usize) -> (r: T)
        requires
            old(self).wf(),
            index < old(self)@.len(),
        ensures
            final(self).wf(),
            r == old(self)@[index as int],
            final(self)@ == old(self)@.update(index as int, old(self)@.last()).drop_last(),
    {
        self.items.swap_remove(index)
    }

    /// Removes the element at `index`, moving the last element into its
    /// place. The order of the remaining elements is not kept.
    pub fn swap_remove(&mut self, index: usize) -> (r: T)
        requires
            old(self).wf(),
            index < old(self)@.len(),
        ensures
            final(self).wf(),
            r == old(self)@[index as int],
            final(self)@ == old(self)@.update(index as int, old(self)@.last()).drop_last(),
    {
        self.swap_remove_unchecked(index)
    }

    /// Grows the sequence to `new_len` with clones of `value`, or truncates
    /// it when `new_len` is below the current length.
    pub fn resize_unchecked(&mut self, new_len: usize, value: T)
        where T: Clone
        requires
            old(self).wf(),
            new_len <= C,
        ensures
            final(self).wf(),
            new_len <= old(self)@.len() ==> final(self)@ == old(self)@.subrange(0, new_len as int),
            new_len > old(self)@.len() ==> {
                &&& final(self)@.len() == new_len
                &&& final(self)@.subrange(0, old(self)@.len() as int) == old(self)@
                &&& forall|i: int|
                    old(self)@.len() <= i < new_len ==> cloned(value, #[trigger] final(self)@[i])
            },
    {
        if new_len > self.items.len() {
            while self.items.len() < new_len
                invariant
                    old(self)@.len() <= self.items@.len() <= new_len <= C,
                    self.items@.subrange(0, old(self)@.len() as int) == old(self)@,
                    forall|i: int|
                        old(self)@.len() <= i < self.items@.len() ==> cloned(
                            value,
                            #[trigger] self.items@[i],
                        ),
                decreases new_len - self.items@.len(),
            {
                let item = value.clone();
                self.items.push(item);
                assert(self.items@.subrange(0, old(self)@.len() as int) =~= old(self)@);
            }
        } else {
            self.truncate(new_len);
        }
    }

    /// Grows the sequence to `new_len` with clones of `value`, or truncates
    /// it when `new_len` is below the current length. `new_len` must not
    /// exceed the capacity.
    pub fn resize(&mut self, new_len: usize, value: T)
        where T: Clone
        requires
            old(self).wf(),
            new_len <= C,
        ensures
            final(self).wf(),
            new_len <= old(self)@.len() ==> final(self)@ == old(self)@.subrange(0, new_len as int),
            new_len > old(self)@.len() ==> {
                &&& final(self)@.len() == new_len
                &&& final(self)@.subrange(0, old(self)@.len() as int) == old(self)@
                &&& forall|i: int|
                    old(self)@.len() <= i < new_len ==> cloned(value, #[trigger] final(self)@[i])
            },
    {
        self.resize_unchecked(new_len, value);
    }

    /// Grows the sequence to `new_len` with default values, or truncates it
    /// when `new_len` is below the current length.
    pub fn resize_default_unchecked(&mut self, new_len: usize)
        where T: Default
        requires
            old(self).wf(),
            new_len <= C,
        ensures
            final(self).wf(),
            new_len <= old(self)@.len() ==> final(self)@ == old(self)@.subrange(0, new_len as int),
            new_len > old(self)@.len() ==> {
                &&& final(self)@.len() == new_len
                &&& final(self)@.subrange(0, old(self)@.len() as int) == old(self)@
                &&& forall|i: int|
                    old(self)@.len() <= i < new_len ==> call_ensures(
                        T::default,
                        (),
                        #[trigger] final(self)@[i],
                    )
            },
    {
        if new_len > self.items.len() {
            while self.items.len() < new_len
                invariant
                    old(self)@.len() <= self.items@.len() <= new_len <= C,
                    self.items@.subrange(0, old(self)@.len() as int) == old(self)@,
                    forall|i: int|
                        old(self)@.len() <= i < self.items@.len() ==> call_ensures(
                            T::default,
                            (),
                            #[trigger] self.items@[i],
                        ),
                decreases new_len - self.items@.len(),
            {
                let item = T::default();
                self.items.push(item);
                assert(self.items@.subrange(0, old(self)@.len() as int) =~= old(self)@);
            }
        } else {
            self.truncate(new_len);
        }
    }

    /// Grows the sequence to `new_len` with default values, or truncates it
    /// when `new_len` is below the current length. `new_len` must not exceed
    /// the capacity.
    pub fn resize_default(&mut self, new_len: usize)
        where T: Default
        requires
            old(self).wf(),
            new_len <= C,
        ensures
            final(self).wf(),
            new_len <= old(self)@.len() ==> final(self)@ == old(self)@.subrange(0, new_len as int),
            new_len > old(self)@.len() ==> {
                &&& final(self)@.len() == new_len
                &&& final(self)@.subrange(0, old(self)@.len() as int) == old(self)@
                &&& forall|i: int|
                    old(self)@.len() <= i < new_len ==> call_ensures(
                        T::default,
                        (),
                        #[trigger] final(self)@[i],
                    )
            },
    {
        self.resize_default_unchecked(new_len);
    }
    /// Moves the live elements out into a consuming cursor that hands them
    /// over front to back.
    pub fn into_iter(self) -> (r: ArrayConsumer<T, C>)
        requires
            self.wf(),
        ensures
            r.wf(),
            r@ == self@,
    {
        let mut items = self.items;
        let mut rest: Vec<T> = Vec::new();
        let ghost all = items@;
        while items.len() > 0
            invariant
                all.len() <= C,
                items@ == all.subrange(0, items@.len() as int),
                rest@.len() + items@.len() == all.len(),
                forall|i: int|
                    0 <= i < rest@.len() ==> #[trigger] rest@[i] == all[all.len() - 1 - i],
            decreases items@.len(),
        {
            let item = items.pop().unwrap();
            rest.push(item);
        }
        let r = ArrayConsumer { rest };
        assert(r@ =~= all);
        r
    }

    /// Builds a sequence from `items`, appended in order.
    ///
    /// Fails when `items` holds more elements than the capacity.
    pub fn from_elements(items: Vec<T>) -> (r: Result<Self, CapacityOverflow>)
        ensures
            items@.len() <= C <==> r is Ok,
            r matches Ok(a) ==> a.wf() && a@ == items@,
            r matches Err(e) ==> e.capacity == C,
    {
        if items.len() > C {
            Err(CapacityOverflow { capacity: C })
        } else {
            Ok(Array { items })
        }
    }
}

impl<const C: usize> Array<u8, C> {
    /// Appends as many bytes of `buf` as the remaining capacity takes and
    /// returns how many were taken.
    pub fn write(&mut self, buf: &[u8]) -> (r: usize)
        requires
            old(self).wf(),
        ensures
            final(self).wf(),
            r == if buf@.len() < C - old(self)@.len() {
                buf@.len() as int
            } else {
                C - old(self)@.len()
            },
            final(self)@ == old(self)@ + buf@.subrange(0, r as int),
    {
        let room = C - self.items.len();
        let count = if buf.len() < room {
            buf.len()
        } else {
            room
        };
        let mut i: usize = 0;
        while i < count
            invariant
                count <= buf@.len(),
                old(self)@.len() + count <= C,
                i <= count,
                self.items@ == old(self)@ + buf@.subrange(0, i as int),
            decreases count - i,
        {
            self.items.push(buf[i]);
            i = i + 1;
            assert(self.items@ =~= old(self)@ + buf@.subrange(0, i as int));
        }
        count
    }
}

impl<T: Clone, const C: usize> Clone for Array<T, C> {
    /// Copies the live elements into a new, independent sequence.
    fn clone(&self) -> (r: Self)
        ensures
            self.wf() ==> r.wf(),
            r@.len() == self@.len(),
            forall|i: int| 0 <= i < self@.len() ==> cloned(self@[i], #[trigger] r@[i]),
    {
        Array { items: self.items.clone() }
    }
}

/// Error of building a sequence from more elements than it can hold.
pub struct CapacityOverflow {
    /// Capacity that was exceeded.
    pub capacity: usize,
}

/// Consuming cursor over the elements of an [`Array`], front to back.
///
/// Elements not taken are dropped with the cursor.
pub struct ArrayConsumer<T, const C: usize> {
    /// Elements not yet handed over, last one first.
    rest: Vec<T>,
}

impl<T, const C: usize> View for ArrayConsumer<T, C> {
    type V = Seq<T>;

    /// The elements still to come, in the order they will be handed over.
    closed spec fn view(&self) -> Seq<T> {
        Seq::new(self.rest@.len(), |i: int| self.rest@[self.rest@.len() - 1 - i])
    }
}

impl<T, const C: usize> ArrayConsumer<T, C> {
    /// What is left fits the capacity.
    pub closed spec fn wf(&self) -> bool {
        self.rest@.len() <= C
    }

    /// Hands over the next element, if any.
    pub fn next(&mut self) -> (r: Option<T>)
        requires
            old(self).wf(),
        ensures
            final(self).wf(),
            old(self)@.len() == 0 ==> r is None && final(self)@ == old(self)@,
            old(self)@.len() > 0 ==> r == Some(old(self)@[0]) && final(self)@ == old(self)@.drop_first(),
    {
        let r = self.rest.pop();
        proof {
            if old(self)@.len() > 0 {
                assert(self@ =~= old(self)@.drop_first());
            }
        }
        r
    }

    /// Returns the exact number of elements left, as lower and upper bound.
    pub fn size_hint(&self) -> (r: (usize, Option<usize>))
        requires
            self.wf(),
        ensures
            r.0 == self@.len(),
            r.1 == Some(self@.len() as usize),
    {
        let size = self.rest.len();
        (size, Some(size))
    }
}

} // verus!
