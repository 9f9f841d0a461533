//! Ring buffer with monotonic cursors.
//!
//! `read` and `write` count every element ever taken out and put in; both
//! wrap at the machine word, not at the capacity. The element at logical
//! position `p` sits in slot `p & (C - 1)`, which is why the capacity must be
//! a nonzero power of two. The number of live elements is the wrapping
//! distance from `read` to `write`.
//!
//! The free functions [`claim_slot`] and [`filled_slot`] are the two halves
//! of the cursor protocol: a producer that only advances `write` and a
//! consumer that only advances `read` can share one buffer by them.
use vstd::arithmetic::div_mod::{
    lemma_fundamental_div_mod,
    lemma_mod_add_multiples_vanish,
    lemma_mod_multiples_basic,
    lemma_mod_multiples_vanish,
    lemma_small_mod,
};
use vstd::arithmetic::power2::{lemma_pow2_adds, lemma_pow2_pos, pow2};
use vstd::bits::{lemma_usize_low_bits_mask_is_mod, low_bits_mask};
use vstd::layout::unsigned_int_max_values;
use vstd::prelude::*;

verus! {

/// A capacity the cursor arithmetic supports: a power of two that fits the
/// machine word.
pub open spec fn valid_capacity(c: usize) -> bool {
    exists|k: nat| k < usize::BITS && c == pow2(k)
}

/// Number of steps from cursor `from` forward to cursor `to`, counted modulo
/// the machine word.
pub open spec fn distance(from: usize, to: usize) -> nat {
    if from <= to {
        (to - from) as nat
    } else {
        (to + (usize::MAX + 1) - from) as nat
    }
}

/// Outcome of offering `v` to a queue `s` bounded by `cap` without
/// eviction: the value handed back (the input itself when full) and the new
/// contents.
pub open spec fn queue_try_push<T>(s: Seq<T>, v: T, cap: nat) -> (Option<T>, Seq<T>) {
    if s.len() < cap {
        (None, s.push(v))
    } else {
        (Some(v), s)
    }
}

/// Contents of a queue bounded by `cap` after pushing `v`, evicting the
/// oldest element first when full.
pub open spec fn queue_push<T>(s: Seq<T>, v: T, cap: nat) -> Seq<T> {
    if s.len() >= cap {
        s.drop_first().push(v)
    } else {
        s.push(v)
    }
}

/// Outcome of taking from the front of queue `s`: the oldest element, if
/// any, and what remains.
pub open spec fn queue_pop<T>(s: Seq<T>) -> (Option<T>, Seq<T>) {
    if s.len() == 0 {
        (None, s)
    } else {
        (Some(s[0]), s.drop_first())
    }
}

/// A valid capacity is nonzero.
pub proof fn lemma_capacity_pos(c: usize)
    requires
        valid_capacity(c),
    ensures
        c > 0,
{
    let k = choose|k: nat| k < usize::BITS && c == pow2(k);
    lemma_pow2_pos(k);
}

/// Masking with `c - 1` takes the remainder modulo `c`.
proof fn lemma_mask_is_mod(x: usize, c: usize)
    requires
        valid_capacity(c),
    ensures
        x & ((c - 1) as usize) == x % c,
{
    lemma_capacity_pos(c);
    let k = choose|k: nat| k < usize::BITS && c == pow2(k);
    lemma_usize_low_bits_mask_is_mod(x, k);
    assert(low_bits_mask(k) == c - 1);
}

/// The word size is a multiple of every valid capacity.
proof fn lemma_word_multiple(c: usize)
    requires
        valid_capacity(c),
    ensures
        (usize::MAX + 1) % (c as int) == 0,
{
    lemma_capacity_pos(c);
    let k = choose|k: nat| k < usize::BITS && c == pow2(k);
    let rest = (usize::BITS - k) as nat;
    unsigned_int_max_values();
    lemma_pow2_adds(k, rest);
    assert(k + rest == usize::BITS as nat);
    assert(usize::MAX + 1 == pow2(rest) * c) by (nonlinear_arith)
        requires
            usize::MAX + 1 == pow2(k + rest),
            pow2(k) * pow2(rest) == pow2(k + rest),
            c == pow2(k),
    ;
    lemma_mod_multiples_basic(pow2(rest) as int, c as int);
}

/// The slot of a cursor is fixed by the slot of an earlier cursor and the
/// distance between them.
proof fn lemma_distance_slot(from: usize, to: usize, c: usize)
    requires
        valid_capacity(c),
    ensures
        to % c == (from % c + distance(from, to)) % (c as int),
{
    lemma_capacity_pos(c);
    let ci = c as int;
    let d = distance(from, to) as int;
    lemma_fundamental_div_mod(from as int, ci);
    let q = from as int / ci;
    // from == c * q + from % c
    lemma_mod_multiples_vanish(q, from as int % ci + d, ci);
    if from <= to {
        assert(to as int == ci * q + (from as int % ci + d));
    } else {
        lemma_word_multiple(c);
        let w = usize::MAX as int + 1;
        lemma_fundamental_div_mod(w, ci);
        let k = w / ci;
        assert(to as int == ci * (q - k) + (from as int % ci + d)) by (nonlinear_arith)
            requires
                to as int == from as int + d - w,
                from as int == ci * q + from as int % ci,
                w == ci * k,
        ;
        lemma_mod_multiples_vanish(q - k, from as int % ci + d, ci);
    }
}

/// Normal form of the slot `i` places after slot `r`.
proof fn lemma_slot_after(r: int, i: int, c: int)
    requires
        0 <= r < c,
        0 <= i <= c,
    ensures
        (r + i) % c == if r + i < c {
            r + i
        } else {
            r + i - c
        },
{
    if r + i < c {
        lemma_small_mod((r + i) as nat, c as nat);
    } else {
        lemma_small_mod((r + i - c) as nat, c as nat);
        lemma_mod_add_multiples_vanish(r + i - c, c);
    }
}

/// Normal form of how many slots slot `j` lies after slot `r`.
proof fn lemma_slot_offset(j: int, r: int, c: int)
    requires
        0 <= r < c,
        0 <= j < c,
    ensures
        (j - r) % c == if j >= r {
            j - r
        } else {
            j - r + c
        },
{
    if j >= r {
        lemma_small_mod((j - r) as nat, c as nat);
    } else {
        lemma_small_mod((j - r + c) as nat, c as nat);
        lemma_mod_add_multiples_vanish(j - r, c);
    }
}

/// Returns the slot a producer may fill next, or `None` when the buffer is
/// full. `write` is the producer's own cursor and `read` the consumer's.
pub fn claim_slot<const C: usize>(write: usize, read: usize) -> (r: Option<usize>)
    requires
        valid_capacity(C),
    ensures
        distance(read, write) < C ==> r == Some((write % C) as usize),
        distance(read, write) >= C ==> r is None,
{
    proof {
        lemma_capacity_pos(C);
    }
    let used = write.wrapping_sub(read);
    if used < C {
        proof {
            lemma_mask_is_mod(write, C);
        }
        Some(write & (C - 1))
    } else {
        None
    }
}

/// Returns the slot a consumer may empty next, or `None` when the buffer is
/// empty. `read` is the consumer's own cursor and `write` the producer's.
pub fn filled_slot<const C: usize>(read: usize, write: usize) -> (r: Option<usize>)
    requires
        valid_capacity(C),
    ensures
        distance(read, write) > 0 ==> r == Some((read % C) as usize),
        distance(read, write) == 0 ==> r is None,
{
    proof {
        lemma_capacity_pos(C);
    }
    if read != write {
        proof {
            lemma_mask_is_mod(read, C);
        }
        Some(read & (C - 1))
    } else {
        None
    }
}

/// Contents of a queue bounded by `cap` after pushing each of `vals`, in
/// order, onto `s` with eviction.
pub open spec fn queue_push_all<T>(s: Seq<T>, vals: Seq<T>, cap: nat) -> Seq<T>
    decreases vals.len(),
{
    if vals.len() == 0 {
        s
    } else {
        queue_push_all(queue_push(s, vals[0], cap), vals.drop_first(), cap)
    }
}

/// Values handed out by `n` successive pops from the front of `s`, and what
/// remains.
pub open spec fn queue_pop_n<T>(s: Seq<T>, n: nat) -> (Seq<T>, Seq<T>)
    decreases n,
{
    if n == 0 {
        (Seq::empty(), s)
    } else {
        match queue_pop(s) {
            (Some(v), next) => {
                let (vs, rest) = queue_pop_n(next, (n - 1) as nat);
                (seq![v] + vs, rest)
            },
            (None, _) => (Seq::empty(), s),
        }
    }
}

/// The last `cap` elements of `t`, or all of them when there are fewer.
pub open spec fn newest<T>(t: Seq<T>, cap: nat) -> Seq<T> {
    if t.len() <= cap {
        t
    } else {
        t.subrange(t.len() - cap, t.len() as int)
    }
}

/// Keeping the newest `k` before appending more changes nothing about the
/// newest `k` afterwards.
proof fn lemma_newest_absorbs<T>(a: Seq<T>, b: Seq<T>, k: nat)
    ensures
        newest(newest(a, k) + b, k) == newest(a + b, k),
{
    if a.len() > k {
        let x = newest(newest(a, k) + b, k);
        let y = newest(a + b, k);
        assert(x.len() == y.len());
        assert forall|i: int| 0 <= i < x.len() implies x[i] == y[i] by {
            if b.len() + i < k {
                assert(x[i] == a[a.len() - k + b.len() + i]);
            }
        }
        assert(x =~= y);
    }
}

/// Pushing with eviction onto a queue that fits its capacity keeps the
/// newest `cap` of all the values seen, oldest first.
pub proof fn lemma_push_all_keeps_newest<T>(s: Seq<T>, vals: Seq<T>, cap: nat)
    requires
        cap > 0,
        s.len() <= cap,
    ensures
        queue_push_all(s, vals, cap) == newest(s + vals, cap),
    decreases vals.len(),
{
    if vals.len() == 0 {
        assert(s + vals =~= s);
    } else {
        let s1 = queue_push(s, vals[0], cap);
        assert(s1 == newest(s.push(vals[0]), cap)) by {
            if s.len() == cap {
                assert(s.drop_first().push(vals[0]) =~= s.push(vals[0]).subrange(1, cap as int + 1));
            }
        }
        lemma_push_all_keeps_newest(s1, vals.drop_first(), cap);
        lemma_newest_absorbs(s.push(vals[0]), vals.drop_first(), cap);
        assert(s.push(vals[0]) + vals.drop_first() =~= s + vals);
    }
}

/// Popping `n` times from a queue that holds at least `n` elements hands out
/// its first `n`, in order.
pub proof fn lemma_pops_in_order<T>(s: Seq<T>, n: nat)
    requires
        n <= s.len(),
    ensures
        queue_pop_n(s, n) == (s.subrange(0, n as int), s.subrange(n as int, s.len() as int)),
    decreases n,
{
    if n == 0 {
        assert(s.subrange(0, 0) =~= Seq::<T>::empty());
        assert(s.subrange(0, s.len() as int) =~= s);
    } else {
        lemma_pops_in_order(s.drop_first(), (n - 1) as nat);
        assert(seq![s[0]] + s.drop_first().subrange(0, n - 1) =~= s.subrange(0, n as int));
        assert(s.drop_first().subrange(n - 1, s.len() - 1) =~= s.subrange(n as int, s.len() as int));
    }
}

/// Pushing `cap + n` values into an empty buffer of capacity `cap` leaves
/// exactly `cap` of them: the oldest `n` were evicted one for one, and
/// popping hands out the others in the order they were pushed.
pub proof fn lemma_overwrite_then_drain<T>(vals: Seq<T>, cap: nat, n: nat)
    requires
        cap > 0,
        n > 0,
        vals.len() == cap + n,
    ensures
        queue_push_all(Seq::empty(), vals, cap).len() == cap,
        queue_pop_n(queue_push_all(Seq::empty(), vals, cap), cap).0 == vals.subrange(
            n as int,
            vals.len() as int,
        ),
        queue_pop_n(queue_push_all(Seq::empty(), vals, cap), cap).1 == Seq::<T>::empty(),
{
    lemma_push_all_keeps_newest(Seq::empty(), vals, cap);
    assert(Seq::<T>::empty() + vals =~= vals);
    let q = queue_push_all(Seq::empty(), vals, cap);
    lemma_pops_in_order(q, cap);
    assert(q.subrange(0, cap as int) =~= q);
    assert(q.subrange(cap as int, cap as int) =~= Seq::<T>::empty());
}

/// Runs a producer and a consumer over a queue bounded by `cap` in the order
/// `turns` gives (`true` is a producer turn). On its turn the producer offers
/// the first of `pending` and drops it from `pending` once accepted; the
/// consumer takes the oldest element, if any, and appends it to `out`.
/// Returns the queue, what is still pending, and what was received.
pub open spec fn spsc_run<T>(q: Seq<T>, pending: Seq<T>, out: Seq<T>, turns: Seq<bool>, cap: nat) -> (
    Seq<T>,
    Seq<T>,
    Seq<T>,
)
    decreases turns.len(),
{
    if turns.len() == 0 {
        (q, pending, out)
    } else if turns[0] {
        if pending.len() == 0 {
            spsc_run(q, pending, out, turns.drop_first(), cap)
        } else {
            let (back, next) = queue_try_push(q, pending[0], cap);
            let rest = if back is None {
                pending.drop_first()
            } else {
                pending
            };
            spsc_run(next, rest, out, turns.drop_first(), cap)
        }
    } else {
        let (taken, next) = queue_pop(q);
        let received = match taken {
            Some(v) => out.push(v),
            None => out,
        };
        spsc_run(next, pending, received, turns.drop_first(), cap)
    }
}

/// Under any interleaving of producer and consumer turns, every value is in
/// exactly one place, in order: received, in the queue, or still pending.
/// Nothing is lost, duplicated or reordered, and the queue never exceeds
/// its bound.
pub proof fn lemma_spsc_conserves<T>(
    q: Seq<T>,
    pending: Seq<T>,
    out: Seq<T>,
    turns: Seq<bool>,
    cap: nat,
)
    requires
        q.len() <= cap,
    ensures
        ({
            let (q2, pending2, out2) = spsc_run(q, pending, out, turns, cap);
            &&& out2 + q2 + pending2 == out + q + pending
            &&& q2.len() <= cap
        }),
    decreases turns.len(),
{
    if turns.len() > 0 {
        if turns[0] {
            if pending.len() > 0 {
                let (back, next) = queue_try_push(q, pending[0], cap);
                let rest = if back is None {
                    pending.drop_first()
                } else {
                    pending
                };
                lemma_spsc_conserves(next, rest, out, turns.drop_first(), cap);
                if back is None {
                    assert(out + q.push(pending[0]) + pending.drop_first() =~= out + q + pending);
                }
            } else {
                lemma_spsc_conserves(q, pending, out, turns.drop_first(), cap);
            }
        } else {
            let (taken, next) = queue_pop(q);
            let received = match taken {
                Some(v) => out.push(v),
                None => out,
            };
            lemma_spsc_conserves(next, pending, received, turns.drop_first(), cap);
            if q.len() > 0 {
                assert(out.push(q[0]) + q.drop_first() + pending =~= out + q + pending);
            }
        }
    }
}

/// A consumer fed through an initially empty queue receives a prefix of the
/// producer's values, each exactly once and in the order they were sent.
pub proof fn lemma_spsc_delivers_in_order<T>(input: Seq<T>, turns: Seq<bool>, cap: nat)
    ensures
        ({
            let (q, pending, out) = spsc_run(Seq::empty(), input, Seq::empty(), turns, cap);
            &&& out.len() <= input.len()
            &&& out == input.subrange(0, out.len() as int)
            &&& q + pending == input.subrange(out.len() as int, input.len() as int)
        }),
{
    lemma_spsc_conserves(Seq::empty(), input, Seq::empty(), turns, cap);
    let (q, pending, out) = spsc_run(Seq::empty(), input, Seq::empty(), turns, cap);
    assert(Seq::<T>::empty() + Seq::<T>::empty() + input =~= input);
    assert(out + q + pending == input);
    assert(out =~= input.subrange(0, out.len() as int));
    assert(q + pending =~= input.subrange(out.len() as int, input.len() as int));
}

/// After clearing, a buffer is empty and a pop finds nothing.
pub proof fn lemma_cleared_is_empty<T>(s: Seq<T>)
    requires
        s == Seq::<T>::empty(),
    ensures
        s.len() == 0,
        queue_pop(s) == (None::<T>, s),
{
}

/// The slot a producer claims never holds an unread element: it differs
/// from the slot of each of the `distance(read, write)` live positions, the
/// first of which is the slot a consumer empties next.
pub proof fn lemma_claimed_slot_is_free(read: usize, write: usize, c: usize)
    requires
        valid_capacity(c),
        distance(read, write) < c,
    ensures
        forall|i: int|
            0 <= i < distance(read, write) ==> #[trigger] ((read % c + i) % (c as int)) != write
                % c,
{
    lemma_capacity_pos(c);
    lemma_distance_slot(read, write, c);
    let d = distance(read, write) as int;
    lemma_slot_after((read % c) as int, d, c as int);
    assert forall|i: int| 0 <= i < d implies #[trigger] ((read % c + i) % (c as int)) != write
        % c by {
        lemma_slot_after((read % c) as int, i, c as int);
    }
}

/// Ring buffer of capacity `C` with overwrite-on-full `push`.
pub struct RingBuffer<T, const C: usize> {
    slots: Vec<Option<T>>,
    read: usize,
    write: usize,
}

impl<T, const C: usize> View for RingBuffer<T, C> {
    type V = Seq<T>;

    /// The live elements, oldest first.
    closed spec fn view(&self) -> Seq<T> {
        Seq::new(
            distance(self.read, self.write),
            |i: int| self.slots@[(self.front() + i) % (C as int)]->Some_0,
        )
    }
}

impl<T, const C: usize> RingBuffer<T, C> {
    /// Slot of the oldest live element.
    closed spec fn front(&self) -> int {
        (self.read % C) as int
    }

    /// The capacity is valid, there is one slot per unit of capacity, and a
    /// slot is filled exactly when it lies within `size` slots after the
    /// front.
    pub closed spec fn wf(&self) -> bool {
        &&& valid_capacity(C)
        &&& self.slots@.len() == C
        &&& distance(self.read, self.write) <= C
        &&& forall|j: int|
            0 <= j < C ==> (#[trigger] self.slots@[j] is Some <==> (j - self.front()) % (C as int)
                < distance(self.read, self.write))
    }

    /// A well-formed buffer has a valid, hence nonzero, capacity and holds at
    /// most `C` elements.
    pub proof fn lemma_within_capacity(&self)
        requires
            self.wf(),
        ensures
            valid_capacity(C),
            C > 0,
            self@.len() <= C,
    {
        lemma_capacity_pos(C);
    }

    /// Creates an empty buffer. The capacity must be a nonzero power of two.
    pub fn new() -> (r: Self)
        requires
            valid_capacity(C),
        ensures
            r.wf(),
            r@ == Seq::<T>::empty(),
    {
        let mut slots: Vec<Option<T>> = Vec::new();
        while slots.len() < C
            invariant
                slots@.len() <= C,
                forall|j: int| 0 <= j < slots@.len() ==> #[trigger] slots@[j] is None,
            decreases C - slots@.len(),
        {
            slots.push(None);
        }
        let r = RingBuffer { slots, read: 0, write: 0 };
        assert(r@ =~= Seq::<T>::empty());
        r
    }

    /// Slot of logical position `idx`.
    fn mask_idx(idx: usize) -> (r: usize)
        requires
            valid_capacity(C),
        ensures
            r == idx % C,
    {
        proof {
            lemma_capacity_pos(C);
            lemma_mask_is_mod(idx, C);
        }
        idx & (C - 1)
    }

    /// Returns the capacity.
    pub fn capacity(&self) -> (r: usize)
        ensures
            r == C,
    {
        C
    }

    /// Returns the number of live elements.
    pub fn size(&self) -> (r: usize)
        requires
            self.wf(),
        ensures
            r == self@.len(),
            r <= C,
    {
        self.write.wrapping_sub(self.read)
    }

    /// Returns whether the buffer holds no element.
    pub fn is_empty(&self) -> (r: bool)
        requires
            self.wf(),
        ensures
            r == (self@.len() == 0),
    {
        self.write == self.read
    }

    /// Returns whether the buffer holds `C` elements.
    pub fn is_full(&self) -> (r: bool)
        requires
            self.wf(),
        ensures
            r == (self@.len() == C),
    {
        self.size() == C
    }

    /// Takes the oldest element out, if any.
    fn inner_pop(&mut self) -> (r: Option<T>)
        requires
            old(self).wf(),
        ensures
            final(self).wf(),
            (r, final(self)@) == queue_pop(old(self)@),
    {
        match filled_slot::<C>(self.read, self.write) {
            None => {
                assert(self@ =~= old(self)@);
                None
            },
            Some(j) => {
                let value = self.slots[j].take();
                self.read = self.read.wrapping_add(1);
                proof {
                    self.lemma_after_pop(*old(self));
                }
                value
            },
        }
    }

    /// Puts `value` in unless the buffer is full, in which case `value` is
    /// handed back.
    fn inner_push(&mut self, value: T) -> (r: Option<T>)
        requires
            old(self).wf(),
        ensures
            final(self).wf(),
            (r, final(self)@) == queue_try_push(old(self)@, value, C as nat),
    {
        match claim_slot::<C>(self.write, self.read) {
            None => {
                assert(self@ =~= old(self)@);
                Some(value)
            },
            Some(j) => {
                self.slots.set(j, Some(value));
                self.write = self.write.wrapping_add(1);
                proof {
                    self.lemma_after_push(*old(self), value);
                }
                None
            },
        }
    }

    /// `self` is `prev` with `value` written at the write cursor's slot and
    /// that cursor advanced.
    proof fn lemma_after_push(&self, prev: Self, value: T)
        requires
            prev.wf(),
            distance(prev.read, prev.write) < C,
            self.read == prev.read,
            self.write == (if prev.write == usize::MAX { 0 } else { prev.write + 1 }),
            self.slots@ == prev.slots@.update((prev.write % C) as int, Some(value)),
        ensures
            self.wf(),
            self@ == prev@.push(value),
    {
        let c = C as int;
        let r0 = prev.front();
        let d = distance(prev.read, prev.write) as int;
        lemma_capacity_pos(C);
        lemma_distance_slot(prev.read, prev.write, C);
        let w = (prev.write % C) as int;
        assert(w == (r0 + d) % c);
        lemma_slot_after(r0, d, c);
        lemma_slot_offset(w, r0, c);
        assert(distance(self.read, self.write) == d + 1);
        assert forall|j: int| 0 <= j < c implies (#[trigger] self.slots@[j] is Some <==> (j
            - self.front()) % c < distance(self.read, self.write)) by {
            lemma_slot_offset(j, r0, c);
        }
        assert forall|i: int| 0 <= i < d implies #[trigger] ((r0 + i) % c) != w by {
            lemma_slot_after(r0, i, c);
        }
        assert(self@ =~= prev@.push(value));
    }

    /// Offers `value` to the buffer.
    ///
    /// When the buffer is full, hands `value` back and changes nothing.
    pub fn try_push(&mut self, value: T) -> (r: Option<T>)
        requires
            old(self).wf(),
        ensures
            final(self).wf(),
            (r, final(self)@) == queue_try_push(old(self)@, value, C as nat),
    {
        self.inner_push(value)
    }

    /// Adds `value`, first dropping the oldest element when the buffer is
    /// full. Never fails.
    pub fn push(&mut self, value: T)
        requires
            old(self).wf(),
        ensures
            final(self).wf(),
            final(self)@ == queue_push(old(self)@, value, C as nat),
    {
        proof {
            lemma_capacity_pos(C);
        }
        if self.is_full() {
            let _evicted = self.inner_pop();
        }
        let rejected = self.inner_push(value);
        assert(rejected is None);
    }

    /// Takes the oldest element out, if any.
    pub fn pop(&mut self) -> (r: Option<T>)
        requires
            old(self).wf(),
        ensures
            final(self).wf(),
            (r, final(self)@) == queue_pop(old(self)@),
    {
        self.inner_pop()
    }

    /// Drops every live element.
    pub fn clear(&mut self)
        requires
            old(self).wf(),
        ensures
            final(self).wf(),
            final(self)@ == Seq::<T>::empty(),
    {
        while !self.is_empty()
            invariant
                self.wf(),
            decreases self@.len(),
        {
            let _dropped = self.inner_pop();
        }
        assert(self@ =~= Seq::<T>::empty());
    }

    /// `self` is `prev` with the front slot emptied and the read cursor
    /// advanced.
    proof fn lemma_after_pop(&self, prev: Self)
        requires
            prev.wf(),
            distance(prev.read, prev.write) > 0,
            self.write == prev.write,
            self.read == (if prev.read == usize::MAX { 0 } else { prev.read + 1 }),
            self.slots@ == prev.slots@.update(prev.front(), None),
        ensures
            self.wf(),
            self@ == prev@.drop_first(),
            prev@[0] == prev.slots@[prev.front()]->Some_0,
            prev.slots@[prev.front()] is Some,
    {
        let c = C as int;
        let r0 = prev.front();
        let d = distance(prev.read, prev.write) as int;
        lemma_capacity_pos(C);
        lemma_distance_slot(prev.read, self.read, C);
        assert(distance(prev.read, self.read) == 1);
        let r1 = self.front();
        assert(r1 == (r0 + 1) % c);
        lemma_slot_after(r0, 1, c);
        lemma_slot_after(r0, 0, c);
        lemma_slot_offset(r0, r0, c);
        assert(distance(self.read, self.write) == d - 1);
        assert forall|j: int| 0 <= j < c implies (#[trigger] self.slots@[j] is Some <==> (j
            - self.front()) % c < distance(self.read, self.write)) by {
            lemma_slot_offset(j, r0, c);
            lemma_slot_offset(j, r1, c);
        }
        assert forall|i: int| 0 <= i < d - 1 implies #[trigger] ((r1 + i) % c) == (r0 + (i + 1)) % c
            && (r0 + (i + 1)) % c != r0 by {
            lemma_slot_after(r1, i, c);
            lemma_slot_after(r0, i + 1, c);
        }
        assert(self@ =~= prev@.drop_first());
    }
}

} // verus!
