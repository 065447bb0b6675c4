use vstd::prelude::*;

use crate::cyclic::{lemma_succ_mod, next_slot, prev_slot, ring_distance, ring_window, wrap_index};

verus! {

/// A ring buffer of capacity `N` that forms a "lossy" queue: once it holds `N` samples, adding
/// a new one silently drops the oldest. The samples live in a caller-supplied backing array.
///
/// `head` is the slot of the oldest sample and `tail` the slot the next sample is written to.
/// With plain head/tail indices such a ring holds at most `N - 1` samples; the `overwriting`
/// flag records that one more, the oldest, sits in the slot just behind `head` (which is then
/// `tail`), so that the buffer really holds `N` samples.
pub struct RingBuffer<T: Copy + Clone, const N: usize> {
    inner: [T; N],
    head: usize,
    tail: usize,
    overwriting: bool,
}

/// The last `n` items of `s`, or all of `s` when it is shorter.
pub open spec fn newest<T>(s: Seq<T>, n: int) -> Seq<T> {
    if s.len() <= n {
        s
    } else {
        s.subrange(s.len() - n, s.len() as int)
    }
}

/// Keeping the newest `n` items and then appending one keeps the same items as appending
/// first: so whatever was added, a buffer holds exactly the newest `n` samples ever added.
pub proof fn lemma_newest_push<T>(s: Seq<T>, x: T, n: int)
    requires
        n > 0,
    ensures
        newest(newest(s, n).push(x), n) == newest(s.push(x), n),
{
    assert(newest(newest(s, n).push(x), n) =~= newest(s.push(x), n));
}

/// The contents after adding `items`, one at a time in order, to contents `s` of a buffer of
/// capacity `n`, each step as [`RingBuffer::add`] states it.
pub open spec fn add_all<T>(s: Seq<T>, items: Seq<T>, n: int) -> Seq<T>
    decreases items.len(),
{
    if items.len() == 0 {
        s
    } else {
        newest(add_all(s, items.drop_last(), n).push(items.last()), n)
    }
}

/// Adding samples one at a time keeps exactly the newest `n` of all the samples: after
/// adding `items` to contents `s`, a buffer of capacity `n` holds the last `n` items of
/// `s + items` (all of them when there are fewer).
pub proof fn lemma_adds_keep_newest<T>(s: Seq<T>, items: Seq<T>, n: int)
    requires
        n > 0,
        s.len() <= n,
    ensures
        add_all(s, items, n) == newest(s + items, n),
    decreases items.len(),
{
    if items.len() == 0 {
        assert(s + items =~= s);
    } else {
        lemma_adds_keep_newest(s, items.drop_last(), n);
        lemma_newest_push(s + items.drop_last(), items.last(), n);
        assert((s + items.drop_last()).push(items.last()) =~= s + items);
    }
}

/// `steps` are successive contents, each the one before without its first item, which is
/// handed out in `outs`.
pub open spec fn front_steps<T>(steps: Seq<Seq<T>>, outs: Seq<T>) -> bool {
    &&& steps.len() == outs.len() + 1
    &&& forall|i: int| #![trigger outs[i]] 0 <= i < outs.len() ==> front_step(steps[i], outs[i], steps[i + 1])
}

/// `after` is `before` without its first item, which is `out`.
pub open spec fn front_step<T>(before: Seq<T>, out: T, after: Seq<T>) -> bool {
    before.len() > 0 && out == before[0] && after == before.drop_first()
}

/// `steps` are successive contents, each the one before without its last item, which is
/// handed out in `outs`.
pub open spec fn back_steps<T>(steps: Seq<Seq<T>>, outs: Seq<T>) -> bool {
    &&& steps.len() == outs.len() + 1
    &&& forall|i: int| #![trigger outs[i]] 0 <= i < outs.len() ==> back_step(steps[i], outs[i], steps[i + 1])
}

/// `after` is `before` without its last item, which is `out`.
pub open spec fn back_step<T>(before: Seq<T>, out: T, after: Seq<T>) -> bool {
    before.len() > 0 && out == before.last() && after == before.drop_last()
}

proof fn lemma_front_drain_prefix<T>(steps: Seq<Seq<T>>, outs: Seq<T>, k: int)
    requires
        front_steps(steps, outs),
        0 <= k <= outs.len(),
    ensures
        k <= steps[0].len(),
        steps[k] == steps[0].skip(k),
        outs.take(k) == steps[0].take(k),
    decreases k,
{
    if k == 0 {
        assert(steps[0].skip(0) =~= steps[0]);
        assert(outs.take(0) =~= steps[0].take(0));
    } else {
        lemma_front_drain_prefix(steps, outs, k - 1);
        assert(front_step(steps[k - 1], outs[k - 1], steps[k]));
        assert(steps[k] =~= steps[0].skip(k));
        assert(outs.take(k) =~= steps[0].take(k)) by {
            assert(outs.take(k - 1) == steps[0].take(k - 1));
            assert forall|j: int| 0 <= j < k implies outs.take(k)[j] == steps[0].take(k)[j] by {
                if j < k - 1 {
                    assert(outs.take(k - 1)[j] == steps[0].take(k - 1)[j]);
                }
            }
        }
    }
}

/// Taking the first item of a sequence again and again, as [`RingBuffer::pop`] and
/// [`RingBufferIterator::next`] each do once, hands the sequence out in order and leaves
/// the rest: iterating over a buffer yields what popping it yields, and either ends after
/// at most as many steps as there are samples.
pub proof fn lemma_front_drain<T>(steps: Seq<Seq<T>>, outs: Seq<T>)
    requires
        front_steps(steps, outs),
    ensures
        outs.len() <= steps[0].len(),
        outs == steps[0].take(outs.len() as int),
        steps.last() == steps[0].skip(outs.len() as int),
{
    lemma_front_drain_prefix(steps, outs, outs.len() as int);
    assert(outs.take(outs.len() as int) =~= outs);
}

proof fn lemma_back_drain_prefix<T>(steps: Seq<Seq<T>>, outs: Seq<T>, k: int)
    requires
        back_steps(steps, outs),
        0 <= k <= outs.len(),
    ensures
        k <= steps[0].len(),
        steps[k] == steps[0].take(steps[0].len() - k),
        forall|i: int| 0 <= i < k ==> #[trigger] outs[i] == steps[0][steps[0].len() - 1 - i],
    decreases k,
{
    if k == 0 {
        assert(steps[0].take(steps[0].len() as int) =~= steps[0]);
    } else {
        lemma_back_drain_prefix(steps, outs, k - 1);
        assert(back_step(steps[k - 1], outs[k - 1], steps[k]));
        assert(steps[k] =~= steps[0].take(steps[0].len() - k));
    }
}

/// Taking the last item of a sequence again and again, as [`RingBufferIterator::next_back`]
/// does once, hands the sequence out newest first and leaves the front.
pub proof fn lemma_back_drain<T>(steps: Seq<Seq<T>>, outs: Seq<T>)
    requires
        back_steps(steps, outs),
    ensures
        outs.len() <= steps[0].len(),
        forall|i: int| 0 <= i < outs.len() ==> #[trigger] outs[i] == steps[0][steps[0].len() - 1 - i],
        steps.last() == steps[0].take(steps[0].len() - outs.len()),
{
    lemma_back_drain_prefix(steps, outs, outs.len() as int);
}

impl<T: Copy + Clone, const N: usize> RingBuffer<T, N> {
    /// The internal invariant: indices stay inside the backing array, and while the buffer
    /// holds a sample behind `head`, that slot is the one `tail` points at.
    #[verifier::type_invariant]
    pub closed spec fn wf(&self) -> bool {
        &&& N == 0 ==> self.head == 0 && self.tail == 0 && !self.overwriting
        &&& N > 0 ==> self.head < N && self.tail < N
        &&& self.overwriting ==> next_slot(self.tail as int, N as int) == self.head
    }

    /// Slot of the oldest sample held.
    pub closed spec fn first_slot(&self) -> int {
        if self.overwriting {
            self.tail as int
        } else {
            self.head as int
        }
    }

    /// Number of samples held.
    pub closed spec fn count(&self) -> int {
        if self.overwriting {
            N as int
        } else {
            ring_distance(self.head as int, self.tail as int, N as int)
        }
    }

    /// The samples held, oldest first.
    pub closed spec fn view(&self) -> Seq<T> {
        ring_window(self.inner@, self.first_slot(), self.count())
    }

    /// Slot of `head` in the backing array.
    pub closed spec fn head_pos(&self) -> int {
        self.head as int
    }

    /// Slot of `tail` in the backing array.
    pub closed spec fn tail_pos(&self) -> int {
        self.tail as int
    }

    /// Whether the oldest sample sits in the slot behind `head`.
    pub closed spec fn is_overwriting(&self) -> bool {
        self.overwriting
    }

    /// Backing array, slot by slot.
    pub closed spec fn store(&self) -> Seq<T> {
        self.inner@
    }

    proof fn lemma_view_len(&self)
        requires
            self.wf(),
        ensures
            self@.len() == self.count(),
            0 <= self.count() <= N,
            !self.overwriting ==> self.count() < N || N == 0,
    {
    }

    /// A buffer never holds more samples than its capacity.
    pub proof fn lemma_len_at_most_capacity(&self)
        requires
            self.wf(),
        ensures
            self@.len() <= N,
    {
    }

    /// Creates an empty buffer over `backing_store`, whose length is the capacity.
    pub fn new(backing_store: [T; N]) -> (buf: Self)
        ensures
            buf@ == Seq::<T>::empty(),
            buf.store() == backing_store@,
            buf.head_pos() == 0,
            buf.tail_pos() == 0,
            !buf.is_overwriting(),
    {
        let buf = RingBuffer { inner: backing_store, head: 0, tail: 0, overwriting: false };
        assert(buf@ =~= Seq::<T>::empty());
        buf
    }

    /// Whether the buffer holds no samples: `head` and `tail` coincide and no sample sits
    /// behind `head`.
    pub fn is_empty(&self) -> (r: bool)
        ensures
            r == (self@.len() == 0),
            r == (self.head_pos() == self.tail_pos() && !self.is_overwriting()),
    {
        proof {
            use_type_invariant(self);
        }
        self.head == self.tail && !self.overwriting
    }

    /// Whether the next `add` drops a sample or fills the last free slot: true when the
    /// buffer holds at least `N - 1` samples.
    pub fn is_full(&self) -> (r: bool)
        requires
            N > 0,
        ensures
            r == (self@.len() + 1 >= N),
            r == (next_slot(self.tail_pos(), N as int) == self.head_pos()),
    {
        proof {
            use_type_invariant(self);
            lemma_succ_mod(self.tail as int, N as int);
        }
        (self.tail + 1) % N == self.head
    }

    /// The number of samples the buffer can hold; it never holds more.
    pub fn capacity(&self) -> (r: usize)
        ensures
            r == N,
            self@.len() <= r,
    {
        proof {
            use_type_invariant(self);
        }
        N
    }

    /// Adds `item` as the newest sample; when the buffer already holds `N` samples, the
    /// oldest one is dropped.
    pub fn add(&mut self, item: T)
        requires
            N > 0,
        ensures
            final(self)@ == (if old(self)@.len() < N {
                old(self)@.push(item)
            } else {
                old(self)@.drop_first().push(item)
            }),
            final(self)@ == newest(old(self)@.push(item), N as int),
            final(self).store() == old(self).store().update(old(self).tail_pos(), item),
            final(self).tail_pos() == next_slot(old(self).tail_pos(), N as int),
            final(self).head_pos() == (if old(self)@.len() + 1 >= N {
                next_slot(old(self).head_pos(), N as int)
            } else {
                old(self).head_pos()
            }),
            final(self).is_overwriting() == (old(self).is_overwriting() || old(self)@.len() + 1
                >= N),
    {
        proof {
            use_type_invariant(&*self);
            self.lemma_view_len();
        }
        let ghost old_view = self@;
        let ghost old_count = self.count();
        let ghost old_first = self.first_slot();
        self.inner[self.tail] = item;
        assert(self.inner@ == old(self).inner@.update(old(self).tail as int, item));
        let full = self.is_full();
        proof {
            lemma_succ_mod(self.head as int, N as int);
            lemma_succ_mod(self.tail as int, N as int);
        }
        if full {
            // Drop the oldest sample; the flag is lowered while the indices move.
            self.overwriting = false;
            self.head = (self.head + 1) % N;
            self.tail = (self.tail + 1) % N;
            self.overwriting = true;
        } else {
            self.tail = (self.tail + 1) % N;
        }
        proof {
            let n = N as int;
            let s = old(self).inner@;
            let t = old(self).tail as int;
            if old_count < n {
                assert(self.first_slot() == old_first);
                assert(self.count() == old_count + 1);
                assert(wrap_index(old_first + old_count, n) == t);
                assert(self@ =~= old_view.push(item));
            } else {
                assert(old(self).overwriting);
                assert(self.first_slot() == next_slot(t, n));
                assert(self.count() == n);
                assert(wrap_index(next_slot(t, n) + n - 1, n) == t);
                assert(self@ =~= old_view.drop_first().push(item));
            }
        }
    }

    /// Removes and returns the oldest sample, or `None` when the buffer is empty.
    pub fn pop(&mut self) -> (r: Option<T>)
        ensures
            old(self)@.len() == 0 ==> r is None && final(self)@ == old(self)@,
            old(self)@.len() > 0 ==> r == Some(old(self)@[0]),
            old(self)@.len() > 0 ==> final(self)@ == old(self)@.drop_first(),
            final(self).store() == old(self).store(),
            final(self).tail_pos() == old(self).tail_pos(),
            final(self).head_pos() == (if old(self)@.len() > 0 && !old(self).is_overwriting() {
                next_slot(old(self).head_pos(), N as int)
            } else {
                old(self).head_pos()
            }),
            !final(self).is_overwriting(),
    {
        proof {
            use_type_invariant(&*self);
            self.lemma_view_len();
        }
        if self.is_empty() {
            return None;
        }
        let ghost old_view = self@;
        let ghost n = N as int;
        if self.overwriting {
            // The oldest sample sits in the slot behind head.
            let compensated_index: usize = if self.head == 0 {
                N - 1
            } else {
                self.head - 1
            };
            assert(compensated_index == prev_slot(self.head as int, n));
            let val = self.inner[compensated_index];
            self.overwriting = false;
            proof {
                let t = self.tail as int;
                assert(compensated_index == t);
                assert(self.count() == n - 1);
                assert(self@ =~= old_view.drop_first());
            }
            Some(val)
        } else {
            let val = self.inner[self.head];
            proof {
                lemma_succ_mod(self.head as int, N as int);
            }
            self.head = (self.head + 1) % N;
            proof {
                assert(self.count() == old(self).count() - 1);
                assert(self@ =~= old_view.drop_first());
            }
            Some(val)
        }
    }
}

/// A double-ended cursor over the samples of a [`RingBuffer`], oldest first.
///
/// Going forward it starts with the sample held behind `head` when there is one, then walks
/// from `cursor` up to `tail`. Going backward it walks `tail` down towards `cursor` and then
/// hands out the sample held behind `head`. Either way each sample comes out once.
pub struct RingBufferIterator<'a, T: Copy + Clone, const N: usize> {
    inner: &'a [T; N],
    head: usize,
    tail: usize,
    cursor: usize,
    overwriting: bool,
}

impl<'a, T: Copy + Clone, const N: usize> RingBufferIterator<'a, T, N> {
    /// The internal invariant: indices stay inside the backing array, and the sample behind
    /// `head` is only pending while the cursor has not moved.
    #[verifier::type_invariant]
    pub closed spec fn wf(&self) -> bool {
        &&& N == 0 ==> self.head == 0 && self.tail == 0 && self.cursor == 0 && !self.overwriting
        &&& N > 0 ==> self.head < N && self.tail < N && self.cursor < N
        &&& self.overwriting ==> self.cursor == self.head
    }

    /// The samples that `next` still hands out, in order.
    pub closed spec fn view(&self) -> Seq<T> {
        let walk = ring_window(
            self.inner@,
            self.cursor as int,
            ring_distance(self.cursor as int, self.tail as int, N as int),
        );
        if self.overwriting {
            seq![self.inner@[prev_slot(self.head as int, N as int)]] + walk
        } else {
            walk
        }
    }

    /// Slot of `head` in the backing array.
    pub closed spec fn head_pos(&self) -> int {
        self.head as int
    }

    /// Slot of `tail` in the backing array.
    pub closed spec fn tail_pos(&self) -> int {
        self.tail as int
    }

    /// Slot of the cursor in the backing array.
    pub closed spec fn cursor_pos(&self) -> int {
        self.cursor as int
    }

    /// Number of samples from the cursor up to `tail`, not counting the one behind `head`.
    pub closed spec fn walk_len(&self) -> int {
        ring_distance(self.cursor as int, self.tail as int, N as int)
    }

    /// Whether the sample behind `head` is still to be handed out.
    pub closed spec fn holds_oldest(&self) -> bool {
        self.overwriting
    }

    /// Backing array, slot by slot.
    pub closed spec fn store(&self) -> Seq<T> {
        self.inner@
    }

    /// Whether `head` and `tail` coincide with no sample pending behind `head`, as
    /// [`RingBuffer::is_empty`] answers for the buffer the cursor was made from.
    pub fn is_empty(&self) -> (r: bool)
        ensures
            r == (self.head_pos() == self.tail_pos() && !self.holds_oldest()),
    {
        self.head == self.tail && !self.overwriting
    }

    /// Whether the slot after `tail` is `head`.
    pub fn is_full(&self) -> (r: bool)
        requires
            N > 0,
        ensures
            r == (next_slot(self.tail_pos(), N as int) == self.head_pos()),
    {
        proof {
            use_type_invariant(self);
            lemma_succ_mod(self.tail as int, N as int);
        }
        (self.tail + 1) % N == self.head
    }

    /// Length of the backing array.
    pub fn capacity(&self) -> (r: usize)
        ensures
            r == N,
    {
        N
    }

    /// Hands out the next sample, oldest first.
    pub fn next(&mut self) -> (r: Option<T>)
        ensures
            old(self)@.len() == 0 ==> r is None && final(self)@ == old(self)@,
            old(self)@.len() > 0 ==> r == Some(old(self)@[0]),
            old(self)@.len() > 0 ==> final(self)@ == old(self)@.drop_first(),
            !final(self).holds_oldest(),
            final(self).cursor_pos() == (if old(self).holds_oldest() || old(self)@.len() == 0 {
                old(self).cursor_pos()
            } else {
                next_slot(old(self).cursor_pos(), N as int)
            }),
            final(self).head_pos() == old(self).head_pos(),
            final(self).tail_pos() == old(self).tail_pos(),
            final(self).store() == old(self).store(),
    {
        proof {
            use_type_invariant(&*self);
        }
        if self.cursor == self.head && self.overwriting {
            // The oldest sample sits in the slot behind head.
            let compensated_index: usize = if self.head == 0 {
                N - 1
            } else {
                self.head - 1
            };
            let val = self.inner[compensated_index];
            self.overwriting = false;
            proof {
                assert(self@ =~= old(self)@.drop_first());
            }
            return Some(val);
        }
        if self.cursor != self.tail {
            let val = self.inner[self.cursor];
            proof {
                lemma_succ_mod(self.cursor as int, N as int);
            }
            self.cursor = (self.cursor + 1) % N;
            proof {
                assert(self@ =~= old(self)@.drop_first());
            }
            return Some(val);
        } else {
            return None;
        }
    }

    /// Hands out the newest sample not yet handed out, walking `tail` back towards the
    /// cursor and ending with the sample held behind `head` when that one is pending.
    #[verifier::rlimit(40)]
    pub fn next_back(&mut self) -> (r: Option<T>)
        ensures
            old(self)@.len() == 0 ==> r is None && final(self)@ == old(self)@,
            old(self)@.len() > 0 ==> r == Some(old(self)@.last()),
            old(self)@.len() > 0 ==> final(self)@ == old(self)@.drop_last(),
            final(self).tail_pos() == (if old(self).walk_len() > 0 {
                prev_slot(old(self).tail_pos(), N as int)
            } else {
                old(self).tail_pos()
            }),
            final(self).holds_oldest() == (old(self).holds_oldest() && old(self).walk_len() > 0),
            final(self).cursor_pos() == old(self).cursor_pos(),
            final(self).head_pos() == old(self).head_pos(),
            final(self).store() == old(self).store(),
    {
        proof {
            use_type_invariant(&*self);
        }
        if self.cursor != self.tail {
            self.tail = if self.tail == 0 {
                N - 1
            } else {
                self.tail - 1
            };
            let val = self.inner[self.tail];
            proof {
                assert(self@ =~= old(self)@.drop_last());
            }
            return Some(val);
        }
        if self.overwriting {
            // Only the oldest sample, in the slot behind head, is left.
            let compensated_index: usize = if self.head == 0 {
                N - 1
            } else {
                self.head - 1
            };
            let val = self.inner[compensated_index];
            self.overwriting = false;
            proof {
                assert(self@ =~= old(self)@.drop_last());
            }
            return Some(val);
        }
        None
    }

    /// The number of samples still to come.
    pub fn len(&self) -> (r: usize)
        ensures
            r == self@.len(),
    {
        proof {
            use_type_invariant(self);
        }
        ring_buffer_iter_len(self)
    }

    /// Lower and upper bound on the number of samples still to come, both exact.
    pub fn size_hint(&self) -> (r: (usize, Option<usize>))
        ensures
            r.0 == self@.len(),
            r.1 == Some(r.0),
    {
        proof {
            use_type_invariant(self);
        }
        let size = ring_buffer_iter_len(self);
        (size, Some(size))
    }
}

fn ring_buffer_iter_len<T: Copy + Clone, const N: usize>(buf: &RingBufferIterator<T, N>) -> (r:
    usize)
    requires
        buf.wf(),
    ensures
        r == buf@.len(),
{
    let walk = if buf.cursor <= buf.tail {
        buf.tail - buf.cursor
    } else {
        (N - buf.cursor) + buf.tail
    };
    if buf.overwriting {
        walk + 1
    } else {
        walk
    }
}

impl<T: Copy + Clone, const N: usize> RingBuffer<T, N> {
    /// A cursor over the samples held, oldest first.
    pub fn into_iter(&self) -> (it: RingBufferIterator<'_, T, N>)
        ensures
            it@ == self@,
            it.store() == self.store(),
            it.head_pos() == self.head_pos(),
            it.tail_pos() == self.tail_pos(),
            it.cursor_pos() == self.head_pos(),
            it.holds_oldest() == self.is_overwriting(),
    {
        proof {
            use_type_invariant(self);
        }
        let it = RingBufferIterator {
            inner: &self.inner,
            head: self.head,
            tail: self.tail,
            cursor: self.head,
            overwriting: self.overwriting,
        };
        proof {
            assert(it@ =~= self@);
        }
        it
    }
}

} // verus!
