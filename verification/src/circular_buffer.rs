//! A ring of a fixed number of slots, in which every new value takes the place of the oldest one.

use vstd::prelude::*;

verus! {

/// What a buffer of `capacity` slots holds once the values of `items` have been pushed, one by one,
/// to one that held `window`: the newest values, as many as there is room for.
pub open spec fn after_pushes<T>(window: Seq<T>, items: Seq<T>, capacity: nat) -> Seq<T> {
    let all = window + items;
    if all.len() <= capacity {
        all
    } else {
        all.skip(all.len() - capacity)
    }
}

/// `window`, oldest value first, in the order of the slots: the `wrapped` newest values were
/// written over the slots at the front.
pub open spec fn slot_order<T>(window: Seq<T>, wrapped: int) -> Seq<T> {
    window.skip(window.len() - wrapped) + window.take(window.len() - wrapped)
}

/// A buffer of fixed capacity. It starts out empty; once it is full, each value that is pushed
/// overwrites the oldest one.
#[derive(Debug)]
pub struct CircularBuffer<T> {
    /// Slot of the first valid value
    start: usize,
    /// How many values were ever pushed; the next one goes to slot `end_exclusive % capacity`
    end_exclusive: usize,
    /// Backing buffer. Slots that nothing was pushed to hold default values, which are not valid
    delegate: Vec<T>,
}

impl<T> View for CircularBuffer<T> {
    type V = Seq<T>;

    /// The valid values, oldest first: those that were pushed last, as many as there is room for.
    closed spec fn view(&self) -> Seq<T> {
        if self.end_exclusive < self.delegate@.len() {
            self.delegate@.take(self.end_exclusive as int)
        } else {
            self.delegate@.skip(self.start as int) + self.delegate@.take(self.start as int)
        }
    }
}

impl<T> CircularBuffer<T> {
    /// What every buffer keeps: the oldest value stands in the first slot until the buffer is full,
    /// and from then on where the next value will be written.
    pub closed spec fn wf(&self) -> bool {
        &&& self.delegate@.len() == 0 ==> self.end_exclusive == 0
        &&& self.end_exclusive < self.delegate@.len() || self.delegate@.len() == 0 ==> self.start
            == 0
        &&& self.end_exclusive >= self.delegate@.len() && self.delegate@.len() > 0 ==> self.start
            == self.end_exclusive as int % self.delegate@.len() as int
    }

    /// How many values were ever pushed.
    pub closed spec fn pushed(&self) -> nat {
        self.end_exclusive as nat
    }

    /// How many slots there are for values.
    pub closed spec fn room(&self) -> nat {
        self.delegate@.len()
    }

    /// How many values are valid: as many as were pushed, as far as there is room for them.
    pub open spec fn held(&self) -> nat {
        if self.pushed() < self.room() {
            self.pushed()
        } else {
            self.room()
        }
    }

    /// How many of the newest values stand in the slots in front of the oldest one: none until
    /// the buffer is full.
    pub open spec fn wrapped(&self) -> int {
        if self.pushed() < self.room() || self.room() == 0 {
            0
        } else {
            self.pushed() as int % self.room() as int
        }
    }

    /// The valid values in the order of their slots.
    pub open spec fn slots(&self) -> Seq<T> {
        slot_order(self@, self.wrapped())
    }

    /// Creates an empty buffer with room for `capacity` values.
    pub fn new(capacity: usize) -> (buffer: Self) where T: Default
        ensures
            buffer.wf(),
            buffer.room() == capacity,
            buffer.pushed() == 0,
            buffer@ == Seq::<T>::empty(),
    {
        let mut delegate: Vec<T> = Vec::with_capacity(capacity);
        while delegate.len() < capacity
            invariant
                delegate@.len() <= capacity,
            decreases capacity - delegate@.len(),
        {
            delegate.push(T::default());
        }
        let buffer = CircularBuffer { start: 0, end_exclusive: 0, delegate };
        assert(buffer@ =~= Seq::empty());
        buffer
    }

    /// The capacity of the backing buffer: how many values there is room for. Values that have no
    /// size take no room at all, and as many of them as can be counted would fit.
    pub fn capacity(&self) -> (count: usize)
        ensures
            vstd::layout::size_of::<T>() > 0 ==> count == self.room(),
            vstd::layout::size_of::<T>() == 0 ==> count == usize::MAX,
    {
        if core::mem::size_of::<T>() == 0 {
            usize::MAX
        } else {
            self.delegate.len()
        }
    }

    /// Appends `new`. Where there is no room left, it is written over the oldest value.
    pub fn push(&mut self, new: T)
        requires
            old(self).wf(),
            old(self).room() > 0,
            old(self).pushed() < usize::MAX,
        ensures
            final(self).wf(),
            final(self).room() == old(self).room(),
            final(self).pushed() == old(self).pushed() + 1,
            final(self)@ == (if old(self).pushed() < old(self).room() {
                old(self)@.push(new)
            } else {
                old(self)@.drop_first().push(new)
            }),
    {
        let ghost before = self@;
        let ghost storage = self.delegate@;
        let ghost oldest = self.end_exclusive as int % self.delegate@.len() as int;
        let next_idx: usize = self.end_exclusive % self.delegate.len();
        if self.end_exclusive >= self.delegate.len() {
            self.start = (self.start + 1) % self.delegate.len();
        }
        self.delegate[next_idx] = new;
        self.end_exclusive += 1;
        proof {
            let n = storage.len() as int;
            lemma_next_remainder(oldest, self.end_exclusive - 1, n);
            let moved = self.delegate@;
            if self.end_exclusive - 1 < n {
                vstd::arithmetic::div_mod::lemma_small_mod(
                    (self.end_exclusive - 1) as nat,
                    n as nat,
                );
                if self.end_exclusive == n {
                    vstd::arithmetic::div_mod::lemma_mod_self_0(n);
                    assert(moved.skip(0) + moved.take(0) =~= before.push(new));
                } else {
                    assert(self@ =~= before.push(new));
                }
            } else if self.start == 0 {
                assert(moved.skip(0) + moved.take(0) =~= before.drop_first().push(new));
            } else {
                assert(moved.skip(oldest + 1) + moved.take(oldest + 1)
                    =~= before.drop_first().push(new));
            }
        }
    }

    /// The valid values as they stand in the slots.
    pub fn storage(&self) -> (slots: &[T])
        requires
            self.wf(),
        ensures
            slots@ == self.slots(),
    {
        proof {
            self.lemma_slots();
        }
        if self.end_exclusive < self.delegate.len() {
            &self.delegate[0..self.end_exclusive]
        } else {
            self.delegate.as_slice()
        }
    }

    /// The valid values in the order of their slots, in two runs: the `wrapped` newest values,
    /// then the older ones. Where the newest values do not stand in front of the oldest one, all
    /// are in the first run.
    pub fn segments(&self) -> (runs: [&[T]; 2])
        requires
            self.wf(),
            self.room() > 0,
        ensures
            self.wrapped() == 0 ==> runs[0]@ == self@ && runs[1]@ == Seq::<T>::empty(),
            self.wrapped() != 0 ==> {
                &&& runs[0]@ == self@.skip(self@.len() - self.wrapped())
                &&& runs[1]@ == self@.take(self@.len() - self.wrapped())
            },
            runs[0]@ + runs[1]@ == self.slots(),
            runs[1]@.len() > 0 ==> runs[0]@.len() == self.pushed() as int % self.room() as int,
            runs[1]@.len() == 0 ==> self.pushed() <= self.room() || self.pushed() as int
                % self.room() as int == 0,
    {
        proof {
            self.lemma_slots();
        }
        proof {
            assert(self@.skip(self@.len() as int) + self@.take(self@.len() as int) =~= self@);
            assert(self@ + Seq::<T>::empty() =~= self@);
        }
        let wrapped_end: usize = self.end_exclusive % self.delegate.len();
        if self.end_exclusive < self.delegate.len() {
            [&self.delegate[self.start..self.end_exclusive], &[]]
        } else if self.start == 0 && wrapped_end == 0 {
            [self.delegate.as_slice(), &[]]
        } else {
            [&self.delegate[0..wrapped_end], &self.delegate[self.start..self.delegate.len()]]
        }
    }

    /// Visits the valid values in the order of their slots.
    pub fn iter(&self) -> (iter: SegmentsIter<'_, T>)
        requires
            self.wf(),
            self.room() > 0,
        ensures
            iter@ == self.slots(),
    {
        let runs = self.segments();
        proof {
            self.lemma_slots();
            assert(self@.skip(self@.len() as int) + self@ =~= self@);
            assert(self@ + Seq::<T>::empty() =~= self@);
            assert(self@.take(self@.len() as int) =~= self@);
            assert(self.delegate.len() == self.room());
        }
        SegmentsIter { first: runs[0], second: runs[1] }
    }

    /// Pushes a clone of each value of `buf`.
    pub fn extend_from(&mut self, buf: &[T]) where T: Clone
        requires
            old(self).wf(),
            old(self).room() > 0,
            old(self).pushed() + buf@.len() <= usize::MAX,
        ensures
            final(self).wf(),
            final(self).room() == old(self).room(),
            final(self).pushed() == old(self).pushed() + buf@.len(),
            exists|items: Seq<T>|
                {
                    &&& items.len() == buf@.len()
                    &&& forall|i: int| 0 <= i < buf@.len() ==> cloned(buf@[i], #[trigger] items[i])
                    &&& final(self)@ == #[trigger] after_pushes(
                        old(self)@,
                        items,
                        old(self).room(),
                    )
                },
    {
        let ghost before = self@;
        let ghost room = self.room();
        let ghost mut items: Seq<T> = Seq::empty();
        let mut idx: usize = 0;
        proof {
            self.lemma_slots();
            assert(after_pushes(before, items, room) =~= before);
        }
        while idx < buf.len()
            invariant
                0 <= idx <= buf@.len(),
                self.wf(),
                self@.len() == self.held(),
                before == old(self)@,
                room == old(self).room(),
                room > 0,
                self.room() == room,
                before.len() <= room,
                old(self).pushed() + buf@.len() <= usize::MAX,
                self.pushed() == old(self).pushed() + idx,
                items.len() == idx,
                forall|i: int| 0 <= i < idx ==> cloned(buf@[i], #[trigger] items[i]),
                self@ == after_pushes(before, items, room),
            decreases buf@.len() - idx,
        {
            let item = buf[idx].clone();
            let ghost copy = item;
            self.push(item);
            proof {
                self.lemma_slots();
                let held = after_pushes(before, items, room);
                let more = after_pushes(before, items.push(copy), room);
                if held.len() < room {
                    assert(held.push(copy) =~= more);
                } else {
                    assert(held.drop_first().push(copy) =~= more);
                }
                items = items.push(copy);
            }
            idx += 1;
        }
    }

    /// Only values that were pushed are valid: all of them until there is no room left, and then as
    /// many as there is room for. In the order of their slots they are the same values.
    pub proof fn law_only_pushed_values_are_valid(&self)
        requires
            self.wf(),
        ensures
            self@.len() == self.held(),
            self.slots().len() == self.held(),
            self.slots().to_multiset() == self@.to_multiset(),
    {
        self.lemma_slots();
        law_slots_rotate(self@, self.wrapped());
    }

    /// Value number `number` of all that were ever pushed stands in slot `number % room`, as long as
    /// it is among the last ones that there is room for.
    pub proof fn law_value_stands_in_its_slot(&self, number: int)
        requires
            self.wf(),
            0 <= number < self.pushed(),
            number >= self.pushed() - self.room(),
        ensures
            0 <= number % (self.room() as int) < self.slots().len(),
            self.slots()[number % self.room() as int] == self@[number - (self.pushed()
                - self.held())],
    {
        self.lemma_slots();
        let n = self.room() as int;
        let pushed = self.pushed() as int;
        if pushed < n {
            vstd::arithmetic::div_mod::lemma_small_mod(number as nat, n as nat);
        } else {
            let start = pushed % n;
            let turn = pushed / n;
            vstd::arithmetic::div_mod::lemma_fundamental_div_mod(pushed, n);
            vstd::arithmetic::div_mod::lemma_mod_bound(pushed, n);
            assert(n * (turn - 1) == n * turn - n) by (nonlinear_arith);
            if number >= n * turn {
                vstd::arithmetic::div_mod::lemma_fundamental_div_mod_converse(
                    number,
                    n,
                    turn,
                    number - n * turn,
                );
            } else {
                vstd::arithmetic::div_mod::lemma_fundamental_div_mod_converse(
                    number,
                    n,
                    turn - 1,
                    number - n * (turn - 1),
                );
            }
        }
    }

    proof fn lemma_slots(&self)
        requires
            self.wf(),
        ensures
            self@.len() == self.held(),
            self.slots() == self.delegate@.take(self.held() as int),
            0 <= self.wrapped() <= self@.len(),
            self.start == self.wrapped(),
            self.start == 0 ==> self@ == self.delegate@.take(self.held() as int),
            self.held() == self.room() ==> self.delegate@.take(self.held() as int)
                == self.delegate@,
            self.held() == self.room() ==> {
                &&& self@.skip(self@.len() - self.start) == self.delegate@.take(self.start as int)
                &&& self@.take(self@.len() - self.start) == self.delegate@.skip(self.start as int)
            },
    {
        if self.delegate@.len() > 0 {
            vstd::arithmetic::div_mod::lemma_mod_bound(
                self.end_exclusive as int,
                self.delegate@.len() as int,
            );
        }
        if self.held() == self.room() {
            assert(self.delegate@.take(self.held() as int) =~= self.delegate@);
            assert(self@.skip(self@.len() - self.start) =~= self.delegate@.take(
                self.start as int,
            ));
            assert(self@.take(self@.len() - self.start) =~= self.delegate@.skip(
                self.start as int,
            ));
        }
        assert(self.slots() =~= self.delegate@.take(self.held() as int));
        if self.start == 0 {
            assert(self@ =~= self.delegate@.take(self.held() as int));
        }
    }
}

impl<T: Clone> Clone for CircularBuffer<T> {
    fn clone(&self) -> (copy: Self)
        ensures
            self.wf() ==> copy.wf(),
            copy.pushed() == self.pushed(),
            copy.room() == self.room(),
            self.wf() ==> copy@.len() == self@.len(),
            self.wf() ==> forall|i: int|
                0 <= i < self@.len() ==> cloned(self@[i], #[trigger] copy@[i]),
    {
        CircularBuffer {
            start: self.start,
            end_exclusive: self.end_exclusive,
            delegate: self.delegate.clone(),
        }
    }
}

/// The values of a [`CircularBuffer`] that are still to be visited, in two runs.
pub struct SegmentsIter<'b, T> {
    first: &'b [T],
    second: &'b [T],
}

impl<'b, T> View for SegmentsIter<'b, T> {
    type V = Seq<T>;

    /// The values still to be visited, in order.
    closed spec fn view(&self) -> Seq<T> {
        self.first@ + self.second@
    }
}

impl<'b, T> SegmentsIter<'b, T> {
    #[verifier::type_invariant]
    spec fn fits(self) -> bool {
        self.first@.len() + self.second@.len() <= usize::MAX
    }

    /// Takes the next value, if there is one left.
    pub fn next(&mut self) -> (item: Option<&'b T>)
        ensures
            old(self)@.len() == 0 ==> item is None && final(self)@ == old(self)@,
            old(self)@.len() > 0 ==> {
                &&& item == Some(&old(self)@[0])
                &&& final(self)@ == old(self)@.drop_first()
            },
    {
        proof {
            use_type_invariant(&*self);
        }
        let first: &'b [T] = self.first;
        let second: &'b [T] = self.second;
        if first.len() > 0 {
            self.first = &first[1..first.len()];
            assert(self@ =~= old(self)@.drop_first());
            Some(&first[0])
        } else if second.len() > 0 {
            self.second = &second[1..second.len()];
            assert(self@ =~= old(self)@.drop_first());
            Some(&second[0])
        } else {
            None
        }
    }

    /// How many values are left.
    pub fn len(&self) -> (count: usize)
        ensures
            count == self@.len(),
    {
        proof {
            use_type_invariant(self);
        }
        self.first.len() + self.second.len()
    }

    /// Keeps the last `count` values, or all where there are no more than that.
    pub fn last(self, count: usize) -> (kept: Self)
        ensures
            count >= self@.len() ==> kept@ == self@,
            count < self@.len() ==> kept@ == self@.skip(self@.len() - count),
    {
        proof {
            use_type_invariant(&self);
        }
        let first: &'b [T] = self.first;
        let second: &'b [T] = self.second;
        if count > second.len() {
            let keep_from_first: usize = count - second.len();
            if keep_from_first >= first.len() {
                return SegmentsIter { first, second };
            }
            let kept_first: &'b [T] = &first[first.len() - keep_from_first..first.len()];
            let kept = SegmentsIter { first: kept_first, second };
            assert(kept@ =~= self@.skip(self@.len() - count));
            kept
        } else {
            let kept_second: &'b [T] = &second[second.len() - count..second.len()];
            let kept = SegmentsIter { first: &[], second: kept_second };
            assert(kept@ =~= self@.skip(self@.len() - count));
            kept
        }
    }
}

/// The slot after the one that `count` values lead to.
proof fn lemma_next_remainder(slot: int, count: int, n: int)
    requires
        n > 0,
        count >= 0,
        slot == count % n,
    ensures
        0 <= slot < n,
        (slot + 1) % n == (count + 1) % n,
        slot + 1 < n ==> (slot + 1) % n == slot + 1,
        slot + 1 == n ==> (slot + 1) % n == 0,
{
    vstd::arithmetic::div_mod::lemma_mod_bound(count, n);
    vstd::arithmetic::div_mod::lemma_add_mod_noop(count, 1, n);
    vstd::arithmetic::div_mod::lemma_add_mod_noop(slot, 1, n);
    vstd::arithmetic::div_mod::lemma_small_mod(slot as nat, n as nat);
    if slot + 1 < n {
        vstd::arithmetic::div_mod::lemma_small_mod((slot + 1) as nat, n as nat);
    } else {
        vstd::arithmetic::div_mod::lemma_mod_self_0(n);
    }
}

/// Pushing some values and then some more is pushing all of them; pushing none changes nothing;
/// pushing one value appends it, and drops the oldest one where there is no room left. There are
/// never more values than there is room for.
pub proof fn law_pushes_compose<T>(
    window: Seq<T>,
    first: Seq<T>,
    second: Seq<T>,
    new: T,
    capacity: nat,
)
    requires
        window.len() <= capacity,
    ensures
        after_pushes(after_pushes(window, first, capacity), second, capacity) == after_pushes(
            window,
            first + second,
            capacity,
        ),
        after_pushes(window, Seq::empty(), capacity) == window,
        window.len() < capacity ==> after_pushes(window, seq![new], capacity) == window.push(new),
        0 < window.len() == capacity ==> after_pushes(window, seq![new], capacity)
            == window.drop_first().push(new),
        after_pushes(window, first, capacity).len() <= capacity,
{
    assert(after_pushes(after_pushes(window, first, capacity), second, capacity) =~= after_pushes(
        window,
        first + second,
        capacity,
    ));
    assert(after_pushes(window, Seq::empty(), capacity) =~= window);
    if window.len() < capacity {
        assert(after_pushes(window, seq![new], capacity) =~= window.push(new));
    } else if capacity > 0 {
        assert(after_pushes(window, seq![new], capacity) =~= window.drop_first().push(new));
    }
}

/// The values are those that were pushed last: all of them while there is room, and nothing older
/// than the last `capacity` ones once there is none left.
pub proof fn law_newest_values_are_held<T>(window: Seq<T>, items: Seq<T>, capacity: nat)
    ensures
        items.len() <= capacity ==> after_pushes(Seq::empty(), items, capacity) == items,
        items.len() >= capacity ==> after_pushes(window, items, capacity) == items.skip(
            items.len() - capacity,
        ),
{
    assert(Seq::<T>::empty() + items =~= items);
    if items.len() >= capacity {
        assert(after_pushes(window, items, capacity) =~= items.skip(items.len() - capacity));
    }
}

/// The slots hold the values of the window, the newest `wrapped` in front. Where the newest value
/// stands in the last slot, the slots are in the order of the pushes.
pub proof fn law_slots_rotate<T>(window: Seq<T>, wrapped: int)
    requires
        0 <= wrapped <= window.len(),
    ensures
        slot_order(window, wrapped).skip(wrapped) + slot_order(window, wrapped).take(wrapped)
            == window,
        slot_order(window, 0) == window,
        slot_order(window, wrapped).to_multiset() == window.to_multiset(),
{
    let slots = slot_order(window, wrapped);
    let cut = window.len() - wrapped;
    assert(slots.skip(wrapped) + slots.take(wrapped) =~= window);
    assert(slot_order(window, 0) =~= window);
    vstd::seq_lib::lemma_multiset_commutative(window.take(cut), window.skip(cut));
    vstd::seq_lib::lemma_multiset_commutative(window.skip(cut), window.take(cut));
    assert(window.take(cut) + window.skip(cut) =~= window);
    assert(slots.to_multiset() =~= window.to_multiset());
}

} // verus!
