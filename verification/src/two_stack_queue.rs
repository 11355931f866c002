//! A first-in-first-out queue made of two stacks, which also answers "what is the largest
//! element in it".

use crate::order::{larger, le, lemma_le_transitive, lemma_lt_asymmetric, total_order};
use crate::stack_with_constant_max::{lemma_seq_max_is_largest, seq_max, StackWithConstantMax};
use vstd::prelude::*;

verus! {

/// `largest` is an element of `s`, and no element of `s` is ordered after it.
pub open spec fn is_largest_of<T: Ord>(largest: T, s: Seq<T>) -> bool {
    &&& s.contains(largest)
    &&& forall|i: int| 0 <= i < s.len() ==> le(#[trigger] s[i], largest)
}

/// A queue of `T`. New elements go onto one stack; elements leave from the other, which is
/// refilled from the first, in reverse, whenever it runs empty.
pub struct TwoStackQueue<T> {
    for_push: StackWithConstantMax<T>,
    for_pop: StackWithConstantMax<T>,
}

impl<T> View for TwoStackQueue<T> {
    type V = Seq<T>;

    /// The elements, the one that leaves next first.
    closed spec fn view(&self) -> Seq<T> {
        self.for_pop@.reverse() + self.for_push@
    }
}

impl<T: Ord> TwoStackQueue<T> {
    /// Both stacks are well formed. Every queue that [`TwoStackQueue::new`] made and only the
    /// methods of this type changed is well formed.
    pub closed spec fn wf(&self) -> bool {
        self.for_push.wf() && self.for_pop.wf()
    }
}

impl<T: Ord> core::default::Default for TwoStackQueue<T> {
    /// An empty queue.
    fn default() -> (queue: Self)
        ensures
            queue.wf(),
            queue@ == Seq::<T>::empty(),
    {
        let queue = TwoStackQueue {
            for_push: core::default::Default::default(),
            for_pop: core::default::Default::default(),
        };
        assert(queue@ =~= Seq::<T>::empty());
        queue
    }
}

impl<T: Ord + Copy + core::default::Default> TwoStackQueue<T> {
    /// An empty queue.
    pub fn new() -> (queue: Self)
        ensures
            queue.wf(),
            queue@ == Seq::<T>::empty(),
    {
        let queue = Self {
            for_push: StackWithConstantMax::new(),
            for_pop: StackWithConstantMax::new(),
        };
        assert(queue@ =~= Seq::<T>::empty());
        queue
    }

    /// Appends `value` at the back.
    pub fn push(&mut self, value: T)
        requires
            total_order::<T>(),
            old(self).wf(),
        ensures
            final(self).wf(),
            final(self)@ == old(self)@.push(value),
    {
        let ghost before = self@;
        self.for_push.push(value);
        assert(self@ =~= before.push(value));
    }

    /// Takes the front element off and returns it; `None` on an empty queue.
    pub fn pop(&mut self) -> (value: Option<T>)
        requires
            total_order::<T>(),
            old(self).wf(),
        ensures
            final(self).wf(),
            old(self)@.len() == 0 ==> value is None && final(self)@ == old(self)@,
            old(self)@.len() > 0 ==> value == Some(old(self)@.first()) && final(self)@ == old(
                self,
            )@.drop_first(),
    {
        let ghost before = self@;
        if self.for_pop.is_empty() {
            assert(self.for_push@ =~= before);
            while !self.for_push.is_empty()
                invariant
                    total_order::<T>(),
                    self.wf(),
                    self.for_push@ + self.for_pop@.reverse() == before,
                decreases self.for_push@.len(),
            {
                let ghost pushed = self.for_push@;
                let ghost popped = self.for_pop@;
                let moved = self.for_push.pop();
                self.for_pop.push(moved.unwrap());
                assert(self.for_push@ + self.for_pop@.reverse() =~= pushed + popped.reverse());
            }
            assert(self.for_pop@.reverse() =~= before);
        }
        let ghost leaving = self.for_pop@;
        let value = self.for_pop.pop();
        proof {
            if leaving.len() > 0 {
                assert(self@ =~= before.drop_first());
                assert(before.first() == leaving.last());
            } else {
                assert(self@ =~= before);
            }
        }
        value
    }

    /// One of the largest elements in the queue; `None` on an empty queue.
    pub fn max(&self) -> (largest: Option<T>)
        requires
            total_order::<T>(),
            self.wf(),
        ensures
            self@.len() == 0 ==> largest is None,
            self@.len() > 0 ==> largest is Some && is_largest_of(largest->0, self@),
    {
        let push_max = self.for_push.max();
        let pop_max = self.for_pop.max();
        let ghost back = self.for_push@;
        let ghost front = self.for_pop@.reverse();
        proof {
            if back.len() > 0 {
                lemma_seq_max_is_largest(back);
                let i = choose|i: int| 0 <= i < back.len() && back[i] == seq_max(back);
                assert(self@[front.len() + i] == seq_max(back));
            }
            if front.len() > 0 {
                lemma_seq_max_is_largest(self.for_pop@);
                let whole = self.for_pop@;
                let i = choose|i: int| 0 <= i < whole.len() && whole[i] == seq_max(whole);
                assert(self@[whole.len() - 1 - i] == seq_max(whole));
            }
        }
        match (push_max, pop_max) {
            (Some(push_value), Some(pop_value)) => {
                let largest = larger(push_value, pop_value);
                proof {
                    assert forall|i: int| 0 <= i < self@.len() implies le(
                        #[trigger] self@[i],
                        largest,
                    ) by {
                        if i < front.len() {
                            assert(self@[i] == self.for_pop@[front.len() - 1 - i]);
                            if largest != pop_value {
                                lemma_lt_asymmetric(pop_value, push_value);
                                lemma_le_transitive(self@[i], pop_value, largest);
                            }
                        } else {
                            assert(self@[i] == back[i - front.len()]);
                            if largest != push_value {
                                lemma_le_transitive(self@[i], push_value, largest);
                            }
                        }
                    }
                }
                Some(largest)
            },
            (Some(push_value), None) => {
                assert(self@ =~= back);
                Some(push_value)
            },
            (None, Some(pop_value)) => {
                proof {
                    assert(self@ =~= front);
                    assert forall|i: int| 0 <= i < self@.len() implies le(
                        #[trigger] self@[i],
                        pop_value,
                    ) by {
                        assert(self@[i] == self.for_pop@[front.len() - 1 - i]);
                    }
                }
                Some(pop_value)
            },
            (None, None) => None,
        }
    }
}

} // verus!
