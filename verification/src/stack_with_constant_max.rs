//! A stack that answers "what is the largest element on it" in constant time.

use crate::order::{
    larger, le, lemma_le_transitive, lemma_lt_asymmetric, lemma_lt_irreflexive, lt, max_of,
    total_order,
};
use vstd::prelude::*;

verus! {

/// The largest element of a non-empty `s`; among several tied largest ones, the last.
pub open spec fn seq_max<T: Ord>(s: Seq<T>) -> T
    recommends
        s.len() > 0,
    decreases s.len(),
{
    if s.len() <= 1 {
        s[0]
    } else {
        max_of(seq_max(s.drop_last()), s.last())
    }
}

/// `seq_max` is an element of the sequence, and none is ordered after it.
pub proof fn lemma_seq_max_is_largest<T: Ord>(s: Seq<T>)
    requires
        total_order::<T>(),
        s.len() > 0,
    ensures
        s.contains(seq_max(s)),
        forall|i: int| 0 <= i < s.len() ==> le(#[trigger] s[i], seq_max(s)),
    decreases s.len(),
{
    if s.len() <= 1 {
        lemma_lt_irreflexive(s[0]);
        assert(s[0] == seq_max(s));
    } else {
        let front = s.drop_last();
        lemma_seq_max_is_largest(front);
        let before = seq_max(front);
        let i0 = choose|i: int| 0 <= i < front.len() && front[i] == before;
        assert(s[i0] == before);
        assert(s[s.len() - 1] == s.last());
        assert forall|i: int| 0 <= i < s.len() implies le(#[trigger] s[i], seq_max(s)) by {
            if i < front.len() {
                assert(s[i] == front[i]);
                assert(le(front[i], before));
                if !lt(s.last(), before) {
                    lemma_le_transitive(s[i], before, s.last());
                }
            } else if lt(s.last(), before) {
                lemma_lt_asymmetric(s.last(), before);
            } else {
                lemma_lt_irreflexive(s.last());
            }
        }
    }
}

/// A stack of `T` that keeps, beside each element, the largest of the elements up to it.
pub struct StackWithConstantMax<T> {
    stack_with_max: Vec<(T, T)>,
}

impl<T> View for StackWithConstantMax<T> {
    type V = Seq<T>;

    /// The elements, the oldest first.
    closed spec fn view(&self) -> Seq<T> {
        self.stack_with_max@.map_values(|entry: (T, T)| entry.0)
    }
}

impl<T: Ord> StackWithConstantMax<T> {
    /// Beside each element stands the largest of the elements up to it. Every stack that
    /// [`StackWithConstantMax::new`] made and only the methods of this type changed is
    /// well formed.
    pub closed spec fn wf(&self) -> bool {
        forall|i: int|
            0 <= i < self.stack_with_max@.len() ==> (#[trigger] self.stack_with_max@[i]).1
                == seq_max(self@.take(i + 1))
    }
}

impl<T: Ord> core::default::Default for StackWithConstantMax<T> {
    /// An empty stack.
    fn default() -> (stack: Self)
        ensures
            stack.wf(),
            stack@ == Seq::<T>::empty(),
    {
        let stack = StackWithConstantMax { stack_with_max: Vec::new() };
        assert(stack@ =~= Seq::<T>::empty());
        stack
    }
}

impl<T: Ord + Copy + core::default::Default> StackWithConstantMax<T> {
    /// An empty stack.
    pub fn new() -> (stack: Self)
        ensures
            stack.wf(),
            stack@ == Seq::<T>::empty(),
    {
        let stack = StackWithConstantMax { stack_with_max: Vec::new() };
        assert(stack@ =~= Seq::<T>::empty());
        stack
    }

    /// Puts `value` on top.
    pub fn push(&mut self, value: T)
        requires
            total_order::<T>(),
            old(self).wf(),
        ensures
            final(self).wf(),
            final(self)@ == old(self)@.push(value),
    {
        let ghost before = self@;
        let ghost entries = self.stack_with_max@;
        let len = self.stack_with_max.len();
        let new_max = if len > 0 {
            larger(self.stack_with_max[len - 1].1, value)
        } else {
            value
        };
        self.stack_with_max.push((value, new_max));
        proof {
            assert(self@ =~= before.push(value));
            assert forall|i: int| 0 <= i < self.stack_with_max@.len() implies (
            #[trigger] self.stack_with_max@[i]).1 == seq_max(self@.take(i + 1)) by {
                if i < len {
                    assert(self@.take(i + 1) =~= before.take(i + 1));
                    assert(self.stack_with_max@[i] == entries[i]);
                } else {
                    assert(self@.take(i + 1) =~= before.push(value));
                    assert(before.push(value).drop_last() =~= before);
                    if len > 0 {
                        assert(before.take(len as int) =~= before);
                        assert(entries[len - 1].1 == seq_max(before));
                    }
                }
            }
        }
    }

    /// Takes the top element off and returns it; `None` on an empty stack.
    pub fn pop(&mut self) -> (value: Option<T>)
        requires
            old(self).wf(),
        ensures
            final(self).wf(),
            old(self)@.len() == 0 ==> value is None && final(self)@ == old(self)@,
            old(self)@.len() > 0 ==> value == Some(old(self)@.last()) && final(self)@ == old(
                self,
            )@.drop_last(),
    {
        let ghost before = self@;
        let ghost entries = self.stack_with_max@;
        let popped = self.stack_with_max.pop();
        proof {
            if entries.len() > 0 {
                assert(self@ =~= before.drop_last());
                assert forall|i: int| 0 <= i < self.stack_with_max@.len() implies (
                #[trigger] self.stack_with_max@[i]).1 == seq_max(self@.take(i + 1)) by {
                    assert(self@.take(i + 1) =~= before.take(i + 1));
                    assert(self.stack_with_max@[i] == entries[i]);
                }
            }
        }
        match popped {
            Some(entry) => Some(entry.0),
            None => None,
        }
    }

    /// The largest element on the stack, the latest one among several tied; `None` on an
    /// empty stack.
    pub fn max(&self) -> (largest: Option<T>)
        requires
            self.wf(),
        ensures
            self@.len() == 0 ==> largest is None,
            self@.len() > 0 ==> largest == Some(seq_max(self@)),
    {
        let len = self.stack_with_max.len();
        if len > 0 {
            proof {
                assert(self@.take(len as int) =~= self@);
            }
            Some(self.stack_with_max[len - 1].1)
        } else {
            None
        }
    }

    /// Whether the stack holds no element.
    pub fn is_empty(&self) -> (empty: bool)
        ensures
            empty == (self@.len() == 0),
    {
        self.stack_with_max.is_empty()
    }
}

} // verus!
