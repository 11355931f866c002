//! The longest run of neighbouring elements whose sum stays at or below a limit.

use vstd::prelude::*;

verus! {

/// The numbers to add up.
pub type Input<'a, T> = &'a [T];

/// The positions `left..right` of a sequence.
#[derive(Debug, PartialEq, Eq, Structural)]
pub struct Output {
    pub left: usize,
    pub right: usize,
}

impl core::default::Default for Output {
    /// The empty run at the front.
    fn default() -> (output: Self)
        ensures
            output == (Output { left: 0, right: 0 }),
    {
        Output { left: 0, right: 0 }
    }
}

/// The sum of the elements of `s`.
pub open spec fn sum(s: Seq<u64>) -> int
    decreases s.len(),
{
    if s.len() == 0 {
        0
    } else {
        sum(s.drop_last()) + s.last()
    }
}

/// The sum of the elements at the positions `left..right` of `s`.
pub open spec fn window_sum(s: Seq<u64>, left: int, right: int) -> int {
    sum(s.subrange(left, right))
}

/// `left..right` is a non-empty run of `s` whose sum is at most `target`.
pub open spec fn fits(s: Seq<u64>, target: u64, left: int, right: int) -> bool {
    0 <= left < right <= s.len() && window_sum(s, left, right) <= target
}

/// `found` is the first of the longest runs of `s` whose sum is at most `target`, or `None`
/// when not even a single element is.
pub open spec fn is_longest_fitting(s: Seq<u64>, target: u64, found: Option<Output>) -> bool {
    match found {
        Some(run) => {
            &&& fits(s, target, run.left as int, run.right as int)
            &&& forall|l: int, r: int| #[trigger]
                fits(s, target, l, r) ==> r - l <= run.right - run.left
            &&& forall|l: int, r: int| #[trigger]
                fits(s, target, l, r) && l < run.left ==> r - l < run.right - run.left
        },
        None => forall|l: int, r: int| !#[trigger] fits(s, target, l, r),
    }
}

/// A run grows by its next element.
proof fn lemma_window_extend(s: Seq<u64>, left: int, right: int)
    requires
        0 <= left <= right < s.len(),
    ensures
        window_sum(s, left, right + 1) == window_sum(s, left, right) + s[right],
{
    assert(s.subrange(left, right + 1).drop_last() =~= s.subrange(left, right));
}

/// A run shrinks by its first element.
proof fn lemma_window_shrink(s: Seq<u64>, left: int, right: int)
    requires
        0 <= left < right <= s.len(),
    ensures
        window_sum(s, left, right) == s[left] + window_sum(s, left + 1, right),
    decreases right - left,
{
    if right == left + 1 {
        assert(s.subrange(left, right).drop_last() =~= Seq::<u64>::empty());
        assert(s.subrange(left + 1, right) =~= Seq::<u64>::empty());
        assert(sum(Seq::<u64>::empty()) == 0);
    } else {
        lemma_window_shrink(s, left, right - 1);
        lemma_window_extend(s, left, right - 1);
        lemma_window_extend(s, left + 1, right - 1);
    }
}

/// A longer run from the same start has no smaller sum.
proof fn lemma_window_grows(s: Seq<u64>, left: int, right: int, further: int)
    requires
        0 <= left <= right <= further <= s.len(),
    ensures
        0 <= window_sum(s, left, right) <= window_sum(s, left, further),
    decreases further - left,
{
    if right == further {
        if left == right {
            assert(s.subrange(left, right) =~= Seq::<u64>::empty());
        } else {
            lemma_window_grows(s, left, right - 1, right - 1);
            lemma_window_extend(s, left, right - 1);
        }
    } else {
        lemma_window_grows(s, left, right, further - 1);
        lemma_window_extend(s, left, further - 1);
    }
}

/// The first of the longest runs of neighbouring elements of `input` whose sum is at most
/// `target`; `None` when every element is larger than `target`.
pub fn find(input: Input<u64>, target: u64) -> (result: Option<Output>)
    ensures
        is_longest_fitting(input@, target, result),
{
    let mut right: usize = 0;
    let mut sum: u64 = 0;
    let mut result: Option<Output> = None;
    let len = input.len();
    let mut left: usize = 0;
    proof {
        assert(input@.subrange(0, 0) =~= Seq::<u64>::empty());
    }
    while left < len
        invariant
            len == input@.len(),
            left <= len,
            right <= len,
            left <= right + 1,
            left <= right ==> sum == window_sum(input@, left as int, right as int),
            right < left ==> sum == 0,
            sum <= target,
            match result {
                Some(run) => {
                    &&& fits(input@, target, run.left as int, run.right as int)
                    &&& run.left < left
                    &&& forall|l: int, r: int| #[trigger]
                        fits(input@, target, l, r) && l < left ==> r - l <= run.right - run.left
                    &&& forall|l: int, r: int| #[trigger]
                        fits(input@, target, l, r) && l < run.left ==> r - l < run.right
                            - run.left
                },
                None => forall|l: int, r: int| !(#[trigger] fits(input@, target, l, r) && l < left),
            },
        decreases len - left,
    {
        if right < left {
            right = left;
            proof {
                assert(input@.subrange(left as int, left as int) =~= Seq::<u64>::empty());
            }
        }
        let mut extending = true;
        while extending && right < len
            invariant
                len == input@.len(),
                left <= right <= len,
                sum == window_sum(input@, left as int, right as int),
                sum <= target,
                !extending ==> right < len && window_sum(input@, left as int, right + 1) > target,
            decreases len - right + (if extending { 1int } else { 0int }),
        {
            proof {
                lemma_window_extend(input@, left as int, right as int);
            }
            match sum.checked_add(input[right]) {
                Some(longer) => {
                    if longer <= target {
                        sum = longer;
                        right += 1;
                    } else {
                        extending = false;
                    }
                },
                None => {
                    extending = false;
                },
            }
        }
        proof {
            assert forall|l: int, r: int| #[trigger]
                fits(input@, target, l, r) && l == left implies r <= right by {
                if r > right {
                    lemma_window_grows(input@, left as int, right + 1, r);
                }
            }
        }
        if right > left {
            proof {
                lemma_window_shrink(input@, left as int, right as int);
                lemma_window_grows(input@, left + 1, left + 1, right as int);
            }
            sum -= input[left];
            let longer = match &result {
                Some(run) => right - left > run.right - run.left,
                None => true,
            };
            if longer {
                result = Some(Output { left, right });
            }
        }
        left += 1;
    }
    result
}

} // verus!
