//! The edit distance of two strings: the least number of characters to insert, delete or
//! replace to turn one into the other.

use vstd::prelude::*;

verus! {

/// The smallest of three numbers.
pub open spec fn min3(a: int, b: int, c: int) -> int {
    if a <= b && a <= c {
        a
    } else if b <= c {
        b
    } else {
        c
    }
}

/// The edit distance of `a` and `b`.
pub open spec fn levenshtein(a: Seq<char>, b: Seq<char>) -> int
    decreases a.len() + b.len(),
{
    if a.len() == 0 {
        b.len() as int
    } else if b.len() == 0 {
        a.len() as int
    } else {
        min3(
            levenshtein(a, b.drop_last()) + 1,
            levenshtein(a.drop_last(), b) + 1,
            levenshtein(a.drop_last(), b.drop_last()) + if a.last() == b.last() {
                0int
            } else {
                1int
            },
        )
    }
}

/// The distance does not depend on the direction.
pub proof fn lemma_levenshtein_symmetric(a: Seq<char>, b: Seq<char>)
    ensures
        levenshtein(a, b) == levenshtein(b, a),
    decreases a.len() + b.len(),
{
    if a.len() > 0 && b.len() > 0 {
        lemma_levenshtein_symmetric(a, b.drop_last());
        lemma_levenshtein_symmetric(a.drop_last(), b);
        lemma_levenshtein_symmetric(a.drop_last(), b.drop_last());
    }
}

/// The distance is at most the length of the longer string.
pub proof fn lemma_levenshtein_bounded(a: Seq<char>, b: Seq<char>)
    ensures
        0 <= levenshtein(a, b),
        levenshtein(a, b) <= a.len() || levenshtein(a, b) <= b.len(),
    decreases a.len() + b.len(),
{
    if a.len() > 0 && b.len() > 0 {
        lemma_levenshtein_bounded(a, b.drop_last());
        lemma_levenshtein_bounded(a.drop_last(), b);
        lemma_levenshtein_bounded(a.drop_last(), b.drop_last());
    }
}

/// The distance is zero between equal strings, and between no others.
pub proof fn lemma_levenshtein_zero(a: Seq<char>, b: Seq<char>)
    ensures
        levenshtein(a, b) == 0 <==> a == b,
    decreases a.len() + b.len(),
{
    if a.len() > 0 && b.len() > 0 {
        lemma_levenshtein_zero(a.drop_last(), b.drop_last());
        lemma_levenshtein_bounded(a, b.drop_last());
        lemma_levenshtein_bounded(a.drop_last(), b);
        lemma_levenshtein_bounded(a.drop_last(), b.drop_last());
        if levenshtein(a, b) == 0 {
            assert(a =~= a.drop_last().push(a.last()));
            assert(b =~= b.drop_last().push(b.last()));
        }
    } else if a.len() == 0 && b.len() == 0 {
        assert(a =~= b);
    }
}

/// The characters of `s`.
fn chars_of(s: &str) -> (chars: Vec<char>)
    ensures
        chars@ == s@,
{
    let mut chars: Vec<char> = Vec::new();
    for c in it: s.chars()
        invariant
            chars@ == it.seq().take(it.index() as int),
    {
        chars.push(c);
    }
    chars
}

/// The numbers `0, 1, ..., last`.
fn counting_row(last: usize) -> (row: Vec<usize>)
    ensures
        row@.len() == last + 1,
        forall|j: int| 0 <= j <= last ==> #[trigger] row@[j] == j,
{
    let mut row: Vec<usize> = Vec::new();
    let mut j: usize = 0;
    while j < last
        invariant
            j <= last,
            row@.len() == j,
            forall|k: int| 0 <= k < j ==> #[trigger] row@[k] == k,
        decreases last - j,
    {
        row.push(j);
        j += 1;
    }
    row.push(last);
    row
}

/// The edit distance of `lhs` and `rhs`, counted in characters: the least number of
/// insertions, deletions and replacements of one character that turn `lhs` into `rhs`.
pub fn calculate(lhs: &str, rhs: &str) -> (distance: usize)
    ensures
        distance == levenshtein(lhs@, rhs@),
    decreases
            (if lhs.len() < rhs.len() {
                1int
            } else {
                0int
            }),
{
    if lhs.is_empty() {
        return chars_of(rhs).len();
    }
    if rhs.is_empty() {
        return chars_of(lhs).len();
    }
    if lhs.len() < rhs.len() {
        proof {
            lemma_levenshtein_symmetric(lhs@, rhs@);
        }
        return calculate(rhs, lhs);
    }
    let left = chars_of(lhs);
    let right = chars_of(rhs);
    let width = right.len();
    let ghost a = lhs@;
    let ghost b = rhs@;

    let mut previous_row: Vec<usize> = counting_row(width);
    // Only the length of this row matters: each entry is written before it is read.
    let mut current_row: Vec<usize> = counting_row(width);
    assert(previous_row.len() == width + 1);
    assert(left.len() == a.len());

    let mut i: usize = 0;
    while i < left.len()
        invariant
            left@ == a,
            right@ == b,
            width == b.len(),
            width + 1 <= usize::MAX,
            i <= a.len() <= usize::MAX,
            previous_row@.len() == width + 1,
            current_row@.len() == width + 1,
            forall|j: int|
                0 <= j <= width ==> #[trigger] previous_row@[j] == levenshtein(
                    a.take(i as int),
                    b.take(j),
                ),
        decreases a.len() - i,
    {
        let lc = left[i];
        current_row[0] = i + 1;
        let mut j: usize = 0;
        while j < width
            invariant
                left@ == a,
                right@ == b,
                width == b.len(),
                width + 1 <= usize::MAX,
                i < a.len() <= usize::MAX,
                lc == a[i as int],
                j <= width,
                previous_row@.len() == width + 1,
                current_row@.len() == width + 1,
                forall|k: int|
                    0 <= k <= width ==> #[trigger] previous_row@[k] == levenshtein(
                        a.take(i as int),
                        b.take(k),
                    ),
                forall|k: int|
                    0 <= k <= j ==> #[trigger] current_row@[k] == levenshtein(
                        a.take(i + 1),
                        b.take(k),
                    ),
            decreases width - j,
        {
            let rc = right[j];
            let cost: usize = if lc == rc {
                0
            } else {
                1
            };
            proof {
                let longer = a.take(i + 1);
                let wider = b.take(j + 1);
                assert(longer.drop_last() =~= a.take(i as int));
                assert(wider.drop_last() =~= b.take(j as int));
                lemma_levenshtein_bounded(a.take(i as int), wider);
                lemma_levenshtein_bounded(a.take(i as int), b.take(j as int));
                lemma_levenshtein_bounded(longer, b.take(j as int));
            }
            let insertion = current_row[j];
            let deletion = previous_row[j + 1];
            let substitution = previous_row[j] + cost;
            let shorter = if insertion < deletion {
                insertion
            } else {
                deletion
            };
            let ghost row_before = current_row@;
            current_row[j + 1] = if shorter + 1 < substitution {
                shorter + 1
            } else {
                substitution
            };
            assert forall|k: int| 0 <= k <= j + 1 implies #[trigger] current_row@[k]
                == levenshtein(a.take(i + 1), b.take(k)) by {
                if k <= j {
                    assert(current_row@[k] == row_before[k]);
                }
            }
            j += 1;
        }
        core::mem::swap(&mut previous_row, &mut current_row);
        i += 1;
    }
    proof {
        assert(a.take(a.len() as int) =~= a);
        assert(b.take(b.len() as int) =~= b);
    }
    previous_row[width]
}

} // verus!
