//! Floating-point numbers as bit patterns: the order of single and double precision values.
//!
//! The library does its own accounting and its own rounding on such patterns, see `double` and
//! `halves`; what a stage computes from its weights is computed by the numeric backend.

use vstd::prelude::*;

verus! {

/// Positive infinity in double precision.
pub const DOUBLE_INFINITY: u64 = 0x7ff0_0000_0000_0000;

/// Positive infinity in single precision.
pub const SINGLE_INFINITY: u32 = 0x7f80_0000;

/// Whether the double-precision pattern `x` stands for a number.
pub open spec fn double_is_number(x: u64) -> bool {
    x <= DOUBLE_INFINITY || 0x8000_0000_0000_0000 <= x <= 0xfff0_0000_0000_0000
}

/// A double's place in the order: its magnitude with its sign. Both zeros have the same place.
pub open spec fn double_rank(x: u64) -> int {
    if x < 0x8000_0000_0000_0000 {
        x as int
    } else {
        0x8000_0000_0000_0000 - x
    }
}

/// `x <= y` of two doubles: false where either is not a number.
pub open spec fn double_le(x: u64, y: u64) -> bool {
    double_is_number(x) && double_is_number(y) && double_rank(x) <= double_rank(y)
}

/// Whether the single-precision pattern `x` stands for a number.
pub open spec fn single_is_number(x: u32) -> bool {
    x <= SINGLE_INFINITY || 0x8000_0000 <= x <= 0xff80_0000
}

/// A single's place in the order: its magnitude with its sign. Both zeros have the same place.
pub open spec fn single_rank(x: u32) -> int {
    if x < 0x8000_0000 {
        x as int
    } else {
        0x8000_0000 - x
    }
}

/// `x > y` of two singles: false where either is not a number.
pub open spec fn single_gt(x: u32, y: u32) -> bool {
    single_is_number(x) && single_is_number(y) && single_rank(x) > single_rank(y)
}

/// Whether the double `x` is at most the double `y`.
pub fn at_most(x: u64, y: u64) -> (le: bool)
    ensures
        le == double_le(x, y),
{
    let x_number: bool = x <= DOUBLE_INFINITY || (0x8000_0000_0000_0000 <= x && x
        <= 0xfff0_0000_0000_0000);
    let y_number: bool = y <= DOUBLE_INFINITY || (0x8000_0000_0000_0000 <= y && y
        <= 0xfff0_0000_0000_0000);
    if !x_number || !y_number {
        return false;
    }
    let x_negative: bool = x >= 0x8000_0000_0000_0000;
    let y_negative: bool = y >= 0x8000_0000_0000_0000;
    if x_negative && y_negative {
        x >= y
    } else if x_negative {
        true
    } else if y_negative {
        x == 0 && y == 0x8000_0000_0000_0000
    } else {
        x <= y
    }
}

/// Whether the single `x` is greater than the single `y`.
pub fn greater(x: u32, y: u32) -> (gt: bool)
    ensures
        gt == single_gt(x, y),
{
    let x_number: bool = x <= SINGLE_INFINITY || (0x8000_0000 <= x && x <= 0xff80_0000);
    let y_number: bool = y <= SINGLE_INFINITY || (0x8000_0000 <= y && y <= 0xff80_0000);
    if !x_number || !y_number {
        return false;
    }
    let x_negative: bool = x >= 0x8000_0000;
    let y_negative: bool = y >= 0x8000_0000;
    if x_negative && y_negative {
        x < y
    } else if x_negative {
        false
    } else if y_negative {
        x != 0 || y != 0x8000_0000
    } else {
        x > y
    }
}

/// Whether a single can win a greedy choice: it is a number above negative infinity.
pub open spec fn eligible(x: u32) -> bool {
    single_is_number(x) && x != 0xff80_0000
}

/// Whether `best` is the greedy choice from `row`: the first of its greatest eligible numbers,
/// and the first position where there is none.
pub open spec fn is_argmax(row: Seq<u32>, best: int) -> bool {
    if exists|i: int| 0 <= i < row.len() && eligible(#[trigger] row[i]) {
        &&& 0 <= best < row.len()
        &&& eligible(row[best])
        &&& forall|i: int|
            0 <= i < row.len() && eligible(#[trigger] row[i]) ==> single_rank(row[i]) <= single_rank(
                row[best],
            )
        &&& forall|i: int|
            0 <= i < best && eligible(#[trigger] row[i]) ==> single_rank(row[i]) < single_rank(
                row[best],
            )
    } else {
        best == 0
    }
}

/// The greedy choice from one row of logits.
pub fn argmax(row: &[u32]) -> (best: usize)
    ensures
        is_argmax(row@, best as int),
{
    let mut best: usize = 0;
    let mut best_value: u32 = 0xff80_0000;
    let mut i: usize = 0;
    while i < row.len()
        invariant
            i <= row@.len(),
            is_argmax(row@.take(i as int), best as int),
            if exists|j: int| 0 <= j < i && eligible(#[trigger] row@[j]) {
                best < i && best_value == row@[best as int]
            } else {
                best_value == 0xff80_0000
            },
        decreases row@.len() - i,
    {
        let ghost seen = row@.take(i as int);
        let ghost next = row@.take(i + 1);
        assert(forall|j: int| 0 <= j < i ==> #[trigger] seen[j] == row@[j]);
        assert(forall|j: int| 0 <= j < i + 1 ==> #[trigger] next[j] == row@[j]);
        proof {
            if exists|j: int| 0 <= j < i && eligible(#[trigger] row@[j]) {
                let j = choose|j: int| 0 <= j < i && eligible(#[trigger] row@[j]);
                assert(eligible(seen[j]));
                assert(eligible(next[j]));
            }
            if exists|j: int| 0 <= j < i && eligible(#[trigger] seen[j]) {
                let j = choose|j: int| 0 <= j < i && eligible(#[trigger] seen[j]);
                assert(eligible(row@[j]));
            }
        }
        if greater(row[i], best_value) {
            best_value = row[i];
            best = i;
            assert(eligible(next[i as int]));
        }
        i = i + 1;
    }
    assert(row@.take(i as int) =~= row@);
    best
}

/// A row has one greedy choice: equal logits always give the same token.
pub proof fn the_greedy_choice_is_unique(row: Seq<u32>, a: int, b: int)
    requires
        is_argmax(row, a),
        is_argmax(row, b),
    ensures
        a == b,
{
}

/// The greedy choice from logits that are all numbers above negative infinity: no logit is greater, in the
/// order of the numbers that the patterns stand for, and none before it is as great.
pub proof fn the_greatest_logit_wins(row: Seq<u32>, best: int, i: int)
    requires
        is_argmax(row, best),
        0 <= i < row.len(),
        forall|j: int|
            0 <= j < row.len() ==> (#[trigger] row[j]) <= 0x7f80_0000 || 0x8000_0000 <= row[j]
                < 0xff80_0000,
    ensures
        0 <= best < row.len(),
        row[best] < 0x8000_0000 && row[i] < 0x8000_0000 ==> row[i] <= row[best],
        row[best] < 0x8000_0000 && row[i] < 0x8000_0000 && i < best ==> row[i] < row[best],
        row[best] >= 0x8000_0000 && row[i] >= 0x8000_0000 ==> row[best] <= row[i],
        row[best] >= 0x8000_0000 && row[i] < 0x8000_0000 ==> row[i] == 0 && row[best]
            == 0x8000_0000,
{
    assert(eligible(row[i]));
}

/// Patterns are compared as the numbers that they stand for: below zero the larger pattern is the smaller
/// number, above zero the larger one, both zeros are equal, and what is not a number compares with nothing.
pub proof fn patterns_compare_as_numbers(x: u64, y: u64)
    ensures
        x < 0x8000_0000_0000_0000 && y <= 0x7ff0_0000_0000_0000 ==> (double_le(x, y) <==> x <= y),
        0x8000_0000_0000_0000 <= x <= 0xfff0_0000_0000_0000 && 0x8000_0000_0000_0000 <= y
            <= 0xfff0_0000_0000_0000 ==> (double_le(x, y) <==> y <= x),
        0x8000_0000_0000_0000 <= x <= 0xfff0_0000_0000_0000 && y <= 0x7ff0_0000_0000_0000
            ==> double_le(x, y),
        x <= 0x7ff0_0000_0000_0000 && 0x8000_0000_0000_0000 < y ==> !double_le(x, y),
        double_le(0, 0x8000_0000_0000_0000),
        0x7ff0_0000_0000_0000 < x < 0x8000_0000_0000_0000 || x > 0xfff0_0000_0000_0000
            ==> !double_le(x, y) && !double_le(y, x),
{
}

} // verus!
