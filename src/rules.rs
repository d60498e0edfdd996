//! The per-cell transition rule and the counting of living cells.
use vstd::prelude::*;

verus! {

/// The largest age a cell can reach; a surviving cell of this age stays at it.
pub const MAX_AGE: u8 = 7;

/// A cell is alive exactly when its age is positive.
pub open spec fn is_alive(age: u8) -> bool {
    age > 0
}

/// The age a cell has in the next generation, given its age now and the
/// number of living cells among its eight neighbours.
pub open spec fn next_age(age: u8, count: int) -> u8 {
    if age == 0 {
        if count == 3 { 1 } else { 0 }
    } else if count < 2 || count > 3 {
        0
    } else if age < MAX_AGE {
        (age + 1) as u8
    } else {
        age
    }
}

/// The next age of a cell never exceeds the cap.
pub proof fn lemma_next_age_capped(age: u8, count: int)
    requires
        age <= MAX_AGE,
    ensures
        next_age(age, count) <= MAX_AGE,
{
}

/// The number of living cells in a buffer.
pub open spec fn count_alive(cells: Seq<u8>) -> nat
    decreases cells.len(),
{
    if cells.len() == 0 {
        0
    } else {
        count_alive(cells.drop_last()) + if is_alive(cells.last()) { 1nat } else { 0nat }
    }
}

/// Applies the transition rule to one cell.
pub fn next_cell(age: u8, count: u8) -> (r: u8)
    requires
        age <= MAX_AGE,
    ensures
        r == next_age(age, count as int),
        r <= MAX_AGE,
{
    if age == 0 {
        if count == 3 { 1 } else { 0 }
    } else if count < 2 || count > 3 {
        0
    } else if age < MAX_AGE {
        age + 1
    } else {
        age
    }
}

/// The age reached from `age` after one generation per entry of `counts`,
/// each entry being the neighbour count seen in that generation.
pub open spec fn age_after(age: u8, counts: Seq<int>) -> u8
    decreases counts.len(),
{
    if counts.len() == 0 {
        age
    } else {
        next_age(age_after(age, counts.drop_last()), counts.last())
    }
}

/// A living cell whose neighbour count stays at 2 or 3 gains one year of age
/// per generation until it reaches the cap, and then keeps the cap for ever:
/// after seven or more such generations its age is exactly the cap.
pub proof fn lemma_ageing_cap(age: u8, counts: Seq<int>)
    requires
        1 <= age <= MAX_AGE,
        forall|i: int| 0 <= i < counts.len() ==> (#[trigger] counts[i] == 2 || counts[i] == 3),
    ensures
        age_after(age, counts) as int == if age + counts.len() < MAX_AGE {
            age + counts.len()
        } else {
            MAX_AGE as int
        },
        counts.len() >= MAX_AGE ==> age_after(age, counts) == MAX_AGE,
    decreases counts.len(),
{
    if counts.len() > 0 {
        let rest = counts.drop_last();
        assert forall|i: int| 0 <= i < rest.len() implies (#[trigger] rest[i] == 2 || rest[i] == 3) by {
            assert(rest[i] == counts[i]);
        }
        lemma_ageing_cap(age, rest);
        assert(counts.last() == counts[counts.len() - 1]);
    }
}

/// The number of living cells in a buffer of dead cells is zero.
pub proof fn lemma_count_all_dead(cells: Seq<u8>)
    requires
        forall|i: int| 0 <= i < cells.len() ==> #[trigger] cells[i] == 0,
    ensures
        count_alive(cells) == 0,
    decreases cells.len(),
{
    if cells.len() > 0 {
        let rest = cells.drop_last();
        assert forall|i: int| 0 <= i < rest.len() implies #[trigger] rest[i] == 0 by {
            assert(rest[i] == cells[i]);
        }
        lemma_count_all_dead(rest);
    }
}

/// Never more cells are alive than the buffer holds.
pub proof fn lemma_count_bounded(cells: Seq<u8>)
    ensures
        count_alive(cells) <= cells.len(),
    decreases cells.len(),
{
    if cells.len() > 0 {
        lemma_count_bounded(cells.drop_last());
    }
}

} // verus!
