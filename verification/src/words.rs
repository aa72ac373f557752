//! Numbers in and out of the words that store them.

#[allow(unused_imports)]
use crate::grid::{cell, lemma_before};
#[allow(unused_imports)]
use crate::scalar::WordNumber;
use crate::scalar::WordScalar;
use vstd::prelude::*;

verus! {

/// The word of the number 1 in single width.
pub const ONE_WORD: u32 = 0x3f80_0000;

/// Words of single width, as numbers.
pub open spec fn raised(words: Seq<u32>) -> Seq<u64> {
    words.map_values(|w: u32| w as u64)
}

/// The words of single width that the numbers are.
pub open spec fn lowered(cells: Seq<u64>) -> Seq<u32> {
    cells.map_values(|w: u64| w as u32)
}

pub proof fn lemma_lowered(words: Seq<u32>)
    ensures
        lowered(raised(words)) == words,
{
    assert(lowered(raised(words)) =~= words);
}

/// The word of single width of entry `(i, j)` of the unit matrix.
pub open spec fn unit_word(i: int, j: int) -> u32 {
    if i == j {
        ONE_WORD
    } else {
        0
    }
}

/// The first `cols` columns of the unit matrix of `rows` rows, row-major, in single width.
pub fn unit_words(rows: usize, cols: usize) -> (words: Vec<u32>)
    ensures
        words.len() == rows * cols,
        forall|i: int, j: int|
            0 <= i < rows && 0 <= j < cols ==> #[trigger] words@[cell(i, cols as int, j)]
                == unit_word(i, j),
{
    let mut words: Vec<u32> = Vec::new();
    let mut i: usize = 0;
    assert(0 * cols == 0) by (nonlinear_arith);
    while i < rows
        invariant
            i <= rows,
            words.len() == i * cols,
            forall|x: int, y: int|
                0 <= x < i && 0 <= y < cols ==> #[trigger] words@[cell(x, cols as int, y)]
                    == unit_word(x, y),
        decreases rows - i,
    {
        let mut j: usize = 0;
        while j < cols
            invariant
                j <= cols,
                words.len() == cell(i as int, cols as int, j as int),
                forall|x: int, y: int|
                    0 <= x <= i && 0 <= y < cols && (x < i || y < j) ==> #[trigger] words@[cell(
                        x,
                        cols as int,
                        y,
                    )] == unit_word(x, y),
            decreases cols - j,
        {
            let ghost before = words@;
            words.push(
                if i == j {
                    ONE_WORD
                } else {
                    0
                },
            );
            proof {
                assert forall|x: int, y: int|
                    0 <= x <= i && 0 <= y < cols && (x < i || y < j
                        + 1) implies #[trigger] words@[cell(x, cols as int, y)] == unit_word(
                    x,
                    y,
                ) by {
                    lemma_before(cols as int, i as int, j as int, x, y);
                    if x < i || y < j {
                        assert(before[cell(x, cols as int, y)] == words@[cell(x, cols as int, y)]);
                    }
                }
            }
            j += 1;
        }
        assert((i + 1) * cols == i * cols + cols) by (nonlinear_arith);
        i += 1;
    }
    words
}

/// The numbers that the words store.
pub open spec fn loaded<T: WordNumber>(words: Seq<u32>) -> Seq<T> {
    Seq::new(words.len(), |i: int| T::of_word(words[i]))
}

/// The words that store the numbers.
pub open spec fn stored<T: WordNumber>(xs: Seq<T>) -> Seq<u32> {
    Seq::new(xs.len(), |i: int| xs[i].word())
}

/// The numbers that the words store.
pub fn load<T: WordScalar>(words: &[u32]) -> (xs: Vec<T>)
    ensures
        xs@ == loaded::<T>(words@),
{
    let mut xs: Vec<T> = Vec::with_capacity(words.len());
    let mut i: usize = 0;
    while i < words.len()
        invariant
            i <= words.len(),
            xs.len() == i,
            forall|x: int| 0 <= x < i ==> #[trigger] xs@[x] == T::of_word(words@[x]),
        decreases words.len() - i,
    {
        xs.push(T::from_word(words[i]));
        i += 1;
    }
    assert(xs@ =~= loaded::<T>(words@));
    xs
}

/// The words that store the numbers.
pub fn store<T: WordScalar>(xs: &[T]) -> (words: Vec<u32>)
    ensures
        words@ == stored::<T>(xs@),
{
    let mut words: Vec<u32> = Vec::with_capacity(xs.len());
    let mut i: usize = 0;
    while i < xs.len()
        invariant
            i <= xs.len(),
            words.len() == i,
            forall|x: int| 0 <= x < i ==> #[trigger] words@[x] == xs@[x].word(),
        decreases xs.len() - i,
    {
        words.push(xs[i].to_word());
        i += 1;
    }
    assert(words@ =~= stored::<T>(xs@));
    words
}

} // verus!
