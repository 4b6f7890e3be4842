//! Putting a list of words in the order of how common they are.

use crate::permutation::lemma_map_multiset;
use crate::ranker::lex_less;
use crate::scorer::letters;
use itertools::Itertools;
use vstd::prelude::*;

verus! {

/// Whether `a` stands before `b` among pairs of a number and a word: its
/// number is smaller, or the numbers are equal and its word comes first in
/// the dictionary.
pub open spec fn pair_less(a: (u32, &str), b: (u32, &str)) -> bool {
    a.0 < b.0 || (a.0 == b.0 && lex_less(letters(a.1), letters(b.1)))
}

/// Whether no pair of the list stands before one that comes earlier in it.
pub open spec fn is_ascending(pairs: Seq<(u32, &str)>) -> bool {
    forall|i: int, j: int|
        0 <= i < j < pairs.len() ==> !pair_less(#[trigger] pairs[j], #[trigger] pairs[i])
}

/// Whether the list goes from the most common word to the least common,
/// and by the dictionary among words that are equally common.
pub open spec fn is_by_frequency(entries: Seq<(u32, &str)>) -> bool {
    forall|i: int, j: int|
        0 <= i < j < entries.len() ==> {
            let a = #[trigger] entries[i];
            let b = #[trigger] entries[j];
            a.0 > b.0 || (a.0 == b.0 && !lex_less(letters(b.1), letters(a.1)))
        }
}

/// A pair with its number counted down from the largest.
pub open spec fn flipped(pair: (u32, &str)) -> (u32, &str) {
    ((u32::MAX - pair.0) as u32, pair.1)
}

/// Calls `sorted` of the crate `itertools` on the pairs, which collects
/// them and sorts them by the order that the standard library gives
/// tuples: by the number first, then by the bytes of the word. The
/// contract states that the result holds the pairs that were given, each
/// as often, in ascending order.
#[verifier::external_body]
fn sorted_pairs<'a>(pairs: Vec<(u32, &'a str)>) -> (sorted: Vec<(u32, &'a str)>)
    ensures
        sorted@.to_multiset() == pairs@.to_multiset(),
        is_ascending(sorted@),
{
    pairs.into_iter().sorted().collect()
}

/// Flips the number of every pair.
fn flip_all<'a>(pairs: &Vec<(u32, &'a str)>) -> (flipped_pairs: Vec<(u32, &'a str)>)
    ensures
        flipped_pairs@ == pairs@.map_values(|p: (u32, &str)| flipped(p)),
{
    let mut result: Vec<(u32, &'a str)> = Vec::new();
    for i in 0..pairs.len()
        invariant
            result@ == pairs@.take(i as int).map_values(|p: (u32, &str)| flipped(p)),
    {
        let (count, word) = pairs[i];
        result.push((u32::MAX - count, word));
        assert(result@ =~= pairs@.take(i + 1).map_values(|p: (u32, &str)| flipped(p)));
    }
    assert(pairs@.take(pairs.len() as int) =~= pairs@);
    result
}

/// Orders words, each given with the number of times it was seen, from the
/// most common to the least common, and by the dictionary among words that
/// are equally common.
pub fn by_frequency<'a>(entries: Vec<(u32, &'a str)>) -> (ordered: Vec<(u32, &'a str)>)
    ensures
        ordered@.to_multiset() == entries@.to_multiset(),
        is_by_frequency(ordered@),
{
    let keyed = flip_all(&entries);
    let sorted = sorted_pairs(keyed);
    let ordered = flip_all(&sorted);
    proof {
        let flip = |p: (u32, &str)| flipped(p);
        lemma_map_multiset(sorted@, keyed@, flip);
        assert(keyed@.map_values(flip) =~= entries@) by {
            assert forall|i: int| 0 <= i < entries@.len() implies keyed@.map_values(flip)[i]
                == entries@[i] by {
                assert(flipped(flipped(entries@[i])) == entries@[i]);
            }
        }
        assert forall|i: int, j: int| 0 <= i < j < ordered@.len() implies {
            let a = #[trigger] ordered@[i];
            let b = #[trigger] ordered@[j];
            a.0 > b.0 || (a.0 == b.0 && !lex_less(letters(b.1), letters(a.1)))
        } by {
            assert(!pair_less(sorted@[j], sorted@[i]));
        }
    }
    ordered
}

} // verus!
