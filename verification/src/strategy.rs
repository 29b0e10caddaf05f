//! What a strategy is, and how one is measured against a word list.

use crate::executioner::{follows, guesses_since, Executioner, HonestExecutioner};
use crate::letters::{distinct_letters, wrong};
use crate::word_list::{Word, WordList};
use rand::rngs::StdRng;
use vstd::prelude::*;

verus! {

/// Represents a particular way to play the game.
pub trait Strategy {
    /// The strategy can play for this secret word.
    spec fn admits(words: &WordList, secret: Word) -> bool;

    /// A game of this strategy for the secret word may consist of these
    /// guesses, in this order.
    spec fn may_play(words: &WordList, secret: Word, guesses: Seq<u8>) -> bool;

    /// Play one game: guess letters, each at most once and so at most 26,
    /// until the strategy is done. The executioner counts the guesses that
    /// revealed nothing.
    fn play<E: Executioner>(&mut self, executioner: &mut E, words: &WordList, rng: &mut StdRng)
        requires
            words.wf(),
            words.has(old(executioner).secret()),
            Self::admits(words, old(executioner).secret()),
            old(executioner).misses() + 26 <= usize::MAX,
        ensures
            follows(
                *old(executioner),
                *final(executioner),
                words,
                guesses_since(*old(executioner), *final(executioner)),
            ),
            distinct_letters(guesses_since(*old(executioner), *final(executioner))),
            guesses_since(*old(executioner), *final(executioner)).len() <= 26,
            Self::may_play(
                words,
                old(executioner).secret(),
                guesses_since(*old(executioner), *final(executioner)),
            ),
    ;
}

/// The strategy may end a game for the secret word with this many wrong
/// guesses.
pub open spec fn may_score<S: Strategy>(words: &WordList, secret: Word, score: usize) -> bool {
    exists|guesses: Seq<u8>|
        {
            &&& distinct_letters(guesses)
            &&& #[trigger] S::may_play(words, secret, guesses)
            &&& score == wrong(words.letters(secret), guesses)
        }
}

/// Play one game for every word of the list, each against an honest
/// executioner, and return each word with the number of wrong guesses that
/// its game took, in the order of `WordList::iter`.
pub fn score_words<S: Strategy>(strategy: &mut S, words: &WordList, rng: &mut StdRng) -> (scores:
    Vec<(Word, usize)>)
    requires
        words.wf(),
        forall|secret: Word| words.has(secret) ==> #[trigger] S::admits(words, secret),
    ensures
        scores@.len() == words.handles().len(),
        forall|i: int|
            0 <= i < scores@.len() ==> {
                &&& (#[trigger] scores@[i]).0 == words.handles()[i]
                &&& may_score::<S>(words, scores@[i].0, scores@[i].1)
            },
{
    let all = words.iter();
    let mut scores: Vec<(Word, usize)> = Vec::new();
    let mut i: usize = 0;
    proof {
        words.lemma_handles_exact();
    }
    while i < all.len()
        invariant
            words.wf(),
            all@ == words.handles(),
            forall|secret: Word| words.has(secret) ==> #[trigger] S::admits(words, secret),
            forall|secret: Word| #[trigger] words.handles().contains(secret) ==> words.has(secret),
            i <= all@.len(),
            scores@.len() == i,
            forall|k: int|
                0 <= k < i ==> {
                    &&& (#[trigger] scores@[k]).0 == words.handles()[k]
                    &&& may_score::<S>(words, scores@[k].0, scores@[k].1)
                },
        decreases all@.len() - i,
    {
        let word = all[i];
        assert(words.handles().contains(word));
        assert(words.has(word));
        assert(S::admits(words, word));
        let mut executioner = HonestExecutioner::init(word, words);
        let ghost fresh = executioner;
        strategy.play(&mut executioner, words, rng);
        let score = executioner.wrong_guesses();
        proof {
            let guesses = guesses_since(fresh, executioner);
            assert(S::may_play(words, word, guesses));
        }
        scores.push((word, score));
        i += 1;
    }
    scores
}

} // verus!
