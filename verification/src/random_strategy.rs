//! The strategy that guesses the letters in a random order.

use crate::executioner::{follows, guesses_since, Executioner};
use crate::letters::{
    alphabet, distinct_letters, fill_alphabet, is_letter, lemma_alphabet, lemma_one_more_guess,
    lemma_positions, lemma_rearranged, lemma_revealed_bound, lemma_wrong_bound, positions,
    revealed, stops_when_revealed,
};
use crate::random::shuffle;
use crate::strategy::Strategy;
use crate::word_list::{Word, WordList};
use rand::rngs::StdRng;
use vstd::prelude::*;

verus! {

/// A strategy that guesses letters in a random order.
pub struct RandomStrategy {
    guesses: Vec<u8>,
    idxs_buf: Vec<u8>,
}

impl RandomStrategy {
    /// The letters that the current game has not tried, the next one last.
    pub closed spec fn untried(&self) -> Seq<u8> {
        self.guesses@
    }

    /// The positions that the last guess reported.
    pub closed spec fn report(&self) -> Seq<u8> {
        self.idxs_buf@
    }

    /// A strategy that has not played yet.
    pub fn new() -> (strategy: Self)
        ensures
            strategy.untried() == Seq::<u8>::empty(),
            strategy.report() == Seq::<u8>::empty(),
    {
        Self { guesses: Vec::with_capacity(26), idxs_buf: Vec::new() }
    }

    /// Play one game along a given order of the 26 letters: guess them from
    /// the last of `order` towards its first until the word is revealed, and
    /// no longer. The letters of `order` that were not needed stay untried.
    pub fn play_order<E: Executioner>(
        &mut self,
        order: Vec<u8>,
        executioner: &mut E,
        words: &WordList,
    )
        requires
            order@.to_multiset() == alphabet().to_multiset(),
            words.wf(),
            words.has(old(executioner).secret()),
            old(executioner).misses() + 26 <= usize::MAX,
        ensures
            follows(
                *old(executioner),
                *final(executioner),
                words,
                guesses_since(*old(executioner), *final(executioner)),
            ),
            order@ == final(self).untried() + guesses_since(
                *old(executioner),
                *final(executioner),
            ).reverse(),
            stops_when_revealed(
                words.letters(old(executioner).secret()),
                guesses_since(*old(executioner), *final(executioner)),
            ),
            distinct_letters(guesses_since(*old(executioner), *final(executioner))),
            0 < guesses_since(*old(executioner), *final(executioner)).len() <= 26,
            final(self).report() == positions(
                words.letters(old(executioner).secret()),
                guesses_since(*old(executioner), *final(executioner)).last(),
            ),
    {
        let word_len = executioner.word_len();
        let ghost before = *executioner;
        let ghost word = words.letters(before.secret());
        let ghost mut guessed = Seq::<u8>::empty();
        self.guesses = order;
        let ghost order = self.guesses@;
        let mut guessed_letters: u8 = 0;
        proof {
            lemma_alphabet();
            lemma_rearranged(order, alphabet());
            assert(order =~= self.guesses@ + guessed.reverse());
            assert(before.asked() + guessed =~= before.asked());
        }
        while guessed_letters < word_len
            invariant
                words.wf(),
                words.has(before.secret()),
                word == words.letters(before.secret()),
                word.len() == word_len,
                guessed_letters <= word_len,
                before.misses() + 26 <= usize::MAX,
                follows(before, *executioner, words, guessed),
                order == self.guesses@ + guessed.reverse(),
                order.len() == 26,
                order.no_duplicates(),
                forall|x: u8| is_letter(x) <==> order.contains(x),
                distinct_letters(guessed),
                guessed_letters == revealed(word, guessed),
                forall|k: int|
                    0 <= k < guessed.len() ==> revealed(word, #[trigger] guessed.take(k))
                        < word.len(),
                guessed.len() > 0 ==> self.idxs_buf@ == positions(word, guessed.last()),
                guessed.len() == 0 ==> guessed_letters == 0,
            decreases self.guesses@.len(),
        {
            let ghost left = self.guesses@;
            proof {
                if left.len() == 0 {
                    assert(guessed.reverse() =~= order);
                    assert forall|i: int| 0 <= i < word.len() implies guessed.contains(
                        #[trigger] word[i],
                    ) by {
                        assert(is_letter(word[i]));
                        let j = choose|j: int| 0 <= j < order.len() && order[j] == word[i];
                        assert(guessed[guessed.len() - 1 - j] == word[i]);
                    }
                    lemma_revealed_bound(word, guessed);
                }
            }
            let letter = self.guesses.pop().unwrap();
            proof {
                assert(order[left.len() - 1] == letter);
                assert(order.contains(letter));
                if guessed.contains(letter) {
                    let i = choose|i: int| 0 <= i < guessed.len() && guessed[i] == letter;
                    assert(order[left.len() + (guessed.len() - 1 - i)] == letter);
                }
                lemma_wrong_bound(word, guessed);
            }
            executioner.guess(words, letter, &mut self.idxs_buf);
            proof {
                lemma_one_more_guess(word, guessed, letter);
                lemma_positions(word, letter);
                let longer = guessed.push(letter);
                assert(order =~= self.guesses@ + longer.reverse());
                assert(before.asked() + longer =~= (before.asked() + guessed).push(letter));
                lemma_revealed_bound(word, longer);
                assert forall|k: int| 0 <= k < longer.len() implies revealed(
                    word,
                    #[trigger] longer.take(k),
                ) < word.len() by {
                    if k < guessed.len() {
                        assert(longer.take(k) =~= guessed.take(k));
                    } else {
                        assert(longer.take(k) =~= guessed);
                    }
                }
                guessed = longer;
            }
            let occurences = self.idxs_buf.len() as u8;
            guessed_letters += occurences;
        }
        proof {
            assert(guesses_since(before, *executioner) =~= guessed);
        }
    }
}

impl Strategy for RandomStrategy {
    /// The strategy plays for every word.
    open spec fn admits(words: &WordList, secret: Word) -> bool {
        true
    }

    /// A game goes on until the word is revealed, and no longer. Every order
    /// of the letters is possible.
    open spec fn may_play(words: &WordList, secret: Word, guesses: Seq<u8>) -> bool {
        stops_when_revealed(words.letters(secret), guesses)
    }

    /// Shuffle the 26 letters and play along that order, as `play_order`
    /// does. The letters left untried and the guesses made are together a
    /// rearrangement of the alphabet. The strategy keeps the report of its
    /// last guess.
    fn play<E: Executioner>(&mut self, executioner: &mut E, words: &WordList, rng: &mut StdRng)
        ensures
            revealed(
                words.letters(old(executioner).secret()),
                guesses_since(*old(executioner), *final(executioner)),
            ) == old(executioner).secret().len,
            guesses_since(*old(executioner), *final(executioner)).len() > 0,
            final(self).report() == positions(
                words.letters(old(executioner).secret()),
                guesses_since(*old(executioner), *final(executioner)).last(),
            ),
            (final(self).untried() + guesses_since(
                *old(executioner),
                *final(executioner),
            ).reverse()).to_multiset() == alphabet().to_multiset(),
    {
        let mut order: Vec<u8> = Vec::new();
        std::mem::swap(&mut order, &mut self.guesses);
        fill_alphabet(&mut order);
        shuffle(&mut order, rng);
        self.play_order(order, executioner, words);
    }
}

} // verus!
