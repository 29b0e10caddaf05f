//! The strategy that guesses the letters in a fixed order.

use crate::executioner::{follows, guesses_since, Executioner};
use crate::letters::{
    is_letter, lemma_one_more_guess, lemma_positions, lemma_revealed_bound, lemma_stop_is_unique,
    lemma_wrong_bound, positions, revealed, stops_when_revealed,
};
use crate::strategy::Strategy;
use crate::word_list::{Word, WordList};
use rand::rngs::StdRng;
use vstd::prelude::*;

verus! {

/// The letters from the most frequent in English words to the least:
/// `eiaorntslcupmdhygbfvkwzxqj`.
pub const OPTIMAL_ORDER: [u8; 26] = [
    101, 105, 97, 111, 114, 110, 116, 115, 108, 99, 117, 112, 109,
    100, 104, 121, 103, 98, 102, 118, 107, 119, 122, 120, 113, 106,
];

/// The fixed order holds each of the 26 letters once, and nothing else.
pub proof fn lemma_optimal_order()
    ensures
        OPTIMAL_ORDER@.len() == 26,
        OPTIMAL_ORDER@.no_duplicates(),
        forall|x: u8| is_letter(x) <==> OPTIMAL_ORDER@.contains(x),
{
    let order = OPTIMAL_ORDER@;
    assert(order[0] == 101 && order[1] == 105 && order[2] == 97 && order[3] == 111);
    assert(order[4] == 114 && order[5] == 110 && order[6] == 116 && order[7] == 115);
    assert(order[8] == 108 && order[9] == 99 && order[10] == 117 && order[11] == 112);
    assert(order[12] == 109 && order[13] == 100 && order[14] == 104 && order[15] == 121);
    assert(order[16] == 103 && order[17] == 98 && order[18] == 102 && order[19] == 118);
    assert(order[20] == 107 && order[21] == 119 && order[22] == 122 && order[23] == 120);
    assert(order[24] == 113 && order[25] == 106);
}

/// The fixed order allows one game for a word: two sequences of guesses that
/// the strategy may play for it are the same, whatever the generator gives.
pub proof fn lemma_one_game(words: &WordList, secret: Word, first: Seq<u8>, second: Seq<u8>)
    requires
        SimpleStrategy::may_play(words, secret, first),
        SimpleStrategy::may_play(words, secret, second),
    ensures
        first == second,
{
    lemma_stop_is_unique(words.letters(secret), OPTIMAL_ORDER@, first, second);
}

/// A strategy that guesses letters in order of their frequency.
pub struct SimpleStrategy {
    idxs_buf: Vec<u8>,
}

impl SimpleStrategy {
    /// The positions that the last guess reported.
    pub closed spec fn report(&self) -> Seq<u8> {
        self.idxs_buf@
    }

    /// A strategy that has not played yet.
    pub fn new() -> (strategy: Self)
        ensures
            strategy.report() == Seq::<u8>::empty(),
    {
        Self { idxs_buf: Vec::new() }
    }
}

impl Strategy for SimpleStrategy {
    /// The strategy plays for every word.
    open spec fn admits(words: &WordList, secret: Word) -> bool {
        true
    }

    /// The guesses are the fixed order from its start, as far as it takes to
    /// reveal the word, and no further.
    open spec fn may_play(words: &WordList, secret: Word, guesses: Seq<u8>) -> bool {
        &&& guesses.len() <= 26
        &&& guesses == OPTIMAL_ORDER@.take(guesses.len() as int)
        &&& stops_when_revealed(words.letters(secret), guesses)
    }

    /// Guess the letters in the fixed order until the word is revealed. The
    /// strategy keeps the report of its last guess. The generator is not
    /// used.
    fn play<E: Executioner>(&mut self, executioner: &mut E, words: &WordList, rng: &mut StdRng)
        ensures
            revealed(
                words.letters(old(executioner).secret()),
                guesses_since(*old(executioner), *final(executioner)),
            ) == old(executioner).secret().len,
            guesses_since(*old(executioner), *final(executioner)).len() > 0,
            final(self).report() == positions(
                words.letters(old(executioner).secret()),
                guesses_since(*old(executioner), *final(executioner)).last(),
            ),
            *final(rng) == *old(rng),
    {
        let word_len = executioner.word_len();
        let mut guessed_letters: u8 = 0;
        let mut i: usize = 0;
        let ghost before = *executioner;
        let ghost word = words.letters(before.secret());
        let ghost order = OPTIMAL_ORDER@;
        proof {
            lemma_optimal_order();
            assert(before.asked() + order.take(0) =~= before.asked());
        }
        while guessed_letters < word_len
            invariant
                words.wf(),
                words.has(before.secret()),
                word == words.letters(before.secret()),
                word.len() == word_len,
                guessed_letters <= word_len,
                before.misses() + 26 <= usize::MAX,
                i <= 26,
                order == OPTIMAL_ORDER@,
                order.len() == 26,
                order.no_duplicates(),
                forall|x: u8| is_letter(x) <==> order.contains(x),
                follows(before, *executioner, words, order.take(i as int)),
                guessed_letters == revealed(word, order.take(i as int)),
                forall|k: int| 0 <= k < i ==> revealed(word, #[trigger] order.take(k)) < word.len(),
                i > 0 ==> self.idxs_buf@ == positions(word, order[i - 1]),
                i == 0 ==> guessed_letters == 0,
            decreases 26 - i,
        {
            let ghost guessed = order.take(i as int);
            proof {
                if i == 26 {
                    assert(guessed =~= order);
                    assert forall|p: int| 0 <= p < word.len() implies guessed.contains(
                        #[trigger] word[p],
                    ) by {
                        assert(is_letter(word[p]));
                    }
                    lemma_revealed_bound(word, guessed);
                }
                lemma_wrong_bound(word, guessed);
            }
            let letter = OPTIMAL_ORDER[i];
            proof {
                assert(order[i as int] == letter);
                assert(order.contains(letter));
            }
            executioner.guess(words, letter, &mut self.idxs_buf);
            proof {
                let longer = order.take(i + 1);
                assert(guessed.push(letter) =~= longer);
                lemma_one_more_guess(word, guessed, letter);
                lemma_positions(word, letter);
                assert(before.asked() + longer =~= (before.asked() + guessed).push(letter));
                lemma_revealed_bound(word, longer);
            }
            let occurences = self.idxs_buf.len() as u8;
            guessed_letters += occurences;
            i += 1;
        }
        proof {
            let guessed = order.take(i as int);
            assert(guesses_since(before, *executioner) =~= guessed);
            assert(guessed.take(guessed.len() as int) =~= guessed);
            assert forall|k: int| 0 <= k < guessed.len() implies revealed(
                word,
                #[trigger] guessed.take(k),
            ) < word.len() by {
                assert(guessed.take(k) =~= order.take(k));
            }
        }
    }
}

} // verus!
