//! The executioner: the side of the game that knows the secret word.

use crate::letters::{is_letter, positions, wrong};
use crate::word_list::{Word, WordList};
use rand::rngs::StdRng;
use vstd::prelude::*;

verus! {

/// Represents an executioner that can be queried about the word it has chosen.
///
/// An executioner is described by the handle of its secret word, the letters
/// it has been asked about so far, in order, and the number of those
/// questions that revealed nothing.
pub trait Executioner: Sized {
    /// The handle of the secret word.
    spec fn secret(&self) -> Word;

    /// The letters guessed so far, oldest first.
    spec fn asked(&self) -> Seq<u8>;

    /// The number of guesses so far that revealed no position.
    spec fn misses(&self) -> nat;

    /// Start the game with a given word.
    fn init(word: Word, words: &WordList) -> (executioner: Self)
        requires
            words.wf(),
            words.has(word),
        ensures
            executioner.secret() == word,
            executioner.asked() == Seq::<u8>::empty(),
            executioner.misses() == 0,
    ;

    /// Start the game with a random choice of word.
    fn choose_word(words: &WordList, rng: &mut StdRng) -> (executioner: Self)
        requires
            words.wf(),
            words.total() > 0,
        ensures
            words.has(executioner.secret()),
            executioner.asked() == Seq::<u8>::empty(),
            executioner.misses() == 0,
    {
        let word = words.random(rng);
        Self::init(word, words)
    }

    /// Given a letter, overwrite `idxs` with the positions of all occurences
    /// of that letter within the chosen word, in ascending order. A guess
    /// that leaves `idxs` empty is counted as wrong. The same letter may be
    /// guessed again, and is then answered and counted again.
    fn guess(&mut self, words: &WordList, letter: u8, idxs: &mut Vec<u8>)
        requires
            words.wf(),
            words.has(old(self).secret()),
            is_letter(letter),
            old(self).misses() < usize::MAX,
        ensures
            final(self).secret() == old(self).secret(),
            final(self).asked() == old(self).asked().push(letter),
            final(idxs)@ == positions(words.letters(old(self).secret()), letter),
            final(self).misses() == old(self).misses() + if final(idxs)@.len() == 0 {
                1nat
            } else {
                0nat
            },
    ;

    /// Return the length of the chosen word.
    fn word_len(&self) -> (len: u8)
        ensures
            len == self.secret().len,
    ;

    /// Return the number of times `guess` was called but left `idxs` empty.
    fn wrong_guesses(&self) -> (count: usize)
        ensures
            count == self.misses(),
    ;
}

/// The guesses made between two states of an executioner.
pub open spec fn guesses_since<E: Executioner>(before: E, after: E) -> Seq<u8> {
    after.asked().skip(before.asked().len() as int)
}

/// The state `after` is what the state `before` becomes through the
/// `guesses`: the same secret, the guesses added to those asked, and the
/// wrong ones among them added to the count.
pub open spec fn follows<E: Executioner>(
    before: E,
    after: E,
    words: &WordList,
    guesses: Seq<u8>,
) -> bool {
    &&& after.secret() == before.secret()
    &&& after.asked() == before.asked() + guesses
    &&& after.misses() == before.misses() + wrong(words.letters(before.secret()), guesses)
}

/// An executioner that picks a word in advance and describes it honestly.
pub struct HonestExecutioner {
    word: Word,
    wrong_guesses: usize,
    asked: Ghost<Seq<u8>>,
}

impl Executioner for HonestExecutioner {
    closed spec fn secret(&self) -> Word {
        self.word
    }

    closed spec fn asked(&self) -> Seq<u8> {
        self.asked@
    }

    closed spec fn misses(&self) -> nat {
        self.wrong_guesses as nat
    }

    fn init(word: Word, _words: &WordList) -> (executioner: Self) {
        Self { word, wrong_guesses: 0, asked: Ghost(Seq::empty()) }
    }

    fn guess(&mut self, words: &WordList, letter: u8, idxs: &mut Vec<u8>) {
        idxs.clear();
        let word = words.get(self.word);
        let mut i: usize = 0;
        while i < word.len()
            invariant
                i <= word@.len() < 30,
                idxs@ == positions(word@.take(i as int), letter),
            decreases word@.len() - i,
        {
            if word[i] == letter {
                idxs.push(i as u8);
            }
            assert(word@.take(i + 1).drop_last() =~= word@.take(i as int));
            i += 1;
        }
        assert(word@.take(i as int) =~= word@);
        if idxs.is_empty() {
            self.wrong_guesses += 1;
        }
        self.asked = Ghost(self.asked@.push(letter));
    }

    fn word_len(&self) -> (len: u8) {
        self.word.len
    }

    fn wrong_guesses(&self) -> (count: usize) {
        self.wrong_guesses
    }
}

} // verus!
