//! The mathematics of the game: letters, words, where a letter occurs in a
//! word, and what a sequence of guesses reveals.

use vstd::prelude::*;

verus! {

/// A lowercase ASCII letter, `'a'..='z'`.
pub open spec fn is_letter(b: u8) -> bool {
    97 <= b <= 122
}

/// A word that a word list can hold: between 1 and 29 lowercase letters.
pub open spec fn is_word(w: Seq<u8>) -> bool {
    &&& 0 < w.len() < 30
    &&& forall|i: int| 0 <= i < w.len() ==> is_letter(#[trigger] w[i])
}

/// The 26 letters in alphabetical order.
pub open spec fn alphabet() -> Seq<u8> {
    Seq::new(26, |i: int| (97 + i) as u8)
}

/// A sequence of guesses in which every entry is a letter and none is repeated.
pub open spec fn distinct_letters(guesses: Seq<u8>) -> bool {
    &&& guesses.no_duplicates()
    &&& forall|i: int| 0 <= i < guesses.len() ==> is_letter(#[trigger] guesses[i])
}

/// The positions of `word`, counted from 0 and in ascending order, at which
/// `letter` stands.
pub open spec fn positions(word: Seq<u8>, letter: u8) -> Seq<u8>
    decreases word.len(),
{
    if word.len() == 0 {
        Seq::empty()
    } else if word.last() == letter {
        positions(word.drop_last(), letter).push((word.len() - 1) as u8)
    } else {
        positions(word.drop_last(), letter)
    }
}

/// The number of positions of `word` that the guesses have revealed: the sum,
/// over the guesses, of the number of positions reported for each.
pub open spec fn revealed(word: Seq<u8>, guesses: Seq<u8>) -> nat
    decreases guesses.len(),
{
    if guesses.len() == 0 {
        0
    } else {
        revealed(word, guesses.drop_last()) + positions(word, guesses.last()).len()
    }
}

/// The number of guesses that revealed no position of `word`.
pub open spec fn wrong(word: Seq<u8>, guesses: Seq<u8>) -> nat
    decreases guesses.len(),
{
    if guesses.len() == 0 {
        0
    } else if positions(word, guesses.last()).len() == 0 {
        wrong(word, guesses.drop_last()) + 1
    } else {
        wrong(word, guesses.drop_last())
    }
}

/// The number of positions of `word` whose letter is among the guesses.
pub open spec fn covered(word: Seq<u8>, guesses: Seq<u8>) -> nat
    decreases word.len(),
{
    if word.len() == 0 {
        0
    } else if guesses.contains(word.last()) {
        covered(word.drop_last(), guesses) + 1
    } else {
        covered(word.drop_last(), guesses)
    }
}

/// The guesses reveal the whole of `word`, and no shorter start of them does:
/// a game that goes on until the word is revealed consists of such guesses.
pub open spec fn stops_when_revealed(word: Seq<u8>, guesses: Seq<u8>) -> bool {
    &&& revealed(word, guesses) == word.len()
    &&& forall|k: int| 0 <= k < guesses.len() ==> revealed(word, #[trigger] guesses.take(k)) < word.len()
}

/// What `positions` lists: it is ascending, each entry is a position at which
/// the letter stands, and each such position is an entry. So it is empty
/// exactly if the word does not hold the letter.
pub proof fn lemma_positions(word: Seq<u8>, letter: u8)
    requires
        word.len() <= 256,
    ensures
        positions(word, letter).len() <= word.len(),
        positions(word, letter).len() == 0 <==> !word.contains(letter),
        forall|k: int|
            0 <= k < positions(word, letter).len() ==> {
                &&& (#[trigger] positions(word, letter)[k]) < word.len()
                &&& word[positions(word, letter)[k] as int] == letter
            },
        forall|j: int, k: int|
            0 <= j < k < positions(word, letter).len() ==> positions(word, letter)[j] < positions(
                word,
                letter,
            )[k],
        forall|i: int|
            0 <= i < word.len() && word[i] == letter ==> positions(word, letter).contains(i as u8),
    decreases word.len(),
{
    if word.len() > 0 {
        let front = word.drop_last();
        let before = positions(front, letter);
        let all = positions(word, letter);
        lemma_positions(front, letter);
        assert forall|i: int| 0 <= i < word.len() && word[i] == letter implies all.contains(
            i as u8,
        ) by {
            if i < word.len() - 1 {
                assert(front[i] == letter);
                let k = choose|k: int| 0 <= k < before.len() && before[k] == i as u8;
                assert(all[k] == i as u8);
            } else {
                assert(all[all.len() - 1] == i as u8);
            }
        }
        if word.contains(letter) {
            let i = choose|i: int| 0 <= i < word.len() && word[i] == letter;
            assert(all.contains(i as u8));
        }
        if all.len() > 0 {
            assert(word[all[0] as int] == letter);
        }
    }
}

/// One more guess reveals the positions of its letter, and counts as wrong
/// exactly if there are none.
pub proof fn lemma_one_more_guess(word: Seq<u8>, guesses: Seq<u8>, letter: u8)
    ensures
        revealed(word, guesses.push(letter)) == revealed(word, guesses) + positions(
            word,
            letter,
        ).len(),
        wrong(word, guesses.push(letter)) == wrong(word, guesses) + if positions(
            word,
            letter,
        ).len() == 0 {
            1nat
        } else {
            0nat
        },
{
    assert(guesses.push(letter).drop_last() =~= guesses);
}

proof fn lemma_covered_by_none(word: Seq<u8>)
    ensures
        covered(word, Seq::empty()) == 0,
    decreases word.len(),
{
    if word.len() > 0 {
        lemma_covered_by_none(word.drop_last());
    }
}

proof fn lemma_covered_one_more(word: Seq<u8>, guesses: Seq<u8>, letter: u8)
    requires
        !guesses.contains(letter),
    ensures
        covered(word, guesses.push(letter)) == covered(word, guesses) + positions(
            word,
            letter,
        ).len(),
    decreases word.len(),
{
    if word.len() > 0 {
        let more = guesses.push(letter);
        lemma_covered_one_more(word.drop_last(), guesses, letter);
        let x = word.last();
        if x == letter {
            assert(more[guesses.len() as int] == x);
        } else if guesses.contains(x) {
            let i = choose|i: int| 0 <= i < guesses.len() && guesses[i] == x;
            assert(more[i] == x);
        } else if more.contains(x) {
            let i = choose|i: int| 0 <= i < more.len() && more[i] == x;
            assert(guesses[i] == x);
        }
    }
}

/// Guesses without a repeat reveal each position once: as many positions as
/// hold a guessed letter.
pub proof fn lemma_revealed_is_covered(word: Seq<u8>, guesses: Seq<u8>)
    requires
        guesses.no_duplicates(),
    ensures
        revealed(word, guesses) == covered(word, guesses),
    decreases guesses.len(),
{
    if guesses.len() == 0 {
        lemma_covered_by_none(word);
        assert(guesses =~= Seq::empty());
    } else {
        let front = guesses.drop_last();
        let letter = guesses.last();
        lemma_revealed_is_covered(word, front);
        assert(front.push(letter) =~= guesses);
        if front.contains(letter) {
            let i = choose|i: int| 0 <= i < front.len() && front[i] == letter;
            assert(guesses[i] == guesses[guesses.len() - 1]);
        }
        lemma_covered_one_more(word, front, letter);
    }
}

/// No more positions hold a guessed letter than the word has, and all do
/// exactly if every letter of the word was guessed.
pub proof fn lemma_covered_bound(word: Seq<u8>, guesses: Seq<u8>)
    ensures
        covered(word, guesses) <= word.len(),
        covered(word, guesses) == word.len() <==> forall|i: int|
            0 <= i < word.len() ==> guesses.contains(#[trigger] word[i]),
    decreases word.len(),
{
    if word.len() > 0 {
        let front = word.drop_last();
        lemma_covered_bound(front, guesses);
        if covered(word, guesses) == word.len() {
            assert forall|i: int| 0 <= i < word.len() implies guesses.contains(
                #[trigger] word[i],
            ) by {
                if i < word.len() - 1 {
                    assert(front[i] == word[i]);
                }
            }
        }
        if forall|i: int| 0 <= i < word.len() ==> guesses.contains(#[trigger] word[i]) {
            assert forall|i: int| 0 <= i < front.len() implies guesses.contains(
                #[trigger] front[i],
            ) by {
                assert(front[i] == word[i]);
            }
            assert(guesses.contains(word[word.len() - 1]));
        }
    }
}

/// Guesses without a repeat never reveal more positions than the word has,
/// and reveal all of them exactly if every letter of the word was guessed.
pub proof fn lemma_revealed_bound(word: Seq<u8>, guesses: Seq<u8>)
    requires
        guesses.no_duplicates(),
    ensures
        revealed(word, guesses) <= word.len(),
        revealed(word, guesses) == word.len() <==> forall|i: int|
            0 <= i < word.len() ==> guesses.contains(#[trigger] word[i]),
{
    lemma_revealed_is_covered(word, guesses);
    lemma_covered_bound(word, guesses);
}

/// No more guesses are wrong than were made.
pub proof fn lemma_wrong_bound(word: Seq<u8>, guesses: Seq<u8>)
    ensures
        wrong(word, guesses) <= guesses.len(),
    decreases guesses.len(),
{
    if guesses.len() > 0 {
        lemma_wrong_bound(word, guesses.drop_last());
    }
}

/// The alphabet holds each of the 26 letters once, and nothing else.
pub proof fn lemma_alphabet()
    ensures
        alphabet().len() == 26,
        alphabet().no_duplicates(),
        forall|x: u8| is_letter(x) <==> alphabet().contains(x),
{
    assert forall|x: u8| is_letter(x) implies alphabet().contains(x) by {
        assert(alphabet()[x - 97] == x);
    }
}

/// Overwrite `letters` with the 26 letters in alphabetical order.
pub fn fill_alphabet(letters: &mut Vec<u8>)
    ensures
        final(letters)@ == alphabet(),
{
    letters.clear();
    let mut next: u8 = 97;
    while next <= 122
        invariant
            97 <= next <= 123,
            letters@ == alphabet().take(next - 97),
        decreases 123 - next,
    {
        letters.push(next);
        assert(alphabet().take(next - 97).push(next) =~= alphabet().take(next - 96));
        next += 1;
    }
    assert(letters@ =~= alphabet());
}

/// A rearrangement of a sequence without repeats has the same length, holds
/// the same entries, and has no repeats either.
pub proof fn lemma_rearranged(order: Seq<u8>, of: Seq<u8>)
    requires
        order.to_multiset() == of.to_multiset(),
        of.no_duplicates(),
    ensures
        order.len() == of.len(),
        order.no_duplicates(),
        forall|x: u8| order.contains(x) <==> of.contains(x),
{
    of.to_multiset_ensures();
    order.to_multiset_ensures();
    of.lemma_multiset_has_no_duplicates();
    order.lemma_multiset_has_no_duplicates_conv();
    assert forall|x: u8| order.contains(x) <==> of.contains(x) by {
        vstd::seq_lib::to_multiset_contains(order, x);
        vstd::seq_lib::to_multiset_contains(of, x);
    }
}

/// Guesses that are letters, none repeated, are at most 26, and once 25 are
/// made there is at most one letter left to guess.
pub proof fn lemma_letters_left(guesses: Seq<u8>)
    requires
        distinct_letters(guesses),
    ensures
        guesses.len() <= 26,
        guesses.len() >= 25 ==> forall|x: u8, y: u8|
            is_letter(x) && is_letter(y) && !guesses.contains(x) && !guesses.contains(y) ==> x
                == y,
{
    let made = guesses.to_set();
    let all = alphabet().to_set();
    lemma_alphabet();
    guesses.unique_seq_to_set();
    alphabet().unique_seq_to_set();
    vstd::seq_lib::seq_to_set_is_finite(alphabet());
    assert forall|x: u8| made.contains(x) implies all.contains(x) by {
        let i = choose|i: int| 0 <= i < guesses.len() && guesses[i] == x;
        assert(is_letter(guesses[i]));
    }
    vstd::set_lib::lemma_len_subset(made, all);
    if guesses.len() >= 25 {
        assert forall|x: u8, y: u8|
            is_letter(x) && is_letter(y) && !guesses.contains(x) && !guesses.contains(y) implies x
            == y by {
            if x != y {
                let rest = all.remove(x).remove(y);
                assert(made.subset_of(rest));
                vstd::set_lib::lemma_len_subset(made, rest);
            }
        }
    }
}

/// Along a fixed order of letters, the game that stops when the word is
/// revealed is one game: two such sequences of guesses are the same.
pub proof fn lemma_stop_is_unique(word: Seq<u8>, order: Seq<u8>, first: Seq<u8>, second: Seq<u8>)
    requires
        first.len() <= order.len(),
        second.len() <= order.len(),
        first == order.take(first.len() as int),
        second == order.take(second.len() as int),
        stops_when_revealed(word, first),
        stops_when_revealed(word, second),
    ensures
        first == second,
{
    if first.len() < second.len() {
        assert(second.take(first.len() as int) =~= first);
    } else if second.len() < first.len() {
        assert(first.take(second.len() as int) =~= second);
    }
}

} // verus!
