//! The strategy that keeps the set of words that the secret word may still
//! be, and guesses the letter that most of them hold.

use crate::executioner::{follows, guesses_since, Executioner};
use crate::letters::{
    alphabet, distinct_letters, fill_alphabet, is_letter, lemma_alphabet, lemma_letters_left,
    lemma_one_more_guess, lemma_positions, lemma_revealed_bound, lemma_wrong_bound, positions,
    revealed,
};
use crate::strategy::Strategy;
use crate::word_list::{Word, WordList, MAX_WORD_LEN};
use rand::rngs::StdRng;
use std::collections::HashSet;
use vstd::std_specs::hash::{into_iter_hash_keys, spec_hash_keys_iter, spec_hash_set_len};
use vstd::prelude::*;

verus! {

/// The indices of the first `count` words of a length.
pub open spec fn all_candidates(count: nat) -> Set<usize> {
    Set::new(|c: usize| c < count)
}

/// The `word` fits what was reported for a guess: the letter stands at the
/// reported positions of the word, and at no other.
pub open spec fn matches_report(word: Seq<u8>, letter: u8, report: Seq<u8>) -> bool {
    forall|p: int| 0 <= p < word.len() ==> (#[trigger] word[p] == letter <==> report.contains(p as u8))
}

/// Those of the candidates whose word fits a report.
pub open spec fn fitting(
    bucket: Seq<Seq<u8>>,
    candidates: Set<usize>,
    letter: u8,
    report: Seq<u8>,
) -> Set<usize> {
    candidates.filter(|c: usize| matches_report(bucket[c as int], letter, report))
}

/// The candidates that stay after a guess: those whose word fits what the
/// secret word gives as the report for the letter.
pub open spec fn kept(
    bucket: Seq<Seq<u8>>,
    secret: Seq<u8>,
    candidates: Set<usize>,
    letter: u8,
) -> Set<usize> {
    fitting(bucket, candidates, letter, positions(secret, letter))
}

/// The letters left to guess, given those guessed: each letter is on one
/// side, and on that side once.
pub open spec fn letters_left(letters: Seq<u8>, guessed: Seq<u8>) -> bool {
    &&& letters.no_duplicates()
    &&& letters.len() + guessed.len() == 26
    &&& forall|i: int| 0 <= i < letters.len() ==> is_letter(#[trigger] letters[i])
    &&& forall|x: u8| is_letter(x) ==> (letters.contains(x) <==> !guessed.contains(x))
}

/// The candidates after a sequence of guesses: the words of the bucket that
/// fit the report of every guess.
pub open spec fn narrowed(bucket: Seq<Seq<u8>>, secret: Seq<u8>, guesses: Seq<u8>) -> Set<usize> {
    Set::new(
        |c: usize|
            c < bucket.len() && forall|k: int|
                0 <= k < guesses.len() ==> matches_report(
                    bucket[c as int],
                    #[trigger] guesses[k],
                    positions(secret, guesses[k]),
                ),
    )
}

/// The number of candidates whose word holds the letter at least once.
pub open spec fn holders(bucket: Seq<Seq<u8>>, candidates: Set<usize>, letter: u8) -> nat {
    candidates.filter(|c: usize| bucket[c as int].contains(letter)).len()
}

/// The index in `letters` of the letter to guess: the one that most
/// candidates hold, and the last such where several are held by as many.
pub open spec fn last_best(bucket: Seq<Seq<u8>>, candidates: Set<usize>, letters: Seq<u8>) -> int
    decreases letters.len(),
{
    if letters.len() <= 1 {
        0
    } else {
        let before = last_best(bucket, candidates, letters.drop_last());
        if holders(bucket, candidates, letters.last()) >= holders(
            bucket,
            candidates,
            letters[before],
        ) {
            letters.len() - 1
        } else {
            before
        }
    }
}

/// The letters after the one at index `i` was taken out: the last letter
/// takes its place.
pub open spec fn swap_removed(letters: Seq<u8>, i: int) -> Seq<u8> {
    if 0 <= i < letters.len() {
        letters.update(i, letters.last()).drop_last()
    } else {
        letters.drop_last()
    }
}

/// The guesses of the adaptive strategy from a state of the game on, where
/// `candidates` are the words that the secret word may still be, `letters`
/// those not yet guessed, and `hidden` the number of positions of the secret
/// word not yet revealed: none if nothing is hidden, else the letter that
/// most candidates hold, followed by the guesses from the state that this
/// guess leads to.
pub open spec fn adaptive_guesses(
    bucket: Seq<Seq<u8>>,
    secret: Seq<u8>,
    candidates: Set<usize>,
    letters: Seq<u8>,
    hidden: int,
) -> Seq<u8>
    decreases letters.len(),
{
    if hidden <= 0 || letters.len() == 0 {
        Seq::empty()
    } else {
        let i = last_best(bucket, candidates, letters);
        seq![letters[i]] + adaptive_guesses(
            bucket,
            secret,
            kept(bucket, secret, candidates, letters[i]),
            swap_removed(letters, i),
            hidden - positions(secret, letters[i]).len(),
        )
    }
}

/// The letter to guess is held by as many candidates as any letter left,
/// and by more than any that comes after it.
pub proof fn lemma_last_best(bucket: Seq<Seq<u8>>, candidates: Set<usize>, letters: Seq<u8>)
    requires
        letters.len() > 0,
    ensures
        0 <= last_best(bucket, candidates, letters) < letters.len(),
        forall|j: int|
            0 <= j < letters.len() ==> holders(bucket, candidates, #[trigger] letters[j])
                <= holders(
                bucket,
                candidates,
                letters[last_best(bucket, candidates, letters)],
            ),
        forall|j: int|
            last_best(bucket, candidates, letters) < j < letters.len() ==> holders(
                bucket,
                candidates,
                #[trigger] letters[j],
            ) < holders(bucket, candidates, letters[last_best(bucket, candidates, letters)]),
    decreases letters.len(),
{
    if letters.len() > 1 {
        let front = letters.drop_last();
        lemma_last_best(bucket, candidates, front);
        let best = last_best(bucket, candidates, letters);
        assert forall|j: int| 0 <= j < letters.len() implies holders(
            bucket,
            candidates,
            #[trigger] letters[j],
        ) <= holders(bucket, candidates, letters[best]) by {
            if j < front.len() {
                assert(front[j] == letters[j]);
            }
        }
        assert forall|j: int| best < j < letters.len() implies holders(
            bucket,
            candidates,
            #[trigger] letters[j],
        ) < holders(bucket, candidates, letters[best]) by {
            if j < front.len() {
                assert(front[j] == letters[j]);
            }
        }
    }
}

/// The first `count` indices are `count` many.
pub proof fn lemma_all_candidates(count: nat)
    requires
        count <= usize::MAX,
    ensures
        all_candidates(count).finite(),
        all_candidates(count).len() == count,
    decreases count,
{
    if count == 0 {
        assert(all_candidates(count) =~= Set::empty());
    } else {
        lemma_all_candidates((count - 1) as nat);
        assert(all_candidates(count) =~= all_candidates((count - 1) as nat).insert(
            (count - 1) as usize,
        ));
    }
}

/// The candidates are indices into the bucket, and finitely many.
pub proof fn lemma_narrowed_is_finite(bucket: Seq<Seq<u8>>, secret: Seq<u8>, guesses: Seq<u8>)
    requires
        bucket.len() <= usize::MAX,
    ensures
        narrowed(bucket, secret, guesses).finite(),
        narrowed(bucket, secret, guesses).len() <= bucket.len(),
        narrowed(bucket, secret, Seq::empty()) == all_candidates(bucket.len()),
{
    lemma_all_candidates(bucket.len());
    vstd::set_lib::lemma_len_subset(
        narrowed(bucket, secret, guesses),
        all_candidates(bucket.len()),
    );
    assert(narrowed(bucket, secret, Seq::empty()) =~= all_candidates(bucket.len()));
}

/// The secret word fits every report about itself, so it stays a candidate
/// whatever is guessed: the candidates never run out.
pub proof fn lemma_narrowed_keeps_secret(bucket: Seq<Seq<u8>>, idx: usize, guesses: Seq<u8>)
    requires
        idx < bucket.len(),
        bucket[idx as int].len() <= 256,
    ensures
        narrowed(bucket, bucket[idx as int], guesses).contains(idx),
{
    let secret = bucket[idx as int];
    assert forall|k: int| 0 <= k < guesses.len() implies matches_report(
        secret,
        #[trigger] guesses[k],
        positions(secret, guesses[k]),
    ) by {
        lemma_positions(secret, guesses[k]);
    }
}

/// One more guess keeps those of the candidates that fit its report, so the
/// candidates after it are among those before it, and no more.
pub proof fn lemma_narrowed_shrinks(
    bucket: Seq<Seq<u8>>,
    secret: Seq<u8>,
    guesses: Seq<u8>,
    letter: u8,
)
    requires
        bucket.len() <= usize::MAX,
    ensures
        narrowed(bucket, secret, guesses.push(letter)) == kept(
            bucket,
            secret,
            narrowed(bucket, secret, guesses),
            letter,
        ),
        narrowed(bucket, secret, guesses.push(letter)).subset_of(
            narrowed(bucket, secret, guesses),
        ),
        narrowed(bucket, secret, guesses.push(letter)).len() <= narrowed(
            bucket,
            secret,
            guesses,
        ).len(),
{
    let before = narrowed(bucket, secret, guesses);
    let longer = guesses.push(letter);
    let after = narrowed(bucket, secret, longer);
    assert forall|c: usize| after.contains(c) implies kept(bucket, secret, before, letter).contains(
        c,
    ) by {
        assert forall|k: int| 0 <= k < guesses.len() implies matches_report(
            bucket[c as int],
            #[trigger] guesses[k],
            positions(secret, guesses[k]),
        ) by {
            assert(longer[k] == guesses[k]);
        }
        assert(longer[guesses.len() as int] == letter);
    }
    assert forall|c: usize| kept(bucket, secret, before, letter).contains(c) implies after.contains(
        c,
    ) by {
        assert forall|k: int| 0 <= k < longer.len() implies matches_report(
            bucket[c as int],
            #[trigger] longer[k],
            positions(secret, longer[k]),
        ) by {
            if k < guesses.len() {
                assert(longer[k] == guesses[k]);
            }
        }
    }
    assert(after =~= kept(bucket, secret, before, letter));
    lemma_narrowed_is_finite(bucket, secret, guesses);
    vstd::set_lib::lemma_len_subset(after, before);
}

/// Once every letter of the secret word was guessed, a candidate has the
/// letters of the secret word.
pub proof fn lemma_narrowed_when_revealed(bucket: Seq<Seq<u8>>, idx: usize, guesses: Seq<u8>)
    requires
        idx < bucket.len(),
        forall|c: int| 0 <= c < bucket.len() ==> (#[trigger] bucket[c]).len() == bucket[idx as int].len(),
        bucket[idx as int].len() <= 256,
        forall|p: int|
            0 <= p < bucket[idx as int].len() ==> guesses.contains(#[trigger] bucket[idx as int][p]),
    ensures
        forall|c: usize|
            narrowed(bucket, bucket[idx as int], guesses).contains(c) ==> #[trigger] bucket[c as int]
                == bucket[idx as int],
{
    let secret = bucket[idx as int];
    assert forall|c: usize| narrowed(bucket, secret, guesses).contains(c) implies #[trigger] bucket[c as int]
        == secret by {
        let word = bucket[c as int];
        assert forall|p: int| 0 <= p < word.len() implies word[p] == secret[p] by {
            let x = secret[p];
            let k = choose|k: int| 0 <= k < guesses.len() && guesses[k] == x;
            assert(matches_report(word, guesses[k], positions(secret, guesses[k])));
            lemma_positions(secret, x);
            assert(positions(secret, x).contains(p as u8));
        }
        assert(word =~= secret);
    }
}

/// Once at most one letter is left to guess, a candidate has the letters of
/// the secret word. So if no other word of the bucket has them, the secret
/// word is the one candidate left.
pub proof fn lemma_narrowed_to_one(bucket: Seq<Seq<u8>>, idx: usize, guesses: Seq<u8>)
    requires
        idx < bucket.len(),
        forall|c: int, p: int|
            0 <= c < bucket.len() && 0 <= p < bucket[c].len() ==> is_letter(
                #[trigger] bucket[c][p],
            ),
        forall|c: int| 0 <= c < bucket.len() ==> (#[trigger] bucket[c]).len() == bucket[idx as int].len(),
        bucket[idx as int].len() <= 256,
        forall|c: int| 0 <= c < bucket.len() && #[trigger] bucket[c] == bucket[idx as int] ==> c == idx,
        forall|x: u8, y: u8|
            is_letter(x) && is_letter(y) && !guesses.contains(x) && !guesses.contains(y) ==> x
                == y,
    ensures
        narrowed(bucket, bucket[idx as int], guesses) == set![idx],
{
    let secret = bucket[idx as int];
    let left = narrowed(bucket, secret, guesses);
    lemma_narrowed_keeps_secret(bucket, idx, guesses);
    assert forall|c: usize| left.contains(c) implies c == idx by {
        let word = bucket[c as int];
        assert forall|p: int| 0 <= p < word.len() implies word[p] == secret[p] by {
            let x = secret[p];
            let y = word[p];
            assert(is_letter(x) && is_letter(y));
            if guesses.contains(x) {
                let k = choose|k: int| 0 <= k < guesses.len() && guesses[k] == x;
                assert(matches_report(word, guesses[k], positions(secret, guesses[k])));
                lemma_positions(secret, x);
                assert(positions(secret, x).contains(p as u8));
            } else if guesses.contains(y) {
                let k = choose|k: int| 0 <= k < guesses.len() && guesses[k] == y;
                assert(matches_report(word, guesses[k], positions(secret, guesses[k])));
                lemma_positions(secret, y);
                assert(positions(secret, y).contains(p as u8));
                let j = choose|j: int|
                    0 <= j < positions(secret, y).len() && positions(secret, y)[j] == p as u8;
                assert(secret[positions(secret, y)[j] as int] == y);
            }
        }
        assert(word =~= secret);
    }
    assert(left =~= set![idx]);
}

/// After 25 guesses that are letters, none repeated, the secret word is the
/// one candidate left, if no other word of the bucket has its letters.
pub proof fn lemma_narrowed_after_25(bucket: Seq<Seq<u8>>, idx: usize, guesses: Seq<u8>)
    requires
        idx < bucket.len(),
        forall|c: int, p: int|
            0 <= c < bucket.len() && 0 <= p < bucket[c].len() ==> is_letter(
                #[trigger] bucket[c][p],
            ),
        forall|c: int| 0 <= c < bucket.len() ==> (#[trigger] bucket[c]).len() == bucket[idx as int].len(),
        bucket[idx as int].len() <= 256,
        forall|c: int| 0 <= c < bucket.len() && #[trigger] bucket[c] == bucket[idx as int] ==> c == idx,
        distinct_letters(guesses),
        guesses.len() >= 25,
    ensures
        narrowed(bucket, bucket[idx as int], guesses) == set![idx],
        narrowed(bucket, bucket[idx as int], guesses).len() == 1,
{
    lemma_letters_left(guesses);
    lemma_narrowed_to_one(bucket, idx, guesses);
}

proof fn lemma_holders_one_more(
    bucket: Seq<Seq<u8>>,
    candidates: Set<usize>,
    c: usize,
    letter: u8,
)
    requires
        candidates.finite(),
        !candidates.contains(c),
    ensures
        holders(bucket, candidates, letter) <= candidates.len(),
        holders(bucket, candidates.insert(c), letter) == holders(bucket, candidates, letter)
            + if bucket[c as int].contains(letter) {
            1nat
        } else {
            0nat
        },
{
    let holds = |c: usize| bucket[c as int].contains(letter);
    candidates.lemma_len_filter(holds);
    if bucket[c as int].contains(letter) {
        assert(candidates.insert(c).filter(holds) =~= candidates.filter(holds).insert(c));
    } else {
        assert(candidates.insert(c).filter(holds) =~= candidates.filter(holds));
    }
}

proof fn lemma_one_more_key(keys: Seq<usize>, done: int)
    requires
        0 <= done < keys.len(),
        keys.no_duplicates(),
    ensures
        keys.take(done).to_set().finite(),
        !keys.take(done).to_set().contains(keys[done]),
        keys.take(done + 1).to_set() == keys.take(done).to_set().insert(keys[done]),
{
    let key = keys[done];
    let shorter = keys.take(done);
    let longer = keys.take(done + 1);
    vstd::seq_lib::seq_to_set_is_finite(shorter);
    if shorter.to_set().contains(key) {
        let j = choose|j: int| 0 <= j < shorter.len() && shorter[j] == key;
        assert(keys[j] == keys[done]);
    }
    assert forall|x: usize| longer.to_set().contains(x) <==> shorter.to_set().insert(key).contains(
        x,
    ) by {
        if longer.to_set().contains(x) {
            let j = choose|j: int| 0 <= j < longer.len() && longer[j] == x;
            if j < shorter.len() {
                assert(shorter[j] == x);
            }
        }
        if shorter.to_set().contains(x) {
            let j = choose|j: int| 0 <= j < shorter.len() && shorter[j] == x;
            assert(longer[j] == x);
        }
        if x == key {
            assert(longer[shorter.len() as int] == x);
        }
    }
    assert(longer.to_set() =~= shorter.to_set().insert(key));
}

proof fn lemma_swap_removed(letters: Seq<u8>, i: int)
    requires
        letters.no_duplicates(),
        0 <= i < letters.len(),
    ensures
        swap_removed(letters, i).len() == letters.len() - 1,
        swap_removed(letters, i).no_duplicates(),
        forall|x: u8|
            swap_removed(letters, i).contains(x) <==> letters.contains(x) && x != letters[i],
{
    let rest = swap_removed(letters, i);
    let last = letters.len() - 1;
    assert forall|x: u8| letters.contains(x) && x != letters[i] implies rest.contains(x) by {
        let j = choose|j: int| 0 <= j < letters.len() && letters[j] == x;
        if j == last {
            assert(rest[i] == x);
        } else {
            assert(rest[j] == x);
        }
    }
    assert forall|x: u8| rest.contains(x) implies letters.contains(x) && x != letters[i] by {
        let j = choose|j: int| 0 <= j < rest.len() && rest[j] == x;
        if j == i {
            assert(letters[last] == x);
        } else {
            assert(letters[j] == x);
        }
    }
}

/// The members of a hash set in the order in which it hands them out.
spec fn members(set: &HashSet<usize>) -> Seq<usize> {
    into_iter_hash_keys(spec_hash_keys_iter(set))
}

/// Whether `position` is among those reported.
fn reported(report: &Vec<u8>, position: u8) -> (found: bool)
    ensures
        found == report@.contains(position),
{
    let mut k: usize = 0;
    while k < report.len()
        invariant
            k <= report@.len(),
            forall|j: int| 0 <= j < k ==> report@[j] != position,
        decreases report@.len() - k,
    {
        if report[k] == position {
            return true;
        }
        k += 1;
    }
    false
}

/// Whether the word has the letter at the reported positions and at no other.
fn fits(word: &[u8], letter: u8, report: &Vec<u8>) -> (ok: bool)
    requires
        word@.len() <= 256,
    ensures
        ok == matches_report(word@, letter, report@),
{
    let mut p: usize = 0;
    while p < word.len()
        invariant
            p <= word@.len() <= 256,
            forall|q: int|
                0 <= q < p ==> (#[trigger] word@[q] == letter <==> report@.contains(q as u8)),
        decreases word@.len() - p,
    {
        let does_match = word[p] == letter;
        let should_match = reported(report, p as u8);
        if does_match != should_match {
            assert(!(word@[p as int] == letter <==> report@.contains(p as u8)));
            return false;
        }
        p += 1;
    }
    true
}

/// For each letter, the number of candidate words that hold it. A letter
/// counts once for a word, however often it stands in it.
fn letter_frequencies(candidates: &HashSet<usize>, words: &WordList, word_len: u8) -> (frequencies:
    [usize; 26])
    requires
        words.wf(),
        0 < word_len < MAX_WORD_LEN,
        candidates@.finite(),
        forall|c: usize| candidates@.contains(c) ==> c < words@[word_len as int].len(),
    ensures
        forall|l: int|
            0 <= l < 26 ==> #[trigger] frequencies@[l] == holders(
                words@[word_len as int],
                candidates@,
                (97 + l) as u8,
            ),
{
    broadcast use vstd::std_specs::hash::group_hash_axioms;

    let ghost bucket = words@[word_len as int];
    let mut frequencies: [usize; 26] = [0; 26];
    let ghost keys = members(candidates);
    let ghost mut done: int = 0;
    proof {
        assert(spec_hash_set_len(candidates) == candidates@.len());
        assert(keys.take(0).to_set() =~= Set::<usize>::empty());
        assert forall|l: int| 0 <= l < 26 implies #[trigger] frequencies@[l] == holders(
            bucket,
            Set::<usize>::empty(),
            (97 + l) as u8,
        ) by {
            assert(Set::<usize>::empty().filter(
                |c: usize| bucket[c as int].contains((97 + l) as u8),
            ) =~= Set::<usize>::empty());
        }
    }
    for word in it: candidates.iter()
        invariant
            words.wf(),
            0 < word_len < MAX_WORD_LEN,
            bucket == words@[word_len as int],
            candidates@.finite(),
            forall|c: usize| candidates@.contains(c) ==> c < bucket.len(),
            keys == it.seq().unref(),
            done == it.index(),
            keys.to_set() == candidates@,
            keys.no_duplicates(),
            keys.len() == candidates@.len(),
            keys.len() <= usize::MAX,
            forall|l: int|
                0 <= l < 26 ==> #[trigger] frequencies@[l] == holders(
                    bucket,
                    keys.take(done).to_set(),
                    (97 + l) as u8,
                ),
    {
        let ghost seen = keys.take(done).to_set();
        let ghost base = frequencies@;
        proof {
            assert(keys[done] == *word);
            assert(keys.to_set().contains(*word));
            vstd::seq_lib::seq_to_set_is_finite(keys.take(done));
            keys.take(done).unique_seq_to_set();
            assert forall|l: int| 0 <= l < 26 implies #[trigger] base[l] < usize::MAX by {
                seen.lemma_len_filter(|c: usize| bucket[c as int].contains((97 + l) as u8));
            }
        }
        let letters = words.get(Word { len: word_len, idx: *word });
        // Make sure not to double-count letters.
        let mut letter_appearances: [bool; 26] = [false; 26];
        let mut p: usize = 0;
        while p < letters.len()
            invariant
                p <= letters@.len(),
                base.len() == 26,
                forall|q: int| 0 <= q < letters@.len() ==> is_letter(#[trigger] letters@[q]),
                forall|l: int|
                    0 <= l < 26 ==> (#[trigger] letter_appearances@[l] <==> letters@.take(
                        p as int,
                    ).contains((97 + l) as u8)),
                forall|l: int|
                    0 <= l < 26 ==> #[trigger] frequencies@[l] == base[l] + if letter_appearances@[l] {
                        1int
                    } else {
                        0int
                    },
                forall|l: int| 0 <= l < 26 ==> #[trigger] base[l] < usize::MAX,
            decreases letters@.len() - p,
        {
            let idx = (letters[p] - 97) as usize;
            if !letter_appearances[idx] {
                letter_appearances[idx] = true;
                frequencies[idx] += 1;
            }
            proof {
                let shorter = letters@.take(p as int);
                let longer = letters@.take(p + 1);
                assert(longer =~= shorter.push(letters@[p as int]));
                assert forall|l: int| 0 <= l < 26 implies (#[trigger] letter_appearances@[l]
                    <==> longer.contains((97 + l) as u8)) by {
                    let x = (97 + l) as u8;
                    if longer.contains(x) {
                        let j = choose|j: int| 0 <= j < longer.len() && longer[j] == x;
                        if j < p {
                            assert(shorter[j] == x);
                        }
                    }
                    if shorter.contains(x) {
                        let j = choose|j: int| 0 <= j < shorter.len() && shorter[j] == x;
                        assert(longer[j] == x);
                    }
                    if l == idx {
                        assert(longer[p as int] == x);
                    }
                }
            }
            p += 1;
        }
        proof {
            let word = *word;
            let more = keys.take(done + 1).to_set();
            assert(letters@.take(p as int) =~= letters@);
            lemma_one_more_key(keys, done);
            assert forall|l: int| 0 <= l < 26 implies #[trigger] frequencies@[l] == holders(
                bucket,
                more,
                (97 + l) as u8,
            ) by {
                lemma_holders_one_more(bucket, seen, word, (97 + l) as u8);
            }
            done = done + 1;
        }
    }
    proof {
        assert(keys.take(done) =~= keys);
    }
    frequencies
}

/// The index of the letter that most candidates hold, and of the last such
/// where several are held by as many.
fn most_held(
    letters: &Vec<u8>,
    frequencies: &[usize; 26],
    Ghost(bucket): Ghost<Seq<Seq<u8>>>,
    Ghost(candidates): Ghost<Set<usize>>,
) -> (best: usize)
    requires
        letters@.len() > 0,
        forall|i: int| 0 <= i < letters@.len() ==> is_letter(#[trigger] letters@[i]),
        forall|l: int|
            0 <= l < 26 ==> #[trigger] frequencies@[l] == holders(
                bucket,
                candidates,
                (97 + l) as u8,
            ),
    ensures
        best < letters@.len(),
        best == last_best(bucket, candidates, letters@),
{
    let mut best: usize = 0;
    let mut i: usize = 1;
    while i < letters.len()
        invariant
            1 <= i <= letters@.len(),
            best < i,
            best == last_best(bucket, candidates, letters@.take(i as int)),
            forall|i: int| 0 <= i < letters@.len() ==> is_letter(#[trigger] letters@[i]),
            forall|l: int|
                0 <= l < 26 ==> #[trigger] frequencies@[l] == holders(
                    bucket,
                    candidates,
                    (97 + l) as u8,
                ),
        decreases letters@.len() - i,
    {
        proof {
            let longer = letters@.take(i + 1);
            assert(longer.drop_last() =~= letters@.take(i as int));
            assert(is_letter(letters@[i as int]) && is_letter(letters@[best as int]));
            assert(frequencies@[letters@[i as int] - 97] == holders(
                bucket,
                candidates,
                letters@[i as int],
            ));
            assert(frequencies@[letters@[best as int] - 97] == holders(
                bucket,
                candidates,
                letters@[best as int],
            ));
        }
        if frequencies[(letters[i] - 97) as usize] >= frequencies[(letters[best] - 97) as usize] {
            best = i;
        }
        i += 1;
    }
    proof {
        assert(letters@.take(i as int) =~= letters@);
    }
    best
}

/// Keep only the candidates that have the letter in only the reported
/// positions.
fn narrow(
    candidates: &HashSet<usize>,
    words: &WordList,
    word_len: u8,
    letter: u8,
    report: &Vec<u8>,
) -> (left: HashSet<usize>)
    requires
        words.wf(),
        0 < word_len < MAX_WORD_LEN,
        forall|c: usize| candidates@.contains(c) ==> c < words@[word_len as int].len(),
    ensures
        left@ == fitting(words@[word_len as int], candidates@, letter, report@),
{
    broadcast use vstd::std_specs::hash::group_hash_axioms;

    let ghost bucket = words@[word_len as int];
    let ghost keys = members(candidates);
    let ghost mut done: int = 0;
    let mut left: HashSet<usize> = HashSet::new();
    proof {
        assert(left@ =~= fitting(bucket, keys.take(0).to_set(), letter, report@));
    }
    for word in it: candidates.iter()
        invariant
            words.wf(),
            0 < word_len < MAX_WORD_LEN,
            bucket == words@[word_len as int],
            forall|c: usize| candidates@.contains(c) ==> c < bucket.len(),
            keys == it.seq().unref(),
            done == it.index(),
            keys.to_set() == candidates@,
            keys.no_duplicates(),
            left@ == fitting(bucket, keys.take(done).to_set(), letter, report@),
    {
        proof {
            assert(keys[done] == *word);
            assert(keys.to_set().contains(*word));
        }
        let letters = words.get(Word { len: word_len, idx: *word });
        let fit = fits(letters, letter, report);
        if fit {
            left.insert(*word);
        }
        proof {
            lemma_one_more_key(keys, done);
            assert(left@ =~= fitting(bucket, keys.take(done + 1).to_set(), letter, report@));
            done = done + 1;
        }
    }
    proof {
        assert(keys.take(done) =~= keys);
    }
    left
}

/// A strategy that uses the information returned by the executioner
/// to guess letters in the conjectured optimal order.
///
/// Specifically, it guesses whichever letter appears most often in
/// the set of remaining possible words.
pub struct EpicStrategy {
    candidates: HashSet<usize>,
    remaining_letters: Vec<u8>,
    idxs_buf: Vec<u8>,
}

impl EpicStrategy {
    /// The indices, among the words of the secret word's length, of the words
    /// that the secret word may still be.
    pub closed spec fn candidates(&self) -> Set<usize> {
        self.candidates@
    }

    /// The letters not yet guessed, in the order in which they are kept.
    pub closed spec fn untried(&self) -> Seq<u8> {
        self.remaining_letters@
    }

    /// The positions that the last guess reported.
    pub closed spec fn report(&self) -> Seq<u8> {
        self.idxs_buf@
    }

    /// A strategy that has not played yet.
    pub fn new() -> (strategy: Self)
        ensures
            strategy.candidates() == Set::<usize>::empty(),
            strategy.untried() == Seq::<u8>::empty(),
            strategy.report() == Seq::<u8>::empty(),
    {
        broadcast use vstd::std_specs::hash::group_hash_axioms;

        Self { candidates: HashSet::new(), remaining_letters: Vec::new(), idxs_buf: Vec::new() }
    }
}

impl Strategy for EpicStrategy {
    /// The strategy plays for every word.
    open spec fn admits(words: &WordList, secret: Word) -> bool {
        true
    }

    /// The guesses are those of the adaptive strategy, starting from all
    /// words of the secret word's length, the letters in alphabetical order,
    /// and the whole word hidden.
    open spec fn may_play(words: &WordList, secret: Word, guesses: Seq<u8>) -> bool {
        guesses == adaptive_guesses(
            words@[secret.len as int],
            words.letters(secret),
            all_candidates(words@[secret.len as int].len()),
            alphabet(),
            words.letters(secret).len() as int,
        )
    }

    /// Guess, time after time, the letter that most of the remaining
    /// candidates hold, and keep the candidates that fit the report, until
    /// the word is revealed. The candidates left are the words that fit
    /// every report: the secret word alone, if it stands once in the list.
    /// The strategy keeps the report of its last guess. The generator is not
    /// used.
    fn play<E: Executioner>(&mut self, executioner: &mut E, words: &WordList, rng: &mut StdRng)
        ensures
            revealed(
                words.letters(old(executioner).secret()),
                guesses_since(*old(executioner), *final(executioner)),
            ) == old(executioner).secret().len,
            final(self).candidates() == narrowed(
                words@[old(executioner).secret().len as int],
                words.letters(old(executioner).secret()),
                guesses_since(*old(executioner), *final(executioner)),
            ),
            words.occurs_once(old(executioner).secret()) ==> final(self).candidates()
                == set![old(executioner).secret().idx],
            letters_left(
                final(self).untried(),
                guesses_since(*old(executioner), *final(executioner)),
            ),
            guesses_since(*old(executioner), *final(executioner)).len() > 0,
            final(self).report() == positions(
                words.letters(old(executioner).secret()),
                guesses_since(*old(executioner), *final(executioner)).last(),
            ),
            *final(rng) == *old(rng),
    {
        broadcast use vstd::std_specs::hash::group_hash_axioms;

        let ghost before = *executioner;
        let ghost secret = before.secret();
        let ghost bucket = words@[secret.len as int];
        let ghost word = words.letters(secret);

        fill_alphabet(&mut self.remaining_letters);

        // Start by considering all possible words with the specified length.
        let word_len = executioner.word_len();
        self.candidates.clear();
        let count = words.count_with_length(word_len);
        let mut c: usize = 0;
        assert(self.candidates@ =~= all_candidates(0));
        while c < count
            invariant
                c <= count,
                self.candidates@ == all_candidates(c as nat),
                self.remaining_letters@ == alphabet(),
            decreases count - c,
        {
            self.candidates.insert(c);
            assert(all_candidates(c as nat).insert(c) =~= all_candidates((c + 1) as nat));
            c += 1;
        }

        let ghost full = adaptive_guesses(
            bucket,
            word,
            all_candidates(bucket.len()),
            alphabet(),
            word.len() as int,
        );
        let ghost mut guessed = Seq::<u8>::empty();
        let mut guessed_letters: u8 = 0;
        proof {
            lemma_alphabet();
            lemma_narrowed_is_finite(bucket, word, guessed);
            assert(before.asked() + guessed =~= before.asked());
            assert(full =~= guessed + full);
        }
        while guessed_letters < word_len
            invariant
                words.wf(),
                words.has(secret),
                secret == before.secret(),
                word_len == secret.len,
                bucket == words@[secret.len as int],
                bucket.len() <= usize::MAX,
                word == words.letters(secret),
                before.misses() + 26 <= usize::MAX,
                follows(before, *executioner, words, guessed),
                distinct_letters(guessed),
                letters_left(self.remaining_letters@, guessed),
                guessed_letters == revealed(word, guessed),
                guessed_letters <= word_len,
                guessed.len() > 0 ==> self.idxs_buf@ == positions(word, guessed.last()),
                guessed.len() == 0 ==> guessed_letters == 0,
                self.candidates@ == narrowed(bucket, word, guessed),
                full == guessed + adaptive_guesses(
                    bucket,
                    word,
                    self.candidates@,
                    self.remaining_letters@,
                    word_len - guessed_letters,
                ),
            decreases self.remaining_letters@.len(),
        {
            let ghost candidates = self.candidates@;
            let ghost letters = self.remaining_letters@;
            proof {
                lemma_narrowed_is_finite(bucket, word, guessed);
                if letters.len() == 0 {
                    assert forall|p: int| 0 <= p < word.len() implies guessed.contains(
                        #[trigger] word[p],
                    ) by {
                        assert(is_letter(word[p]));
                    }
                    lemma_revealed_bound(word, guessed);
                }
            }
            // Identify the frequencies with which each letter appears in the candidate words.
            let frequencies = letter_frequencies(&self.candidates, words, word_len);
            // Identify the letter that hasn't been guessed yet but which appears in the most
            // words.
            let i = most_held(
                &self.remaining_letters,
                &frequencies,
                Ghost(bucket),
                Ghost(candidates),
            );
            let guess = self.remaining_letters.swap_remove(i);
            proof {
                lemma_swap_removed(letters, i as int);
                lemma_wrong_bound(word, guessed);
                assert(letters.contains(guess));
            }
            executioner.guess(words, guess, &mut self.idxs_buf);
            // Keep only the candidates that have that letter in only the specified positions.
            let left = narrow(&self.candidates, words, word_len, guess, &self.idxs_buf);
            self.candidates = left;
            proof {
                let longer = guessed.push(guess);
                lemma_narrowed_shrinks(bucket, word, guessed, guess);
                lemma_one_more_guess(word, guessed, guess);
                lemma_positions(word, guess);
                assert(before.asked() + longer =~= (before.asked() + guessed).push(guess));
                assert forall|x: u8| is_letter(x) implies (self.remaining_letters@.contains(x)
                    <==> !longer.contains(x)) by {
                    if longer.contains(x) {
                        let j = choose|j: int| 0 <= j < longer.len() && longer[j] == x;
                        if j < guessed.len() {
                            assert(guessed[j] == x);
                        }
                    }
                    if guessed.contains(x) {
                        let j = choose|j: int| 0 <= j < guessed.len() && guessed[j] == x;
                        assert(longer[j] == x);
                    }
                    if x == guess {
                        assert(longer[guessed.len() as int] == x);
                    }
                }
                assert forall|j: int| 0 <= j < self.remaining_letters@.len() implies is_letter(
                    #[trigger] self.remaining_letters@[j],
                ) by {
                    assert(letters.contains(self.remaining_letters@[j]));
                    let k = choose|k: int|
                        0 <= k < letters.len() && letters[k] == self.remaining_letters@[j];
                    assert(is_letter(letters[k]));
                }
                lemma_revealed_bound(word, longer);
                let rest = adaptive_guesses(
                    bucket,
                    word,
                    self.candidates@,
                    self.remaining_letters@,
                    word_len - guessed_letters - positions(word, guess).len(),
                );
                assert(guessed + (seq![guess] + rest) =~= longer + rest);
                guessed = longer;
            }
            let occurences = self.idxs_buf.len() as u8;
            guessed_letters += occurences;
        }
        proof {
            assert(full =~= guessed);
            assert(guesses_since(before, *executioner) =~= guessed);
            lemma_revealed_bound(word, guessed);
            if words.occurs_once(secret) {
                lemma_narrowed_when_revealed(bucket, secret.idx, guessed);
                lemma_narrowed_keeps_secret(bucket, secret.idx, guessed);
                assert(self.candidates@ =~= set![secret.idx]);
            }
        }
    }
}

} // verus!
