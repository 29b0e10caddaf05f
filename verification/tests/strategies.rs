use hangman::{
    score_words, EpicStrategy, Executioner, HonestExecutioner, RandomStrategy, SimpleStrategy,
    Strategy, Word, WordList, OPTIMAL_ORDER,
};
use rand::rngs::StdRng;
use rand::RngCore;
use rand::SeedableRng;

const DICTIONARY: [&str; 60] = [
    "a", "i", "an", "at", "be", "do", "go", "he", "in", "it", "me", "no", "of", "on", "so", "to",
    "up", "we", "and", "bat", "car", "cat", "dog", "for", "hat", "jam", "net", "pig", "run",
    "sun", "the", "van", "zoo", "bird", "blue", "cake", "door", "fish", "game", "jazz", "king",
    "lamp", "moon", "quiz", "rain", "tree", "wolf", "apple", "bread", "chair", "house", "queen",
    "river", "stone", "water", "banana", "garden", "orange", "rhythm", "alphabet",
];

fn list_of(words: &[&str]) -> WordList {
    let mut list = WordList::new();
    for word in words {
        assert!(list.accepts(word));
        list.insert(word);
    }
    list
}

fn wrong_guesses_of<S: Strategy>(strategy: &mut S, words: &WordList, secret: Word, seed: u64) -> usize {
    let mut rng = StdRng::seed_from_u64(seed);
    let mut executioner = HonestExecutioner::init(secret, words);
    strategy.play(&mut executioner, words, &mut rng);
    executioner.wrong_guesses()
}

fn distinct_letters_of(word: &[u8]) -> usize {
    (b'a'..=b'z').filter(|letter| word.contains(letter)).count()
}

fn average(scores: &[(Word, usize)]) -> f64 {
    scores.iter().map(|(_, score)| *score as f64).sum::<f64>() / scores.len() as f64
}

#[test]
fn the_fixed_order_is_the_frequency_table() {
    assert_eq!(&OPTIMAL_ORDER, b"eiaorntslcupmdhygbfvkwzxqj");
    for letter in b'a'..=b'z' {
        assert_eq!(OPTIMAL_ORDER.iter().filter(|l| **l == letter).count(), 1);
    }
}

#[test]
fn simple_strategy_counts_the_letters_tried_in_vain() {
    let mut words = WordList::new();
    let e = words.insert("e");
    let cat = words.insert("cat");
    let car = words.insert("car");
    let bat = words.insert("bat");
    let j = words.insert("j");
    let jazz = words.insert("jazz");
    let mut strategy = SimpleStrategy::new();
    assert_eq!(wrong_guesses_of(&mut strategy, &words, e, 0), 0);
    assert_eq!(wrong_guesses_of(&mut strategy, &words, cat, 0), 7);
    assert_eq!(wrong_guesses_of(&mut strategy, &words, car, 0), 7);
    assert_eq!(wrong_guesses_of(&mut strategy, &words, bat, 0), 15);
    assert_eq!(wrong_guesses_of(&mut strategy, &words, j, 0), 25);
    assert_eq!(wrong_guesses_of(&mut strategy, &words, jazz, 0), 23);
}

#[test]
fn simple_strategy_adds_to_the_count_it_finds() {
    let mut words = WordList::new();
    let cat = words.insert("cat");
    let mut rng = StdRng::seed_from_u64(0);
    let mut executioner = HonestExecutioner::init(cat, &words);
    let mut idxs = Vec::new();
    executioner.guess(&words, b'z', &mut idxs);
    executioner.guess(&words, b'q', &mut idxs);
    SimpleStrategy::new().play(&mut executioner, &words, &mut rng);
    assert_eq!(executioner.wrong_guesses(), 2 + 7);
}

#[test]
fn simple_strategy_does_not_depend_on_the_seed() {
    let words = list_of(&DICTIONARY);
    let mut strategy = SimpleStrategy::new();
    let first = score_words(&mut strategy, &words, &mut StdRng::seed_from_u64(1));
    let second = score_words(&mut strategy, &words, &mut StdRng::seed_from_u64(987_654_321));
    assert_eq!(first, second);
}

#[test]
fn simple_strategy_leaves_the_generator_alone() {
    let words = list_of(&DICTIONARY);
    let mut used = StdRng::seed_from_u64(5);
    let mut fresh = StdRng::seed_from_u64(5);
    score_words(&mut SimpleStrategy::new(), &words, &mut used);
    score_words(&mut EpicStrategy::new(), &words, &mut used);
    assert_eq!(used.next_u64(), fresh.next_u64());
}

#[test]
fn a_word_of_all_letters_takes_no_wrong_guess() {
    let mut words = WordList::new();
    let all = words.insert("thequickbrownfxjmpsvlazydg");
    assert_eq!(distinct_letters_of(words.get(all)), 26);
    for seed in 0..20 {
        assert_eq!(wrong_guesses_of(&mut RandomStrategy::new(), &words, all, seed), 0);
    }
    assert_eq!(wrong_guesses_of(&mut SimpleStrategy::new(), &words, all, 0), 0);
    assert_eq!(wrong_guesses_of(&mut EpicStrategy::new(), &words, all, 0), 0);
}

#[test]
fn random_strategy_misses_no_more_than_the_letters_outside_the_word() {
    let words = list_of(&DICTIONARY);
    let mut strategy = RandomStrategy::new();
    for seed in 0..10 {
        for handle in words.iter() {
            let wrong = wrong_guesses_of(&mut strategy, &words, handle, seed);
            assert!(wrong <= 26 - distinct_letters_of(words.get(handle)));
        }
    }
}

#[test]
fn random_strategy_shuffles_the_letters() {
    let mut words = WordList::new();
    let a = words.insert("a");
    let mut strategy = RandomStrategy::new();
    let mut counts = Vec::new();
    for seed in 0..40 {
        counts.push(wrong_guesses_of(&mut strategy, &words, a, seed));
    }
    // In alphabetical order, taken from the end, `a` would come last each time.
    assert!(counts.iter().any(|count| *count != 25));
    assert!(counts.iter().any(|count| *count != counts[0]));
    assert!(counts.iter().all(|count| *count <= 25));
}

#[test]
fn random_strategy_repeats_itself_for_the_same_seed() {
    let words = list_of(&DICTIONARY);
    let first = score_words(&mut RandomStrategy::new(), &words, &mut StdRng::seed_from_u64(9));
    let second = score_words(&mut RandomStrategy::new(), &words, &mut StdRng::seed_from_u64(9));
    assert_eq!(first, second);
}

#[test]
fn epic_strategy_on_cat_car_bat() {
    let mut words = WordList::new();
    let cat = words.insert("cat");
    let car = words.insert("car");
    let bat = words.insert("bat");

    // Every one of the three has its `a` at position 1, so the most frequent
    // letter tells them apart in no way.
    let mut idxs = Vec::new();
    for secret in [cat, car, bat] {
        let mut executioner = HonestExecutioner::init(secret, &words);
        executioner.guess(&words, b'a', &mut idxs);
        assert_eq!(idxs, vec![1]);
    }
    let mut executioner = HonestExecutioner::init(cat, &words);
    executioner.guess(&words, b'a', &mut idxs);
    executioner.guess(&words, b't', &mut idxs);
    assert_eq!(idxs, vec![2]);
    assert_eq!(executioner.wrong_guesses(), 0);

    let mut strategy = EpicStrategy::new();
    assert_eq!(wrong_guesses_of(&mut strategy, &words, cat, 0), 0);
    assert_eq!(wrong_guesses_of(&mut strategy, &words, car, 0), 1);
    assert_eq!(wrong_guesses_of(&mut strategy, &words, bat, 0), 1);
}

#[test]
fn epic_strategy_misses_nothing_for_the_only_word_of_its_length() {
    let words = list_of(&["cat", "horse", "be", "an"]);
    let mut strategy = EpicStrategy::new();
    assert_eq!(wrong_guesses_of(&mut strategy, &words, Word { len: 3, idx: 0 }, 0), 0);
    assert_eq!(wrong_guesses_of(&mut strategy, &words, Word { len: 5, idx: 0 }, 0), 0);
}

#[test]
fn epic_strategy_misses_once_between_two_words() {
    let words = list_of(&["be", "an"]);
    let mut strategy = EpicStrategy::new();
    // Each of the four letters stands in one word; `n`, the last of them in
    // the alphabet, is guessed first, and what follows is known.
    assert_eq!(wrong_guesses_of(&mut strategy, &words, Word { len: 2, idx: 0 }, 0), 1);
    assert_eq!(wrong_guesses_of(&mut strategy, &words, Word { len: 2, idx: 1 }, 0), 0);
}

#[test]
fn epic_strategy_plays_for_a_word_that_stands_twice() {
    let words = list_of(&["cat", "cat", "car"]);
    assert!(!words.all_unique());
    let mut strategy = EpicStrategy::new();
    assert_eq!(wrong_guesses_of(&mut strategy, &words, Word { len: 3, idx: 0 }, 0), 0);
    assert_eq!(wrong_guesses_of(&mut strategy, &words, Word { len: 3, idx: 1 }, 0), 0);
    assert_eq!(wrong_guesses_of(&mut strategy, &words, Word { len: 3, idx: 2 }, 0), 1);
}

#[test]
fn epic_strategy_reveals_a_word_of_all_letters_without_a_miss() {
    let words = list_of(&["thequickbrownfxjmpsvlazydg", "abcdefghijklmnopqrstuvwxyz"]);
    let mut strategy = EpicStrategy::new();
    assert_eq!(wrong_guesses_of(&mut strategy, &words, Word { len: 26, idx: 0 }, 0), 0);
    assert_eq!(wrong_guesses_of(&mut strategy, &words, Word { len: 26, idx: 1 }, 0), 0);
}

#[test]
fn random_strategy_plays_along_a_given_order() {
    let mut words = WordList::new();
    let a = words.insert("a");
    let cat = words.insert("cat");
    let alphabet: Vec<u8> = (b'a'..=b'z').collect();
    let backwards: Vec<u8> = (b'a'..=b'z').rev().collect();
    let mut strategy = RandomStrategy::new();

    // The last letter of the order is guessed first.
    let mut executioner = HonestExecutioner::init(a, &words);
    strategy.play_order(alphabet.clone(), &mut executioner, &words);
    assert_eq!(executioner.wrong_guesses(), 25);

    let mut executioner = HonestExecutioner::init(a, &words);
    strategy.play_order(backwards.clone(), &mut executioner, &words);
    assert_eq!(executioner.wrong_guesses(), 0);

    // From `a` to `t` there are 20 letters, and `cat` holds 3 of them.
    let mut executioner = HonestExecutioner::init(cat, &words);
    strategy.play_order(backwards, &mut executioner, &words);
    assert_eq!(executioner.wrong_guesses(), 17);

    // From `z` down to `a` there are 26 letters, and `cat` holds 3 of them.
    let mut executioner = HonestExecutioner::init(cat, &words);
    strategy.play_order(alphabet, &mut executioner, &words);
    assert_eq!(executioner.wrong_guesses(), 23);
}

#[test]
fn random_strategy_along_the_fixed_order_is_the_simple_strategy() {
    let words = list_of(&DICTIONARY);
    let order: Vec<u8> = OPTIMAL_ORDER.iter().rev().copied().collect();
    let mut random = RandomStrategy::new();
    let mut simple = SimpleStrategy::new();
    for handle in words.iter() {
        let mut executioner = HonestExecutioner::init(handle, &words);
        random.play_order(order.clone(), &mut executioner, &words);
        assert_eq!(
            executioner.wrong_guesses(),
            wrong_guesses_of(&mut simple, &words, handle, 0)
        );
    }
}

#[test]
fn epic_strategy_misses_at_most_25_times() {
    let singles: Vec<String> = (b'a'..=b'z').map(|letter| (letter as char).to_string()).collect();
    let singles: Vec<&str> = singles.iter().map(|word| word.as_str()).collect();
    let words = list_of(&singles);
    let scores = score_words(&mut EpicStrategy::new(), &words, &mut StdRng::seed_from_u64(0));
    assert_eq!(scores.len(), 26);
    for (_, score) in &scores {
        assert!(*score <= 25);
    }
    // Each guess is some one-letter word: the word that the n-th guess
    // names took n - 1 wrong guesses.
    let mut sorted: Vec<usize> = scores.iter().map(|(_, score)| *score).collect();
    sorted.sort();
    let expected: Vec<usize> = (0..26).collect();
    assert_eq!(sorted, expected);
}

#[test]
fn epic_strategy_does_not_depend_on_the_seed() {
    let words = list_of(&DICTIONARY);
    let first = score_words(&mut EpicStrategy::new(), &words, &mut StdRng::seed_from_u64(1));
    let second = score_words(&mut EpicStrategy::new(), &words, &mut StdRng::seed_from_u64(2));
    assert_eq!(first, second);
}

#[test]
fn a_strategy_can_play_one_game_after_another() {
    let words = list_of(&DICTIONARY);
    let mut reused = EpicStrategy::new();
    for handle in words.iter() {
        let again = wrong_guesses_of(&mut reused, &words, handle, 0);
        let fresh = wrong_guesses_of(&mut EpicStrategy::new(), &words, handle, 0);
        assert_eq!(again, fresh);
    }
    let mut reused = SimpleStrategy::new();
    for handle in words.iter() {
        let again = wrong_guesses_of(&mut reused, &words, handle, 0);
        let fresh = wrong_guesses_of(&mut SimpleStrategy::new(), &words, handle, 0);
        assert_eq!(again, fresh);
    }
}

#[test]
fn score_words_scores_every_word_in_the_order_of_iter() {
    let words = list_of(&DICTIONARY);
    let scores = score_words(&mut SimpleStrategy::new(), &words, &mut StdRng::seed_from_u64(0));
    let handles: Vec<Word> = scores.iter().map(|(handle, _)| *handle).collect();
    assert_eq!(handles, words.iter());
    let mut strategy = SimpleStrategy::new();
    for (handle, score) in scores {
        assert_eq!(score, wrong_guesses_of(&mut strategy, &words, handle, 0));
    }
}

#[test]
fn score_words_of_an_empty_list_is_empty() {
    let words = WordList::new();
    let scores = score_words(&mut RandomStrategy::new(), &words, &mut StdRng::seed_from_u64(0));
    assert!(scores.is_empty());
}

#[test]
fn no_game_takes_more_than_25_wrong_guesses() {
    let words = list_of(&DICTIONARY);
    let mut rng = StdRng::seed_from_u64(77);
    for (_, score) in score_words(&mut RandomStrategy::new(), &words, &mut rng) {
        assert!(score <= 25);
    }
    for (_, score) in score_words(&mut SimpleStrategy::new(), &words, &mut rng) {
        assert!(score <= 25);
    }
    for (_, score) in score_words(&mut EpicStrategy::new(), &words, &mut rng) {
        assert!(score <= 25);
    }
}

#[test]
fn guessing_at_random_is_worse_on_average() {
    let words = list_of(&DICTIONARY);
    assert!(words.all_unique());
    let mut rng = StdRng::seed_from_u64(4242);
    let mut random = 0.0;
    let rounds = 20;
    for _ in 0..rounds {
        random += average(&score_words(&mut RandomStrategy::new(), &words, &mut rng));
    }
    let random = random / rounds as f64;
    let simple = average(&score_words(&mut SimpleStrategy::new(), &words, &mut rng));
    let epic = average(&score_words(&mut EpicStrategy::new(), &words, &mut rng));
    assert!(random > simple, "random {} against simple {}", random, simple);
    assert!(random > epic, "random {} against epic {}", random, epic);
}
