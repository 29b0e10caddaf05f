use hangman::{Executioner, HonestExecutioner, WordList};
use rand::rngs::StdRng;
use rand::SeedableRng;

#[test]
fn a_fresh_executioner_has_counted_nothing() {
    let mut words = WordList::new();
    let banana = words.insert("banana");
    let executioner = HonestExecutioner::init(banana, &words);
    assert_eq!(executioner.wrong_guesses(), 0);
    assert_eq!(executioner.word_len(), 6);
}

#[test]
fn guess_reports_the_positions_in_ascending_order() {
    let mut words = WordList::new();
    let banana = words.insert("banana");
    let mut executioner = HonestExecutioner::init(banana, &words);
    let mut idxs = Vec::new();
    executioner.guess(&words, b'a', &mut idxs);
    assert_eq!(idxs, vec![1, 3, 5]);
    executioner.guess(&words, b'n', &mut idxs);
    assert_eq!(idxs, vec![2, 4]);
    executioner.guess(&words, b'b', &mut idxs);
    assert_eq!(idxs, vec![0]);
    assert_eq!(executioner.wrong_guesses(), 0);
}

#[test]
fn guess_overwrites_what_the_buffer_held() {
    let mut words = WordList::new();
    let cat = words.insert("cat");
    let mut executioner = HonestExecutioner::init(cat, &words);
    let mut idxs = vec![9, 9, 9, 9];
    executioner.guess(&words, b't', &mut idxs);
    assert_eq!(idxs, vec![2]);
    executioner.guess(&words, b'z', &mut idxs);
    assert!(idxs.is_empty());
}

#[test]
fn a_guess_without_occurrence_counts_as_one_wrong_guess() {
    let mut words = WordList::new();
    let cat = words.insert("cat");
    let mut executioner = HonestExecutioner::init(cat, &words);
    let mut idxs = Vec::new();
    executioner.guess(&words, b'x', &mut idxs);
    assert!(idxs.is_empty());
    assert_eq!(executioner.wrong_guesses(), 1);
    executioner.guess(&words, b'c', &mut idxs);
    assert_eq!(executioner.wrong_guesses(), 1);
    executioner.guess(&words, b'y', &mut idxs);
    assert_eq!(executioner.wrong_guesses(), 2);
}

#[test]
fn a_repeated_guess_is_answered_and_counted_again() {
    let mut words = WordList::new();
    let cat = words.insert("cat");
    let mut executioner = HonestExecutioner::init(cat, &words);
    let mut idxs = Vec::new();
    executioner.guess(&words, b'q', &mut idxs);
    executioner.guess(&words, b'q', &mut idxs);
    executioner.guess(&words, b'q', &mut idxs);
    assert_eq!(executioner.wrong_guesses(), 3);
    executioner.guess(&words, b'a', &mut idxs);
    assert_eq!(idxs, vec![1]);
    executioner.guess(&words, b'a', &mut idxs);
    assert_eq!(idxs, vec![1]);
    assert_eq!(executioner.wrong_guesses(), 3);
}

#[test]
fn the_executioner_answers_for_its_own_word() {
    let mut words = WordList::new();
    let cat = words.insert("cat");
    let tip = words.insert("tip");
    let mut of_cat = HonestExecutioner::init(cat, &words);
    let mut of_tip = HonestExecutioner::init(tip, &words);
    let mut idxs = Vec::new();
    of_cat.guess(&words, b't', &mut idxs);
    assert_eq!(idxs, vec![2]);
    of_tip.guess(&words, b't', &mut idxs);
    assert_eq!(idxs, vec![0]);
}

#[test]
fn the_last_position_of_the_longest_word_is_reported() {
    let mut words = WordList::new();
    let longest = words.insert("abcdefghijklmnopqrstuvwxyzabz");
    let mut executioner = HonestExecutioner::init(longest, &words);
    let mut idxs = Vec::new();
    executioner.guess(&words, b'z', &mut idxs);
    assert_eq!(idxs, vec![25, 28]);
    assert_eq!(executioner.word_len(), 29);
}

#[test]
fn choose_word_starts_a_game_for_a_stored_word() {
    let mut words = WordList::new();
    for word in ["cat", "horse", "a", "zebra"] {
        words.insert(word);
    }
    let mut rng = StdRng::seed_from_u64(17);
    for _ in 0..100 {
        let executioner = HonestExecutioner::choose_word(&words, &mut rng);
        assert_eq!(executioner.wrong_guesses(), 0);
        assert!([1, 3, 5].contains(&executioner.word_len()));
    }
}
