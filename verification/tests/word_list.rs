use hangman::{Word, WordList, MAX_WORD_LEN};
use rand::rngs::StdRng;
use rand::SeedableRng;

fn list_of(words: &[&str]) -> WordList {
    let mut list = WordList::new();
    for word in words {
        assert!(list.accepts(word));
        list.insert(word);
    }
    list
}

#[test]
fn insert_then_get_gives_the_word_back() {
    let mut words = WordList::new();
    let cat = words.insert("cat");
    assert_eq!(words.get(cat), b"cat");
    assert_eq!(cat, Word { len: 3, idx: 0 });
}

#[test]
fn every_inserted_word_reads_back() {
    let given = ["cat", "a", "horse", "be", "car", "zebra", "bat", "i", "abcdefghijklmnopqrstuvwxyzabc"];
    let mut words = WordList::new();
    let mut handles = Vec::new();
    for word in given {
        handles.push(words.insert(word));
    }
    for (word, handle) in given.iter().zip(handles) {
        assert_eq!(words.get(handle), word.as_bytes());
        assert_eq!(handle.len as usize, word.len());
    }
}

#[test]
fn handles_count_up_within_a_length() {
    let mut words = WordList::new();
    assert_eq!(words.insert("cat"), Word { len: 3, idx: 0 });
    assert_eq!(words.insert("horse"), Word { len: 5, idx: 0 });
    assert_eq!(words.insert("car"), Word { len: 3, idx: 1 });
    assert_eq!(words.insert("a"), Word { len: 1, idx: 0 });
    assert_eq!(words.insert("bat"), Word { len: 3, idx: 2 });
    assert_eq!(words.insert("zebra"), Word { len: 5, idx: 1 });
}

#[test]
fn a_word_may_be_inserted_twice() {
    let mut words = WordList::new();
    let first = words.insert("cat");
    let second = words.insert("cat");
    assert_eq!(first, Word { len: 3, idx: 0 });
    assert_eq!(second, Word { len: 3, idx: 1 });
    assert_eq!(words.get(first), words.get(second));
    assert_eq!(words.count_with_length(3), 2);
}

#[test]
fn earlier_handles_outlive_later_insertions() {
    let mut words = WordList::new();
    let cat = words.insert("cat");
    let be = words.insert("be");
    for word in ["car", "bat", "horse", "a", "an", "zebra"] {
        words.insert(word);
    }
    assert_eq!(words.get(cat), b"cat");
    assert_eq!(words.get(be), b"be");
}

#[test]
fn a_new_list_holds_nothing() {
    let words = WordList::new();
    assert_eq!(words.total_words(), 0);
    assert!(words.iter().is_empty());
    for len in 0..=255u8 {
        assert_eq!(words.count_with_length(len), 0);
    }
}

#[test]
fn count_with_length_counts_the_inserted_words() {
    let given = ["cat", "a", "horse", "be", "car", "zebra", "bat", "i", "an", "ox", "at"];
    let words = list_of(&given);
    for len in 0..=255u8 {
        let expected = given.iter().filter(|word| word.len() == len as usize).count();
        assert_eq!(words.count_with_length(len), expected);
    }
    assert_eq!(words.count_with_length(1), 2);
    assert_eq!(words.count_with_length(2), 4);
    assert_eq!(words.count_with_length(3), 3);
    assert_eq!(words.count_with_length(5), 2);
}

#[test]
fn there_are_no_words_of_a_length_without_a_buffer() {
    let words = list_of(&["cat", "be"]);
    assert_eq!(words.count_with_length(0), 0);
    assert_eq!(words.count_with_length(1), 0);
    assert_eq!(words.count_with_length(4), 0);
    assert_eq!(words.count_with_length(29), 0);
    assert_eq!(words.count_with_length(MAX_WORD_LEN), 0);
    assert_eq!(words.count_with_length(255), 0);
}

#[test]
fn total_words_counts_all_lengths() {
    let mut words = WordList::new();
    for (n, word) in ["cat", "a", "horse", "be", "car"].iter().enumerate() {
        assert_eq!(words.total_words(), n);
        words.insert(word);
    }
    assert_eq!(words.total_words(), 5);
}

#[test]
fn the_longest_word_has_29_letters() {
    let longest = "abcdefghijklmnopqrstuvwxyzabc";
    assert_eq!(longest.len(), 29);
    let mut words = WordList::new();
    assert!(words.accepts(longest));
    let handle = words.insert(longest);
    assert_eq!(handle, Word { len: 29, idx: 0 });
    assert_eq!(words.get(handle), longest.as_bytes());
    assert_eq!(words.count_with_length(29), 1);
}

#[test]
fn accepts_words_of_lowercase_letters() {
    let words = WordList::new();
    assert!(words.accepts("a"));
    assert!(words.accepts("z"));
    assert!(words.accepts("cat"));
    assert!(words.accepts("abcdefghijklmnopqrstuvwxyz"));
}

#[test]
fn accepts_no_empty_word() {
    assert!(!WordList::new().accepts(""));
}

#[test]
fn accepts_no_word_of_30_letters_or_more() {
    let words = WordList::new();
    assert!(!words.accepts("abcdefghijklmnopqrstuvwxyzabcd"));
    assert!(!words.accepts("abcdefghijklmnopqrstuvwxyzabcdefghijklmnopqrstuvwxyz"));
}

#[test]
fn accepts_nothing_but_lowercase_letters() {
    let words = WordList::new();
    assert!(!words.accepts("Cat"));
    assert!(!words.accepts("caT"));
    assert!(!words.accepts("c4t"));
    assert!(!words.accepts("c t"));
    assert!(!words.accepts("cat\n"));
    assert!(!words.accepts("caf\u{e9}"));
    assert!(!words.accepts("`"));
    assert!(!words.accepts("{"));
}

#[test]
fn iter_goes_by_length_then_by_insertion() {
    let words = list_of(&["cat", "a", "horse", "be", "car", "zebra", "bat", "i"]);
    let expected = vec![
        Word { len: 1, idx: 0 },
        Word { len: 1, idx: 1 },
        Word { len: 2, idx: 0 },
        Word { len: 3, idx: 0 },
        Word { len: 3, idx: 1 },
        Word { len: 3, idx: 2 },
        Word { len: 5, idx: 0 },
        Word { len: 5, idx: 1 },
    ];
    assert_eq!(words.iter(), expected);
    let read: Vec<&[u8]> = words.iter().into_iter().map(|handle| words.get(handle)).collect();
    let texts: Vec<&[u8]> = vec![b"a", b"i", b"be", b"cat", b"car", b"bat", b"horse", b"zebra"];
    assert_eq!(read, texts);
}

#[test]
fn iter_can_be_taken_again() {
    let words = list_of(&["cat", "a", "horse"]);
    assert_eq!(words.iter(), words.iter());
    assert_eq!(words.iter().len(), words.total_words());
}

#[test]
fn nth_finds_the_word_at_an_index() {
    let words = list_of(&["cat", "a", "horse", "be", "car", "zebra", "bat", "i"]);
    assert_eq!(words.nth(0), Word { len: 1, idx: 0 });
    assert_eq!(words.nth(1), Word { len: 1, idx: 1 });
    assert_eq!(words.nth(2), Word { len: 2, idx: 0 });
    assert_eq!(words.nth(3), Word { len: 3, idx: 0 });
    assert_eq!(words.nth(5), Word { len: 3, idx: 2 });
    assert_eq!(words.nth(6), Word { len: 5, idx: 0 });
    assert_eq!(words.nth(7), Word { len: 5, idx: 1 });
}

#[test]
fn nth_agrees_with_iter() {
    let words = list_of(&["cat", "a", "horse", "be", "car", "zebra", "bat", "i", "abcdefghijklmnopqrstuvwxyzabc"]);
    let all = words.iter();
    for (index, handle) in all.iter().enumerate() {
        assert_eq!(words.nth(index), *handle);
    }
}

#[test]
fn random_gives_a_stored_word() {
    let words = list_of(&["cat", "a", "horse", "be", "car", "zebra", "bat", "i"]);
    let mut rng = StdRng::seed_from_u64(11);
    for _ in 0..500 {
        let handle = words.random(&mut rng);
        assert!(0 < handle.len && handle.len < MAX_WORD_LEN);
        assert!(handle.idx < words.count_with_length(handle.len));
        assert!(words.iter().contains(&handle));
    }
}

#[test]
fn random_on_one_word_gives_that_word() {
    let words = list_of(&["horse"]);
    let mut rng = StdRng::seed_from_u64(3);
    for _ in 0..50 {
        assert_eq!(words.random(&mut rng), Word { len: 5, idx: 0 });
    }
}

#[test]
fn random_reaches_every_word() {
    let words = list_of(&["cat", "a", "horse", "be", "car"]);
    let mut rng = StdRng::seed_from_u64(5);
    let mut seen = Vec::new();
    for _ in 0..500 {
        let handle = words.random(&mut rng);
        if !seen.contains(&handle) {
            seen.push(handle);
        }
    }
    assert_eq!(seen.len(), 5);
}

#[test]
fn random_is_uniform_over_words_not_over_lengths() {
    let words = list_of(&["be", "cat", "car", "bat", "cot", "cut", "bit", "bet", "but", "bot"]);
    let mut rng = StdRng::seed_from_u64(2024);
    let draws = 20_000;
    let mut of_two_letters = 0;
    let mut per_word = [0usize; 9];
    for _ in 0..draws {
        let handle = words.random(&mut rng);
        if handle.len == 2 {
            of_two_letters += 1;
        } else {
            per_word[handle.idx] += 1;
        }
    }
    let share = of_two_letters as f64 / draws as f64;
    assert!(0.08 < share && share < 0.12, "share of the two-letter word: {}", share);
    for count in per_word {
        let share = count as f64 / draws as f64;
        assert!(0.08 < share && share < 0.12, "share of a three-letter word: {}", share);
    }
}

#[test]
fn is_unique_tells_repeated_words() {
    let mut words = WordList::new();
    let cat = words.insert("cat");
    let car = words.insert("car");
    let again = words.insert("cat");
    let cats = words.insert("cats");
    assert!(!words.is_unique(cat));
    assert!(!words.is_unique(again));
    assert!(words.is_unique(car));
    assert!(words.is_unique(cats));
}

#[test]
fn all_unique_holds_of_distinct_words() {
    assert!(WordList::new().all_unique());
    assert!(list_of(&["cat", "car", "bat", "a", "cats"]).all_unique());
}

#[test]
fn all_unique_fails_on_a_repeated_word() {
    assert!(!list_of(&["cat", "car", "bat", "car"]).all_unique());
    assert!(!list_of(&["a", "a"]).all_unique());
}
