//! The word list: all words of the dictionary, stored by length.

use crate::letters::{is_letter, is_word};
use crate::random::draw_below;
use rand::rngs::StdRng;
use vstd::arithmetic::div_mod::{lemma_div_plus_one, lemma_fundamental_div_mod};
use vstd::prelude::*;
use vstd::string::StringSliceAdditionalSpecFns;

verus! {

/// Words are shorter than this.
pub const MAX_WORD_LEN: u8 = 30;

/// The place of a word in a [`WordList`]: the word's length, and its index
/// among the words of that length. A handle is a plain value, and means
/// something only for the list that gave it out.
#[derive(Clone, Copy, Debug, PartialEq, Eq, Structural)]
pub struct Word {
    pub len: u8,
    pub idx: usize,
}

/// A data structure that compactly stores the word list.
///
/// There is one buffer for each word length that has occurred. It holds the
/// words of that length one after another, in the order of their insertion,
/// so word `idx` of length `len` is the bytes from `idx * len` up to
/// `(idx + 1) * len`.
///
/// The view of a list is a sequence of `MAX_WORD_LEN` entries; entry `len`
/// holds the words of length `len` in the order of their insertion.
pub struct WordList {
    word_data: Vec<Vec<u8>>,
    total_words: usize,
}

/// The words that a flat buffer of words of length `len` holds.
pub open spec fn chunks(bytes: Seq<u8>, len: int) -> Seq<Seq<u8>> {
    if len <= 0 {
        Seq::empty()
    } else {
        Seq::new((bytes.len() as int / len) as nat, |i: int| bytes.subrange(i * len, i * len + len))
    }
}

/// The number of words shorter than `len` in a list with view `store`.
pub open spec fn stored(store: Seq<Seq<Seq<u8>>>, len: int) -> nat
    decreases len,
{
    if len <= 0 {
        0
    } else {
        stored(store, len - 1) + store[len - 1].len()
    }
}

/// The handles of the words shorter than `len`, ascending by length and, for
/// one length, by index.
pub open spec fn handles_below(store: Seq<Seq<Seq<u8>>>, len: int) -> Seq<Word>
    decreases len,
{
    if len <= 0 {
        Seq::empty()
    } else {
        handles_below(store, len - 1) + Seq::new(
            store[len - 1].len(),
            |i: int| Word { len: (len - 1) as u8, idx: i as usize },
        )
    }
}

/// The index, among the handles of all words, of word `i` of length `len`:
/// after all shorter words, and after the earlier ones of its length.
pub open spec fn place(store: Seq<Seq<Seq<u8>>>, len: int, i: int) -> int {
    stored(store, len) + i
}

/// What holds of the view of every list: entry `len` holds words of `len`
/// lowercase letters, there is no word of length 0, and the number of words
/// fits a `usize`.
pub open spec fn well_shaped(store: Seq<Seq<Seq<u8>>>) -> bool {
    &&& store.len() == MAX_WORD_LEN
    &&& store[0].len() == 0
    &&& forall|len: int, i: int|
        0 <= len < store.len() && 0 <= i < store[len].len() ==> (#[trigger] store[len][i]).len()
            == len
    &&& forall|len: int, i: int, p: int|
        0 <= len < store.len() && 0 <= i < store[len].len() && 0 <= p < store[len][i].len()
            ==> is_letter(#[trigger] store[len][i][p])
    &&& stored(store, MAX_WORD_LEN as int) <= usize::MAX
}

/// The view of a list without words.
pub open spec fn empty_store() -> Seq<Seq<Seq<u8>>> {
    Seq::new(MAX_WORD_LEN as nat, |len: int| Seq::<Seq<u8>>::empty())
}

/// The view of a list after `word` was inserted: the word comes last among
/// those of its length, and nothing else changes.
pub open spec fn with_word(store: Seq<Seq<Seq<u8>>>, word: Seq<u8>) -> Seq<Seq<Seq<u8>>> {
    store.update(word.len() as int, store[word.len() as int].push(word))
}

/// The view of a list into which the `words` were inserted one after another,
/// starting from an empty list.
pub open spec fn after_inserts(words: Seq<Seq<u8>>) -> Seq<Seq<Seq<u8>>>
    decreases words.len(),
{
    if words.len() == 0 {
        empty_store()
    } else {
        with_word(after_inserts(words.drop_last()), words.last())
    }
}

/// Those of the `words` that have `len` letters, in their order.
pub open spec fn of_length(words: Seq<Seq<u8>>, len: int) -> Seq<Seq<u8>>
    decreases words.len(),
{
    if words.len() == 0 {
        Seq::empty()
    } else if words.last().len() == len {
        of_length(words.drop_last(), len).push(words.last())
    } else {
        of_length(words.drop_last(), len)
    }
}

proof fn lemma_chunk_bounds(size: int, len: int, i: int)
    requires
        len > 0,
        0 <= i < size / len,
    ensures
        0 <= i * len,
        i * len + len <= size,
        i * len + len == (i + 1) * len,
        i * len == len * i,
{
    lemma_fundamental_div_mod(size, len);
    let q = size / len;
    assert(0 <= i * len) by (nonlinear_arith)
        requires
            0 <= i,
            len > 0,
    ;
    assert((i + 1) * len <= q * len) by (nonlinear_arith)
        requires
            i + 1 <= q,
            len > 0,
    ;
    assert(i * len + len == (i + 1) * len) by (nonlinear_arith);
    assert(i * len == len * i) by (nonlinear_arith);
    assert(q * len == len * q) by (nonlinear_arith);
}

proof fn lemma_chunks_of_none(len: int)
    ensures
        chunks(Seq::empty(), len) == Seq::<Seq<u8>>::empty(),
{
    if len > 0 {
        vstd::arithmetic::div_mod::lemma_div_basics_1(len);
    }
    assert(chunks(Seq::empty(), len) =~= Seq::<Seq<u8>>::empty());
}

proof fn lemma_whole_words(size: int, len: int)
    requires
        len > 0,
        size >= 0,
        size % len == 0,
    ensures
        (size + len) % len == 0,
        0int % len == 0,
{
    lemma_fundamental_div_mod(size, len);
    let q = size / len;
    assert(size + len == (q + 1) * len) by (nonlinear_arith)
        requires
            size == len * q,
    ;
    vstd::arithmetic::div_mod::lemma_mod_multiples_basic(q + 1, len);
    vstd::arithmetic::div_mod::lemma_small_mod(0, len as nat);
}

proof fn lemma_chunks_push(bytes: Seq<u8>, word: Seq<u8>)
    requires
        word.len() > 0,
        bytes.len() % word.len() == 0,
    ensures
        chunks(bytes + word, word.len() as int) == chunks(bytes, word.len() as int).push(word),
{
    let len = word.len() as int;
    let size = bytes.len() as int;
    let before = chunks(bytes, len);
    let after = chunks(bytes + word, len);
    lemma_div_plus_one(size, len);
    lemma_fundamental_div_mod(size, len);
    let q = size / len;
    assert(q * len == len * q) by (nonlinear_arith);
    assert(after.len() == before.len() + 1);
    assert forall|i: int| 0 <= i < after.len() implies after[i] == before.push(word)[i] by {
        if i < q {
            lemma_chunk_bounds(size, len, i);
            assert(after[i] =~= before[i]);
        } else {
            assert(after[i] =~= word);
        }
    }
    assert(after =~= before.push(word));
}

proof fn lemma_stored_grows(store: Seq<Seq<Seq<u8>>>, lo: int, hi: int)
    requires
        lo <= hi,
    ensures
        stored(store, lo) <= stored(store, hi),
    decreases hi - lo,
{
    if lo < hi {
        lemma_stored_grows(store, lo, hi - 1);
    }
}

proof fn lemma_stored_empty(len: int)
    requires
        len <= MAX_WORD_LEN,
    ensures
        stored(empty_store(), len) == 0,
    decreases len,
{
    if len > 0 {
        lemma_stored_empty(len - 1);
    }
}

proof fn lemma_stored_with_word(store: Seq<Seq<Seq<u8>>>, word: Seq<u8>, len: int)
    requires
        0 <= word.len() < store.len(),
        len <= store.len(),
    ensures
        stored(with_word(store, word), len) == stored(store, len) + if word.len() < len {
            1nat
        } else {
            0nat
        },
    decreases len,
{
    if len > 0 {
        lemma_stored_with_word(store, word, len - 1);
    }
}

/// The handles are as many as the words. The word `i` of length `len` has
/// its handle at its place, and every handle stands at the place that its
/// length and its index give.
pub proof fn lemma_handles(store: Seq<Seq<Seq<u8>>>, upto: int)
    requires
        well_shaped(store),
        0 <= upto <= MAX_WORD_LEN,
    ensures
        handles_below(store, upto).len() == stored(store, upto),
        forall|len: int, i: int|
            0 <= len < upto && 0 <= i < store[len].len() ==> {
                &&& 0 <= #[trigger] place(store, len, i) < stored(store, upto)
                &&& handles_below(store, upto)[place(store, len, i)] == Word {
                    len: len as u8,
                    idx: i as usize,
                }
            },
        forall|k: int|
            0 <= k < stored(store, upto) ==> {
                let handle = #[trigger] handles_below(store, upto)[k];
                &&& 0 < handle.len < upto
                &&& handle.idx < store[handle.len as int].len()
                &&& k == place(store, handle.len as int, handle.idx as int)
            },
    decreases upto,
{
    if upto > 0 {
        let len = upto - 1;
        let before = handles_below(store, len);
        let all = handles_below(store, upto);
        lemma_handles(store, len);
        lemma_stored_grows(store, upto, MAX_WORD_LEN as int);
        assert forall|l: int, i: int| 0 <= l < upto && 0 <= i < store[l].len() implies {
            &&& 0 <= #[trigger] place(store, l, i) < stored(store, upto)
            &&& all[place(store, l, i)] == Word { len: l as u8, idx: i as usize }
        } by {
            let k = place(store, l, i);
            if l < len {
                assert(before[k] == Word { len: l as u8, idx: i as usize });
                assert(all[k] == before[k]);
            } else {
                assert(all[before.len() + i] == Word { len: l as u8, idx: i as usize });
            }
        }
        assert forall|k: int| 0 <= k < stored(store, upto) implies {
            let handle = #[trigger] all[k];
            &&& 0 < handle.len < upto
            &&& handle.idx < store[handle.len as int].len()
            &&& k == place(store, handle.len as int, handle.idx as int)
        } by {
            if k < stored(store, len) {
                assert(all[k] == before[k]);
            } else {
                assert(all[k] == Word { len: len as u8, idx: (k - before.len()) as usize });
            }
        }
    }
}

/// A word can be read back at the place that its insertion gave it, and the
/// insertion leaves every other word at its place.
pub proof fn lemma_insert_keeps(store: Seq<Seq<Seq<u8>>>, word: Seq<u8>)
    requires
        well_shaped(store),
        is_word(word),
    ensures
        with_word(store, word).len() == store.len(),
        with_word(store, word)[word.len() as int].len() == store[word.len() as int].len() + 1,
        with_word(store, word)[word.len() as int][store[word.len() as int].len() as int] == word,
        forall|len: int|
            0 <= len < store.len() && len != word.len() ==> #[trigger] with_word(store, word)[len]
                == store[len],
        forall|len: int, i: int|
            0 <= len < store.len() && 0 <= i < store[len].len() ==> #[trigger] with_word(
                store,
                word,
            )[len][i] == store[len][i],
{
}

/// A list built by insertions alone holds, for each length, the inserted
/// words of that length in the order of their insertion: as many as were
/// inserted.
pub proof fn lemma_after_inserts(words: Seq<Seq<u8>>, len: int)
    requires
        forall|i: int| 0 <= i < words.len() ==> is_word(#[trigger] words[i]),
        0 <= len < MAX_WORD_LEN,
    ensures
        after_inserts(words).len() == MAX_WORD_LEN,
        after_inserts(words)[len] == of_length(words, len),
    decreases words.len(),
{
    if words.len() > 0 {
        lemma_after_inserts(words.drop_last(), len);
        assert(is_word(words[words.len() - 1]));
    }
}

impl View for WordList {
    type V = Seq<Seq<Seq<u8>>>;

    closed spec fn view(&self) -> Seq<Seq<Seq<u8>>> {
        Seq::new(MAX_WORD_LEN as nat, |len: int| chunks(self.bucket(len), len))
    }
}

/// Whether two words have the same letters.
fn same_letters(first: &[u8], second: &[u8]) -> (same: bool)
    ensures
        same == (first@ == second@),
{
    if first.len() != second.len() {
        return false;
    }
    let mut p: usize = 0;
    while p < first.len()
        invariant
            first@.len() == second@.len(),
            p <= first@.len(),
            forall|q: int| 0 <= q < p ==> first@[q] == second@[q],
        decreases first@.len() - p,
    {
        if first[p] != second[p] {
            return false;
        }
        p += 1;
    }
    assert(first@ =~= second@);
    true
}

impl WordList {
    /// The buffer for the words of length `len`, empty where there is none.
    pub closed spec fn bucket(&self, len: int) -> Seq<u8> {
        if 1 <= len <= self.word_data.len() {
            self.word_data[len - 1]@
        } else {
            Seq::empty()
        }
    }

    /// The invariant of the representation: each buffer holds whole words of
    /// lowercase letters, and `total_words` counts the words.
    pub closed spec fn inv(&self) -> bool {
        &&& self.word_data.len() < MAX_WORD_LEN
        &&& forall|b: int|
            0 <= b < self.word_data.len() ==> (#[trigger] self.word_data[b]).len() as int % (b + 1)
                == 0
        &&& forall|b: int, p: int|
            0 <= b < self.word_data.len() && 0 <= p < self.word_data[b].len() ==> is_letter(
                #[trigger] self.word_data[b][p],
            )
        &&& self.total_words == stored(self@, MAX_WORD_LEN as int)
    }

    /// The list is well formed. Every list that this library hands out is.
    pub open spec fn wf(&self) -> bool {
        &&& self.inv()
        &&& well_shaped(self@)
    }

    /// The number of words of length `len`.
    pub open spec fn count(&self, len: int) -> nat {
        if 0 <= len < MAX_WORD_LEN {
            self@[len].len()
        } else {
            0
        }
    }

    /// The number of words.
    pub open spec fn total(&self) -> nat {
        stored(self@, MAX_WORD_LEN as int)
    }

    /// The handle addresses a word of this list.
    pub open spec fn has(&self, word: Word) -> bool {
        &&& 0 < word.len < MAX_WORD_LEN
        &&& word.idx < self@[word.len as int].len()
    }

    /// The letters of the word that the handle addresses.
    pub open spec fn letters(&self, word: Word) -> Seq<u8> {
        self@[word.len as int][word.idx as int]
    }

    /// The handles of all words, ascending by length and, for one length, in
    /// the order of insertion.
    pub open spec fn handles(&self) -> Seq<Word> {
        handles_below(self@, MAX_WORD_LEN as int)
    }

    /// No other word of the list has the letters of this one.
    pub open spec fn occurs_once(&self, word: Word) -> bool {
        forall|i: int|
            0 <= i < self@[word.len as int].len() && #[trigger] self@[word.len as int][i]
                == self.letters(word) ==> i == word.idx
    }

    /// The handles name each word once: there are as many as words, none
    /// occurs twice, and a handle is among them exactly if it addresses a
    /// word of the list. So a draw that is uniform over the indices of the
    /// handles is uniform over the words.
    pub proof fn lemma_handles_exact(&self)
        requires
            self.wf(),
        ensures
            self.handles().len() == self.total(),
            self.handles().no_duplicates(),
            forall|word: Word| self.has(word) <==> #[trigger] self.handles().contains(word),
    {
        let all = self.handles();
        lemma_handles(self@, MAX_WORD_LEN as int);
        assert forall|word: Word| self.has(word) implies all.contains(word) by {
            assert(all[place(self@, word.len as int, word.idx as int)] == word);
        }
        assert forall|word: Word| all.contains(word) implies self.has(word) by {
            let k = choose|k: int| 0 <= k < all.len() && all[k] == word;
            assert(all[k] == word);
        }
    }

    /// Whether no other word of the list has the letters of this one.
    pub fn is_unique(&self, word: Word) -> (unique: bool)
        requires
            self.wf(),
            self.has(word),
        ensures
            unique == self.occurs_once(word),
    {
        let letters = self.get(word);
        let words = self.count_with_length(word.len);
        let mut idx: usize = 0;
        while idx < words
            invariant
                self.wf(),
                self.has(word),
                letters@ == self.letters(word),
                words == self@[word.len as int].len(),
                idx <= words,
                forall|i: int|
                    0 <= i < idx && #[trigger] self@[word.len as int][i] == self.letters(word)
                        ==> i == word.idx,
            decreases words - idx,
        {
            if idx != word.idx {
                let other = self.get(Word { len: word.len, idx });
                if same_letters(other, letters) {
                    assert(self@[word.len as int][idx as int] == self.letters(word));
                    return false;
                }
            }
            idx += 1;
        }
        true
    }

    /// Whether no word stands twice in the list.
    pub fn all_unique(&self) -> (unique: bool)
        requires
            self.wf(),
        ensures
            unique == forall|word: Word| self.has(word) ==> #[trigger] self.occurs_once(word),
    {
        let all = self.iter();
        let mut i: usize = 0;
        proof {
            self.lemma_handles_exact();
        }
        while i < all.len()
            invariant
                self.wf(),
                all@ == self.handles(),
                i <= all@.len(),
                forall|word: Word| self.has(word) <==> #[trigger] self.handles().contains(word),
                forall|k: int| 0 <= k < i ==> self.occurs_once(#[trigger] all@[k]),
            decreases all@.len() - i,
        {
            let word = all[i];
            assert(self.handles().contains(word));
            if !self.is_unique(word) {
                assert(self.has(word) && !self.occurs_once(word));
                return false;
            }
            i += 1;
        }
        proof {
            assert forall|word: Word| self.has(word) implies #[trigger] self.occurs_once(word) by {
                assert(self.handles().contains(word));
                let k = choose|k: int| 0 <= k < all@.len() && all@[k] == word;
                assert(self.occurs_once(all@[k]));
            }
        }
        true
    }

    proof fn lemma_shape(&self)
        requires
            self.word_data.len() < MAX_WORD_LEN,
            forall|b: int, p: int|
                0 <= b < self.word_data.len() && 0 <= p < self.word_data[b].len() ==> is_letter(
                    #[trigger] self.word_data[b][p],
                ),
            stored(self@, MAX_WORD_LEN as int) <= usize::MAX,
        ensures
            well_shaped(self@),
    {
        let store = self@;
        assert forall|len: int, i: int| 0 <= len < store.len() && 0 <= i < store[len].len() implies {
            &&& (#[trigger] store[len][i]).len() == len
            &&& forall|p: int| 0 <= p < len ==> is_letter(#[trigger] store[len][i][p])
        } by {
            lemma_chunk_bounds(self.bucket(len).len() as int, len, i);
        }
    }

    /// Create a new, empty word list.
    pub fn new() -> (list: Self)
        ensures
            list.wf(),
            list@ == empty_store(),
            list.total() == 0,
    {
        let list = Self { word_data: Vec::new(), total_words: 0 };
        proof {
            assert forall|len: int| 0 <= len < MAX_WORD_LEN implies #[trigger] list@[len]
                == empty_store()[len] by {
                lemma_chunks_of_none(len);
            }
            assert(list@ =~= empty_store());
            lemma_stored_empty(MAX_WORD_LEN as int);
            list.lemma_shape();
        }
        list
    }

    /// Count the number of words with a given length. There are none of a
    /// length that no word may have.
    pub fn count_with_length(&self, len: u8) -> (count: usize)
        requires
            self.wf(),
        ensures
            count == self.count(len as int),
    {
        let len = len as usize;
        if len == 0 || len > self.word_data.len() {
            0
        } else {
            self.word_data[len - 1].len() / len
        }
    }

    /// The number of words in the list.
    pub fn total_words(&self) -> (total: usize)
        requires
            self.wf(),
        ensures
            total == self.total(),
    {
        self.total_words
    }

    /// Whether `word` can be inserted: it is a word of 1 to 29 lowercase
    /// letters, and the list has room for one more.
    pub fn accepts(&self, word: &str) -> (accepted: bool)
        requires
            self.wf(),
        ensures
            accepted == (is_word(word.spec_bytes()) && self.total() < usize::MAX),
    {
        let bytes = word.as_bytes();
        let len = bytes.len();
        if len == 0 || len >= MAX_WORD_LEN as usize || self.total_words == usize::MAX {
            return false;
        }
        let mut i: usize = 0;
        while i < len
            invariant
                i <= len,
                len == bytes@.len(),
                bytes@ == word.spec_bytes(),
                forall|p: int| 0 <= p < i ==> is_letter(#[trigger] bytes@[p]),
            decreases len - i,
        {
            let b = bytes[i];
            if b < 97 || b > 122 {
                assert(!is_letter(word.spec_bytes()[i as int]));
                return false;
            }
            i += 1;
        }
        true
    }

    /// Add a word to the list and return its handle. The word comes last
    /// among those of its length.
    pub fn insert(&mut self, word: &str) -> (handle: Word)
        requires
            old(self).wf(),
            is_word(word.spec_bytes()),
            old(self).total() < usize::MAX,
        ensures
            final(self).wf(),
            final(self)@ == with_word(old(self)@, word.spec_bytes()),
            handle.len == word.spec_bytes().len(),
            handle.idx == old(self).count(handle.len as int),
            final(self).has(handle),
            final(self).letters(handle) == word.spec_bytes(),
            final(self).total() == old(self).total() + 1,
    {
        let bytes = word.as_bytes();
        let len = bytes.len();
        let ghost before = *self;
        while self.word_data.len() < len
            invariant
                len < MAX_WORD_LEN,
                self.word_data.len() < MAX_WORD_LEN,
                self.total_words == before.total_words,
                before.word_data.len() <= self.word_data.len(),
                forall|b: int|
                    0 <= b < before.word_data.len() ==> #[trigger] self.word_data[b]
                        == before.word_data[b],
                forall|b: int|
                    before.word_data.len() <= b < self.word_data.len() ==> (
                    #[trigger] self.word_data[b]).len() == 0,
            decreases len - self.word_data.len(),
        {
            self.word_data.push(Vec::new());
        }
        assert forall|l: int| self.bucket(l) == before.bucket(l) by {
            if 1 <= l <= self.word_data.len() && l > before.word_data.len() {
                assert(self.word_data[l - 1]@ =~= Seq::<u8>::empty());
            }
        }
        assert(self@ =~= before@);
        let ghost padded = *self;
        let idx = self.word_data[len - 1].len() / len;
        let mut i: usize = 0;
        while i < len
            invariant
                0 < len < MAX_WORD_LEN,
                i <= len,
                len == bytes@.len(),
                is_word(bytes@),
                self.total_words == padded.total_words,
                self.word_data.len() == padded.word_data.len(),
                len <= self.word_data.len(),
                forall|b: int|
                    0 <= b < self.word_data.len() && b != len - 1 ==> #[trigger] self.word_data[b]
                        == padded.word_data[b],
                self.word_data[len - 1]@ == padded.word_data[len - 1]@ + bytes@.take(i as int),
            decreases len - i,
        {
            let b = bytes[i];
            self.word_data[len - 1].push(b);
            assert(bytes@.take(i as int).push(b) =~= bytes@.take(i + 1));
            i += 1;
        }
        self.total_words += 1;
        proof {
            let word = bytes@;
            assert(bytes@.take(len as int) =~= word);
            assert(padded.bucket(len as int) == padded.word_data[len - 1]@);
            assert(self.bucket(len as int) == padded.bucket(len as int) + word);
            assert forall|l: int| l != len implies self.bucket(l) == padded.bucket(l) by {}
            assert forall|b: int| 0 <= b < padded.word_data.len() implies (
            #[trigger] padded.word_data[b]).len() as int % (b + 1) == 0 by {
                if b < before.word_data.len() {
                    assert(padded.word_data[b] == before.word_data[b]);
                } else {
                    lemma_whole_words(0, b + 1);
                }
            }
            assert(padded.word_data[len - 1].len() as int % (len as int) == 0);
            lemma_chunks_push(padded.bucket(len as int), word);
            assert(self@ =~= with_word(before@, word));
            lemma_stored_with_word(before@, word, MAX_WORD_LEN as int);
            assert forall|b: int, p: int|
                0 <= b < self.word_data.len() && 0 <= p < self.word_data[b].len() implies is_letter(
                #[trigger] self.word_data[b][p],
            ) by {
                if b == len - 1 {
                    if p >= padded.word_data[b].len() {
                        assert(self.word_data[b][p] == word[p - padded.word_data[b].len()]);
                    } else {
                        assert(self.word_data[b][p] == padded.word_data[b][p]);
                    }
                } else {
                    assert(self.word_data[b] == padded.word_data[b]);
                    if b < before.word_data.len() {
                        assert(padded.word_data[b] == before.word_data[b]);
                    }
                }
            }
            assert forall|b: int| 0 <= b < self.word_data.len() implies (
            #[trigger] self.word_data[b]).len() as int % (b + 1) == 0 by {
                if b == len - 1 {
                    lemma_whole_words(padded.word_data[b].len() as int, len as int);
                } else {
                    assert(self.word_data[b] == padded.word_data[b]);
                }
            }
            self.lemma_shape();
        }
        Word { len: len as u8, idx }
    }

    /// Get a slice representing the letters of the word.
    pub fn get(&self, word: Word) -> (letters: &[u8])
        requires
            self.wf(),
            self.has(word),
        ensures
            letters@ == self.letters(word),
    {
        let Word { len, idx } = word;
        let len = len as usize;
        proof {
            lemma_chunk_bounds(self.bucket(len as int).len() as int, len as int, idx as int);
        }
        &self.word_data[len - 1][len * idx..len * idx + len]
    }

    /// The handle of the word at `index`, where the words are counted from 0,
    /// ascending by length and, for one length, in the order of insertion.
    pub fn nth(&self, index: usize) -> (handle: Word)
        requires
            self.wf(),
            index < self.total(),
        ensures
            self.has(handle),
            handle == self.handles()[index as int],
            index == place(self@, handle.len as int, handle.idx as int),
    {
        let mut len: u8 = 1;
        let mut words_so_far: usize = 0;
        let mut words = self.count_with_length(len);
        proof {
            reveal_with_fuel(stored, 3);
            lemma_stored_grows(self@, 2, MAX_WORD_LEN as int);
        }
        while index - words_so_far >= words
            invariant
                self.wf(),
                index < self.total(),
                0 < len < MAX_WORD_LEN,
                words_so_far == stored(self@, len as int),
                words == self@[len as int].len(),
                words_so_far <= index,
                words_so_far + words <= usize::MAX,
            decreases MAX_WORD_LEN - len,
        {
            proof {
                lemma_stored_grows(self@, len + 1, MAX_WORD_LEN as int);
                if len + 2 <= MAX_WORD_LEN {
                    lemma_stored_grows(self@, len + 2, MAX_WORD_LEN as int);
                }
            }
            words_so_far += words;
            len += 1;
            words = self.count_with_length(len);
        }
        proof {
            lemma_handles(self@, MAX_WORD_LEN as int);
            assert(self.handles()[place(self@, len as int, index - words_so_far)] == Word {
                len,
                idx: (index - words_so_far) as usize,
            });
        }
        Word { len, idx: index - words_so_far }
    }

    /// Return the handle of a random word. The generator draws an index
    /// below the number of words, and `nth` finds the word at that index: a
    /// word is drawn as often as its index is, whatever its length.
    pub fn random(&self, rng: &mut StdRng) -> (handle: Word)
        requires
            self.wf(),
            self.total() > 0,
        ensures
            self.has(handle),
            self.handles().contains(handle),
    {
        let index = draw_below(rng, self.total_words);
        let handle = self.nth(index);
        proof {
            lemma_handles(self@, MAX_WORD_LEN as int);
            assert(self.handles()[index as int] == handle);
        }
        handle
    }

    /// Return the handles of all words, ascending by length and, for one
    /// length, in the order of insertion.
    pub fn iter(&self) -> (all: Vec<Word>)
        requires
            self.wf(),
        ensures
            all@ == self.handles(),
    {
        let mut all: Vec<Word> = Vec::new();
        let mut len: u8 = 0;
        while len < MAX_WORD_LEN
            invariant
                self.wf(),
                len <= MAX_WORD_LEN,
                all@ == handles_below(self@, len as int),
            decreases MAX_WORD_LEN - len,
        {
            let words = self.count_with_length(len);
            let mut idx: usize = 0;
            while idx < words
                invariant
                    idx <= words,
                    words == self@[len as int].len(),
                    all@ == handles_below(self@, len as int) + Seq::new(
                        idx as nat,
                        |i: int| Word { len: len, idx: i as usize },
                    ),
                decreases words - idx,
            {
                all.push(Word { len, idx });
                idx += 1;
                assert(all@ =~= handles_below(self@, len as int) + Seq::new(
                    idx as nat,
                    |i: int| Word { len: len, idx: i as usize },
                ));
            }
            assert(all@ =~= handles_below(self@, len + 1));
            len += 1;
        }
        all
    }
}

} // verus!
