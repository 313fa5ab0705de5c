use vstd::prelude::*;
use vstd::string::StrSliceExecFns;

use crate::word_counts::WordCounts;

verus! {

#[verifier::external_type_specification]
#[verifier::external_body]
pub struct ExJieba(jieba_rs::Jieba);

/// Whether `c` lies in the CJK Unified Ideographs block `U+4E00..=U+9FFF`.
pub open spec fn is_chinese_char(c: char) -> bool {
    '\u{4E00}' <= c && c <= '\u{9FFF}'
}

/// Whether some character of `word` is a Chinese character.
pub open spec fn has_chinese(word: Seq<char>) -> bool {
    exists|i: int| 0 <= i < word.len() && is_chinese_char(#[trigger] word[i])
}

/// How many times `word` occurs in `words`.
pub open spec fn occurrences(words: Seq<Seq<char>>, word: Seq<char>) -> nat
    decreases words.len(),
{
    if words.len() == 0 {
        0
    } else {
        occurrences(words.drop_last(), word) + if words.last() == word {
            1nat
        } else {
            0nat
        }
    }
}

/// Each word of `words` that holds a Chinese character, mapped to the number
/// of times it occurs in `words`; other words are left out.
pub open spec fn chinese_tally(words: Seq<Seq<char>>) -> Map<Seq<char>, nat> {
    Map::new(
        |w: Seq<char>| has_chinese(w) && words.contains(w),
        |w: Seq<char>| occurrences(words, w),
    )
}

/// The characters of each string of `words`.
pub open spec fn words_view(words: Seq<String>) -> Seq<Seq<char>> {
    words.map_values(|w: String| w@)
}

/// The words, in order, into which `jieba-rs` with its embedded default
/// dictionary and without the hidden Markov model cuts `sentence`.
pub uninterp spec fn jieba_cut(sentence: Seq<char>) -> Seq<Seq<char>>;

/// A word occurs no more often than the sequence is long, and does not occur
/// at all where the sequence does not hold it.
pub proof fn lemma_occurrences_bound(words: Seq<Seq<char>>, word: Seq<char>)
    ensures
        occurrences(words, word) <= words.len(),
        !words.contains(word) ==> occurrences(words, word) == 0,
    decreases words.len(),
{
    if words.len() > 0 {
        lemma_occurrences_bound(words.drop_last(), word);
        if !words.contains(word) {
            assert forall|i: int| 0 <= i < words.drop_last().len() implies words.drop_last()[i] != word by {
                assert(words[i] == words.drop_last()[i]);
            }
            assert(words.last() == words[words.len() - 1]);
        }
    }
}

/// Counting one more word: the tally of a sequence with `word` appended.
pub proof fn lemma_chinese_tally_push(words: Seq<Seq<char>>, word: Seq<char>)
    ensures
        chinese_tally(words.push(word)) == if has_chinese(word) {
            chinese_tally(words).insert(word, occurrences(words, word) + 1)
        } else {
            chinese_tally(words)
        },
{
    let longer = words.push(word);
    assert(longer.drop_last() =~= words);
    assert(longer.last() == word);
    assert forall|w: Seq<char>| #[trigger] longer.contains(w) <==> (words.contains(w) || w == word) by {
        if longer.contains(w) {
            let i = choose|i: int| 0 <= i < longer.len() && longer[i] == w;
            if i < words.len() {
                assert(words[i] == w);
            }
        }
        if words.contains(w) {
            let i = choose|i: int| 0 <= i < words.len() && words[i] == w;
            assert(longer[i] == w);
        }
        if w == word {
            assert(longer[words.len() as int] == w);
        }
    }
    assert forall|w: Seq<char>|
        occurrences(longer, w) == occurrences(words, w) + (if w == word {
            1nat
        } else {
            0nat
        }) by {}
    if has_chinese(word) {
        assert(chinese_tally(longer) =~= chinese_tally(words).insert(
            word,
            occurrences(words, word) + 1,
        ));
    } else {
        assert(chinese_tally(longer) =~= chinese_tally(words));
    }
}

/// Every word of a tally holds a Chinese character and is counted at least
/// once.
pub proof fn lemma_tally_words_counted(words: Seq<Seq<char>>, word: Seq<char>)
    requires
        chinese_tally(words).contains_key(word),
    ensures
        has_chinese(word),
        chinese_tally(words)[word] >= 1,
    decreases words.len(),
{
    let i = choose|i: int| 0 <= i < words.len() && words[i] == word;
    if words.last() != word {
        assert(words.drop_last()[i] == word);
        lemma_tally_words_counted(words.drop_last(), word);
    }
}

/// How many words of `words` hold a Chinese character.
pub open spec fn chinese_word_count(words: Seq<Seq<char>>) -> nat
    decreases words.len(),
{
    if words.len() == 0 {
        0
    } else {
        chinese_word_count(words.drop_last()) + if has_chinese(words.last()) {
            1nat
        } else {
            0nat
        }
    }
}

/// How many characters of `text` are Chinese characters.
pub open spec fn chinese_char_count(text: Seq<char>) -> nat
    decreases text.len(),
{
    if text.len() == 0 {
        0
    } else {
        chinese_char_count(text.drop_last()) + if is_chinese_char(text.last()) {
            1nat
        } else {
            0nat
        }
    }
}

/// Counting Chinese characters adds up over joined texts.
pub proof fn lemma_chinese_char_count_add(a: Seq<char>, b: Seq<char>)
    ensures
        chinese_char_count(a + b) == chinese_char_count(a) + chinese_char_count(b),
    decreases b.len(),
{
    if b.len() == 0 {
        assert(a + b =~= a);
    } else {
        assert((a + b).drop_last() =~= a + b.drop_last());
        assert((a + b).last() == b.last());
        lemma_chinese_char_count_add(a, b.drop_last());
    }
}

/// A word that holds a Chinese character holds at least one.
pub proof fn lemma_chinese_char_count_positive(word: Seq<char>)
    requires
        has_chinese(word),
    ensures
        chinese_char_count(word) >= 1,
    decreases word.len(),
{
    let i = choose|i: int| 0 <= i < word.len() && is_chinese_char(#[trigger] word[i]);
    if !is_chinese_char(word.last()) {
        assert(word.drop_last()[i] == word[i]);
        lemma_chinese_char_count_positive(word.drop_last());
    }
}

/// A segmentation holds no more words with a Chinese character than its
/// words, joined, hold Chinese characters.
pub proof fn lemma_chinese_words_at_most_chars(words: Seq<Seq<char>>)
    ensures
        chinese_word_count(words) <= chinese_char_count(words.flatten()),
    decreases words.len(),
{
    if words.len() > 0 {
        let rest = words.drop_last();
        lemma_chinese_words_at_most_chars(rest);
        rest.lemma_flatten_push(words.last());
        assert(rest.push(words.last()) =~= words);
        lemma_chinese_char_count_add(rest.flatten(), words.last());
        if has_chinese(words.last()) {
            lemma_chinese_char_count_positive(words.last());
        }
    }
}

/// Whether `piece` stands in `text` as a run of consecutive characters.
pub open spec fn is_piece_of(piece: Seq<char>, text: Seq<char>) -> bool {
    exists|i: int| 0 <= i && i + piece.len() <= text.len() && #[trigger] text.subrange(i, i + piece.len()) == piece
}

/// Each word of a sequence stands, as a run of consecutive characters, in the
/// words joined in order.
pub proof fn lemma_word_is_piece_of_joined(words: Seq<Seq<char>>, k: int)
    requires
        0 <= k < words.len(),
    ensures
        is_piece_of(words[k], words.flatten()),
    decreases words.len(),
{
    let whole = words.flatten();
    let first = words.first();
    let rest = words.drop_first();
    assert(whole == first + rest.flatten());
    if k == 0 {
        let z: int = 0;
        assert(whole.subrange(z, z + first.len()) =~= first);
    } else {
        assert(words[k] == rest[k - 1]);
        lemma_word_is_piece_of_joined(rest, k - 1);
        let joined = rest.flatten();
        let w = words[k];
        let i = choose|i: int| 0 <= i && i + w.len() <= joined.len() && #[trigger] joined.subrange(i, i + w.len()) == w;
        let j = first.len() + i;
        assert(whole.subrange(j, j + w.len()) =~= joined.subrange(i, i + w.len()));
    }
}

/// Every word of the tally of a segmentation stands, as a run of consecutive
/// characters, in the words joined in order.
pub proof fn lemma_tally_words_are_pieces(words: Seq<Seq<char>>)
    ensures
        forall|w: Seq<char>| #[trigger] chinese_tally(words).contains_key(w) ==> is_piece_of(w, words.flatten()),
{
    assert forall|w: Seq<char>| #[trigger] chinese_tally(words).contains_key(w) implies is_piece_of(w, words.flatten()) by {
        let k = choose|k: int| 0 <= k < words.len() && words[k] == w;
        lemma_word_is_piece_of_joined(words, k);
    }
}

/// Where the words of a segmentation, joined, hold no Chinese character,
/// none of them does.
pub proof fn lemma_pieces_of_plain_text(words: Seq<Seq<char>>)
    requires
        !has_chinese(words.flatten()),
    ensures
        forall|i: int| 0 <= i < words.len() ==> !has_chinese(#[trigger] words[i]),
    decreases words.len(),
{
    if words.len() > 0 {
        let whole = words.flatten();
        let first = words.first();
        let rest = words.drop_first();
        assert(whole == first + rest.flatten());
        assert forall|k: int| 0 <= k < first.len() implies !is_chinese_char(#[trigger] first[k]) by {
            assert(whole[k] == first[k]);
        }
        assert forall|k: int| 0 <= k < rest.flatten().len() implies !is_chinese_char(
            #[trigger] rest.flatten()[k],
        ) by {
            assert(whole[first.len() + k] == rest.flatten()[k]);
        }
        lemma_pieces_of_plain_text(rest);
        assert forall|i: int| 0 <= i < words.len() implies !has_chinese(#[trigger] words[i]) by {
            if i > 0 {
                assert(words[i] == rest[i - 1]);
            }
        }
    }
}

/// Text without a Chinese character yields no words: where the words of a
/// segmentation, joined, hold no Chinese character, their tally is empty.
pub proof fn lemma_plain_text_tally_empty(words: Seq<Seq<char>>)
    requires
        !has_chinese(words.flatten()),
    ensures
        chinese_tally(words) == Map::<Seq<char>, nat>::empty(),
{
    lemma_pieces_of_plain_text(words);
    assert(chinese_tally(words) =~= Map::<Seq<char>, nat>::empty());
}

/// The Chinese characters are exactly those of the CJK Unified Ideographs
/// block `U+4E00..=U+9FFF`: a word made of one character is counted once
/// where the character lies in that block, and not at all where it does not.
pub proof fn lemma_single_character_counts(c: char)
    ensures
        is_chinese_char(c) <==> ('\u{4E00}' <= c && c <= '\u{9FFF}'),
        ('\u{4E00}' <= c && c <= '\u{9FFF}') ==> chinese_tally(seq![seq![c]]) == map![seq![c] => 1nat],
        !('\u{4E00}' <= c && c <= '\u{9FFF}') ==> chinese_tally(seq![seq![c]]) == Map::<Seq<char>, nat>::empty(),
{
    let words = seq![seq![c]];
    let w = seq![c];
    assert(words.drop_last() =~= Seq::<Seq<char>>::empty());
    assert(words.last() == w);
    assert(occurrences(words.drop_last(), w) == 0);
    assert(occurrences(words, w) == 1);
    if '\u{4E00}' <= c && c <= '\u{9FFF}' {
        assert(is_chinese_char(w[0]));
        assert(words[0] == w);
        assert forall|v: Seq<char>| #[trigger] chinese_tally(words).contains_key(v) <==> v == w by {
            if words.contains(v) {
                let i = choose|i: int| 0 <= i < words.len() && words[i] == v;
                assert(i == 0);
            }
        }
        assert(chinese_tally(words) =~= map![w => 1nat]);
    } else {
        assert forall|v: Seq<char>| !#[trigger] chinese_tally(words).contains_key(v) by {
            if words.contains(v) {
                let i = choose|i: int| 0 <= i < words.len() && words[i] == v;
                assert(v == w);
                if has_chinese(v) {
                    let k = choose|k: int| 0 <= k < v.len() && is_chinese_char(#[trigger] v[k]);
                    assert(v[k] == c);
                }
            }
        }
        assert(chinese_tally(words) =~= Map::<Seq<char>, nat>::empty());
    }
}

/// A word of a segmentation is counted exactly when it holds a character of
/// the block `U+4E00..=U+9FFF`, and then with the number of times it occurs.
pub proof fn lemma_tally_membership(words: Seq<Seq<char>>, w: Seq<char>)
    ensures
        chinese_tally(words).contains_key(w) <==> (words.contains(w) && exists|i: int|
            0 <= i < w.len() && '\u{4E00}' <= #[trigger] w[i] && w[i] <= '\u{9FFF}'),
        chinese_tally(words).contains_key(w) ==> chinese_tally(words)[w] == occurrences(words, w),
{
    if exists|i: int| 0 <= i < w.len() && '\u{4E00}' <= #[trigger] w[i] && w[i] <= '\u{9FFF}' {
        let i = choose|i: int| 0 <= i < w.len() && '\u{4E00}' <= #[trigger] w[i] && w[i] <= '\u{9FFF}';
        assert(is_chinese_char(w[i]));
    }
    if has_chinese(w) {
        let i = choose|i: int| 0 <= i < w.len() && is_chinese_char(#[trigger] w[i]);
        assert('\u{4E00}' <= w[i] && w[i] <= '\u{9FFF}');
    }
}

/// The number of occurrences of a word is the number of positions that hold
/// it.
pub proof fn lemma_occurrences_are_positions(words: Seq<Seq<char>>, word: Seq<char>)
    ensures
        occurrences(words, word) == words.filter(|x: Seq<char>| x == word).len(),
    decreases words.len(),
{
    reveal(Seq::filter);
    if words.len() > 0 {
        lemma_occurrences_are_positions(words.drop_last(), word);
    }
}

/// Returns `true` if the character is a Chinese character.
///
/// Checks whether the character falls in the primary block of the CJK
/// Unified Ideographs, `U+4E00..=U+9FFF`. Whitespace, punctuation and every
/// other character return `false`.
pub fn is_chinese(character: char) -> (r: bool)
    ensures
        r == is_chinese_char(character),
        r == ('\u{4E00}' <= character && character <= '\u{9FFF}'),
{
    '\u{4E00}' <= character && character <= '\u{9FFF}'
}

/// Whether some character of `word` is a Chinese character.
pub fn contains_chinese(word: &String) -> (r: bool)
    ensures
        r == has_chinese(word@),
{
    let text = word.as_str();
    let n = text.unicode_len();
    let mut i: usize = 0;
    while i < n
        invariant
            text@ == word@,
            n == word@.len(),
            i <= n,
            forall|k: int| 0 <= k < i ==> !is_chinese_char(#[trigger] word@[k]),
        decreases n - i,
    {
        if is_chinese(text.get_char(i)) {
            return true;
        }
        i = i + 1;
    }
    false
}

/// Counts the words of a segmentation: each word that holds a Chinese
/// character is mapped to the number of times it occurs in `words`; words
/// without one (punctuation, whitespace, Latin words, numerals) are left out.
pub fn tally_chinese_words(words: &Vec<String>) -> (r: WordCounts)
    ensures
        r@ == chinese_tally(words_view(words@)),
        r.total() == chinese_word_count(words_view(words@)),
{
    let ghost all = words_view(words@);
    let n = words.len();
    let mut counts = WordCounts::new();
    let mut i: usize = 0;
    proof {
        assert(all.take(0) =~= Seq::<Seq<char>>::empty());
        assert(chinese_tally(all.take(0)) =~= Map::<Seq<char>, nat>::empty());
    }
    while i < n
        invariant
            n == words@.len(),
            all == words_view(words@),
            i <= n,
            counts@ == chinese_tally(all.take(i as int)),
            counts.total() == chinese_word_count(all.take(i as int)),
        decreases n - i,
    {
        let word = &words[i];
        proof {
            assert(all.take(i + 1) =~= all.take(i as int).push(word@));
            assert(all.take(i + 1).drop_last() =~= all.take(i as int));
            lemma_chinese_tally_push(all.take(i as int), word@);
            lemma_occurrences_bound(all.take(i as int), word@);
        }
        if contains_chinese(word) {
            let next = match counts.get(word) {
                Some(c) => c + 1,
                None => 1,
            };
            counts.insert(word.clone(), next);
        }
        i = i + 1;
    }
    proof {
        assert(all.take(n as int) =~= all);
    }
    counts
}

/// A Chinese word tokenizer backed by `jieba-rs`.
///
/// Strips whitespace, punctuation, and non-Chinese text, keeping only words
/// that hold a Chinese character, loanwords such as `T恤` among them.
pub struct Tokenizer {
    jieba: jieba_rs::Jieba,
    embedded_dictionary: Ghost<bool>,
}

/// Builds a segmenter with the dictionary that `jieba-rs` embeds
/// (`jieba_rs::Jieba::new`). Nothing is claimed of the value.
#[verifier::external_body]
fn new_jieba() -> jieba_rs::Jieba {
    jieba_rs::Jieba::new()
}

/// Cuts `sentence` into words with `jieba_rs::Jieba::cut`, the hidden Markov
/// model switched off, and keeps the word of each token.
///
/// Claimed: where the tokenizer records that its segmenter was built by
/// `jieba_rs::Jieba::new` (as `Tokenizer::new` records, right after calling
/// it), so that it holds the embedded default dictionary, the words are
/// `jieba_cut(sentence@)`. Claimed of every segmenter, as the source of
/// `Jieba::cut` shows (its tokens are consecutive slices of consecutive runs
/// that cover the sentence): the words, joined in order, give back the
/// sentence. Which cut the dictionary's word frequencies pick is left to the
/// name.
#[verifier::external_body]
fn cut_words(tokenizer: &Tokenizer, sentence: &str) -> (words: Vec<String>)
    ensures
        tokenizer.has_embedded_dictionary() ==> words_view(words@) == jieba_cut(sentence@),
        words_view(words@).flatten() == sentence@,
{
    tokenizer.jieba.cut(sentence, false).into_iter().map(|token| token.word.to_string()).collect()
}

impl Tokenizer {
    /// Whether this tokenizer's segmenter was built with the dictionary that
    /// `jieba-rs` embeds.
    pub closed spec fn has_embedded_dictionary(&self) -> bool {
        self.embedded_dictionary@
    }

    /// Creates a new `Tokenizer` and initializes the jieba dictionary: the
    /// one that `jieba-rs` embeds.
    pub fn new() -> (r: Self)
        ensures
            r.has_embedded_dictionary(),
    {
        let jieba = new_jieba();
        Tokenizer { jieba, embedded_dictionary: Ghost(true) }
    }

    /// Tokenizes Chinese text and returns each unique Chinese word with the
    /// number of times it occurs.
    ///
    /// Non-Chinese characters, punctuation, and whitespace are excluded.
    pub fn tokenize(&self, sentence: &str) -> (r: WordCounts)
        ensures
            self.has_embedded_dictionary() ==> r@ == chinese_tally(jieba_cut(sentence@)),
            self.has_embedded_dictionary() ==> jieba_cut(sentence@).flatten() == sentence@,
            forall|w: Seq<char>| #[trigger] r@.contains_key(w) ==> is_piece_of(w, sentence@),
            r.total() <= chinese_char_count(sentence@),
            !has_chinese(sentence@) ==> r@ == Map::<Seq<char>, nat>::empty(),
    {
        let words = cut_words(self, sentence);
        proof {
            lemma_tally_words_are_pieces(words_view(words@));
            lemma_chinese_words_at_most_chars(words_view(words@));
            if !has_chinese(sentence@) {
                lemma_plain_text_tally_empty(words_view(words@));
            }
        }
        tally_chinese_words(&words)
    }
}

impl Default for Tokenizer {
    fn default() -> (r: Self)
        ensures
            r.has_embedded_dictionary(),
    {
        Self::new()
    }
}

} // verus!
