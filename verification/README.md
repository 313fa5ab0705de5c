# spelunkrs

Chinese sentence mining and vocabulary profiling, verified with Verus.

- `src/tokenizer.rs`: word segmentation through `jieba-rs` and counting of the
  words that hold a Chinese character.
- `src/word_counts.rs`: `WordCounts`, a map from words to occurrence counts.
- `src/input.rs`: classification of input files by extension.
- `src/comparison.rs`: the words of a target vocabulary that a known
  vocabulary lacks, ordered by descending count and then by word.
- `app/`: reading text files from disk and counting their words.
