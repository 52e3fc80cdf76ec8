# mordle2

Helpers for a word-guessing game in the style of Wordle, for words of any
length and any script: words are split into grapheme clusters.

The library under `src/` is verified with Verus:

- `check_word` scores a suggested word against the hidden word (`+` in place,
  `?` elsewhere in the word, `-` not in the word), with a proof that it meets
  the scoring rule and never claims more copies of a grapheme than the hidden
  word holds;
- `check_result` holds the per-grapheme outcome and parses typed-in results;
- `dict` and `dict_loader` make the sorted, duplicate-free dictionary out of a
  text;
- `index` indexes the dictionary by grapheme (per position, per count, per
  minimal count) in roaring bitmaps; `grapheme_rule` turns a fact about a
  grapheme into the bitmap of the words that agree with it; `bitmap_iter`
  walks the words that a bitmap selects; `rules` gathers facts per grapheme;
- `best_choice` splits the possible hidden words by the result a suggestion
  would get, and decides which suggestions stay the best as each is weighed,
  with a proof that the best always has the most distinct results;
- `order`, `grapheme_map`, `bitmap` and `text` hold the orderings, the sorted
  association lists, and the trusted statements of the roaring,
  unicode-segmentation and unicode-normalization calls.

`app/` is the command-line program: it reads the word list, normalizes it,
builds the dictionary and index, and picks the best first suggestion (the
floating-point variance and the random pick live there).
