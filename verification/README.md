# unicode_segmentation

Unicode text segmentation (UAX #29) with Verus proofs: word boundaries and
grapheme-cluster boundaries, over whole strings and over non-contiguous UTF-8
chunks supplied one at a time.

Layout of `src/`:

- `utf8_len.rs`: the UTF-8 length of scalar sequences, byte offsets of scalar
  indices, and splitting a `str` at a scalar.
- `word_cat.rs`: the `Word_Break` categories (read from `icu_properties`) and the
  pairwise word rules.
- `word_cursor_forward.rs`, `word_cursor_reverse.rs`: the fixed-size forward and
  reverse word-boundary state machines.
- `word_cursor.rs`: `WordCursor`, the chunked word-boundary cursor with typed
  requests and errors, and its laws (well-formedness, partition invariance,
  progress of every call within the query it belongs to, the offset each
  answer leaves, agreement with the contiguous segmentation from a known
  boundary and from an arbitrary offset under any cuts).
- `word.rs`: `split_word_bounds`-style iterators (`UWordBounds`,
  `UWordBoundIndices`), the ASCII fast path and `UnicodeWords`.
- `word_ascii.rs`: the law that the ASCII fast path segments and selects words
  as the general machines do, given the listed ASCII properties, and
  `ascii_properties_hold`, a verified check of those properties against the
  tables for every ASCII scalar.
- `word_directions.rs`: where segmentation from the front and from the back
  agree (runs of regional indicators; ASCII text), a cursor walking
  forward query by query, over any cuts, reporting the offsets of the
  contiguous iterator, and the iterators' segments covering the text with
  offsets in sequence. The two directions do not agree on every text (see
  `word_agree.rs`); `tests/word_directions.rs` shows such inputs.
- `word_agree.rs`: word boundaries stated by which adjacent scalars the
  UAX #29 rules join (with `Extend`, `Format` and `ZWJ` attached by WB4),
  and laws that both state machines end segments exactly there on every
  text without two exception patterns (`agreeable`): `UWordBoundIndices`
  yields the same offsets from either end, the cursor walking backward over
  any cuts reports the iterator's offsets in reverse, and its forward and
  reverse queries from any offset report the same boundaries. The two
  patterns are a ZWJ right before an `Extended_Pictographic` scalar (or
  before a connector whose right side is one), and a Hebrew letter followed
  by an apostrophe and then by something other than a letter; on them the
  forward and reverse rules differ.
- `grapheme_rules.rs`: the `Grapheme_Cluster_Break`, `Indic_Conjunct_Break` and
  `Extended_Pictographic` properties and the grapheme rules as a backward
  decision.
- `grapheme.rs`: `GraphemeIndices`, the clusters of a whole string from either end.
- `grapheme_cursor.rs`: `GraphemeCursor`, the chunked grapheme cursor, with laws
  that every answer it gives agrees with any document its chunks come from.

Each public function states its result exactly in `ensures`; the laws are
public proof functions. The Unicode property tables come from `icu_properties`
through small trusted wrappers whose contracts name their results.

Unicode version: the `Word_Break`, `Grapheme_Cluster_Break`,
`Indic_Conjunct_Break` and `Extended_Pictographic` properties are read from
`icu_properties` 2.3.0, whose compiled data is ICU 78 (Unicode 17.0), rather
than from property tables generated into this crate: the library's logic is
proved against named property lookups, and the data behind them comes from a
maintained, versioned source. The alphanumeric test used to pick words is
std's `char::is_alphanumeric`, which follows the Unicode version of the Rust
toolchain.
