# karukan

The core of a Japanese input method: romaji input, kana-kanji conversion with several
segments, and the repair of typing slips. The library is written in Rust and verified
with Verus.

- `src/romaji`: the spelling table, the incremental converter, and hypotheses for
  texts with stranded letters or a wrong kana.
- `src/engine`: the engine. `keyboard` says what each key does, `conversion`,
  `segments` and `commit` how a conversion starts, goes on and ends, `collect` and
  `lookup` where candidates come from, `fuzzy` how repaired readings are offered, and
  `model` how the conversion models take part.
- `src/distinct.rs`: lists in which nothing occurs twice. `src/text.rs`: characters and
  strings.
- `app`: the engine with conversion models and loaded dictionaries around it.

Every function states what it computes over the views of its arguments; only of the time
that a key takes, which the clock decides, nothing is said. The functions
named `law_...` state what holds of several of them together, such as that the segments
of a conversion always spell what was typed.

A model is asked outside the engine. The engine looks for the answer to a question among
those it knows, notes the question in `requests` if there is none, and goes on without;
a step with all answers at hand leaves no requests. Where the main model is not loaded,
`model_wanted` says that it was looked for.
