# kime

Typed decisions over text: a request holds a state and questions, and a small encoder answers every
question with a choice, a score or a yes or no, each with calibrated probabilities.

The library in `src/` is written in Verus. Every function of it is proved against its contract but
for the wrappers around other crates, whose contracts are trusted:

- `regex_is_match`, `regex_find`, `regex_split` and `regex_replace_all` in `email` call `regex`.
- `blake3_hash` in `cache` calls `blake3`, and `sha256_digest` in `pull` calls `sha2`.
- `text_field` in `pull` and `json_string` in `compact` call `serde_json`.
- `debug_string` in `hub` writes a text as std's `{:?}` does.

Trusted too is what `text` and `email` state of std's `String::push`, `str` equality, the case of
texts, and whether a character is whitespace, alphabetic or uppercase.

Its modules:

- `request`, `render`, `pyjson`, `compact`, `json`: reading requests, laying questions out as text,
  and JSON as Python and `serde_json` write it.
- `answer`, `round`, `sum`, `ieee`, `order`: answers from the numbers of a distribution. Floating
  point values are carried by their bits.
- `agent`, `email`: questions for one step of a browser agent, and clean states from emails.
- `graph`, `batch`, `cpu`, `cuda`: graphs lowered to steps over one arena, the calls and launches of
  every step, and how work is cut into tasks and tiles.
- `engine`, `split`, `decide`, `session`, `cache`: batches of questions, the answer cache, and
  putting answers back together.
- `hub`, `pull`, `convert`, `predict`, `settings`, `args`, `command`: what the command line does.
- `text`, `times`: what the others are made with.

`app/` is the program around the library: input and output, threads, the floating point kernels and
the CUDA driver. A checkpoint reader and a server are linked in through `app/model.rs`.

`tests/` runs the library.
