# remedy

Spaced-repetition flashcards written as nested documents ("rems"), with closures
(`(group)[hidden text]`) that become cards to learn.

## Layout

- `src/` — the verified library (Verus):
  - `document/grammar.rs`: the text format, as a specification (parser and renderer)
    with the proof that parsing is the inverse of rendering;
  - `document/parser.rs`: the executable parser and the syntax tree;
  - `deck/`: documents with resolved closures, and the cards each rem contributes to;
  - `serialize.rs`: the cards of a document by rem, location and closure group;
  - `session.rs`: the queue of cards to learn, soonest due first;
  - `schedule/`: the SuperMemo 2 grades and the integer part of the schedule;
  - `workspace/`, `file.rs`: locations, paths and file names.
- `tests/` — tests of the library.
- `app/` — the command-line program: file access, storage with `rkyv`, the
  floating-point ease factor, and the learning loop.
