# wordle_solver

A Wordle solver for five-letter Russian words, for the Flipper Zero, with its
logic verified by Verus.

- `src/dict.rs`: packed words (six bits per letter), the dictionary file format,
  scoring by distinct letters, and `word_matches`, which decides whether a word
  is consistent with the green/yellow/gray marks of a guess.
- `src/feedback.rs`: the marks Wordle gives, and the proof that the hidden word
  is always consistent with them.
- `src/alphabet.rs`: the UTF-8 bytes and 5x7 glyphs of the alphabet.
- `src/bits.rs`: bit counting.
- `src/solver.rs`: the bit set of remaining words and the solver.
- `src/ui.rs`, `src/render.rs`: the screen's state machine (keys, filtering,
  new game) and what is drawn for it.
- `app/main.rs`: the device application: file reading, random numbers, the GUI
  callbacks and the main loop.
