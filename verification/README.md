# quiczk

Quiz yourself in the terminal. A quiz is a TOML file with a `[quiczk]` table of
numbered questions (`q1`), options (`o1`), answers (`a1`) and optional
explanations (`e1`), and optionally its own `[config]` table.

The library in `src/` is verified with Verus:

- `quiz`, `rules`, `validate`, `locate`: reading and checking a quiz file, the
  error messages with their source excerpts, and the canonical layout that
  `quiczk fmt` writes.
- `canonical`: the canonical `[quiczk]` table of a valid quiz passes every rule
  and reads back as the same quiz.
- `config`: the settings, decoded from TOML tables, and their precedence (quiz
  file over configuration file over defaults).
- `session`: the quiz session as a state machine (keys, timer, restart), with
  its invariant and the shuffles that keep every question and option.
- `screen`: what the terminal shows for a session (markers, marks, messages).
- `cli`, `paths`: the command line and the path rules it relies on.
- `toml`, `random`, `text`, `search`: the TOML document model, the random
  generator, and helpers.

`app/` holds the program around it: argument and environment access, files,
and the terminal.
