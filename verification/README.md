# botbot

A chat bot for the IRC/Matrix rooms of an association: it reads the frames
that `matrix-commander` prints, answers trigger words from a sqlite table,
hands other questions to an `aichat` model chosen per user and per room
(`sql` by default), and lets
administrators add and delete triggers with `!add [trigger][answer]` and
`!del [trigger][trigger]`.

Layout:

- `src/` — the verified library (Verus):
  - `text.rs`: byte-level search, cutting and removal in UTF-8 text;
  - `matrix.rs`: parsing of `matrix-commander` frames;
  - `database.rs`: command arguments, trigger list, administrator rights
    and answer model read from the table rows, and the decisions around
    adding, deleting and answering triggers;
  - `search.rs`: the search for the answers to a phrase, one trigger word
    at a time;
  - `message.rs`: a received message and what the bot does with it;
  - `answers.rs`: the role string given to the model (local time, date and
    weekday, written by `chrono`);
  - `system.rs`: disk use read from `df`;
  - `pattern.rs`, `random.rs`: the calls into `regex` and `rand`.
- `app/main.rs` — the program: sqlite, processes, clock, and the main loop.
- `tests/` — tests of the library.
