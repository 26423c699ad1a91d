# snob_core

What a follower monitor knows and decides, with its proofs: accounts and lists,
the difference between two captures, the schedule a run is due on, the signature a
report carries, the store that is kept between runs, and where a session lives.

`src/` is the library. Every function in it says in its contract what it returns,
and Verus checks that it does. It reads no file, no keyring and no database: it is
handed plain values and hands plain values back.

- `clock`, `duration`, `number`, `text`: moments, lengths of time, numbers and
  characters.
- `model`, `sets`, `filters`: accounts, what two lists have in common, and what is
  let through.
- `session`, `secret`, `secrets`, `paths`, `budget`: the session, where it is kept,
  and how fast requests may go out.
- `watch`: what changed (`diff`), how a run ended (`outcome`), when the next one is
  (`schedule`), what a report is signed with (`sign`), and the configuration file
  (`config`).
- `store`: the tables, and what each operation does to them. `store::laws` states
  what holds across operations; `watch::schedule::laws` does so for schedules, and
  `watch::config::laws` for a file that is written and read back.

The proof functions that are public are the library's laws. The items marked
`external_body`, `assume_specification` or `uninterp` are what it believes of other
crates and of the standard library; each says what it believes.

`tests/` runs the library on concrete values, and `app/` is the ordinary Rust around
it: files, the keyring, SQLite, and the formats other programs read.
