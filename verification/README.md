# tinyhivemind

A desk of agent seats that speak through a small fixed vocabulary (`post`,
`broadcast`, `dm`, `ask`, `ask_teammates`, `complete_episode`, `read`; a
seat is served all but `post` and `dm` as tools), and the rules a host
follows to run their turns. Everything under `src/` is Verus:
executable Rust whose behaviour is stated in `requires` / `ensures` and
proved.

Layout:

- `src/` — the verified library, one module per concern (see the crate
  documentation in `src/lib.rs`). Public `law_*` proof functions state the
  properties that span several operations.
- `tests/` — ordinary Rust tests of the library on concrete values.
- `app/` — ordinary Rust around the library: environment and file-system
  access, JSON conversion of call arguments, serde copies of the library's
  types, the System One wire and the router's asking and waiting, the
  float-valued parts of routing answers, the host's approver asked once,
  and error types with `Display`.

One library function rests on std behaviour that is named rather than
restated: the `Debug` quoting of a string (in `raw`).
