# wt

Isolated, ready-to-code Git worktrees for GitHub issues, pull requests and
branches. `wt add 42` creates a worktree with its own branch, private files,
leased ports and Docker Compose project; `wt remove` and `wt clean` take
worktrees away again without losing work.

## Layout

- `src/` decides. The rules stand here as functions with contracts that Verus
  proves: which branch an issue gets, which ports are leased, what an env
  file becomes, which changes block a removal, which worktrees are merged.
  Steps that wait for Git, GitHub or the user are state machines: each takes
  what was answered and says what to do next.
- `app/` acts. It runs programs, reads and writes files, prompts and prints,
  and hands plain values to the library.
- `tests/` runs the library on concrete values.

Contracts are stated over mathematical views (`Seq<char>`, sequences of
records). Laws that relate several functions are public proof functions, next
to what they speak of or in `config_laws.rs`, `copy_laws.rs`,
`environment_laws.rs`, `project_laws.rs`, `reference_laws.rs`,
`rewriting_laws.rs` and `store_laws.rs`.

What is taken on trust is marked `#[verifier::external_body]` or
`assume_specification`, with a comment that says what is claimed: character
classes and UTF-8 of the standard library, the JSON of `serde_json`, text
widths of `console`, and the Fish script of `clap_complete`.
