# cargo-chlog

Changelogs from Git commits that follow Conventional Commits, with the
library's behaviour stated as contracts and proved with Verus.

- `src/` — the verified library:
  - `text.rs`: character-level helpers (whitespace, trimming, prefixes,
    splitting, joining, lexicographic order) with their specifications;
  - `cfg.rs`, `cfg/`: the configuration model (commit types, ignore
    patterns, changelog settings);
  - `git.rs`: commit records, remote-URL normalisation, author formatting
    and the `--since` boundary decision;
  - `lint.rs`: the header and footer grammars, paragraphs and footer blocks,
    ignore patterns, and `lint`, whose result is specified by `lint_all`;
  - `log.rs`: the Markdown renderer, specified by `markdown`, and the laws of
    its section order and layout.
- `app/` — the command: argument parsing (clap), reading `Chlog.toml`
  (serde, toml, annotate-snippets for errors) and the repository (git2).
- `tests/` — tests of the library on concrete values.
