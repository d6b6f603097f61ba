# git_ai_core

The decision logic of git-ai's history rewriting and authorship notes,
written in Verus and proved against its specifications.

- `src/` is the verified library:
  - `pairing`: pairs cherry-picked commits with their sources, first by patch id, then by position.
  - `cherry_pick`: reads cherry-pick command lines and the git output that resolves them.
  - `attribution`: line attributions, and how a newer one overrides older ones.
  - `authorship`: authorship logs, and how several logs are gathered per file.
  - `rewrite`: the snapshots written after `cherry-pick --no-commit` and after a backward reset.
  - `notes`: note paths, `cat-file --batch-check` lookups, and the `fast-import` scripts that write notes.
  - `batch`: reading `cat-file --batch` output.
  - `telemetry`: batching of metric events, and the order in which delivery routes are tried.
  - `text`, `decode`: string helpers, and the std decoding calls the library relies on.
- Each module ends with its laws: public proof functions stating what holds across calls.
- `tests/` runs the library on concrete values.
- `app/` is the unverified shell around the library. It runs git, reads the clock and
  delivers telemetry, then hands the results to the library's functions.
