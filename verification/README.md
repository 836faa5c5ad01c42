# git-hud core

The decision logic of git-hud, a desktop heads-up display for Git repositories, as a
library verified with Verus. Each public function states what it returns in its
`ensures`; the properties that span several calls are proof functions named `law_*`.

- `src/workspace.rs` — the open-project set (capped, no duplicates), the active project,
  and the saved form restored on the next launch.
- `src/lanes.rs` — lane layout of the commit timeline.
- `src/git.rs`, `src/model.rs` — working-tree status labels and the shared data types.
- `src/conflicts.rs` — conflicted paths, their display text, and resolution decisions.
- `src/tally.rs`, `src/stats.rs`, `src/reviews.rs` — commits per author and reviews per
  login, from history and from `gh` JSON.
- `src/alerts.rs` — which notifications a polling cycle raises, and the tray tooltip.
- `src/fetch.rs`, `src/remote.rs` — the hardened `git fetch` command line and its
  outcome, and the GitHub page of a remote.
- `src/text.rs` — character-level helpers.

`app/` is the Tauri shell around the library: repository reads through `git2`, the SQLite
cache, `gh`/`git` subprocesses, the file watcher, commands, tray and background workers.
