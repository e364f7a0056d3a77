# gitviz

A terminal browser for git repositories: it reads a repository's objects
and references directly, and shows an overview, a commit timeline,
contributors, frequently named paths and the branches with their merges.

The library under `src/` is verified with Verus:

- `git_parser` reads the object store and the text formats: loose and
  packed objects (`object_reader`), commits and author lines
  (`commit_parser`), trees (`tree_parser`), hexadecimal (`hex`), SHA-1
  (`sha1`), and references, branches and the walk over the commit graph
  (`repo`).
- `analyzer` computes line differences (`diff`, with `diff_reversal`
  relating a comparison to the reverse one, and `paths` comparing file
  paths by their components) and the statistics shown (`stats`).
- `tui_ui` holds the browser's state, what each key does to it, and the
  text of each view.
- `models` holds the data types; `text` the character-level helpers.

Each public function states in its contract what it returns; the `law_*`
proof functions state properties that relate several calls.

The program under `app/` does the file and terminal input and output:
it reads files, hands their bytes to the library, and draws the views
with ratatui.
