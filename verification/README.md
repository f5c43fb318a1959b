# tuxemdo

A todo list kept in many `todo.md` files, and a fuzzy finder over it. The
library in `src/` is the program's logic, verified with Verus; `app/` reads and
writes the files and draws on the terminal.

| module | what it holds |
|---|---|
| `text`, `path`, `order`, `date` | characters and bytes, paths by component, stable listings, calendar dates |
| `line`, `todo` | the grammar of a task line, tasks, and task files |
| `store`, `outcome` | one task file with its archive and inbox, and what its operations report |
| `discover` | which directories are searched for task files |
| `tree` | many stores as one flat list: routing, bulk changes, undo, reconciling |
| `filter`, `search` | which tasks are listed, in which order; subsequence matching |
| `visibility`, `draft`, `types` | the application's visible list, its groups, its directory rows and its cursor |
| `jump`, `panel` | the finder and the panel that shows it |
| `tree_laws`, `undo_laws`, `bulk_laws`, `visibility_laws`, `panel_laws` | what holds across operations |

A value of each type has a view, and an operation's contract names the view that
it leads to: `final(self)@ == old(self)@.recomputed()`. Files are images in
memory: `app/` loads them before an operation and writes those that it changed.

Two calls into `ratatui` and `String::push` are trusted; the comments above them
say what is claimed of each.
