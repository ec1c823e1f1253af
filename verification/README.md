# filo

A file organizer whose every change is recorded in a log and can be undone
and redone: create, delete (to a trash folder), add, rename, bulk rename,
organize a folder into sub-folders, find duplicates, and get advice on how
to tidy a folder and what looks disposable.

The library in `src/` holds the decisions and is verified with Verus: each
public function states in its contract what it returns. The file system is
touched only by the command line in `app/`, which reads the disk, hands the
library plain values, and carries out the steps the library plans. Scoring a
grouping takes logarithms, so that score (floating point) is computed in
`app/` from the folder tallies the library counts.

## Layout

- `model`, `history`: operations and the change log (JSON lines, unreadable
  lines kept verbatim).
- `lib` (`Filo`), `undo`, `ops`: the undo and redo stacks, the steps that
  reverse or replay an operation, and where single operations put things.
- `organize`, `rules`, `rename`: where organizing sends files, user rules,
  and bulk renames with their collision check and safe order.
- `scan`, `dedupe`, `hashing`: how scans name and order entries, and
  duplicate detection by size, opening bytes and full content (SHA-256).
- `recommend`, `cleanup`, `grouping`: tidy-up advice, what looks
  disposable, and what a grouping would make of a folder.
- `selection`: the set of paths a user has ticked in a listing or among the
  cleanup suggestions.
- `text`, `path`, `sort`, `units`, `clock`, `pattern`, `error`: the helpers
  these rest on.

## Properties proved

Among others: a deleted file's trash copy always lies inside the trash folder, in a folder of its own; no file is proposed for deletion twice; the tool's own data
folder is never proposed; the file kept of each duplicate group (one not named
as a copy when an original is there) is proposed by no suggestion (when no path is listed twice), so applying
every suggestion never removes all copies of a content; undo followed by
redo (and redo followed by undo) restores both stacks; a new action clears
the redo stack; undo reverses exactly the moves redo makes, in the opposite
order; taking the newest entry out of the log keeps every other entry and
every unreadable line; organizing never overwrites an existing file; bulk
renames run in an order in which none lands on a file before it has moved
away, and are refused exactly when no such order exists (a swap of two
names is refused rather than overwriting one of the files). A permanent delete
is logged and clears the redo stack, and undo passes over it to the operation
beneath.
