# LiteList

A desktop to-do list with reminders, notes and goal trees. The document
model and its rules are a Verus library; the Windows front end is ordinary
Rust around it.

## Layout

- `src/` — the verified library (crate `litelist`)
  - `text.rs`: trimming, NUL removal, character limits, line splitting,
    decimal output.
  - `model.rs` and `model/`: the document types; the task list with undo
    (`tasks.rs`), checking a loaded document (`validate.rs`), goals and
    their steps (`goal.rs`, `document.rs`), notes, the notification log and
    setting a reminder (`notes.rs`), the prerequisite graph
    (`graph.rs`), and what every goal keeps through editing
    (`soundness.rs`).
  - `reminders.rs`: reading a date and time out of text, and building a
    reminder from times already converted to instants.
  - `storage.rs`: which stored copy of the document to trust, and what
    saving may overwrite.
- `tests/` — tests of the library.
- `app/` — the Windows program: window, drawing and dialogs, files on disk,
  the JSON form of the document, and the local time zone.

## What is proved

Each public function states its whole result. Beyond that the library
proves, among others: undo brings back the list from before a change
(sent alerts stay sent); ids are never reused; moving a task keeps every
task; each reminder alert goes out at most once, and a late check sends the
due alert alone; editing goals never creates a prerequisite cycle, keeps
completed steps' prerequisites completed and keeps a goal's completion in
step with its steps; a step's row in the goal tree is one below its deepest
prerequisite; and reading back a time shown in canonical form gives the
same time.
