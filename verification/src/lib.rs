//! filo: organize, tidy and rename files, with every change recorded in a log
//! so it can be undone and redone.
use vstd::prelude::*;
use crate::history::History;
use crate::model::Operation;
use crate::path::join;
use crate::text::{chars_of, string_of, vec_of};

pub mod cleanup;
pub mod clock;
pub mod dedupe;
pub mod error;
pub mod hashing;
pub mod grouping;
pub mod history;
pub mod model;
pub mod ops;
pub mod organize;
pub mod path;
pub mod pattern;
pub mod recommend;
pub mod rename;
pub mod rules;
pub mod scan;
pub mod selection;
pub mod sort;
pub mod text;
pub mod undo;
pub mod units;

verus! {

/// The tool's state: where it keeps its data and trash, the change log (the
/// undo stack) and the operations that were undone (the redo stack).
pub struct Filo {
    pub(crate) data_dir: String,
    pub(crate) trash_dir: String,
    pub(crate) history: History,
    pub(crate) redo: History,
}

/// `dir` joined with `name`.
fn joined(dir: &String, name: &str) -> (s: String)
    ensures
        s@ == join(dir@, name@),
{
    let d = chars_of(dir.as_str());
    let n = vec_of(name);
    string_of(&crate::path::join_path(&d, &n))
}

impl Filo {
    /// Where the data lives.
    pub closed spec fn data_dir_view(&self) -> Seq<char> {
        self.data_dir@
    }

    /// Where trashed files go.
    pub closed spec fn trash_dir_view(&self) -> Seq<char> {
        self.trash_dir@
    }

    /// The change log: the undo stack.
    pub closed spec fn history_view(&self) -> History {
        self.history
    }

    /// The operations that were undone: the redo stack.
    pub closed spec fn redo_view(&self) -> History {
        self.redo
    }

    /// The tool keeping its data in `dir`: trash in `dir/trash`, the change
    /// log in `dir/history.jsonl`, the redo stack in `dir/redo.jsonl`, both empty.
    pub fn with_data_dir(dir: String) -> (f: Filo)
        ensures
            f.data_dir_view() == dir@,
            f.trash_dir_view() == join(dir@, "trash"@),
            f.history_view()@.0 == join(dir@, "history.jsonl"@),
            f.redo_view()@.0 == join(dir@, "redo.jsonl"@),
            f.history_view().entries().len() == 0,
            f.redo_view().entries().len() == 0,
            f.history_view()@.1.len() == 0,
            f.redo_view()@.1.len() == 0,
    {
        let trash_dir = joined(&dir, "trash");
        let history = History::new(joined(&dir, "history.jsonl"));
        let redo = History::new(joined(&dir, "redo.jsonl"));
        Filo { data_dir: dir, trash_dir, history, redo }
    }

    /// The tool keeping its data in `dir`, with both logs as read from disk.
    pub fn with_logs(dir: String, history: History, redo: History) -> (f: Filo)
        ensures
            f.data_dir_view() == dir@,
            f.trash_dir_view() == join(dir@, "trash"@),
            f.history_view() == history,
            f.redo_view() == redo,
    {
        let trash_dir = joined(&dir, "trash");
        Filo { data_dir: dir, trash_dir, history, redo }
    }

    /// Where the data lives.
    pub fn data_dir(&self) -> (d: &String)
        ensures
            d@ == self.data_dir_view(),
    {
        &self.data_dir
    }

    /// Where trashed files go.
    pub fn trash_dir(&self) -> (d: &String)
        ensures
            d@ == self.trash_dir_view(),
    {
        &self.trash_dir
    }

    /// The change log.
    pub fn history(&self) -> (h: &History)
        ensures
            *h == self.history_view(),
    {
        &self.history
    }

    /// The redo stack (operations that have been undone).
    pub fn redo_stack(&self) -> (h: &History)
        ensures
            *h == self.redo_view(),
    {
        &self.redo
    }

    /// The redo stack, as undo and redo use it.
    pub(crate) fn redo_log(&self) -> (h: &History)
        ensures
            *h == self.redo_view(),
    {
        &self.redo
    }

    /// Appends a new operation to the change log and clears the redo stack: a
    /// new action invalidates anything that was undone. Gives the operation back.
    pub fn record(&mut self, op: Operation) -> (r: Operation)
        ensures
            r@ == op@,
            final(self).data_dir_view() == old(self).data_dir_view(),
            final(self).trash_dir_view() == old(self).trash_dir_view(),
            final(self).history_view()@.0 == old(self).history_view()@.0,
            final(self).history_view()@.1 == old(self).history_view()@.1.push(
                Ok::<crate::history::OpView, Seq<char>>(op@),
            ),
            final(self).redo_view()@.0 == old(self).redo_view()@.0,
            final(self).redo_view()@.1.len() == 0,
    {
        let r = op.copy();
        self.history.append(op);
        self.redo.clear();
        r
    }
}

} // verus!
