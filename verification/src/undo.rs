//! Undo and redo. Every operation stores what it needs to be reversed (undo)
//! or replayed (redo); here each direction becomes a list of file-system steps,
//! and the two stacks move operations between them.
//!
//! The change log is the undo stack; a second log holds what was undone.
//! Undoing takes the newest operation off the log, reverses it and puts it on
//! the redo stack; redoing takes it back. Recording a new operation clears the
//! redo stack (see `Filo::record`).
use vstd::prelude::*;
use crate::error::FiloError;
use crate::history::{entries_of, last_entry, lemma_last_entry, lemma_remove_last_entry, OpView};
use crate::model::{pair_views, KindView, Operation, OperationKind};
use crate::path::{lemma_parent_shorter, parent, parent_of, within, is_within};
use crate::text::{append_chars, append_str, chars_of, decimal, decimal_chars, string_of};
use crate::Filo;

verus! {

/// One thing to do to the file system.
#[derive(Debug)]
pub enum FsStep {
    /// Remove the path (file or folder) if it is there.
    RemoveIfPresent(String),
    /// Fail with `NotFound` unless `from` is there; then move it to `to`.
    Restore { from: String, to: String },
    /// Move `from` to `to`, creating `to`'s folder.
    Move { from: String, to: String },
    /// Move `from` to `to` if `from` is there.
    MoveIfPresent { from: String, to: String },
    /// Copy `from` (a file or a folder tree) to `to`.
    Copy { from: String, to: String },
    /// Create the folder and any missing parents.
    MakeDir(String),
    /// Create an empty file, and its folder if missing.
    MakeFile(String),
    /// Remove these folders in turn while each one is empty; stop at the
    /// first that cannot be removed.
    Prune(Vec<String>),
}

/// A step with its paths as texts.
pub enum StepView {
    RemoveIfPresent(Seq<char>),
    Restore { from: Seq<char>, to: Seq<char> },
    Move { from: Seq<char>, to: Seq<char> },
    MoveIfPresent { from: Seq<char>, to: Seq<char> },
    Copy { from: Seq<char>, to: Seq<char> },
    MakeDir(Seq<char>),
    MakeFile(Seq<char>),
    Prune(Seq<Seq<char>>),
}

impl View for FsStep {
    type V = StepView;

    open spec fn view(&self) -> StepView {
        match self {
            FsStep::RemoveIfPresent(p) => StepView::RemoveIfPresent(p@),
            FsStep::Restore { from, to } => StepView::Restore { from: from@, to: to@ },
            FsStep::Move { from, to } => StepView::Move { from: from@, to: to@ },
            FsStep::MoveIfPresent { from, to } => StepView::MoveIfPresent { from: from@, to: to@ },
            FsStep::Copy { from, to } => StepView::Copy { from: from@, to: to@ },
            FsStep::MakeDir(p) => StepView::MakeDir(p@),
            FsStep::MakeFile(p) => StepView::MakeFile(p@),
            FsStep::Prune(ds) => StepView::Prune(ds@.map_values(|d: String| d@)),
        }
    }
}

/// The views of some steps.
pub open spec fn step_views(steps: Seq<FsStep>) -> Seq<StepView> {
    steps.map_values(|s: FsStep| s@)
}

/// The folders from `dir` up towards `root` that pruning tries, nearest first:
/// it stops at `root` itself and at anything outside it.
pub open spec fn prune_chain(dir: Seq<char>, root: Seq<char>) -> Seq<Seq<char>>
    decreases dir.len(),
{
    if dir == root || !within(dir, root) {
        Seq::empty()
    } else {
        match parent(dir) {
            Some(up) => {
                proof {
                    lemma_parent_shorter(dir);
                }
                seq![dir] + prune_chain(up, root)
            },
            None => seq![dir],
        }
    }
}

/// The folders pruning tries after moving a file back from `to` to `from`:
/// from `to`'s folder up to, not including, `from`'s folder.
pub open spec fn prune_after(from: Seq<char>, to: Seq<char>) -> Seq<Seq<char>> {
    match (parent(to), parent(from)) {
        (Some(start), Some(root)) => prune_chain(start, root),
        _ => Seq::empty(),
    }
}

/// The steps that reverse an operation of kind `k`. Batches are undone newest
/// move first; after undoing an organize, the folders it created are pruned.
pub open spec fn reverse_plan(k: KindView) -> Seq<StepView> {
    match k {
        KindView::Create { path, .. } => seq![StepView::RemoveIfPresent(path)],
        KindView::Delete { from, trashed_to } => seq![StepView::Restore { from: trashed_to, to: from }],
        KindView::Erase { .. } => Seq::empty(),
        KindView::DeleteMany { batch } => Seq::new(
            batch.len(),
            |i: int|
                StepView::Restore {
                    from: batch[batch.len() - 1 - i].1,
                    to: batch[batch.len() - 1 - i].0,
                },
        ),
        KindView::Move { from, to } => seq![StepView::Move { from: to, to: from }],
        KindView::Copy { to, .. } => seq![StepView::RemoveIfPresent(to)],
        KindView::Rename { from, to } => seq![StepView::Move { from: to, to: from }],
        KindView::Organize { batch } => Seq::new(
            batch.len(),
            |i: int|
                StepView::MoveIfPresent {
                    from: batch[batch.len() - 1 - i].1,
                    to: batch[batch.len() - 1 - i].0,
                },
        ) + Seq::new(batch.len(), |i: int| StepView::Prune(prune_after(batch[i].0, batch[i].1))),
    }
}

/// The steps that replay an operation of kind `k`.
pub open spec fn replay_plan(k: KindView) -> Seq<StepView> {
    match k {
        KindView::Create { path, is_dir } => if is_dir {
            seq![StepView::MakeDir(path)]
        } else {
            seq![StepView::MakeFile(path)]
        },
        KindView::Delete { from, trashed_to } => seq![StepView::Move { from, to: trashed_to }],
        KindView::Erase { from } => seq![StepView::RemoveIfPresent(from)],
        KindView::DeleteMany { batch } => Seq::new(
            batch.len(),
            |i: int| StepView::Move { from: batch[i].0, to: batch[i].1 },
        ),
        KindView::Move { from, to } => seq![StepView::Move { from, to }],
        KindView::Copy { from, to } => seq![StepView::Copy { from, to }],
        KindView::Rename { from, to } => seq![StepView::Move { from, to }],
        KindView::Organize { batch } => Seq::new(
            batch.len(),
            |i: int| StepView::Move { from: batch[i].0, to: batch[i].1 },
        ),
    }
}

/// The move a step makes, if it is a move of some kind.
pub open spec fn move_of(s: StepView) -> Option<(Seq<char>, Seq<char>)> {
    match s {
        StepView::Restore { from, to } => Some((from, to)),
        StepView::Move { from, to } => Some((from, to)),
        StepView::MoveIfPresent { from, to } => Some((from, to)),
        _ => None,
    }
}

/// How many moves replaying an operation of kind `k` makes.
pub open spec fn move_count(k: KindView) -> nat {
    match k {
        KindView::DeleteMany { batch } => batch.len(),
        KindView::Organize { batch } => batch.len(),
        KindView::Delete { .. } => 1,
        KindView::Move { .. } => 1,
        KindView::Rename { .. } => 1,
        _ => 0,
    }
}

/// Undo takes every move that redo makes back, in the opposite order: the
/// `i`-th move of the undo is the `i`-th from last move of the redo, turned around.
pub proof fn lemma_undo_reverses_redo(k: KindView, i: int)
    requires
        0 <= i < move_count(k),
    ensures
        move_of(reverse_plan(k)[i]) matches Some(back) && move_of(
            replay_plan(k)[move_count(k) - 1 - i],
        ) matches Some(forth) && back == (forth.1, forth.0),
{
}

/// The path a step brings into being, if it makes or lands on one.
pub open spec fn made_by(s: StepView) -> Option<Seq<char>> {
    match s {
        StepView::Restore { to, .. } => Some(to),
        StepView::Move { to, .. } => Some(to),
        StepView::MoveIfPresent { to, .. } => Some(to),
        StepView::Copy { to, .. } => Some(to),
        StepView::MakeDir(p) => Some(p),
        StepView::MakeFile(p) => Some(p),
        _ => None,
    }
}

/// The path a step removes outright, if it removes one.
pub open spec fn removed_by(s: StepView) -> Option<Seq<char>> {
    match s {
        StepView::RemoveIfPresent(p) => Some(p),
        _ => None,
    }
}

/// Redo remakes exactly what undo removes. For a create or a copy, undo is a
/// single removal and redo a single step, and the path redo brings into being
/// is the path undo removes. A copy is redone from its recorded source onto its
/// recorded destination, and a create remakes a folder exactly when a folder
/// was created.
pub proof fn lemma_redo_remakes_what_undo_removes(k: KindView)
    requires
        k is Create || k is Copy,
    ensures
        reverse_plan(k).len() == 1,
        replay_plan(k).len() == 1,
        removed_by(reverse_plan(k)[0]) is Some,
        made_by(replay_plan(k)[0]) == removed_by(reverse_plan(k)[0]),
        k matches KindView::Copy { from, to } ==> replay_plan(k)[0] == (StepView::Copy { from, to }),
        k matches KindView::Create { path, is_dir } ==> replay_plan(k)[0] == if is_dir {
            StepView::MakeDir(path)
        } else {
            StepView::MakeFile(path)
        },
{
}

/// The folders pruning tries from `dir` up to `root`.
pub fn prune_dirs(dir: &String, root: &String) -> (r: Vec<String>)
    ensures
        r@.map_values(|d: String| d@) == prune_chain(dir@, root@),
    decreases dir@.len(),
{
    let d = chars_of(dir.as_str());
    let rt = chars_of(root.as_str());
    if String::eq(dir, root) || !is_within(&d, &rt) {
        let r: Vec<String> = Vec::new();
        assert(r@.map_values(|d: String| d@) =~= Seq::<Seq<char>>::empty());
        return r;
    }
    proof {
        lemma_parent_shorter(dir@);
    }
    let mut r: Vec<String> = Vec::new();
    r.push(dir.clone());
    match parent_of(&d) {
        Some(up) => {
            let up_s = string_of(&up);
            let rest = prune_dirs(&up_s, root);
            let mut k: usize = 0;
            while k < rest.len()
                invariant
                    k <= rest.len(),
                    r@.map_values(|d: String| d@) == seq![dir@] + rest@.map_values(
                        |d: String| d@,
                    ).take(k as int),
                decreases rest.len() - k,
            {
                let ghost before = r@;
                r.push(rest[k].clone());
                assert(r@.map_values(|d: String| d@) =~= before.map_values(|d: String| d@).push(
                    rest@[k as int]@,
                ));
                assert(rest@.map_values(|d: String| d@).take(k + 1) =~= rest@.map_values(
                    |d: String| d@,
                ).take(k as int).push(rest@[k as int]@));
                k = k + 1;
            }
            assert(rest@.map_values(|d: String| d@).take(rest.len() as int) =~= rest@.map_values(
                |d: String| d@,
            ));
        },
        None => {
            assert(r@.map_values(|d: String| d@) =~= seq![dir@]);
        },
    }
    r
}

/// The folders pruning tries after moving a file back from `to` to `from`.
fn prune_after_move(from: &String, to: &String) -> (r: Vec<String>)
    ensures
        r@.map_values(|d: String| d@) == prune_after(from@, to@),
{
    let f = chars_of(from.as_str());
    let t = chars_of(to.as_str());
    match (parent_of(&t), parent_of(&f)) {
        (Some(start), Some(root)) => prune_dirs(&string_of(&start), &string_of(&root)),
        _ => {
            let r: Vec<String> = Vec::new();
            assert(r@.map_values(|d: String| d@) =~= Seq::<Seq<char>>::empty());
            r
        },
    }
}

/// The steps that reverse `op`.
pub fn reverse_steps(op: &Operation) -> (r: Vec<FsStep>)
    ensures
        step_views(r@) == reverse_plan(op.kind@),
{
    let mut r: Vec<FsStep> = Vec::new();
    match &op.kind {
        OperationKind::Create { path, .. } => {
            r.push(FsStep::RemoveIfPresent(path.clone()));
        },
        OperationKind::Delete { from, trashed_to } => {
            r.push(FsStep::Restore { from: trashed_to.clone(), to: from.clone() });
        },
        OperationKind::Erase { .. } => {
            assert(step_views(r@) =~= reverse_plan(op.kind@));
        },
        OperationKind::DeleteMany { batch } => {
            let ghost b = pair_views(batch@);
            let mut i: usize = batch.len();
            while i > 0
                invariant
                    i <= batch.len(),
                    b == pair_views(batch@),
                    step_views(r@) == reverse_plan(op.kind@).take(batch.len() - i),
                    op.kind@ == (KindView::DeleteMany { batch: b }),
                decreases i,
            {
                let ghost before = r@;
                r.push(FsStep::Restore { from: batch[i - 1].1.clone(), to: batch[i - 1].0.clone() });
                assert(step_views(r@) =~= step_views(before).push(r@[r@.len() - 1]@));
                assert(reverse_plan(op.kind@).take(batch.len() - i + 1) =~= reverse_plan(
                    op.kind@,
                ).take(batch.len() - i).push(reverse_plan(op.kind@)[batch.len() - i]));
                i = i - 1;
            }
            assert(reverse_plan(op.kind@).take(batch.len() as int) =~= reverse_plan(op.kind@));
        },
        OperationKind::Move { from, to } => {
            r.push(FsStep::Move { from: to.clone(), to: from.clone() });
        },
        OperationKind::Copy { to, .. } => {
            r.push(FsStep::RemoveIfPresent(to.clone()));
        },
        OperationKind::Rename { from, to } => {
            r.push(FsStep::Move { from: to.clone(), to: from.clone() });
        },
        OperationKind::Organize { batch } => {
            let ghost b = pair_views(batch@);
            let ghost n = batch.len() as int;
            let mut i: usize = batch.len();
            while i > 0
                invariant
                    i <= batch.len(),
                    n == batch.len(),
                    b == pair_views(batch@),
                    step_views(r@) == reverse_plan(op.kind@).take(n - i),
                    op.kind@ == (KindView::Organize { batch: b }),
                decreases i,
            {
                let ghost before = r@;
                r.push(
                    FsStep::MoveIfPresent { from: batch[i - 1].1.clone(), to: batch[i - 1].0.clone() },
                );
                assert(step_views(r@) =~= step_views(before).push(r@[r@.len() - 1]@));
                assert(reverse_plan(op.kind@).take(n - i + 1) =~= reverse_plan(op.kind@).take(
                    n - i,
                ).push(reverse_plan(op.kind@)[n - i]));
                i = i - 1;
            }
            let mut j: usize = 0;
            while j < batch.len()
                invariant
                    j <= batch.len(),
                    n == batch.len(),
                    b == pair_views(batch@),
                    step_views(r@) == reverse_plan(op.kind@).take(n + j),
                    op.kind@ == (KindView::Organize { batch: b }),
                decreases batch.len() - j,
            {
                let ghost before = r@;
                let chain = prune_after_move(&batch[j].0, &batch[j].1);
                r.push(FsStep::Prune(chain));
                assert(step_views(r@) =~= step_views(before).push(r@[r@.len() - 1]@));
                assert(reverse_plan(op.kind@).take(n + j + 1) =~= reverse_plan(op.kind@).take(
                    n + j,
                ).push(reverse_plan(op.kind@)[n + j]));
                j = j + 1;
            }
            assert(reverse_plan(op.kind@).take(n + n) =~= reverse_plan(op.kind@));
        },
    }
    proof {
        if !(op.kind is DeleteMany) && !(op.kind is Organize) {
            assert(step_views(r@) =~= reverse_plan(op.kind@));
        }
    }
    r
}

/// The steps that replay `op`.
pub fn replay_steps(op: &Operation) -> (r: Vec<FsStep>)
    ensures
        step_views(r@) == replay_plan(op.kind@),
{
    let mut r: Vec<FsStep> = Vec::new();
    match &op.kind {
        OperationKind::Create { path, is_dir } => {
            if *is_dir {
                r.push(FsStep::MakeDir(path.clone()));
            } else {
                r.push(FsStep::MakeFile(path.clone()));
            }
        },
        OperationKind::Delete { from, trashed_to } => {
            r.push(FsStep::Move { from: from.clone(), to: trashed_to.clone() });
        },
        OperationKind::Erase { from } => {
            r.push(FsStep::RemoveIfPresent(from.clone()));
        },
        OperationKind::DeleteMany { batch } | OperationKind::Organize { batch } => {
            let ghost b = pair_views(batch@);
            let mut i: usize = 0;
            while i < batch.len()
                invariant
                    i <= batch.len(),
                    b == pair_views(batch@),
                    step_views(r@) == replay_plan(op.kind@).take(i as int),
                    op.kind@ == (KindView::DeleteMany { batch: b }) || op.kind@
                        == (KindView::Organize { batch: b }),
                decreases batch.len() - i,
            {
                let ghost before = r@;
                r.push(FsStep::Move { from: batch[i].0.clone(), to: batch[i].1.clone() });
                assert(step_views(r@) =~= step_views(before).push(r@[r@.len() - 1]@));
                assert(replay_plan(op.kind@).take(i + 1) =~= replay_plan(op.kind@).take(
                    i as int,
                ).push(replay_plan(op.kind@)[i as int]));
                i = i + 1;
            }
            assert(replay_plan(op.kind@).take(batch.len() as int) =~= replay_plan(op.kind@));
        },
        OperationKind::Move { from, to } => {
            r.push(FsStep::Move { from: from.clone(), to: to.clone() });
        },
        OperationKind::Copy { from, to } => {
            r.push(FsStep::Copy { from: from.clone(), to: to.clone() });
        },
        OperationKind::Rename { from, to } => {
            r.push(FsStep::Move { from: from.clone(), to: to.clone() });
        },
    }
    proof {
        if !(op.kind is DeleteMany) && !(op.kind is Organize) {
            assert(step_views(r@) =~= replay_plan(op.kind@));
        }
    }
    r
}

/// Why the reversal of an operation of kind `k` is impossible once something
/// it put in the trash is gone: only deletions depend on the trash.
pub open spec fn lost_in_trash(k: KindView) -> Option<Seq<char>> {
    match k {
        KindView::Delete { from, .. } => Some(from + " is no longer in the trash"@),
        KindView::DeleteMany { batch } => Some(
            decimal(batch.len()) + " item(s)"@ + " is no longer in the trash"@,
        ),
        _ => None,
    }
}

/// The trash copies an operation depends on; undoing it is blocked when any is gone.
pub fn trash_paths(op: &Operation) -> (r: Vec<String>)
    ensures
        op.kind is Delete ==> r@.map_values(|p: String| p@) == seq![op.kind@->trashed_to],
        op.kind@ matches KindView::DeleteMany { batch } ==> r@.map_values(|p: String| p@)
            == batch.map_values(|x: (Seq<char>, Seq<char>)| x.1),
        !(op.kind is Delete) && !(op.kind is DeleteMany) ==> r@.len() == 0,
{
    let mut r: Vec<String> = Vec::new();
    match &op.kind {
        OperationKind::Delete { trashed_to, .. } => {
            r.push(trashed_to.clone());
            assert(r@.map_values(|p: String| p@) =~= seq![op.kind@->trashed_to]);
        },
        OperationKind::DeleteMany { batch } => {
            let ghost b = pair_views(batch@);
            let mut i: usize = 0;
            while i < batch.len()
                invariant
                    i <= batch.len(),
                    b == pair_views(batch@),
                    r@.map_values(|p: String| p@) == b.map_values(
                        |x: (Seq<char>, Seq<char>)| x.1,
                    ).take(i as int),
                decreases batch.len() - i,
            {
                let ghost before = r@;
                r.push(batch[i].1.clone());
                assert(r@.map_values(|p: String| p@) =~= before.map_values(|p: String| p@).push(
                    batch@[i as int].1@,
                ));
                assert(b.map_values(|x: (Seq<char>, Seq<char>)| x.1).take(i + 1) =~= b.map_values(
                    |x: (Seq<char>, Seq<char>)| x.1,
                ).take(i as int).push(batch@[i as int].1@));
                i = i + 1;
            }
            assert(b.map_values(|x: (Seq<char>, Seq<char>)| x.1).take(batch.len() as int)
                =~= b.map_values(|x: (Seq<char>, Seq<char>)| x.1));
        },
        _ => {},
    }
    r
}

/// What undoing the newest operation comes to.
#[derive(Debug)]
pub enum UndoPlan {
    /// The log is empty.
    Nothing,
    /// The newest operation can never be reversed; it is to be dropped from the
    /// log and the error reported.
    Blocked(FiloError),
    /// The newest operation was a permanent deletion, which nothing can
    /// reverse and which stands in the way of nothing: drop it from the log
    /// and undo the one beneath.
    Skip,
    /// Carry out these steps, then commit the undo.
    Reverse(Vec<FsStep>),
}

/// What happens to a run of undos or redos after one of them fails.
#[derive(Debug, Clone, Copy, PartialEq, Eq, Structural)]
pub enum AfterFailure {
    /// Nothing is left: the run ends with what it did.
    Stop,
    /// That one could not be reversed and was dropped: go on with the next.
    Skip,
    /// Give up with the error.
    GiveUp,
}

/// How a run of undos goes on after one fails with `e`.
pub fn after_failed_undo(e: &FiloError) -> (r: AfterFailure)
    ensures
        r == match *e {
            FiloError::NothingToUndo => AfterFailure::Stop,
            FiloError::NotReversible(_) => AfterFailure::Skip,
            _ => AfterFailure::GiveUp,
        },
{
    match e {
        FiloError::NothingToUndo => AfterFailure::Stop,
        FiloError::NotReversible(_) => AfterFailure::Skip,
        _ => AfterFailure::GiveUp,
    }
}

/// How a run of redos goes on after one fails with `e`.
pub fn after_failed_redo(e: &FiloError) -> (r: AfterFailure)
    ensures
        r == match *e {
            FiloError::NothingToRedo => AfterFailure::Stop,
            _ => AfterFailure::GiveUp,
        },
{
    match e {
        FiloError::NothingToRedo => AfterFailure::Stop,
        _ => AfterFailure::GiveUp,
    }
}

impl Filo {
    /// Is there anything to undo?
    pub fn can_undo(&self) -> (r: bool)
        ensures
            r == (self.history_view().entries().len() > 0),
    {
        self.history().last().is_some()
    }

    /// Is there anything to redo?
    pub fn can_redo(&self) -> (r: bool)
        ensures
            r == (self.redo_view().entries().len() > 0),
    {
        self.redo_log().last().is_some()
    }

    /// What undoing the newest operation comes to, given whether some trash
    /// copy it depends on (see `trash_paths`) is gone.
    pub fn plan_undo(&self, trash_missing: bool) -> (r: UndoPlan)
        ensures
            self.history_view().entries().len() == 0 ==> r is Nothing,
            self.history_view().entries().len() > 0 ==> {
                let k = self.history_view().entries().last().1;
                if k is Erase {
                    r is Skip
                } else if trash_missing && lost_in_trash(k) is Some {
                    r matches UndoPlan::Blocked(FiloError::NotReversible(why)) && why@
                        == lost_in_trash(k).unwrap()
                } else {
                    r matches UndoPlan::Reverse(steps) && step_views(steps@) == reverse_plan(k)
                }
            },
    {
        match self.history().last() {
            None => UndoPlan::Nothing,
            Some(op) => {
                if let OperationKind::Erase { .. } = &op.kind {
                    return UndoPlan::Skip;
                }
                if trash_missing {
                    match &op.kind {
                        OperationKind::Delete { from, .. } => {
                            let mut v = chars_of(from.as_str());
                            append_str(&mut v, " is no longer in the trash");
                            return UndoPlan::Blocked(FiloError::NotReversible(string_of(&v)));
                        },
                        OperationKind::DeleteMany { batch } => {
                            let mut v = decimal_chars(batch.len() as u64);
                            append_str(&mut v, " item(s)");
                            append_str(&mut v, " is no longer in the trash");
                            proof {
                                assert(pair_views(batch@).len() == batch@.len());
                            }
                            return UndoPlan::Blocked(FiloError::NotReversible(string_of(&v)));
                        },
                        _ => {},
                    }
                }
                UndoPlan::Reverse(reverse_steps(&op))
            },
        }
    }

    /// Drops the newest operation from the log without reversing it (one that
    /// can never be reversed).
    pub fn drop_newest(&mut self) -> (r: Option<Operation>)
        ensures
            r is Some == (old(self).history_view().entries().len() > 0),
            r matches Some(op) ==> {
                &&& op@ == old(self).history_view().entries().last()
                &&& final(self).history_view()@.1 == old(self).history_view()@.1.remove(
                    last_entry(old(self).history_view()@.1),
                )
                &&& final(self).history_view().entries() == old(self).history_view().entries().drop_last()
            },
            final(self).history_view()@.0 == old(self).history_view()@.0,
            r is None ==> final(self).history_view()@ == old(self).history_view()@,
            final(self).redo_view() == old(self).redo_view(),
            final(self).data_dir_view() == old(self).data_dir_view(),
            final(self).trash_dir_view() == old(self).trash_dir_view(),
    {
        let r = self.history.pop();
        proof {
            if r is Some {
                lemma_last_entry(old(self).history_view()@.1);
                lemma_remove_last_entry(old(self).history_view()@.1);
            }
        }
        r
    }

    /// After the newest operation's reversal went through: moves it from the
    /// log to the redo stack and gives it back.
    pub fn commit_undo(&mut self) -> (r: Result<Operation, FiloError>)
        ensures
            old(self).history_view().entries().len() == 0 ==> (r matches Err(
                FiloError::NothingToUndo,
            )) && final(self).history_view()@ == old(self).history_view()@ && final(self).redo_view()@
                == old(self).redo_view()@,
            old(self).history_view().entries().len() > 0 ==> {
                let op = old(self).history_view().entries().last();
                &&& r matches Ok(o) && o@ == op
                &&& final(self).history_view()@.0 == old(self).history_view()@.0
                &&& final(self).history_view()@.1 == old(self).history_view()@.1.remove(
                    last_entry(old(self).history_view()@.1),
                )
                &&& final(self).redo_view()@.0 == old(self).redo_view()@.0
                &&& final(self).redo_view()@.1 == old(self).redo_view()@.1.push(
                    Ok::<OpView, Seq<char>>(op),
                )
            },
            final(self).data_dir_view() == old(self).data_dir_view(),
            final(self).trash_dir_view() == old(self).trash_dir_view(),
    {
        match self.history.pop() {
            None => Err(FiloError::NothingToUndo),
            Some(op) => {
                self.redo.append(op.copy());
                Ok(op)
            },
        }
    }

    /// The steps that replay the most recently undone operation.
    pub fn plan_redo(&self) -> (r: Result<Vec<FsStep>, FiloError>)
        ensures
            self.redo_view().entries().len() == 0 ==> r matches Err(FiloError::NothingToRedo),
            self.redo_view().entries().len() > 0 ==> (r matches Ok(steps) && step_views(steps@)
                == replay_plan(self.redo_view().entries().last().1)),
    {
        match self.redo_log().last() {
            None => Err(FiloError::NothingToRedo),
            Some(op) => Ok(replay_steps(&op)),
        }
    }

    /// After the replay went through: moves the operation from the redo stack
    /// back onto the log (without clearing the rest of the redo stack) and
    /// gives it back.
    pub fn commit_redo(&mut self) -> (r: Result<Operation, FiloError>)
        ensures
            old(self).redo_view().entries().len() == 0 ==> (r matches Err(
                FiloError::NothingToRedo,
            )) && final(self).history_view()@ == old(self).history_view()@ && final(self).redo_view()@
                == old(self).redo_view()@,
            old(self).redo_view().entries().len() > 0 ==> {
                let op = old(self).redo_view().entries().last();
                &&& r matches Ok(o) && o@ == op
                &&& final(self).redo_view()@.0 == old(self).redo_view()@.0
                &&& final(self).redo_view()@.1 == old(self).redo_view()@.1.remove(
                    last_entry(old(self).redo_view()@.1),
                )
                &&& final(self).history_view()@.0 == old(self).history_view()@.0
                &&& final(self).history_view()@.1 == old(self).history_view()@.1.push(
                    Ok::<OpView, Seq<char>>(op),
                )
            },
            final(self).data_dir_view() == old(self).data_dir_view(),
            final(self).trash_dir_view() == old(self).trash_dir_view(),
    {
        match self.redo.pop() {
            None => Err(FiloError::NothingToRedo),
            Some(op) => {
                self.history.append(op.copy());
                Ok(op)
            },
        }
    }
}

/// Undo then redo puts both stacks back: the log holds the same operations in
/// the same order, and the redo stack is line for line what it was.
pub proof fn lemma_undo_then_redo(
    log: Seq<Result<OpView, Seq<char>>>,
    redo: Seq<Result<OpView, Seq<char>>>,
)
    requires
        entries_of(log).len() > 0,
    ensures
        ({
            let op = entries_of(log).last();
            let log1 = log.remove(last_entry(log));
            let redo1 = redo.push(Ok::<OpView, Seq<char>>(op));
            &&& entries_of(redo1).last() == op
            &&& redo1.remove(last_entry(redo1)) == redo
            &&& entries_of(log1.push(Ok::<OpView, Seq<char>>(op))) == entries_of(log)
        }),
{
    let op = entries_of(log).last();
    let log1 = log.remove(last_entry(log));
    let redo1 = redo.push(Ok::<OpView, Seq<char>>(op));
    lemma_last_entry(log);
    lemma_remove_last_entry(log);
    crate::history::lemma_append_then_pop(redo, op);
    crate::history::lemma_append_then_pop(log1, op);
    assert(entries_of(log).drop_last().push(op) =~= entries_of(log));
}

/// Redo then undo puts both stacks back: the redo stack holds the same
/// operations in the same order, and the log is line for line what it was.
pub proof fn lemma_redo_then_undo(
    log: Seq<Result<OpView, Seq<char>>>,
    redo: Seq<Result<OpView, Seq<char>>>,
)
    requires
        entries_of(redo).len() > 0,
    ensures
        ({
            let op = entries_of(redo).last();
            let redo1 = redo.remove(last_entry(redo));
            let log1 = log.push(Ok::<OpView, Seq<char>>(op));
            &&& entries_of(log1).last() == op
            &&& log1.remove(last_entry(log1)) == log
            &&& entries_of(redo1.push(Ok::<OpView, Seq<char>>(op))) == entries_of(redo)
        }),
{
    lemma_undo_then_redo(redo, log);
}

} // verus!
