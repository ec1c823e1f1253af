//! The vocabulary of the library: files as a scan sees them, and the
//! operations that the change log records.
use vstd::prelude::*;
use crate::clock::{fresh_id, now};
use crate::path::{file_name, file_name_of};
use crate::text::{append_chars, append_str, chars_of, decimal, decimal_chars, string_of};

verus! {

/// The earliest second chrono can represent (-262143-01-01T00:00:00Z).
pub const EARLIEST_SECS: i64 = -8334601228800;

/// The latest second chrono can represent (+262142-12-31T23:59:59Z).
pub const LATEST_SECS: i64 = 8210266876799;

/// A point in time: whole seconds since the Unix epoch and the nanoseconds past them.
#[derive(Clone, Copy, Debug, PartialEq, Eq, Structural)]
pub struct Timestamp {
    pub secs: i64,
    pub nanos: u32,
}

impl Timestamp {
    /// Within chrono's range, with a sub-second part below one second.
    pub open spec fn valid(self) -> bool {
        EARLIEST_SECS <= self.secs <= LATEST_SECS && self.nanos < 1_000_000_000
    }

    /// Nanoseconds since the epoch.
    pub open spec fn total_nanos(self) -> int {
        self.secs * 1_000_000_000 + self.nanos
    }
}

/// Integer division rounding toward zero.
pub open spec fn div_toward_zero(a: int, b: int) -> int
    recommends
        b > 0,
{
    if a >= 0 {
        a / b
    } else {
        -((-a) / b)
    }
}

/// Whole days from `earlier` to `later` (`signed_duration_since(..).num_days()`):
/// the difference truncated to seconds, then to days, both toward zero.
pub open spec fn days_between(later: Timestamp, earlier: Timestamp) -> int {
    div_toward_zero(
        div_toward_zero(later.total_nanos() - earlier.total_nanos(), 1_000_000_000),
        86400,
    )
}

/// Whole days from `earlier` to `later`.
pub fn age_in_days(later: &Timestamp, earlier: &Timestamp) -> (d: i64)
    requires
        later.valid(),
        earlier.valid(),
    ensures
        d == days_between(*later, *earlier),
{
    let diff: i128 = (later.secs as i128 - earlier.secs as i128) * 1_000_000_000i128
        + (later.nanos as i128 - earlier.nanos as i128);
    let secs: i128 = if diff >= 0 {
        diff / 1_000_000_000
    } else {
        -((-diff) / 1_000_000_000)
    };
    let days: i128 = if secs >= 0 {
        secs / 86400
    } else {
        -((-secs) / 86400)
    };
    days as i64
}

/// One file or directory as seen by a scan.
#[derive(Debug)]
pub struct FileEntry {
    pub path: String,
    pub name: String,
    pub is_dir: bool,
    pub size: u64,
    pub modified: Timestamp,
    pub extension: Option<String>,
}

/// The extension of an entry, or nothing (`extension.unwrap_or_default()`).
pub open spec fn entry_ext(e: FileEntry) -> Seq<char> {
    match e.extension {
        Some(x) => x@,
        None => Seq::empty(),
    }
}

/// What one recorded operation did, with everything needed to reverse it.
#[derive(Debug)]
pub enum OperationKind {
    Create { path: String, is_dir: bool },
    Delete { from: String, trashed_to: String },
    /// A permanent deletion: nothing was kept, so it can never be reversed.
    Erase { from: String },
    DeleteMany { batch: Vec<(String, String)> },
    Move { from: String, to: String },
    Copy { from: String, to: String },
    Rename { from: String, to: String },
    Organize { batch: Vec<(String, String)> },
}

/// A single thing the tool did: the unit of the change log and of undo.
#[derive(Debug)]
pub struct Operation {
    pub id: String,
    pub kind: OperationKind,
    pub timestamp: Timestamp,
}

/// The pairs of a batch, as texts.
pub open spec fn pair_views(batch: Seq<(String, String)>) -> Seq<(Seq<char>, Seq<char>)> {
    batch.map_values(|p: (String, String)| (p.0@, p.1@))
}

/// An operation's kind with its paths as texts.
pub enum KindView {
    Create { path: Seq<char>, is_dir: bool },
    Delete { from: Seq<char>, trashed_to: Seq<char> },
    Erase { from: Seq<char> },
    DeleteMany { batch: Seq<(Seq<char>, Seq<char>)> },
    Move { from: Seq<char>, to: Seq<char> },
    Copy { from: Seq<char>, to: Seq<char> },
    Rename { from: Seq<char>, to: Seq<char> },
    Organize { batch: Seq<(Seq<char>, Seq<char>)> },
}

impl View for OperationKind {
    type V = KindView;

    open spec fn view(&self) -> KindView {
        match self {
            OperationKind::Create { path, is_dir } => KindView::Create { path: path@, is_dir: *is_dir },
            OperationKind::Delete { from, trashed_to } => KindView::Delete {
                from: from@,
                trashed_to: trashed_to@,
            },
            OperationKind::Erase { from } => KindView::Erase { from: from@ },
            OperationKind::DeleteMany { batch } => KindView::DeleteMany { batch: pair_views(batch@) },
            OperationKind::Move { from, to } => KindView::Move { from: from@, to: to@ },
            OperationKind::Copy { from, to } => KindView::Copy { from: from@, to: to@ },
            OperationKind::Rename { from, to } => KindView::Rename { from: from@, to: to@ },
            OperationKind::Organize { batch } => KindView::Organize { batch: pair_views(batch@) },
        }
    }
}

impl View for Operation {
    type V = (Seq<char>, KindView, Timestamp);

    open spec fn view(&self) -> (Seq<char>, KindView, Timestamp) {
        (self.id@, self.kind@, self.timestamp)
    }
}

/// A copy of a batch of path pairs.
pub fn copy_batch(batch: &Vec<(String, String)>) -> (r: Vec<(String, String)>)
    ensures
        pair_views(r@) == pair_views(batch@),
{
    let mut r: Vec<(String, String)> = Vec::new();
    let mut i: usize = 0;
    while i < batch.len()
        invariant
            i <= batch.len(),
            pair_views(r@) == pair_views(batch@).take(i as int),
        decreases batch.len() - i,
    {
        let pair = (batch[i].0.clone(), batch[i].1.clone());
        let ghost before = r@;
        r.push(pair);
        assert(pair_views(r@) =~= pair_views(before).push((pair.0@, pair.1@)));
        assert(pair_views(batch@).take(i + 1) =~= pair_views(batch@).take(i as int).push(
            (batch@[i as int].0@, batch@[i as int].1@),
        ));
        i = i + 1;
    }
    assert(pair_views(batch@).take(batch.len() as int) =~= pair_views(batch@));
    r
}

impl OperationKind {
    /// A copy of the kind.
    pub fn copy(&self) -> (r: OperationKind)
        ensures
            r@ == self@,
    {
        match self {
            OperationKind::Create { path, is_dir } => OperationKind::Create {
                path: path.clone(),
                is_dir: *is_dir,
            },
            OperationKind::Delete { from, trashed_to } => OperationKind::Delete {
                from: from.clone(),
                trashed_to: trashed_to.clone(),
            },
            OperationKind::Erase { from } => OperationKind::Erase { from: from.clone() },
            OperationKind::DeleteMany { batch } => OperationKind::DeleteMany { batch: copy_batch(batch) },
            OperationKind::Move { from, to } => OperationKind::Move { from: from.clone(), to: to.clone() },
            OperationKind::Copy { from, to } => OperationKind::Copy { from: from.clone(), to: to.clone() },
            OperationKind::Rename { from, to } => OperationKind::Rename {
                from: from.clone(),
                to: to.clone(),
            },
            OperationKind::Organize { batch } => OperationKind::Organize { batch: copy_batch(batch) },
        }
    }
}

impl Operation {
    /// A copy of the operation.
    pub fn copy(&self) -> (r: Operation)
        ensures
            r@ == self@,
    {
        Operation { id: self.id.clone(), kind: self.kind.copy(), timestamp: self.timestamp }
    }
}

/// One line of the change log for a person to read.
pub open spec fn summary_text(k: KindView) -> Seq<char> {
    match k {
        KindView::Create { path, .. } => "create  "@ + path,
        KindView::Delete { from, .. } => "delete  "@ + from,
        KindView::Erase { from } => "delete  "@ + from + " (permanently)"@,
        KindView::DeleteMany { batch } => "delete  "@ + decimal(batch.len()) + " item(s)"@,
        KindView::Move { from, to } => "move    "@ + from + " -> "@ + to,
        KindView::Copy { to, .. } => "copy    "@ + to,
        KindView::Rename { from, to } => "rename  "@ + from + " -> "@ + match file_name(to) {
            Some(n) => n,
            None => to,
        },
        KindView::Organize { batch } => "organize "@ + decimal(batch.len()) + " file(s)"@,
    }
}

impl Operation {
    /// A new operation of `kind`, with a fresh identifier and the current time.
    pub fn new(kind: OperationKind) -> (op: Operation)
        ensures
            op.kind == kind,
            crate::clock::hyphenated_id(op.id@),
            op.timestamp.valid(),
    {
        Operation { id: fresh_id(), kind, timestamp: now() }
    }

    /// What the operation did, in one line.
    pub fn summary(&self) -> (s: String)
        ensures
            s@ == summary_text(self.kind@),
    {
        let mut v: Vec<char> = Vec::new();
        match &self.kind {
            OperationKind::Create { path, .. } => {
                append_str(&mut v, "create  ");
                append_str(&mut v, path.as_str());
            },
            OperationKind::Delete { from, .. } => {
                append_str(&mut v, "delete  ");
                append_str(&mut v, from.as_str());
            },
            OperationKind::Erase { from } => {
                append_str(&mut v, "delete  ");
                append_str(&mut v, from.as_str());
                append_str(&mut v, " (permanently)");
            },
            OperationKind::DeleteMany { batch } => {
                append_str(&mut v, "delete  ");
                let d = decimal_chars(batch.len() as u64);
                append_chars(&mut v, &d);
                append_str(&mut v, " item(s)");
                proof {
                    assert(pair_views(batch@).len() == batch@.len());
                }
            },
            OperationKind::Move { from, to } => {
                append_str(&mut v, "move    ");
                append_str(&mut v, from.as_str());
                append_str(&mut v, " -> ");
                append_str(&mut v, to.as_str());
            },
            OperationKind::Copy { to, .. } => {
                append_str(&mut v, "copy    ");
                append_str(&mut v, to.as_str());
            },
            OperationKind::Rename { from, to } => {
                append_str(&mut v, "rename  ");
                append_str(&mut v, from.as_str());
                append_str(&mut v, " -> ");
                let t = chars_of(to.as_str());
                match file_name_of(&t) {
                    Some(n) => append_chars(&mut v, &n),
                    None => append_chars(&mut v, &t),
                }
            },
            OperationKind::Organize { batch } => {
                append_str(&mut v, "organize ");
                let d = decimal_chars(batch.len() as u64);
                append_chars(&mut v, &d);
                append_str(&mut v, " file(s)");
                proof {
                    assert(pair_views(batch@).len() == batch@.len());
                }
            },
        }
        string_of(&v)
    }
}

} // verus!
