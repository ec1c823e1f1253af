//! Sorting the files of a folder into sub-folders.
use vstd::prelude::*;
use crate::clock::{calendar_date, now};
use crate::error::FiloError;
use crate::history::OpView;
use crate::model::{pair_views, FileEntry, KindView, Operation, OperationKind, Timestamp};
use crate::path::{join, join_path};
use crate::rules::{month_of, rule_destination, year_of, RuleSet};
use crate::text::{
    append_chars, append_str, chars_of, signed_decimal, signed_decimal_chars, string_of, vec_of,
    zero_padded, zero_padded_chars,
};
use crate::Filo;

verus! {

/// How files are sorted into folders.
#[derive(Debug)]
pub enum OrganizeStrategy {
    /// By extension: `pdf`, `png`, or `no_extension`.
    Extension,
    /// By modification month: `2026/09`.
    Date,
    /// By size: `small` (under 1 MiB), `medium` (under 100 MiB) or `large`.
    Size,
    /// By extension, then modification month: `pdf/2026-09`.
    ExtensionThenDate,
    /// By the user's rules.
    Rules(RuleSet),
}

/// The folder named after a file's extension.
pub open spec fn ext_folder(e: FileEntry) -> Seq<char> {
    match e.extension {
        Some(x) => if x@.len() > 0 {
            x@
        } else {
            "no_extension"@
        },
        None => "no_extension"@,
    }
}

/// The folder a strategy sends `e` to at time `now`, if any.
pub open spec fn folder_for(s: OrganizeStrategy, e: FileEntry, now: Timestamp) -> Option<Seq<char>> {
    match s {
        OrganizeStrategy::Extension => Some(ext_folder(e)),
        OrganizeStrategy::Date => Some(
            signed_decimal(year_of(e.modified)) + "/"@ + zero_padded(month_of(e.modified) as nat, 2),
        ),
        OrganizeStrategy::Size => Some(
            if e.size < 1024 * 1024 {
                "small"@
            } else if e.size < 100 * 1024 * 1024 {
                "medium"@
            } else {
                "large"@
            },
        ),
        OrganizeStrategy::ExtensionThenDate => Some(
            ext_folder(e) + "/"@ + signed_decimal(year_of(e.modified)) + "-"@ + zero_padded(
                month_of(e.modified) as nat,
                2,
            ),
        ),
        OrganizeStrategy::Rules(set) => rule_destination(set.rules@, e, now),
    }
}

/// The folder named after a file's extension.
fn ext_folder_of(e: &FileEntry) -> (r: Vec<char>)
    ensures
        r@ == ext_folder(*e),
{
    match &e.extension {
        Some(x) => {
            let c = chars_of(x.as_str());
            if c.len() > 0 {
                c
            } else {
                vec_of("no_extension")
            }
        },
        None => vec_of("no_extension"),
    }
}

impl OrganizeStrategy {
    /// The folder this strategy sends `entry` to at time `now`, if any.
    pub fn destination_at(&self, entry: &FileEntry, now: &Timestamp) -> (r: Option<String>)
        requires
            now.valid(),
            entry.modified.valid(),
        ensures
            r matches Some(d) ==> folder_for(*self, *entry, *now) == Some(d@),
            r is None ==> folder_for(*self, *entry, *now) is None,
    {
        match self {
            OrganizeStrategy::Extension => Some(string_of(&ext_folder_of(entry))),
            OrganizeStrategy::Date => {
                let (year, month, _day) = calendar_date(entry.modified.secs);
                let mut v = signed_decimal_chars(year as i64);
                append_str(&mut v, "/");
                let m = zero_padded_chars(month as u64, 2);
                append_chars(&mut v, &m);
                Some(string_of(&v))
            },
            OrganizeStrategy::Size => {
                let name = if entry.size < 1024 * 1024 {
                    "small"
                } else if entry.size < 100 * 1024 * 1024 {
                    "medium"
                } else {
                    "large"
                };
                Some(string_of(&vec_of(name)))
            },
            OrganizeStrategy::ExtensionThenDate => {
                let (year, month, _day) = calendar_date(entry.modified.secs);
                let mut v = ext_folder_of(entry);
                append_str(&mut v, "/");
                let y = signed_decimal_chars(year as i64);
                append_chars(&mut v, &y);
                append_str(&mut v, "-");
                let m = zero_padded_chars(month as u64, 2);
                append_chars(&mut v, &m);
                Some(string_of(&v))
            },
            OrganizeStrategy::Rules(set) => set.destination_at(entry, now),
        }
    }

    /// The folder this strategy sends `entry` to now (by the clock), if any.
    pub fn destination_for(&self, entry: &FileEntry) -> (r: Option<String>)
        requires
            entry.modified.valid(),
        ensures
            exists|t: Timestamp|
                t.valid() && (match r {
                    Some(d) => folder_for(*self, *entry, t) == Some(d@),
                    None => folder_for(*self, *entry, t) is None,
                }),
    {
        let t = now();
        self.destination_at(entry, &t)
    }
}

/// The moves organizing the first `m` entries of `listing` in `dir` would
/// make: each file the strategy has a folder for goes to `dir/folder/name`,
/// unless it is already there.
pub open spec fn organize_moves(
    dir: Seq<char>,
    listing: Seq<FileEntry>,
    s: OrganizeStrategy,
    now: Timestamp,
    m: int,
) -> Seq<(Seq<char>, Seq<char>)>
    decreases m,
{
    if m <= 0 {
        Seq::empty()
    } else {
        let e = listing[m - 1];
        let before = organize_moves(dir, listing, s, now, m - 1);
        if e.is_dir {
            before
        } else {
            match folder_for(s, e, now) {
                Some(f) => {
                    let to = join(join(dir, f), e.name@);
                    if to == e.path@ {
                        before
                    } else {
                        before.push((e.path@, to))
                    }
                },
                None => before,
            }
        }
    }
}

/// The moves of `moves` whose destination is not among `occupied`, in order.
pub open spec fn free_moves(moves: Seq<(Seq<char>, Seq<char>)>, occupied: Seq<String>) -> Seq<
    (Seq<char>, Seq<char>),
>
    decreases moves.len(),
{
    if moves.len() == 0 {
        Seq::empty()
    } else {
        let last = moves.last();
        let before = free_moves(moves.drop_last(), occupied);
        if exists|i: int| 0 <= i < occupied.len() && (#[trigger] occupied[i])@ == last.1 {
            before
        } else {
            before.push(last)
        }
    }
}

/// Every move organizing `listing` (the contents of `dir`) would make.
pub fn organize_targets(
    dir: &String,
    listing: &Vec<FileEntry>,
    strategy: &OrganizeStrategy,
    now: &Timestamp,
) -> (r: Vec<(String, String)>)
    requires
        now.valid(),
        forall|i: int| 0 <= i < listing.len() ==> (#[trigger] listing[i]).modified.valid(),
    ensures
        pair_views(r@) == organize_moves(dir@, listing@, *strategy, *now, listing.len() as int),
{
    let d = chars_of(dir.as_str());
    let mut r: Vec<(String, String)> = Vec::new();
    let mut i: usize = 0;
    while i < listing.len()
        invariant
            i <= listing.len(),
            d@ == dir@,
            now.valid(),
            forall|q: int| 0 <= q < listing.len() ==> (#[trigger] listing[q]).modified.valid(),
            pair_views(r@) == organize_moves(dir@, listing@, *strategy, *now, i as int),
        decreases listing.len() - i,
    {
        let e = &listing[i];
        if !e.is_dir {
            match strategy.destination_at(e, now) {
                Some(f) => {
                    let fc = chars_of(f.as_str());
                    let folder = join_path(&d, &fc);
                    let name = chars_of(e.name.as_str());
                    let to = string_of(&join_path(&folder, &name));
                    if !String::eq(&to, &e.path) {
                        let ghost before = r@;
                        r.push((e.path.clone(), to));
                        assert(pair_views(r@) =~= pair_views(before).push(
                            (listing@[i as int].path@, r@[r@.len() - 1].1@),
                        ));
                    }
                },
                None => {},
            }
        }
        i = i + 1;
    }
    r
}

/// Whether some path of `list` is `p`.
fn among(list: &Vec<String>, p: &String) -> (r: bool)
    ensures
        r == exists|i: int| 0 <= i < list.len() && (#[trigger] list[i])@ == p@,
{
    let mut i: usize = 0;
    while i < list.len()
        invariant
            i <= list.len(),
            forall|k: int| 0 <= k < i ==> (#[trigger] list[k])@ != p@,
        decreases list.len() - i,
    {
        if String::eq(&list[i], p) {
            return true;
        }
        i = i + 1;
    }
    false
}

impl Filo {
    /// The moves organizing `dir` makes: those of `organize_targets`, less any
    /// whose destination is among `occupied` (paths already there), so no
    /// existing file is ever overwritten.
    pub fn plan_organize(
        &self,
        dir: &String,
        listing: &Vec<FileEntry>,
        strategy: &OrganizeStrategy,
        now: &Timestamp,
        occupied: &Vec<String>,
    ) -> (r: Vec<(String, String)>)
        requires
            now.valid(),
            forall|i: int| 0 <= i < listing.len() ==> (#[trigger] listing[i]).modified.valid(),
        ensures
            pair_views(r@) == free_moves(
                organize_moves(dir@, listing@, *strategy, *now, listing.len() as int),
                occupied@,
            ),
    {
        let all = organize_targets(dir, listing, strategy, now);
        let ghost moves = pair_views(all@);
        let mut r: Vec<(String, String)> = Vec::new();
        let mut i: usize = 0;
        while i < all.len()
            invariant
                i <= all.len(),
                moves == pair_views(all@),
                pair_views(r@) == free_moves(moves.take(i as int), occupied@),
            decreases all.len() - i,
        {
            assert(moves.take(i + 1).drop_last() =~= moves.take(i as int));
            if !among(occupied, &all[i].1) {
                let ghost before = r@;
                r.push((all[i].0.clone(), all[i].1.clone()));
                assert(pair_views(r@) =~= pair_views(before).push(moves[i as int]));
            }
            i = i + 1;
        }
        assert(moves.take(all.len() as int) =~= moves);
        r
    }

    /// After carrying out the moves of an organize: records the moves that
    /// were `done` as one operation. When a move failed with `failure`, the
    /// moves before it are still recorded (if there were any) so they can be
    /// undone, and the failure is passed on.
    pub fn finish_organize(&mut self, done: Vec<(String, String)>, failure: Option<FiloError>) -> (r:
        Result<Operation, FiloError>)
        ensures
            failure is None ==> (r matches Ok(op) && op@.1 == (KindView::Organize {
                batch: pair_views(done@),
            })),
            failure matches Some(e) ==> r == Err::<Operation, FiloError>(e),
            (failure is None || done.len() > 0) ==> {
                &&& final(self).history_view()@.1.len() == old(self).history_view()@.1.len() + 1
                &&& final(self).history_view()@.1.last() matches Ok(v) && v.1 == (
                KindView::Organize { batch: pair_views(done@) })
                &&& final(self).history_view()@.1.drop_last() == old(self).history_view()@.1
                &&& final(self).redo_view()@.1.len() == 0
            },
            (failure is Some && done.len() == 0) ==> final(self).history_view()
                == old(self).history_view() && final(self).redo_view() == old(self).redo_view(),
            final(self).data_dir_view() == old(self).data_dir_view(),
            final(self).trash_dir_view() == old(self).trash_dir_view(),
    {
        match failure {
            Some(e) => {
                if done.len() > 0 {
                    let op = Operation::new(OperationKind::Organize { batch: done });
                    let _ = self.record(op);
                }
                Err(e)
            },
            None => {
                let op = Operation::new(OperationKind::Organize { batch: done });
                Ok(self.record(op))
            },
        }
    }
}

/// Organizing never overwrites: no planned move goes to an occupied path, and
/// each planned move is one that organizing would make.
pub proof fn lemma_plan_spares_occupied(
    moves: Seq<(Seq<char>, Seq<char>)>,
    occupied: Seq<String>,
    k: int,
)
    requires
        0 <= k < free_moves(moves, occupied).len(),
    ensures
        forall|i: int| 0 <= i < occupied.len() ==> (#[trigger] occupied[i])@ != free_moves(
            moves,
            occupied,
        )[k].1,
        moves.contains(free_moves(moves, occupied)[k]),
    decreases moves.len(),
{
    let before = free_moves(moves.drop_last(), occupied);
    if k < before.len() {
        lemma_plan_spares_occupied(moves.drop_last(), occupied, k);
        let w = choose|w: int| 0 <= w < moves.drop_last().len() && moves.drop_last()[w] == before[k];
        assert(moves[w] == before[k]);
    } else {
        assert(moves[moves.len() - 1] == moves.last());
    }
}

} // verus!
