//! The single-file operations: checks, and where things go.
use vstd::prelude::*;
use crate::clock::{fresh_id, hyphenated_id, id_char};
use crate::error::FiloError;
use crate::path::{file_name, file_name_of, join, join_path, lemma_last_index_of, last_index_of, parent, parent_of, within};
use crate::text::{chars_of, has_prefix, string_of, vec_of};
use crate::undo::{FsStep, StepView};
use crate::Filo;

verus! {

/// `Ok` when the path is there (`exists`), else `NotFound` naming it.
pub fn require_exists(path: &String, exists: bool) -> (r: Result<(), FiloError>)
    ensures
        exists <==> r is Ok,
        r matches Err(e) ==> e matches FiloError::NotFound(p) && p@ == path@,
{
    if exists {
        Ok(())
    } else {
        Err(FiloError::NotFound(path.clone()))
    }
}

/// The move of `src` to `dst`, refused with `WouldOverwrite` naming `dst`
/// when `dst` is there (`dst_exists`).
pub fn move_path_no_clobber(src: &String, dst: &String, dst_exists: bool) -> (r: Result<
    FsStep,
    FiloError,
>)
    ensures
        !dst_exists <==> r is Ok,
        r matches Ok(step) ==> step@ == (StepView::Move { from: src@, to: dst@ }),
        r matches Err(e) ==> e matches FiloError::WouldOverwrite(p) && p@ == dst@,
{
    if dst_exists {
        Err(FiloError::WouldOverwrite(dst.clone()))
    } else {
        Ok(FsStep::Move { from: src.clone(), to: dst.clone() })
    }
}

/// Where the trash copy of `path` goes: `trash/id/name`, with `unnamed` for a
/// path without a name.
pub open spec fn trash_spot(trash: Seq<char>, id: Seq<char>, path: Seq<char>) -> Seq<char> {
    join(
        join(trash, id),
        match file_name(path) {
            Some(n) => n,
            None => "unnamed"@,
        },
    )
}

/// Deleting never leaves the trash: the trash copy of any path lies inside
/// the trash folder, below it and not at it, in a folder named by `id`.
pub proof fn lemma_trash_spot_inside(trash: Seq<char>, id: Seq<char>, path: Seq<char>)
    requires
        hyphenated_id(id),
    ensures
        within(trash_spot(trash, id, path), trash),
        trash_spot(trash, id, path) != trash,
        within(trash_spot(trash, id, path), join(trash, id)),
        trash_spot(trash, id, path) != join(trash, id),
{
    assert(id[0] != '/' && id.last() != '/') by {
        assert(id_char(id[0]));
        assert(id_char(id[35]));
    }
    let a = join(trash, id);
    let n = match file_name(path) {
        Some(x) => x,
        None => "unnamed"@,
    };
    assert(n.len() > 0 && n[0] != '/') by {
        reveal_strlit("unnamed");
        if file_name(path) is Some {
            lemma_last_index_of(path, '/');
            let k = last_index_of(path, '/');
            assert(n[0] == path[k + 1]);
        }
    }
    if trash.len() == 0 {
        assert(a == id);
    } else if trash.last() == '/' {
        assert(a == trash + id);
        assert(has_prefix(a, trash)) by {
            assert(a.take(trash.len() as int) =~= trash);
        }
    } else {
        assert(a == trash + seq!['/'] + id);
        assert(a[trash.len() as int] == '/');
        assert(has_prefix(a, trash)) by {
            assert(a.take(trash.len() as int) =~= trash);
        }
    }
    assert(a.len() > 0 && a.last() != '/');
    let r = trash_spot(trash, id, path);
    assert(r == a + seq!['/'] + n);
    assert(r[a.len() as int] == '/');
    assert(has_prefix(r, a)) by {
        assert(r.take(a.len() as int) =~= a);
    }
    if trash.len() > 0 {
        assert(has_prefix(r, trash)) by {
            assert(r.take(trash.len() as int) =~= a.take(trash.len() as int));
            assert(a.take(trash.len() as int) =~= trash);
        }
        if trash.last() != '/' {
            assert(r[trash.len() as int] == a[trash.len() as int]);
        }
    }
}

/// Where the trash copy of `path` goes, in the folder named `id`.
pub fn trash_spot_for(trash: &String, id: &String, path: &String) -> (r: String)
    ensures
        r@ == trash_spot(trash@, id@, path@),
{
    let folder = join_path(&chars_of(trash.as_str()), &chars_of(id.as_str()));
    let name = match file_name_of(&chars_of(path.as_str())) {
        Some(n) => n,
        None => vec_of("unnamed"),
    };
    string_of(&join_path(&folder, &name))
}

/// Where `path` goes when renamed to `new_name`: beside it (in `.` when it
/// has no parent).
pub open spec fn renamed_path(path: Seq<char>, new_name: Seq<char>) -> Seq<char> {
    match parent(path) {
        Some(d) => join(d, new_name),
        None => join("."@, new_name),
    }
}

/// Where `path` goes when renamed to `new_name`.
pub fn rename_target(path: &String, new_name: &String) -> (r: String)
    ensures
        r@ == renamed_path(path@, new_name@),
{
    let n = chars_of(new_name.as_str());
    match parent_of(&chars_of(path.as_str())) {
        Some(d) => string_of(&join_path(&d, &n)),
        None => string_of(&join_path(&vec_of("."), &n)),
    }
}

/// Where `src` goes when added to `dest_dir`: under its own name; a path
/// without a name is `NotFound`.
pub fn add_target(src: &String, dest_dir: &String) -> (r: Result<String, FiloError>)
    ensures
        file_name(src@) is None <==> r is Err,
        r matches Ok(to) ==> to@ == join(dest_dir@, file_name(src@).unwrap()),
        r matches Err(e) ==> e matches FiloError::NotFound(p) && p@ == src@,
{
    match file_name_of(&chars_of(src.as_str())) {
        Some(n) => Ok(string_of(&join_path(&chars_of(dest_dir.as_str()), &n))),
        None => Err(FiloError::NotFound(src.clone())),
    }
}

impl Filo {
    /// A fresh place in the trash for `path`.
    pub fn trash_target(&self, path: &String) -> (r: String)
        ensures
            exists|id: Seq<char>| hyphenated_id(id) && r@ == trash_spot(self.trash_dir_view(), id, path@),
    {
        let id = fresh_id();
        assert(hyphenated_id(id@));
        trash_spot_for(self.trash_dir(), &id, path)
    }

    /// Each of `paths` with a fresh place in the trash, in order: the batch of
    /// one deletion of them all.
    pub fn trash_batch(&self, paths: &Vec<String>) -> (r: Vec<(String, String)>)
        ensures
            r.len() == paths.len(),
            forall|i: int|
                0 <= i < paths.len() ==> (#[trigger] r[i]).0@ == paths[i]@ && exists|id: Seq<char>|
                    hyphenated_id(id) && r[i].1@ == trash_spot(self.trash_dir_view(), id, paths[i]@),
    {
        let mut r: Vec<(String, String)> = Vec::new();
        let mut i: usize = 0;
        while i < paths.len()
            invariant
                i <= paths.len(),
                r.len() == i,
                forall|k: int|
                    0 <= k < i ==> (#[trigger] r[k]).0@ == paths[k]@ && exists|id: Seq<char>|
                        hyphenated_id(id) && r[k].1@ == trash_spot(self.trash_dir_view(), id, paths[k]@),
            decreases paths.len() - i,
        {
            let t = self.trash_target(&paths[i]);
            r.push((paths[i].clone(), t));
            i = i + 1;
        }
        r
    }
}

} // verus!
