//! What a grouping would do to a folder: which sub-folders it makes, how many
//! files each gets, and a few of them by name; and which files of a tree
//! belong to which top-level sub-folder.
use vstd::prelude::*;
use crate::model::{FileEntry, Timestamp};
use crate::organize::{folder_for, OrganizeStrategy};
use crate::path::{join, join_path, within, is_within};
use crate::recommend::{FolderPreview, Grouping};
use crate::sort::{is_permutation, key_views, lex_lt, sort_order, stably_sorted};
use crate::text::{chars_of, push_text_key, string_of, text_key};

verus! {

/// The strategy behind a grouping.
pub open spec fn strategy_of(g: Grouping) -> OrganizeStrategy {
    match g {
        Grouping::Extension => OrganizeStrategy::Extension,
        Grouping::Date => OrganizeStrategy::Date,
        Grouping::Size => OrganizeStrategy::Size,
        Grouping::ExtensionThenDate => OrganizeStrategy::ExtensionThenDate,
    }
}

/// The folder a grouping sends each entry to.
pub open spec fn dests(entries: Seq<FileEntry>, g: Grouping, now: Timestamp) -> Seq<
    Option<Seq<char>>,
> {
    Seq::new(entries.len(), |i: int| folder_for(strategy_of(g), entries[i], now))
}

/// How many of the first `m` destinations are `f`.
pub open spec fn count_to(ds: Seq<Option<Seq<char>>>, f: Seq<char>, m: int) -> nat
    decreases m,
{
    if m <= 0 {
        0
    } else {
        count_to(ds, f, m - 1) + if ds[m - 1] == Some(f) {
            1nat
        } else {
            0nat
        }
    }
}

/// The names of the first `m` entries whose destination is `f`, in order.
pub open spec fn names_to(
    entries: Seq<FileEntry>,
    ds: Seq<Option<Seq<char>>>,
    f: Seq<char>,
    m: int,
) -> Seq<Seq<char>>
    decreases m,
{
    if m <= 0 {
        Seq::empty()
    } else {
        names_to(entries, ds, f, m - 1) + if ds[m - 1] == Some(f) {
            seq![entries[m - 1].name@]
        } else {
            Seq::empty()
        }
    }
}

/// The different destinations among the first `m`, in order of first appearance.
pub open spec fn folders_in(ds: Seq<Option<Seq<char>>>, m: int) -> Seq<Seq<char>>
    decreases m,
{
    if m <= 0 {
        Seq::empty()
    } else {
        let before = folders_in(ds, m - 1);
        match ds[m - 1] {
            Some(f) => if before.contains(f) {
                before
            } else {
                before.push(f)
            },
            None => before,
        }
    }
}

/// At most the first three of `s`.
pub open spec fn first_three(s: Seq<Seq<char>>) -> Seq<Seq<char>> {
    if s.len() <= 3 {
        s
    } else {
        s.take(3)
    }
}

/// A folder preview as plain values: folder, file count, example names.
pub open spec fn preview_view(p: FolderPreview) -> (Seq<char>, nat, Seq<Seq<char>>) {
    (p.folder@, p.files as nat, p.examples@.map_values(|s: String| s@))
}

/// Folder previews as plain values.
pub open spec fn preview_views(v: Seq<FolderPreview>) -> Seq<(Seq<char>, nat, Seq<Seq<char>>)> {
    v.map_values(|p: FolderPreview| preview_view(p))
}

/// What the grouping makes of the first `m` entries: each folder in order of
/// first appearance, with its number of files and the first three of their names.
pub open spec fn tallies(
    entries: Seq<FileEntry>,
    ds: Seq<Option<Seq<char>>>,
    m: int,
) -> Seq<(Seq<char>, nat, Seq<Seq<char>>)> {
    folders_in(ds, m).map_values(
        |f: Seq<char>| (f, count_to(ds, f, m), first_three(names_to(entries, ds, f, m))),
    )
}

/// A copy of a list of names.
fn copy_names(v: &Vec<String>) -> (r: Vec<String>)
    ensures
        r@ == v@,
{
    let mut r: Vec<String> = Vec::new();
    let mut i: usize = 0;
    while i < v.len()
        invariant
            i <= v.len(),
            r@ == v@.take(i as int),
        decreases v.len() - i,
    {
        r.push(v[i].clone());
        assert(v@.take(i + 1) =~= v@.take(i as int).push(v@[i as int]));
        i = i + 1;
    }
    assert(v@.take(v.len() as int) =~= v@);
    r
}

/// Where `f` stands among the folders, if anywhere.
fn find_folder(v: &Vec<FolderPreview>, f: &String) -> (r: Option<usize>)
    ensures
        r matches Some(k) ==> k < v.len() && v[k as int].folder@ == f@,
        r is None ==> forall|k: int| 0 <= k < v.len() ==> (#[trigger] v[k]).folder@ != f@,
{
    let mut k: usize = 0;
    while k < v.len()
        invariant
            k <= v.len(),
            forall|q: int| 0 <= q < k ==> (#[trigger] v[q]).folder@ != f@,
        decreases v.len() - k,
    {
        if String::eq(&v[k].folder, f) {
            return Some(k);
        }
        k = k + 1;
    }
    None
}

/// Counting one more entry towards `f` counts one more for `f` only.
proof fn lemma_step(entries: Seq<FileEntry>, ds: Seq<Option<Seq<char>>>, i: int, g: Seq<char>)
    requires
        0 <= i < ds.len(),
    ensures
        count_to(ds, g, i + 1) == count_to(ds, g, i) + if ds[i] == Some(g) {
            1nat
        } else {
            0nat
        },
        names_to(entries, ds, g, i + 1) == names_to(entries, ds, g, i) + if ds[i] == Some(g) {
            seq![entries[i].name@]
        } else {
            Seq::<Seq<char>>::empty()
        },
{
}

/// Every folder among the first `m` destinations is some destination, no
/// folder is listed twice, and a folder is listed exactly when some of the
/// first `m` destinations is it.
pub proof fn lemma_folders_in(ds: Seq<Option<Seq<char>>>, m: int)
    requires
        0 <= m <= ds.len(),
    ensures
        forall|a: int, b: int|
            0 <= a < b < folders_in(ds, m).len() ==> folders_in(ds, m)[a] != folders_in(ds, m)[b],
        forall|f: Seq<char>| folders_in(ds, m).contains(f) <==> count_to(ds, f, m) > 0,
    decreases m,
{
    if m > 0 {
        lemma_folders_in(ds, m - 1);
        let before = folders_in(ds, m - 1);
        let now_in = folders_in(ds, m);
        assert forall|g: Seq<char>| now_in.contains(g) <==> count_to(ds, g, m) > 0 by {
            if now_in.contains(g) {
                let w = choose|w: int| 0 <= w < now_in.len() && now_in[w] == g;
                if w < before.len() {
                    assert(before[w] == g);
                    assert(before.contains(g));
                }
            }
            if count_to(ds, g, m) > 0 && count_to(ds, g, m - 1) > 0 {
                assert(before.contains(g));
                let w = choose|w: int| 0 <= w < before.len() && before[w] == g;
                assert(now_in[w] == g);
            }
            if count_to(ds, g, m) > 0 && count_to(ds, g, m - 1) == 0 {
                assert(ds[m - 1] == Some(g));
                if !before.contains(g) {
                    assert(now_in[now_in.len() - 1] == g);
                }
            }
        }
    }
}

/// At most `m` of the first `m` destinations are any one folder.
proof fn lemma_count_bound(ds: Seq<Option<Seq<char>>>, f: Seq<char>, m: int)
    requires
        m >= 0,
    ensures
        count_to(ds, f, m) <= m,
    decreases m,
{
    if m > 0 {
        lemma_count_bound(ds, f, m - 1);
    }
}

/// The names of the first three files going into each folder, with counts,
/// for the folders the grouping `g` makes of `entries`, in order of first
/// appearance.
pub fn tally_folders(entries: &Vec<FileEntry>, g: Grouping, now: &Timestamp) -> (r: Vec<
    FolderPreview,
>)
    requires
        now.valid(),
        forall|i: int| 0 <= i < entries.len() ==> (#[trigger] entries[i]).modified.valid(),
    ensures
        preview_views(r@) == tallies(
            entries@,
            dests(entries@, g, *now),
            entries.len() as int,
        ),
{
    let strategy = g.strategy();
    let ghost ds = dests(entries@, g, *now);
    let mut r: Vec<FolderPreview> = Vec::new();
    let mut i: usize = 0;
    while i < entries.len()
        invariant
            i <= entries.len(),
            now.valid(),
            forall|q: int| 0 <= q < entries.len() ==> (#[trigger] entries[q]).modified.valid(),
            strategy == strategy_of(g),
            ds == dests(entries@, g, *now),
            preview_views(r@) == tallies(entries@, ds, i as int),
        decreases entries.len() - i,
    {
        let ghost before = r@;
        proof {
            lemma_folders_in(ds, i as int);
            assert(ds[i as int] == folder_for(strategy_of(g), entries@[i as int], *now));
        }
        match strategy.destination_at(&entries[i], now) {
            Some(f) => {
                match find_folder(&r, &f) {
                    Some(k) => {
                        proof {
                            let fl0 = folders_in(ds, i as int);
                            assert(preview_views(r@).len() == r.len());
                            assert(tallies(entries@, ds, i as int).len() == fl0.len());
                            assert(preview_views(r@)[k as int] == tallies(entries@, ds, i as int)[k as int]);
                            assert(preview_views(r@)[k as int] == preview_view(r@[k as int]));
                            assert(tallies(entries@, ds, i as int)[k as int] == (
                                fl0[k as int],
                                count_to(ds, fl0[k as int], i as int),
                                first_three(names_to(entries@, ds, fl0[k as int], i as int)),
                            ));
                            assert(fl0[k as int] == f@);
                            lemma_count_bound(ds, f@, i as int);
                        }
                        let old = &r[k];
                        let mut examples = copy_names(&old.examples);
                        let ghost old_examples = examples@;
                        if examples.len() < 3 {
                            examples.push(entries[i].name.clone());
                        }
                        assert(preview_views(r@)[k as int]
                            == preview_view(r@[k as int]));
                        let files = old.files + 1;
                        let updated = FolderPreview { folder: f, files, examples };
                        r.set(k, updated);
                        proof {
                            let fl = folders_in(ds, i as int);
                            assert(fl[k as int] == f@);
                            assert(fl.contains(f@));
                            assert(folders_in(ds, i + 1) == fl);
                            assert forall|q: int|
                                0 <= q < r.len() implies #[trigger] preview_views(r@)[q] == tallies(entries@, ds, i + 1)[q] by {
                                lemma_step(entries@, ds, i as int, fl[q]);
                                assert(preview_views(before)[q]
                                    == tallies(entries@, ds, i as int)[q]);
                                if q == k {
                                    let nm = names_to(entries@, ds, f@, i as int);
                                    assert(old_examples.map_values(|s: String| s@) == first_three(
                                        nm,
                                    ));
                                    if nm.len() < 3 {
                                        assert(examples@.map_values(|s: String| s@) =~= first_three(
                                            nm.push(entries@[i as int].name@),
                                        ));
                                    } else {
                                        assert(first_three(nm.push(entries@[i as int].name@))
                                            =~= first_three(nm));
                                    }
                                } else {
                                    assert(fl[q] != fl[k as int]);
                                }
                            }
                            assert(preview_views(r@) =~= tallies(
                                entries@,
                                ds,
                                i + 1,
                            ));
                        }
                    },
                    None => {
                        let mut examples: Vec<String> = Vec::new();
                        examples.push(entries[i].name.clone());
                        assert(examples@.map_values(|s: String| s@) =~= seq![
                            entries@[i as int].name@,
                        ]);
                        let ghost fv = f@;
                        r.push(FolderPreview { folder: f, files: 1, examples });
                        proof {
                            let fl = folders_in(ds, i as int);
                            assert(preview_views(before).len() == before.len());
                            assert(tallies(entries@, ds, i as int).len() == fl.len());
                            assert forall|q: int| 0 <= q < fl.len() implies fl[q] != fv by {
                                assert(preview_views(before)[q] == tallies(entries@, ds, i as int)[q]);
                                assert(preview_views(before)[q] == preview_view(before[q]));
                                assert(before[q].folder@ != fv);
                            }
                            assert(!fl.contains(fv));
                            assert(folders_in(ds, i + 1) == fl.push(fv));
                            lemma_folders_in(ds, i + 1);
                            assert forall|q: int|
                                0 <= q < r.len() implies #[trigger] preview_views(r@)[q] == tallies(entries@, ds, i + 1)[q] by {
                                let fl1 = folders_in(ds, i + 1);
                                lemma_step(entries@, ds, i as int, fl1[q]);
                                if q < fl.len() {
                                    assert(preview_views(before)[q]
                                        == tallies(entries@, ds, i as int)[q]);
                                    assert(fl[q] != fv);
                                } else {
                                    assert(count_to(ds, fv, i as int) == 0);
                                    assert(names_to(entries@, ds, fv, i as int).len() == 0) by {
                                        lemma_names_count(entries@, ds, fv, i as int);
                                    }
                                    assert(preview_views(r@)[q] == preview_view(r@[q]));
                                    assert(first_three(names_to(entries@, ds, fv, i + 1)) =~= seq![
                                        entries@[i as int].name@,
                                    ]);
                                }
                            }
                            assert(preview_views(r@) =~= tallies(
                                entries@,
                                ds,
                                i + 1,
                            ));
                        }
                    },
                }
            },
            None => {
                proof {
                    assert(folders_in(ds, i + 1) == folders_in(ds, i as int));
                    assert forall|q: int|
                        0 <= q < r.len() implies #[trigger] preview_views(r@)[q] == tallies(entries@, ds, i + 1)[q] by {
                        lemma_step(entries@, ds, i as int, folders_in(ds, i as int)[q]);
                        assert(preview_views(before)[q] == tallies(
                            entries@,
                            ds,
                            i as int,
                        )[q]);
                    }
                    assert(preview_views(r@) =~= tallies(
                        entries@,
                        ds,
                        i + 1,
                    ));
                }
            },
        }
        i = i + 1;
    }
    r
}

/// As many names go to a folder as are counted for it.
proof fn lemma_names_count(entries: Seq<FileEntry>, ds: Seq<Option<Seq<char>>>, f: Seq<char>, m: int)
    ensures
        names_to(entries, ds, f, m).len() == count_to(ds, f, m),
    decreases m,
{
    if m > 0 {
        lemma_names_count(entries, ds, f, m - 1);
    }
}

/// Previews are shown busiest folder first, then by folder name.
pub open spec fn preview_key(p: (Seq<char>, nat, Seq<Seq<char>>)) -> Seq<u64> {
    seq![(u64::MAX - p.1) as u64] + text_key(p.0, false)
}

/// A copy of a folder preview.
fn copy_preview(p: &FolderPreview) -> (r: FolderPreview)
    ensures
        preview_view(r) == preview_view(*p),
{
    FolderPreview { folder: p.folder.clone(), files: p.files, examples: copy_names(&p.examples) }
}

/// The six busiest folders of `tallies`, busiest first; folders with as many
/// files by name; ties in their order.
pub fn preview_of(tallies: &Vec<FolderPreview>) -> (r: Vec<FolderPreview>)
    ensures
        exists|perm: Seq<usize>|
            {
                &&& is_permutation(perm, tallies.len() as nat)
                &&& stably_sorted(
                    preview_views(tallies@).map_values(
                        |p: (Seq<char>, nat, Seq<Seq<char>>)| preview_key(p),
                    ),
                    perm,
                )
                &&& r.len() == if tallies.len() < 6 {
                    tallies.len() as int
                } else {
                    6
                }
                &&& forall|i: int|
                    0 <= i < r.len() ==> preview_view(#[trigger] r[i]) == preview_view(
                        tallies[perm[i] as int],
                    )
            },
{
    let mut keys: Vec<Vec<u64>> = Vec::new();
    let mut i: usize = 0;
    while i < tallies.len()
        invariant
            i <= tallies.len(),
            keys.len() == i,
            forall|k: int|
                0 <= k < i ==> (#[trigger] keys[k])@ == preview_key(preview_view(tallies[k])),
        decreases tallies.len() - i,
    {
        let mut key: Vec<u64> = Vec::new();
        key.push(u64::MAX - tallies[i].files as u64);
        let name = chars_of(tallies[i].folder.as_str());
        push_text_key(&mut key, &name, false);
        assert(key@ =~= preview_key(preview_view(tallies[i as int])));
        keys.push(key);
        i = i + 1;
    }
    let perm = sort_order(&keys);
    assert(key_views(keys@) =~= preview_views(tallies@).map_values(
        |p: (Seq<char>, nat, Seq<Seq<char>>)| preview_key(p),
    ));
    let shown: usize = if tallies.len() < 6 {
        tallies.len()
    } else {
        6
    };
    let mut r: Vec<FolderPreview> = Vec::new();
    let mut q: usize = 0;
    while q < shown
        invariant
            q <= shown,
            shown <= perm.len(),
            is_permutation(perm@, tallies.len() as nat),
            r.len() == q,
            forall|x: int|
                0 <= x < q ==> preview_view(#[trigger] r[x]) == preview_view(tallies[perm[x] as int]),
        decreases shown - q,
    {
        r.push(copy_preview(&tallies[perm[q]]));
        q = q + 1;
    }
    r
}

/// The files of the tallied folders that hold at least two, among the first `m`.
pub open spec fn grouped_files(t: Seq<(Seq<char>, nat, Seq<Seq<char>>)>, m: int) -> nat
    decreases m,
{
    if m <= 0 {
        0
    } else {
        grouped_files(t, m - 1) + if t[m - 1].1 >= 2 {
            t[m - 1].1
        } else {
            0
        }
    }
}

/// How many files land in a folder beside at least one other file.
pub fn files_with_company(tallies: &Vec<FolderPreview>) -> (n: usize)
    requires
        grouped_files(preview_views(tallies@), tallies.len() as int) <= usize::MAX,
    ensures
        n == grouped_files(preview_views(tallies@), tallies.len() as int),
{
    let mut n: usize = 0;
    let mut i: usize = 0;
    while i < tallies.len()
        invariant
            i <= tallies.len(),
            n == grouped_files(preview_views(tallies@), i as int),
            grouped_files(preview_views(tallies@), tallies.len() as int) <= usize::MAX,
        decreases tallies.len() - i,
    {
        proof {
            lemma_grouped_grows(preview_views(tallies@), i + 1, tallies.len() as int);
        }
        if tallies[i].files >= 2 {
            n = n + tallies[i].files;
        }
        i = i + 1;
    }
    n
}

/// Counting more folders never counts fewer files.
proof fn lemma_grouped_grows(t: Seq<(Seq<char>, nat, Seq<Seq<char>>)>, a: int, b: int)
    requires
        a <= b,
    ensures
        grouped_files(t, a) <= grouped_files(t, b),
    decreases b - a,
{
    if a < b {
        lemma_grouped_grows(t, a, b - 1);
    }
}

/// The top-level sub-folder of `dir` that `path` lies in (below it, not
/// directly in it): `dir` joined with the first component of the rest of
/// `path`'s folder.
pub open spec fn subfolder_of(dir: Seq<char>, path: Seq<char>) -> Option<Seq<char>> {
    match crate::path::parent(path) {
        Some(folder) => if folder == dir || !within(folder, dir) {
            None
        } else {
            let rest = if dir.len() == 0 || dir.last() == '/' {
                folder.skip(dir.len() as int)
            } else {
                folder.skip(dir.len() + 1 as int)
            };
            let k = first_slash(rest);
            let top = if k < 0 {
                rest
            } else {
                rest.take(k)
            };
            if top.len() == 0 {
                None
            } else {
                Some(join(dir, top))
            }
        },
        None => None,
    }
}

/// The index of the first `/` in `s`, or -1.
pub open spec fn first_slash(s: Seq<char>) -> int
    decreases s.len(),
{
    if s.len() == 0 {
        -1
    } else if s[0] == '/' {
        0
    } else {
        let k = first_slash(s.drop_first());
        if k < 0 {
            -1
        } else {
            k + 1
        }
    }
}

/// `first_slash` finds the first `/`.
proof fn lemma_first_slash(s: Seq<char>)
    ensures
        -1 <= first_slash(s) < s.len(),
        first_slash(s) >= 0 ==> s[first_slash(s)] == '/',
        forall|j: int|
            0 <= j < s.len() && (first_slash(s) < 0 || j < first_slash(s)) ==> s[j] != '/',
    decreases s.len(),
{
    if s.len() > 0 && s[0] != '/' {
        lemma_first_slash(s.drop_first());
        assert forall|j: int|
            0 <= j < s.len() && (first_slash(s) < 0 || j < first_slash(s)) implies s[j] != '/' by {
            if j > 0 {
                assert(s[j] == s.drop_first()[j - 1]);
            }
        }
    }
}

/// The top-level sub-folder of `dir` that `path` lies in, if any (see `subfolder_of`).
pub fn subfolder_for(dir: &String, path: &String) -> (r: Option<String>)
    ensures
        r matches Some(t) ==> subfolder_of(dir@, path@) == Some(t@),
        r is None ==> subfolder_of(dir@, path@) is None,
{
    let p = chars_of(path.as_str());
    let d = chars_of(dir.as_str());
    match crate::path::parent_of(&p) {
        None => None,
        Some(folder) => {
            if crate::text::same_chars(&folder, &d) || !is_within(&folder, &d) {
                return None;
            }
            let cut: usize = if d.len() == 0 || d[d.len() - 1] == '/' {
                d.len()
            } else {
                d.len() + 1
            };
            assert(cut <= folder.len());
            let rest = crate::text::skip_chars(&folder, cut);
            proof {
                lemma_first_slash(rest@);
            }
            let mut k: usize = 0;
            while k < rest.len() && rest[k] != '/'
                invariant
                    k <= rest.len(),
                    forall|j: int| 0 <= j < k ==> rest@[j] != '/',
                decreases rest.len() - k,
            {
                k = k + 1;
            }
            let top = if k == rest.len() {
                assert(first_slash(rest@) < 0) by {
                    if first_slash(rest@) >= 0 {
                        assert(rest@[first_slash(rest@)] == '/');
                    }
                }
                rest
            } else {
                assert(first_slash(rest@) == k) by {
                    if first_slash(rest@) < 0 || first_slash(rest@) > k {
                        assert(rest@[k as int] != '/');
                    }
                    if 0 <= first_slash(rest@) < k {
                        assert(rest@[first_slash(rest@)] == '/');
                    }
                }
                crate::text::take_chars(&rest, k)
            };
            if top.len() == 0 {
                None
            } else {
                Some(string_of(&join_path(&d, &top)))
            }
        },
    }
}

/// The entries whose top-level sub-folder is `f`, among the first `m`.
pub open spec fn indices_to(subs: Seq<Option<Seq<char>>>, f: Seq<char>, m: int) -> Seq<usize>
    decreases m,
{
    if m <= 0 {
        Seq::empty()
    } else {
        indices_to(subs, f, m - 1) + if subs[m - 1] == Some(f) {
            seq![(m - 1) as usize]
        } else {
            Seq::empty()
        }
    }
}

/// The top-level sub-folder of each entry.
pub open spec fn subfolders(dir: Seq<char>, below: Seq<FileEntry>) -> Seq<Option<Seq<char>>> {
    Seq::new(below.len(), |i: int| subfolder_of(dir, below[i].path@))
}

/// The sub-folders among the first `m` (in order of first appearance) that
/// hold at least `min` of the entries.
pub open spec fn busy_subfolders(subs: Seq<Option<Seq<char>>>, folders: Seq<Seq<char>>, min: nat, m: int) -> Seq<
    Seq<char>,
>
    decreases folders.len(),
{
    if folders.len() == 0 {
        Seq::empty()
    } else {
        let f = folders.last();
        busy_subfolders(subs, folders.drop_last(), min, m) + if count_to(subs, f, m) >= min {
            seq![f]
        } else {
            Seq::empty()
        }
    }
}

/// The files of `below` grouped by the top-level sub-folder of `dir` they lie
/// in, each group with the indices of its files in order; groups in order of
/// first appearance, and only those with at least `min_files` files.
pub fn subfolder_groups(dir: &String, below: &Vec<FileEntry>, min_files: usize) -> (r: Vec<
    (String, Vec<usize>),
>)
    ensures
        ({
            let subs = subfolders(dir@, below@);
            let busy = busy_subfolders(
                subs,
                folders_in(subs, below.len() as int),
                min_files as nat,
                below.len() as int,
            );
            &&& r.len() == busy.len()
            &&& forall|k: int|
                0 <= k < r.len() ==> (#[trigger] r[k]).0@ == busy[k] && r[k].1@ == indices_to(
                    subs,
                    busy[k],
                    below.len() as int,
                )
        }),
{
    let ghost subs = subfolders(dir@, below@);
    let ghost n = below.len() as int;
    let mut all: Vec<(String, Vec<usize>)> = Vec::new();
    let mut i: usize = 0;
    while i < below.len()
        invariant
            i <= below.len(),
            subs == subfolders(dir@, below@),
            all.len() == folders_in(subs, i as int).len(),
            forall|k: int|
                0 <= k < all.len() ==> (#[trigger] all[k]).0@ == folders_in(subs, i as int)[k]
                    && all[k].1@ == indices_to(subs, folders_in(subs, i as int)[k], i as int),
        decreases below.len() - i,
    {
        proof {
            lemma_folders_in(subs, i as int);
        }
        let ghost before = all@;
        let ghost fl = folders_in(subs, i as int);
        assert(subs[i as int] == subfolder_of(dir@, below@[i as int].path@));
        match subfolder_for(dir, &below[i].path) {
            Some(t) => {
                let mut found: usize = all.len();
                let mut k: usize = 0;
                while k < all.len()
                    invariant
                        k <= all.len(),
                        found == all.len() || (found < all.len() && all[found as int].0@ == t@),
                        found == all.len() ==> forall|q: int| 0 <= q < k ==> (#[trigger] all[q]).0@ != t@,
                    decreases all.len() - k,
                {
                    if found == all.len() && String::eq(&all[k].0, &t) {
                        found = k;
                    }
                    k = k + 1;
                }
                if found < all.len() {
                    let mut idx = all[found].1.clone();
                    assert(idx@ == all[found as int].1@);
                    idx.push(i);
                    let name = all[found].0.clone();
                    all.set(found, (name, idx));
                    proof {
                        assert(fl[found as int] == t@);
                        assert(fl.contains(t@));
                        assert(folders_in(subs, i + 1) == fl);
                        assert forall|q: int| 0 <= q < all.len() implies (#[trigger] all[q]).0@
                            == folders_in(subs, i + 1)[q] && all[q].1@ == indices_to(
                            subs,
                            folders_in(subs, i + 1)[q],
                            i + 1,
                        ) by {
                            if q != found {
                                assert(fl[q] != fl[found as int]);
                                assert(all[q] == before[q]);
                            }
                        }
                    }
                } else {
                    let mut idx: Vec<usize> = Vec::new();
                    idx.push(i);
                    let ghost tv = t@;
                    all.push((t, idx));
                    proof {
                        assert forall|q: int| 0 <= q < fl.len() implies fl[q] != tv by {
                            assert(before[q].0@ == fl[q]);
                        }
                        assert(!fl.contains(tv));
                        assert(folders_in(subs, i + 1) == fl.push(tv));
                        assert(count_to(subs, tv, i as int) == 0);
                        lemma_indices_count(subs, tv, i as int);
                        assert forall|q: int| 0 <= q < all.len() implies (#[trigger] all[q]).0@
                            == folders_in(subs, i + 1)[q] && all[q].1@ == indices_to(
                            subs,
                            folders_in(subs, i + 1)[q],
                            i + 1,
                        ) by {
                            if q < fl.len() {
                                assert(fl[q] != tv);
                                assert(all[q] == before[q]);
                            } else {
                                assert(all[q].1@ =~= indices_to(subs, tv, i + 1));
                            }
                        }
                    }
                }
            },
            None => {
                proof {
                    assert(folders_in(subs, i + 1) == fl);
                    assert forall|q: int| 0 <= q < all.len() implies (#[trigger] all[q]).0@
                        == folders_in(subs, i + 1)[q] && all[q].1@ == indices_to(
                        subs,
                        folders_in(subs, i + 1)[q],
                        i + 1,
                    ) by {}
                }
            },
        }
        i = i + 1;
    }
    let ghost fl = folders_in(subs, n);
    let mut r: Vec<(String, Vec<usize>)> = Vec::new();
    let mut j: usize = 0;
    while j < all.len()
        invariant
            j <= all.len(),
            all.len() == fl.len(),
            forall|k: int|
                0 <= k < all.len() ==> (#[trigger] all[k]).0@ == fl[k] && all[k].1@ == indices_to(
                    subs,
                    fl[k],
                    n,
                ),
            r.len() == busy_subfolders(subs, fl.take(j as int), min_files as nat, n).len(),
            forall|k: int|
                0 <= k < r.len() ==> (#[trigger] r[k]).0@ == busy_subfolders(
                    subs,
                    fl.take(j as int),
                    min_files as nat,
                    n,
                )[k] && r[k].1@ == indices_to(
                    subs,
                    busy_subfolders(subs, fl.take(j as int), min_files as nat, n)[k],
                    n,
                ),
        decreases all.len() - j,
    {
        assert(fl.take(j + 1).drop_last() =~= fl.take(j as int));
        assert(fl.take(j + 1).last() == fl[j as int]);
        proof {
            lemma_indices_count(subs, fl[j as int], n);
        }
        if all[j].1.len() >= min_files {
            let name = all[j].0.clone();
            let idx = all[j].1.clone();
            assert(idx@ == all[j as int].1@);
            r.push((name, idx));
        }
        j = j + 1;
    }
    assert(fl.take(all.len() as int) =~= fl);
    r
}

/// As many entries are listed for a sub-folder as are counted for it.
proof fn lemma_indices_count(subs: Seq<Option<Seq<char>>>, f: Seq<char>, m: int)
    ensures
        indices_to(subs, f, m).len() == count_to(subs, f, m),
    decreases m,
{
    if m > 0 {
        lemma_indices_count(subs, f, m - 1);
    }
}

} // verus!
