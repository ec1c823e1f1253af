//! Which files look disposable: duplicates, copies, clutter, spent
//! installers and archives, empty files and folders, large stale files.
use vstd::prelude::*;
use crate::dedupe::DuplicateGroup;
use crate::model::{age_in_days, days_between, entry_ext, FileEntry, Timestamp};
use crate::sort::{is_permutation, key_views, sort_order, stably_sorted};
use crate::path::{file_name, join, join_path, name_stem, parent, parent_of, split_file_name,
    file_name_of, within, is_within};
use crate::recommend::{
    keeper_of, keeps_before, original_name, original_name_of, AdviceConfig, CleanupKind,
    CleanupSuggestion, Safety,
};
use crate::recommend::describe_bytes;
use crate::text::{
    append_chars, append_str, chars_of, decimal, decimal_chars, has_prefix, lowercase,
    signed_decimal, signed_decimal_chars, string_of, to_lowercase,
};
use crate::units::size_text;

verus! {

/// `list` holds the text `s`.
pub open spec fn has_text(list: Seq<String>, s: Seq<char>) -> bool {
    exists|i: int| 0 <= i < list.len() && (#[trigger] list[i])@ == s
}

/// Whether `list` holds the text of `s`.
pub fn list_has(list: &Vec<String>, s: &String) -> (r: bool)
    ensures
        r == has_text(list@, s@),
{
    let mut i: usize = 0;
    while i < list.len()
        invariant
            i <= list.len(),
            forall|k: int| 0 <= k < i ==> (#[trigger] list@[k])@ != s@,
        decreases list.len() - i,
    {
        if String::eq(&list[i], s) {
            return true;
        }
        i = i + 1;
    }
    false
}

/// Where a file "copied from" `original` would sit: beside `p`.
pub open spec fn sibling_of(p: Seq<char>, original: Seq<char>) -> Seq<char> {
    match parent(p) {
        Some(d) => join(d, original),
        None => original,
    }
}

/// The folder an archive would have been extracted into: beside it, named
/// after its stem.
pub open spec fn extraction_dir(e: FileEntry) -> Option<Seq<char>> {
    let stem = match file_name(e.name@) {
        Some(f) => name_stem(f),
        None => Seq::empty(),
    };
    match parent(e.path@) {
        Some(d) => Some(join(d, stem)),
        None => None,
    }
}

/// Why a file looks disposable.
#[derive(Debug, Clone, Copy, PartialEq, Eq, Structural)]
pub enum Finding {
    /// System clutter and half-finished downloads.
    Junk,
    /// Backups and logs: usually disposable.
    Backup,
    /// Named as a copy of a file that sits beside it.
    Copy,
    /// Empty, and not a placeholder.
    Empty,
    /// An installer untouched for long.
    Installer,
    /// An archive with its extracted folder beside it.
    Archive,
    /// Large and untouched for long.
    Stale,
}

/// The findings that claim a file, so no later check proposes it again.
pub open spec fn claims(f: Option<Finding>) -> bool {
    f == Some(Finding::Junk) || f == Some(Finding::Backup) || f == Some(Finding::Copy)
}

/// What the checks find about a file, in the order they are tried; `None` when
/// nothing stands out (empty placeholders included).
pub open spec fn finding(
    e: FileEntry,
    below: Seq<FileEntry>,
    extracted: Seq<String>,
    config: AdviceConfig,
    now: Timestamp,
) -> Option<Finding> {
    let name = lowercase(e.name@);
    let ext = entry_ext(e);
    let age = days_between(now, e.modified);
    if has_text(config.junk_names@, name) || has_prefix(name, "~$"@) {
        Some(Finding::Junk)
    } else if has_text(config.junk_extensions@, ext) {
        Some(Finding::Junk)
    } else if has_text(config.review_extensions@, ext) {
        Some(Finding::Backup)
    } else if original_name_of(e.name@) is Some && (exists|j: int|
        0 <= j < below.len() && (#[trigger] below[j]).path@ == sibling_of(
            e.path@,
            original_name_of(e.name@).unwrap(),
        )) {
        Some(Finding::Copy)
    } else if e.size == 0 {
        if has_text(config.keep_empty_names@, name) {
            None
        } else {
            Some(Finding::Empty)
        }
    } else if has_text(config.installer_extensions@, ext) && age >= config.stale_days {
        Some(Finding::Installer)
    } else if has_text(config.archive_extensions@, ext) && extraction_dir(e) is Some && has_text(
        extracted,
        extraction_dir(e).unwrap(),
    ) {
        Some(Finding::Archive)
    } else if e.size >= config.large_file_bytes && age >= config.stale_days {
        Some(Finding::Stale)
    } else {
        None
    }
}

/// Whether some entry of `below` has the path `p`.
fn path_listed(below: &Vec<FileEntry>, p: &String) -> (r: bool)
    ensures
        r == exists|j: int| 0 <= j < below.len() && (#[trigger] below[j]).path@ == p@,
{
    let mut j: usize = 0;
    while j < below.len()
        invariant
            j <= below.len(),
            forall|k: int| 0 <= k < j ==> (#[trigger] below[k]).path@ != p@,
        decreases below.len() - j,
    {
        if String::eq(&below[j].path, p) {
            return true;
        }
        j = j + 1;
    }
    false
}

/// The folder an archive would have been extracted into.
fn extraction_dir_of(e: &FileEntry) -> (r: Option<String>)
    ensures
        r matches Some(d) ==> extraction_dir(*e) == Some(d@),
        r is None ==> extraction_dir(*e) is None,
{
    let name = chars_of(e.name.as_str());
    let stem: Vec<char> = match file_name_of(&name) {
        Some(f) => split_file_name(&f).0,
        None => Vec::new(),
    };
    let path = chars_of(e.path.as_str());
    match parent_of(&path) {
        Some(d) => {
            let j = join_path(&d, &stem);
            Some(string_of(&j))
        },
        None => None,
    }
}

/// What the checks find about `e` (see `finding`).
pub fn find_for(
    e: &FileEntry,
    below: &Vec<FileEntry>,
    extracted: &Vec<String>,
    config: &AdviceConfig,
    now: &Timestamp,
) -> (r: Option<Finding>)
    requires
        e.modified.valid(),
        now.valid(),
    ensures
        r == finding(*e, below@, extracted@, *config, *now),
{
    let name = to_lowercase(e.name.as_str());
    let ext: String = match &e.extension {
        Some(x) => x.clone(),
        None => String::new(),
    };
    assert(ext@ == entry_ext(*e));
    let age = age_in_days(now, &e.modified);
    let name_chars = chars_of(name.as_str());
    let tilde = crate::text::vec_of("~$");
    if list_has(&config.junk_names, &name) || crate::text::starts_with(&name_chars, &tilde) {
        return Some(Finding::Junk);
    }
    if list_has(&config.junk_extensions, &ext) {
        return Some(Finding::Junk);
    }
    if list_has(&config.review_extensions, &ext) {
        return Some(Finding::Backup);
    }
    let original = original_name(e.name.as_str());
    match original {
        Some(os) => {
            let o = chars_of(os.as_str());
            let path = chars_of(e.path.as_str());
            let sib: Vec<char> = match parent_of(&path) {
                Some(d) => join_path(&d, &o),
                None => o,
            };
            let sib_s = string_of(&sib);
            if path_listed(below, &sib_s) {
                return Some(Finding::Copy);
            }
        },
        None => {},
    }
    if e.size == 0 {
        if list_has(&config.keep_empty_names, &name) {
            return None;
        } else {
            return Some(Finding::Empty);
        }
    }
    if list_has(&config.installer_extensions, &ext) && age >= config.stale_days {
        return Some(Finding::Installer);
    }
    if list_has(&config.archive_extensions, &ext) {
        match extraction_dir_of(e) {
            Some(d) => {
                if list_has(extracted, &d) {
                    return Some(Finding::Archive);
                }
            },
            None => {},
        }
    }
    if e.size >= config.large_file_bytes && age >= config.stale_days {
        return Some(Finding::Stale);
    }
    None
}

/// `a + b`, held at `u64::MAX`.
pub open spec fn sat_add(a: nat, b: nat) -> nat {
    if a + b > u64::MAX {
        u64::MAX as nat
    } else {
        a + b
    }
}

/// Whether some path of `g` lies within `root`.
pub open spec fn group_within(g: DuplicateGroup, root: Seq<char>) -> bool {
    exists|k: int| 0 <= k < g.paths.len() && within((#[trigger] g.paths[k])@, root)
}

/// Whether the path at `k` beats every other path of `paths` (see `keeper_of`).
pub open spec fn beats_all(paths: Seq<String>, k: int) -> bool {
    0 <= k < paths.len() && forall|j: int|
        0 <= j < paths.len() && j != k ==> keeps_before(paths, k, j)
}

/// The path of a group that is kept (see `keeper_of`).
pub open spec fn keeper_index(paths: Seq<String>) -> int {
    if paths.len() == 0 {
        0
    } else {
        choose|k: int| #[trigger] beats_all(paths, k)
    }
}

/// Whether a group is left alone because it reaches into `root`.
pub open spec fn group_skipped(g: DuplicateGroup, root: Seq<char>) -> bool {
    group_within(g, root) || g.paths.len() == 0
}

/// The redundant copies among the first `m` groups: every path but the keeper
/// of each group that does not reach into `root`.
pub open spec fn redundant(groups: Seq<DuplicateGroup>, root: Seq<char>, m: int) -> Seq<String>
    decreases m,
{
    if m <= 0 {
        Seq::empty()
    } else {
        let g = groups[m - 1];
        redundant(groups, root, m - 1) + if group_skipped(g, root) {
            Seq::empty()
        } else {
            g.paths@.remove(keeper_index(g.paths@))
        }
    }
}

/// The bytes the redundant copies among the first `m` groups take, held at `u64::MAX`.
pub open spec fn redundant_bytes(groups: Seq<DuplicateGroup>, root: Seq<char>, m: int) -> nat
    decreases m,
{
    if m <= 0 {
        0
    } else {
        let g = groups[m - 1];
        let before = redundant_bytes(groups, root, m - 1);
        if group_skipped(g, root) {
            before
        } else {
            repeat_add(before, g.size as nat, (g.paths.len() - 1) as nat)
        }
    }
}

/// `a` with `b` added `n` times, held at `u64::MAX` after each step.
pub open spec fn repeat_add(a: nat, b: nat, n: nat) -> nat
    decreases n,
{
    if n == 0 {
        a
    } else {
        sat_add(repeat_add(a, b, (n - 1) as nat), b)
    }
}

/// The keeper is the one path of a group that beats all others.
proof fn lemma_keeper_index(paths: Seq<String>, k: int)
    requires
        beats_all(paths, k),
    ensures
        keeper_index(paths) == k,
{
    let c = keeper_index(paths);
    assert(beats_all(paths, c));
    if c != k {
        crate::recommend::lemma_keeps_before_order(paths, c, k, c);
    }
}

/// The redundant copies of all groups, with their bytes.
fn redundant_copies(groups: &Vec<DuplicateGroup>, root: &String) -> (r: (Vec<String>, u64))
    requires
        forall|g: int, k: int|
            0 <= g < groups.len() && 0 <= k < groups[g].paths.len() ==> (
            #[trigger] groups[g].paths[k])@.len() < 0x1000_0000_0000,
    ensures
        r.0@ == redundant(groups@, root@, groups.len() as int),
        r.1 == redundant_bytes(groups@, root@, groups.len() as int),
{
    let root_chars = chars_of(root.as_str());
    let mut paths: Vec<String> = Vec::new();
    let mut bytes: u64 = 0;
    let mut i: usize = 0;
    while i < groups.len()
        invariant
            i <= groups.len(),
            root_chars@ == root@,
            forall|g: int, k: int|
                0 <= g < groups.len() && 0 <= k < groups[g].paths.len() ==> (
                #[trigger] groups[g].paths[k])@.len() < 0x1000_0000_0000,
            paths@ == redundant(groups@, root@, i as int),
            bytes == redundant_bytes(groups@, root@, i as int),
        decreases groups.len() - i,
    {
        let g = &groups[i];
        let mut inside = false;
        let mut k: usize = 0;
        while k < g.paths.len()
            invariant
                k <= g.paths.len(),
                root_chars@ == root@,
                inside == exists|q: int| 0 <= q < k && within((#[trigger] g.paths[q])@, root@),
            decreases g.paths.len() - k,
        {
            let pc = chars_of(g.paths[k].as_str());
            if is_within(&pc, &root_chars) {
                inside = true;
            }
            k = k + 1;
        }
        if !inside && g.paths.len() > 0 {
            let keep = keeper_of(&g.paths);
            proof {
                lemma_keeper_index(g.paths@, keep as int);
            }
            let ghost before = paths@;
            let ghost start_bytes = bytes as nat;
            let mut q: usize = 0;
            while q < g.paths.len()
                invariant
                    q <= g.paths.len(),
                    keep < g.paths.len(),
                    keep == keeper_index(g.paths@),
                    paths@ == before + g.paths@.remove(keep as int).take(
                        if q <= keep { q as int } else { q - 1 },
                    ),
                    bytes == repeat_add(
                        start_bytes,
                        g.size as nat,
                        (if q <= keep { q as int } else { q - 1 }) as nat,
                    ),
                decreases g.paths.len() - q,
            {
                if q != keep {
                    let ghost cut = if q <= keep { q as int } else { q - 1 };
                    paths.push(g.paths[q].clone());
                    assert(g.paths@.remove(keep as int)[cut] == g.paths@[q as int]);
                    assert(g.paths@.remove(keep as int).take(cut + 1) =~= g.paths@.remove(
                        keep as int,
                    ).take(cut).push(g.paths@[q as int]));
                    bytes = if bytes > u64::MAX - g.size {
                        u64::MAX
                    } else {
                        bytes + g.size
                    };
                }
                q = q + 1;
            }
            assert(g.paths@.remove(keep as int).take((g.paths.len() - 1) as int) =~= g.paths@.remove(
                keep as int,
            ));
        }
        proof {
            assert(group_skipped(groups@[i as int], root@) == (inside || g.paths.len() == 0));
            if group_skipped(groups@[i as int], root@) {
                assert(redundant(groups@, root@, i + 1) =~= redundant(groups@, root@, i as int));
            }
        }
        i = i + 1;
    }
    (paths, bytes)
}

/// Every path of the first `m` groups that are not left alone: the redundant
/// copies and the keeper of each. The other checks pass over these, so that no
/// suggestion proposes the file that a duplicate suggestion keeps.
pub open spec fn held(groups: Seq<DuplicateGroup>, root: Seq<char>, m: int) -> Seq<String>
    decreases m,
{
    if m <= 0 {
        Seq::empty()
    } else {
        held(groups, root, m - 1) + if group_skipped(groups[m - 1], root) {
            Seq::empty()
        } else {
            groups[m - 1].paths@
        }
    }
}

/// Each path of a group that is not left alone is held.
proof fn lemma_held_has(groups: Seq<DuplicateGroup>, root: Seq<char>, m: int, g: int, k: int)
    requires
        0 <= g < m <= groups.len(),
        !group_skipped(groups[g], root),
        0 <= k < groups[g].paths.len(),
    ensures
        has_text(held(groups, root, m), groups[g].paths[k]@),
    decreases m,
{
    let before = held(groups, root, m - 1);
    if g < m - 1 {
        lemma_held_has(groups, root, m - 1, g, k);
        let a = choose|a: int| 0 <= a < before.len() && (#[trigger] before[a])@ == groups[g].paths[k]@;
        assert(held(groups, root, m)[a] == before[a]);
    } else {
        assert(held(groups, root, m)[before.len() + k] == groups[g].paths[k]);
    }
}

/// Every path of the groups that do not reach into `root`.
fn held_paths(groups: &Vec<DuplicateGroup>, root: &String) -> (r: Vec<String>)
    ensures
        r@ == held(groups@, root@, groups.len() as int),
{
    let root_chars = chars_of(root.as_str());
    let mut r: Vec<String> = Vec::new();
    let mut i: usize = 0;
    while i < groups.len()
        invariant
            i <= groups.len(),
            root_chars@ == root@,
            r@ == held(groups@, root@, i as int),
        decreases groups.len() - i,
    {
        let g = &groups[i];
        let mut inside = false;
        let mut k: usize = 0;
        while k < g.paths.len()
            invariant
                k <= g.paths.len(),
                root_chars@ == root@,
                inside == exists|q: int| 0 <= q < k && within((#[trigger] g.paths[q])@, root@),
            decreases g.paths.len() - k,
        {
            let pc = chars_of(g.paths[k].as_str());
            if is_within(&pc, &root_chars) {
                inside = true;
            }
            k = k + 1;
        }
        let ghost before = r@;
        if !inside && g.paths.len() > 0 {
            let mut q: usize = 0;
            while q < g.paths.len()
                invariant
                    q <= g.paths.len(),
                    r@ == before + g.paths@.take(q as int),
                decreases g.paths.len() - q,
            {
                r.push(g.paths[q].clone());
                assert(g.paths@.take(q + 1) =~= g.paths@.take(q as int).push(g.paths@[q as int]));
                q = q + 1;
            }
            assert(g.paths@.take(g.paths.len() as int) =~= g.paths@);
        }
        proof {
            assert(group_skipped(groups@[i as int], root@) == (inside || g.paths.len() == 0));
            if group_skipped(groups@[i as int], root@) {
                assert(held(groups@, root@, i + 1) =~= held(groups@, root@, i as int));
            } else {
                assert(held(groups@, root@, i + 1) =~= before + g.paths@);
            }
        }
        i = i + 1;
    }
    r
}

/// Whether the path `p` is already taken when the entry at `i` comes up: as a
/// path of a duplicate group in `red`, or by an earlier entry of that path that a check claimed.
pub open spec fn taken_before(
    below: Seq<FileEntry>,
    red: Seq<String>,
    extracted: Seq<String>,
    config: AdviceConfig,
    now: Timestamp,
    p: Seq<char>,
    i: int,
) -> bool {
    ||| has_text(red, p)
    ||| exists|j: int|
        0 <= j < i && (#[trigger] below[j]).path@ == p && claims(
            finding(below[j], below, extracted, config, now),
        )
}

/// What becomes of the entry at `i`: nothing when its path is already taken,
/// else what the checks find.
pub open spec fn verdict(
    below: Seq<FileEntry>,
    red: Seq<String>,
    extracted: Seq<String>,
    config: AdviceConfig,
    now: Timestamp,
    i: int,
) -> Option<Finding> {
    if taken_before(below, red, extracted, config, now, below[i].path@, i) {
        None
    } else {
        finding(below[i], below, extracted, config, now)
    }
}

/// The paths of the first `m` entries whose verdict is `f`, in order.
pub open spec fn picked(
    below: Seq<FileEntry>,
    red: Seq<String>,
    extracted: Seq<String>,
    config: AdviceConfig,
    now: Timestamp,
    f: Finding,
    m: int,
) -> Seq<String>
    decreases m,
{
    if m <= 0 {
        Seq::empty()
    } else {
        picked(below, red, extracted, config, now, f, m - 1) + if verdict(
            below,
            red,
            extracted,
            config,
            now,
            m - 1,
        ) == Some(f) {
            seq![below[m - 1].path]
        } else {
            Seq::empty()
        }
    }
}

/// The bytes of the first `m` entries whose verdict is `f`, held at `u64::MAX`.
pub open spec fn picked_bytes(
    below: Seq<FileEntry>,
    red: Seq<String>,
    extracted: Seq<String>,
    config: AdviceConfig,
    now: Timestamp,
    f: Finding,
    m: int,
) -> nat
    decreases m,
{
    if m <= 0 {
        0
    } else {
        let b = picked_bytes(below, red, extracted, config, now, f, m - 1);
        if verdict(below, red, extracted, config, now, m - 1) == Some(f) {
            sat_add(b, below[m - 1].size as nat)
        } else {
            b
        }
    }
}

/// The finding each of the seven buckets collects, in the order kept here.
pub open spec fn bucket_finding(k: int) -> Finding {
    if k == 0 {
        Finding::Junk
    } else if k == 1 {
        Finding::Backup
    } else if k == 2 {
        Finding::Copy
    } else if k == 3 {
        Finding::Empty
    } else if k == 4 {
        Finding::Installer
    } else if k == 5 {
        Finding::Archive
    } else {
        Finding::Stale
    }
}

/// The bucket that collects `f`.
fn bucket_of(f: Finding) -> (k: usize)
    ensures
        k < 7,
        bucket_finding(k as int) == f,
{
    match f {
        Finding::Junk => 0,
        Finding::Backup => 1,
        Finding::Copy => 2,
        Finding::Empty => 3,
        Finding::Installer => 4,
        Finding::Archive => 5,
        Finding::Stale => 6,
    }
}

/// Every entry of `below` that some check finds disposable, sorted into the
/// seven buckets, with the bytes of each; entries whose path is a redundant
/// copy in `red`, or already claimed, are left alone.
pub fn sort_out(
    below: &Vec<FileEntry>,
    red: &Vec<String>,
    extracted: &Vec<String>,
    config: &AdviceConfig,
    now: &Timestamp,
) -> (r: (Vec<Vec<String>>, Vec<u64>))
    requires
        now.valid(),
        forall|i: int| 0 <= i < below.len() ==> (#[trigger] below[i]).modified.valid(),
    ensures
        r.0.len() == 7,
        r.1.len() == 7,
        forall|k: int|
            0 <= k < 7 ==> (#[trigger] r.0[k])@ == picked(
                below@,
                red@,
                extracted@,
                *config,
                *now,
                bucket_finding(k),
                below.len() as int,
            ),
        forall|k: int|
            0 <= k < 7 ==> #[trigger] r.1[k] == picked_bytes(
                below@,
                red@,
                extracted@,
                *config,
                *now,
                bucket_finding(k),
                below.len() as int,
            ),
{
    let ghost n = below.len() as int;
    let mut claimed: Vec<String> = Vec::new();
    let mut c: usize = 0;
    while c < red.len()
        invariant
            c <= red.len(),
            claimed@ == red@.take(c as int),
        decreases red.len() - c,
    {
        claimed.push(red[c].clone());
        assert(red@.take(c + 1) =~= red@.take(c as int).push(red@[c as int]));
        c = c + 1;
    }
    assert(red@.take(red.len() as int) =~= red@);
    let mut lists: Vec<Vec<String>> = Vec::new();
    let mut sizes: Vec<u64> = Vec::new();
    let mut k: usize = 0;
    while k < 7
        invariant
            k <= 7,
            lists.len() == k,
            sizes.len() == k,
            forall|q: int| 0 <= q < k ==> (#[trigger] lists[q])@ == Seq::<String>::empty(),
            forall|q: int| 0 <= q < k ==> #[trigger] sizes[q] == 0,
        decreases 7 - k,
    {
        lists.push(Vec::new());
        sizes.push(0);
        k = k + 1;
    }
    let mut i: usize = 0;
    while i < below.len()
        invariant
            i <= below.len(),
            now.valid(),
            forall|q: int| 0 <= q < below.len() ==> (#[trigger] below[q]).modified.valid(),
            lists.len() == 7,
            sizes.len() == 7,
            forall|p: Seq<char>|
                has_text(claimed@, p) <==> taken_before(
                    below@,
                    red@,
                    extracted@,
                    *config,
                    *now,
                    p,
                    i as int,
                ),
            forall|q: int|
                0 <= q < 7 ==> (#[trigger] lists[q])@ == picked(
                    below@,
                    red@,
                    extracted@,
                    *config,
                    *now,
                    bucket_finding(q),
                    i as int,
                ),
            forall|q: int|
                0 <= q < 7 ==> #[trigger] sizes[q] == picked_bytes(
                    below@,
                    red@,
                    extracted@,
                    *config,
                    *now,
                    bucket_finding(q),
                    i as int,
                ),
        decreases below.len() - i,
    {
        let e = &below[i];
        let ghost old_claimed = claimed@;
        let taken = list_has(&claimed, &e.path);
        let v: Option<Finding> = if taken {
            None
        } else {
            find_for(e, below, extracted, config, now)
        };
        assert(v == verdict(below@, red@, extracted@, *config, *now, i as int));
        let ghost f_here = finding(below@[i as int], below@, extracted@, *config, *now);
        match v {
            Some(f) => {
                if f == Finding::Junk || f == Finding::Backup || f == Finding::Copy {
                    claimed.push(e.path.clone());
                }
                let b = bucket_of(f);
                let mut bucket = lists[b].clone();
                assert(bucket@ == lists[b as int]@);
                bucket.push(e.path.clone());
                lists.set(b, bucket);
                let s = sizes[b];
                let s2 = if s > u64::MAX - e.size {
                    u64::MAX
                } else {
                    s + e.size
                };
                sizes.set(b, s2);
            },
            None => {},
        }
        proof {
            assert forall|p: Seq<char>|
                taken_before(
                    below@,
                    red@,
                    extracted@,
                    *config,
                    *now,
                    p,
                    i + 1,
                ) implies has_text(claimed@, p) by {
                if !taken_before(below@, red@, extracted@, *config, *now, p, i as int) {
                    let j = choose|j: int|
                        0 <= j < i + 1 && (#[trigger] below@[j]).path@ == p && claims(
                            finding(below@[j], below@, extracted@, *config, *now),
                        );
                    if j < i {
                        assert(taken_before(below@, red@, extracted@, *config, *now, p, i as int));
                    }
                    assert(j == i);
                    if taken {
                        let w = choose|w: int|
                            0 <= w < old_claimed.len() && (#[trigger] old_claimed[w])@ == p;
                        assert(claimed@[w] == old_claimed[w]);
                    } else {
                        let last = claimed@.len() - 1;
                        assert(claimed@[last]@ == p);
                    }
                } else {
                    assert(has_text(old_claimed, p));
                    let w = choose|w: int| 0 <= w < old_claimed.len() && (#[trigger] old_claimed[w])@ == p;
                    assert(claimed@[w] == old_claimed[w]);
                }
            }
            assert forall|p: Seq<char>|
                has_text(claimed@, p) implies taken_before(
                    below@,
                    red@,
                    extracted@,
                    *config,
                    *now,
                    p,
                    i + 1,
                ) by {
                let w = choose|w: int| 0 <= w < claimed@.len() && (#[trigger] claimed@[w])@ == p;
                if w < old_claimed.len() {
                    assert(old_claimed[w] == claimed@[w]);
                    assert(has_text(old_claimed, p));
                    assert(taken_before(below@, red@, extracted@, *config, *now, p, i as int));
                } else {
                    assert(claimed@[w] == below@[i as int].path);
                    assert(claims(f_here));
                }
            }
        }
        i = i + 1;
    }
    (lists, sizes)
}

/// What each of the nine possible suggestions is about, in the order they are drafted.
pub open spec fn slot_kind(j: int) -> CleanupKind {
    if j == 0 {
        CleanupKind::Duplicates
    } else if j == 1 || j == 5 {
        CleanupKind::Junk
    } else if j == 2 {
        CleanupKind::CopyClutter
    } else if j == 3 {
        CleanupKind::Installers
    } else if j == 4 {
        CleanupKind::ExtractedArchives
    } else if j == 6 {
        CleanupKind::Empty
    } else if j == 7 {
        CleanupKind::LargeAndStale
    } else {
        CleanupKind::EmptyFolders
    }
}

/// Duplicates, clutter and empty folders are safe to delete; the rest want a look.
pub open spec fn slot_safety(j: int) -> Safety {
    if j == 0 || j == 1 || j == 8 {
        Safety::Safe
    } else {
        Safety::Review
    }
}

/// The bucket whose files the suggestion at slot `j` (one of `1..8`) proposes.
pub open spec fn slot_bucket(j: int) -> int {
    if j == 1 {
        0
    } else if j == 2 {
        2
    } else if j == 3 {
        4
    } else if j == 4 {
        5
    } else if j == 5 {
        1
    } else if j == 6 {
        3
    } else {
        6
    }
}

/// The title of the suggestion at slot `j` that proposes `n` paths.
pub open spec fn slot_title(j: int, n: nat) -> Seq<char> {
    decimal(n) + if j == 0 {
        " redundant copies"@
    } else if j == 1 {
        " throwaway file(s)"@
    } else if j == 2 {
        " duplicated-by-name file(s)"@
    } else if j == 3 {
        " old installer(s)"@
    } else if j == 4 {
        " already-extracted archive(s)"@
    } else if j == 5 {
        " backup or log file(s)"@
    } else if j == 6 {
        " empty file(s)"@
    } else if j == 7 {
        " large file(s) untouched for months"@
    } else {
        " empty folder(s)"@
    }
}

/// The reason given by the suggestion at slot `j` that frees `bytes`; `groups`
/// is the number of duplicate groups found.
pub open spec fn slot_reason(j: int, bytes: nat, groups: nat, config: AdviceConfig) -> Seq<char> {
    if j == 0 {
        decimal(groups) + " group(s) of byte-identical files; keeping the first of each frees "@
            + size_text(bytes)
    } else if j == 1 {
        "system clutter and half-finished downloads that nothing depends on"@
    } else if j == 2 {
        "each sits next to the file it was copied from \u{2014} "@ + size_text(bytes) + " in total"@
    } else if j == 3 {
        "installer packages untouched for "@ + signed_decimal(config.stale_days as int)
            + "+ days, almost certainly already run \u{2014} "@ + size_text(bytes)
    } else if j == 4 {
        "each has a folder of the same name beside it \u{2014} "@ + size_text(bytes)
            + " in total"@
    } else if j == 5 {
        "usually disposable, but check nothing still reads them"@
    } else if j == 6 {
        "zero bytes, and not one of the placeholder names tools rely on"@
    } else if j == 7 {
        "each over "@ + size_text(config.large_file_bytes as nat) + ", unmodified for "@
            + signed_decimal(config.stale_days as int) + "+ days \u{2014} "@ + size_text(bytes)
            + " in total"@
    } else {
        "nothing inside them at all"@
    }
}

/// The suggestion at slot `j`, proposing `paths` that free `bytes`.
pub open spec fn draft(
    j: int,
    paths: Seq<String>,
    bytes: nat,
    groups: nat,
    config: AdviceConfig,
) -> (CleanupKind, Seq<char>, Seq<char>, u64, Safety, Seq<String>) {
    (
        slot_kind(j),
        slot_title(j, paths.len()),
        slot_reason(j, bytes, groups, config),
        bytes as u64,
        slot_safety(j),
        paths,
    )
}

/// The title of the suggestion at slot `j` for `n` paths.
fn title_text(j: usize, n: usize) -> (s: String)
    requires
        j < 9,
    ensures
        s@ == slot_title(j as int, n as nat),
{
    let mut v = decimal_chars(n as u64);
    let tail = if j == 0 {
        " redundant copies"
    } else if j == 1 {
        " throwaway file(s)"
    } else if j == 2 {
        " duplicated-by-name file(s)"
    } else if j == 3 {
        " old installer(s)"
    } else if j == 4 {
        " already-extracted archive(s)"
    } else if j == 5 {
        " backup or log file(s)"
    } else if j == 6 {
        " empty file(s)"
    } else if j == 7 {
        " large file(s) untouched for months"
    } else {
        " empty folder(s)"
    };
    append_str(&mut v, tail);
    string_of(&v)
}

/// Appends `bytes` for a person to read.
fn append_size(v: &mut Vec<char>, bytes: u64)
    ensures
        final(v)@ == old(v)@ + size_text(bytes as nat),
{
    let t = describe_bytes(bytes);
    append_str(v, t.as_str());
}

/// The reason of the suggestion at slot `j`.
fn reason_text(j: usize, bytes: u64, groups: usize, config: &AdviceConfig) -> (s: String)
    requires
        j < 9,
    ensures
        s@ == slot_reason(j as int, bytes as nat, groups as nat, *config),
{
    let mut v: Vec<char> = Vec::new();
    if j == 0 {
        v = decimal_chars(groups as u64);
        append_str(&mut v, " group(s) of byte-identical files; keeping the first of each frees ");
        append_size(&mut v, bytes);
    } else if j == 1 {
        append_str(&mut v, "system clutter and half-finished downloads that nothing depends on");
    } else if j == 2 {
        append_str(&mut v, "each sits next to the file it was copied from \u{2014} ");
        append_size(&mut v, bytes);
        append_str(&mut v, " in total");
    } else if j == 3 {
        append_str(&mut v, "installer packages untouched for ");
        let d = signed_decimal_chars(config.stale_days);
        append_chars(&mut v, &d);
        append_str(&mut v, "+ days, almost certainly already run \u{2014} ");
        append_size(&mut v, bytes);
    } else if j == 4 {
        append_str(&mut v, "each has a folder of the same name beside it \u{2014} ");
        append_size(&mut v, bytes);
        append_str(&mut v, " in total");
    } else if j == 5 {
        append_str(&mut v, "usually disposable, but check nothing still reads them");
    } else if j == 6 {
        append_str(&mut v, "zero bytes, and not one of the placeholder names tools rely on");
    } else if j == 7 {
        append_str(&mut v, "each over ");
        append_size(&mut v, config.large_file_bytes);
        append_str(&mut v, ", unmodified for ");
        let d = signed_decimal_chars(config.stale_days);
        append_chars(&mut v, &d);
        append_str(&mut v, "+ days \u{2014} ");
        append_size(&mut v, bytes);
        append_str(&mut v, " in total");
    } else {
        append_str(&mut v, "nothing inside them at all");
    }
    string_of(&v)
}

/// A copy of a list of paths.
fn copy_paths(v: &Vec<String>) -> (r: Vec<String>)
    ensures
        r@ == v@,
{
    let mut r: Vec<String> = Vec::new();
    let mut i: usize = 0;
    while i < v.len()
        invariant
            i <= v.len(),
            r@ == v@.take(i as int),
        decreases v.len() - i,
    {
        r.push(v[i].clone());
        assert(v@.take(i + 1) =~= v@.take(i as int).push(v@[i as int]));
        i = i + 1;
    }
    assert(v@.take(v.len() as int) =~= v@);
    r
}

/// The suggestion at slot `j`, proposing `paths` that free `bytes`.
fn make_draft(j: usize, paths: &Vec<String>, bytes: u64, groups: usize, config: &AdviceConfig) -> (r:
    CleanupSuggestion)
    requires
        j < 9,
    ensures
        r@ == draft(j as int, paths@, bytes as nat, groups as nat, *config),
{
    let kind = if j == 0 {
        CleanupKind::Duplicates
    } else if j == 1 || j == 5 {
        CleanupKind::Junk
    } else if j == 2 {
        CleanupKind::CopyClutter
    } else if j == 3 {
        CleanupKind::Installers
    } else if j == 4 {
        CleanupKind::ExtractedArchives
    } else if j == 6 {
        CleanupKind::Empty
    } else if j == 7 {
        CleanupKind::LargeAndStale
    } else {
        CleanupKind::EmptyFolders
    };
    let safety = if j == 0 || j == 1 || j == 8 {
        Safety::Safe
    } else {
        Safety::Review
    };
    CleanupSuggestion {
        kind,
        title: title_text(j, paths.len()),
        reason: reason_text(j, bytes, groups, config),
        reclaimable: bytes,
        safety,
        paths: copy_paths(paths),
    }
}

/// The first `m` of `dirs` that are not within `root`, in order.
pub open spec fn outside_dirs(dirs: Seq<String>, root: Seq<char>, m: int) -> Seq<String>
    decreases m,
{
    if m <= 0 {
        Seq::empty()
    } else {
        outside_dirs(dirs, root, m - 1) + if within(dirs[m - 1]@, root) {
            Seq::empty()
        } else {
            seq![dirs[m - 1]]
        }
    }
}

/// The paths the suggestion at slot `j` proposes.
pub open spec fn slot_paths(
    j: int,
    below: Seq<FileEntry>,
    groups: Seq<DuplicateGroup>,
    root: Seq<char>,
    extracted: Seq<String>,
    empty_dirs: Seq<String>,
    config: AdviceConfig,
    now: Timestamp,
) -> Seq<String> {
    let hd = held(groups, root, groups.len() as int);
    if j == 0 {
        redundant(groups, root, groups.len() as int)
    } else if j == 8 {
        outside_dirs(empty_dirs, root, empty_dirs.len() as int)
    } else {
        picked(below, hd, extracted, config, now, bucket_finding(slot_bucket(j)), below.len() as int)
    }
}

/// The bytes the suggestion at slot `j` frees.
pub open spec fn slot_bytes(
    j: int,
    below: Seq<FileEntry>,
    groups: Seq<DuplicateGroup>,
    root: Seq<char>,
    extracted: Seq<String>,
    config: AdviceConfig,
    now: Timestamp,
) -> nat {
    let hd = held(groups, root, groups.len() as int);
    if j == 0 {
        redundant_bytes(groups, root, groups.len() as int)
    } else if j == 8 {
        0
    } else {
        picked_bytes(
            below,
            hd,
            extracted,
            config,
            now,
            bucket_finding(slot_bucket(j)),
            below.len() as int,
        )
    }
}

/// The suggestions of the first `m` slots that propose anything, in slot order.
pub open spec fn drafted(
    below: Seq<FileEntry>,
    groups: Seq<DuplicateGroup>,
    root: Seq<char>,
    extracted: Seq<String>,
    empty_dirs: Seq<String>,
    config: AdviceConfig,
    now: Timestamp,
    m: int,
) -> Seq<(CleanupKind, Seq<char>, Seq<char>, u64, Safety, Seq<String>)>
    decreases m,
{
    if m <= 0 {
        Seq::empty()
    } else {
        let paths = slot_paths(m - 1, below, groups, root, extracted, empty_dirs, config, now);
        drafted(below, groups, root, extracted, empty_dirs, config, now, m - 1) + if paths.len()
            > 0 {
            seq![
                draft(
                    m - 1,
                    paths,
                    slot_bytes(m - 1, below, groups, root, extracted, config, now),
                    groups.len(),
                    config,
                ),
            ]
        } else {
            Seq::empty()
        }
    }
}

/// Suggestions are shown by bytes freed, then by paths proposed, both largest first.
pub open spec fn order_key(d: (CleanupKind, Seq<char>, Seq<char>, u64, Safety, Seq<String>)) -> Seq<
    u64,
> {
    seq![(u64::MAX - d.3) as u64, (u64::MAX - d.5.len()) as u64]
}

/// The bucket of slot `j` (one of `1..8`).
fn bucket_at(j: usize) -> (k: usize)
    requires
        1 <= j < 8,
    ensures
        k == slot_bucket(j as int),
        k < 7,
{
    if j == 1 {
        0
    } else if j == 2 {
        2
    } else if j == 3 {
        4
    } else if j == 4 {
        5
    } else if j == 5 {
        1
    } else if j == 6 {
        3
    } else {
        6
    }
}

/// The folders of `dirs` outside `root`.
fn dirs_outside(dirs: &Vec<String>, root: &String) -> (r: Vec<String>)
    ensures
        r@ == outside_dirs(dirs@, root@, dirs.len() as int),
{
    let root_chars = chars_of(root.as_str());
    let mut r: Vec<String> = Vec::new();
    let mut i: usize = 0;
    while i < dirs.len()
        invariant
            i <= dirs.len(),
            root_chars@ == root@,
            r@ == outside_dirs(dirs@, root@, i as int),
        decreases dirs.len() - i,
    {
        let d = chars_of(dirs[i].as_str());
        if !is_within(&d, &root_chars) {
            r.push(dirs[i].clone());
        }
        i = i + 1;
    }
    r
}

/// A copy of a suggestion.
fn copy_suggestion(s: &CleanupSuggestion) -> (r: CleanupSuggestion)
    ensures
        r@ == s@,
{
    CleanupSuggestion {
        kind: s.kind,
        title: s.title.clone(),
        reason: s.reason.clone(),
        reclaimable: s.reclaimable,
        safety: s.safety,
        paths: copy_paths(&s.paths),
    }
}

/// Everything under a folder that looks disposable, as suggestions: redundant
/// copies among the duplicate `groups` (keeping one of each), then the files of
/// `below` that the checks find, each proposed once and none of them a path of
/// a duplicate group (so the kept file is never proposed), then the `empty_dirs`.
/// Nothing within `data_dir` is touched, and a duplicate group that reaches
/// into it is left whole. `extracted` lists the folders that exist and hold
/// something. The suggestions come largest first: by bytes freed, then by
/// paths proposed, ties in drafting order.
pub fn cleanup_suggestions(
    below: &Vec<FileEntry>,
    groups: &Vec<DuplicateGroup>,
    data_dir: &String,
    extracted: &Vec<String>,
    empty_dirs: &Vec<String>,
    config: &AdviceConfig,
    now: &Timestamp,
) -> (r: Vec<CleanupSuggestion>)
    requires
        now.valid(),
        forall|i: int| 0 <= i < below.len() ==> (#[trigger] below[i]).modified.valid(),
        forall|g: int, k: int|
            0 <= g < groups.len() && 0 <= k < groups[g].paths.len() ==> (
            #[trigger] groups[g].paths[k])@.len() < 0x1000_0000_0000,
    ensures
        ({
            let ds = drafted(
                below@,
                groups@,
                data_dir@,
                extracted@,
                empty_dirs@,
                *config,
                *now,
                9,
            );
            exists|perm: Seq<usize>|
                {
                    &&& is_permutation(perm, ds.len())
                    &&& stably_sorted(ds.map_values(|d| order_key(d)), perm)
                    &&& r.len() == ds.len()
                    &&& forall|i: int| 0 <= i < r.len() ==> (#[trigger] r[i])@ == ds[perm[i] as int]
                }
        }),
{
    let ghost ds = drafted(below@, groups@, data_dir@, extracted@, empty_dirs@, *config, *now, 9);
    let (red, red_bytes) = redundant_copies(groups, data_dir);
    let hd = held_paths(groups, data_dir);
    let (lists, sizes) = sort_out(below, &hd, extracted, config, now);
    let dirs = dirs_outside(empty_dirs, data_dir);
    let mut drafts: Vec<CleanupSuggestion> = Vec::new();
    let mut j: usize = 0;
    while j < 9
        invariant
            j <= 9,
            red@ == redundant(groups@, data_dir@, groups.len() as int),
            red_bytes == redundant_bytes(groups@, data_dir@, groups.len() as int),
            hd@ == held(groups@, data_dir@, groups.len() as int),
            dirs@ == outside_dirs(empty_dirs@, data_dir@, empty_dirs.len() as int),
            lists.len() == 7,
            sizes.len() == 7,
            forall|k: int|
                0 <= k < 7 ==> (#[trigger] lists[k])@ == picked(
                    below@,
                    hd@,
                    extracted@,
                    *config,
                    *now,
                    bucket_finding(k),
                    below.len() as int,
                ),
            forall|k: int|
                0 <= k < 7 ==> #[trigger] sizes[k] == picked_bytes(
                    below@,
                    hd@,
                    extracted@,
                    *config,
                    *now,
                    bucket_finding(k),
                    below.len() as int,
                ),
            forall|i: int|
                0 <= i < drafts.len() ==> (#[trigger] drafts[i])@ == drafted(
                    below@,
                    groups@,
                    data_dir@,
                    extracted@,
                    empty_dirs@,
                    *config,
                    *now,
                    j as int,
                )[i],
            drafts.len() == drafted(
                below@,
                groups@,
                data_dir@,
                extracted@,
                empty_dirs@,
                *config,
                *now,
                j as int,
            ).len(),
        decreases 9 - j,
    {
        let (paths, bytes): (&Vec<String>, u64) = if j == 0 {
            (&red, red_bytes)
        } else if j == 8 {
            (&dirs, 0)
        } else {
            let k = bucket_at(j);
            (&lists[k], sizes[k])
        };
        assert(paths@ == slot_paths(
            j as int,
            below@,
            groups@,
            data_dir@,
            extracted@,
            empty_dirs@,
            *config,
            *now,
        ));
        assert(bytes == slot_bytes(
            j as int,
            below@,
            groups@,
            data_dir@,
            extracted@,
            *config,
            *now,
        ));
        if paths.len() > 0 {
            let d = make_draft(j, paths, bytes, groups.len(), config);
            drafts.push(d);
        }
        j = j + 1;
    }
    let mut keys: Vec<Vec<u64>> = Vec::new();
    let mut i: usize = 0;
    while i < drafts.len()
        invariant
            i <= drafts.len(),
            keys.len() == i,
            forall|q: int| 0 <= q < i ==> (#[trigger] keys[q])@ == order_key(drafts[q]@),
        decreases drafts.len() - i,
    {
        let mut key: Vec<u64> = Vec::new();
        key.push(u64::MAX - drafts[i].reclaimable);
        key.push(u64::MAX - drafts[i].paths.len() as u64);
        assert(key@ =~= order_key(drafts[i as int]@));
        keys.push(key);
        i = i + 1;
    }
    let perm = sort_order(&keys);
    assert(key_views(keys@) =~= ds.map_values(|d| order_key(d)));
    let mut out: Vec<CleanupSuggestion> = Vec::new();
    let mut q: usize = 0;
    while q < perm.len()
        invariant
            q <= perm.len(),
            is_permutation(perm@, drafts.len() as nat),
            out.len() == q,
            drafts.len() == ds.len(),
            forall|x: int| 0 <= x < drafts.len() ==> (#[trigger] drafts[x])@ == ds[x],
            forall|x: int| 0 <= x < q ==> (#[trigger] out[x])@ == ds[perm[x] as int],
        decreases perm.len() - q,
    {
        let c = copy_suggestion(&drafts[perm[q]]);
        out.push(c);
        q = q + 1;
    }
    assert(out.len() == ds.len());
    out
}

/// Where an element of `picked` comes from: an entry `j` with that verdict,
/// with exactly `a` entries of the same verdict before it.
proof fn lemma_picked_source(
    below: Seq<FileEntry>,
    red: Seq<String>,
    extracted: Seq<String>,
    config: AdviceConfig,
    now: Timestamp,
    f: Finding,
    m: int,
    a: int,
) -> (j: int)
    requires
        0 <= a < picked(below, red, extracted, config, now, f, m).len(),
    ensures
        0 <= j < m,
        j < below.len() || m > below.len(),
        verdict(below, red, extracted, config, now, j) == Some(f),
        picked(below, red, extracted, config, now, f, m)[a] == below[j].path,
        picked(below, red, extracted, config, now, f, j).len() == a,
    decreases m,
{
    let before = picked(below, red, extracted, config, now, f, m - 1);
    if a < before.len() {
        lemma_picked_source(below, red, extracted, config, now, f, m - 1, a)
    } else {
        m - 1
    }
}

/// Paths of `below` are pairwise different.
pub open spec fn distinct_entry_paths(below: Seq<FileEntry>) -> bool {
    forall|i: int, j: int|
        0 <= i < below.len() && 0 <= j < below.len() && i != j ==> (#[trigger] below[i]).path@
            != (#[trigger] below[j]).path@
}

/// No file is proposed twice: where the paths of `below` differ, a path that two
/// of the checks' lists hold is one entry of one list, and no path already
/// taken in `red` is proposed again by a check.
pub proof fn lemma_proposed_once(
    below: Seq<FileEntry>,
    red: Seq<String>,
    extracted: Seq<String>,
    config: AdviceConfig,
    now: Timestamp,
    f1: Finding,
    f2: Finding,
    a: int,
    b: int,
)
    requires
        distinct_entry_paths(below),
        0 <= a < picked(below, red, extracted, config, now, f1, below.len() as int).len(),
        0 <= b < picked(below, red, extracted, config, now, f2, below.len() as int).len(),
    ensures
        !has_text(red, picked(below, red, extracted, config, now, f1, below.len() as int)[a]@),
        picked(below, red, extracted, config, now, f1, below.len() as int)[a]@ == picked(
            below,
            red,
            extracted,
            config,
            now,
            f2,
            below.len() as int,
        )[b]@ ==> f1 == f2 && a == b,
{
    let n = below.len() as int;
    let j1 = lemma_picked_source(below, red, extracted, config, now, f1, n, a);
    let j2 = lemma_picked_source(below, red, extracted, config, now, f2, n, b);
    assert(!taken_before(below, red, extracted, config, now, below[j1].path@, j1));
}

/// Where a redundant copy comes from: a group that does not reach into `root`,
/// at a path other than its keeper.
proof fn lemma_redundant_source(groups: Seq<DuplicateGroup>, root: Seq<char>, m: int, a: int) -> (r: (
    int,
    int,
))
    requires
        0 <= a < redundant(groups, root, m).len(),
    ensures
        0 <= r.0 < m,
        !group_skipped(groups[r.0], root),
        0 <= r.1 < groups[r.0].paths.len(),
        r.1 != keeper_index(groups[r.0].paths@),
        redundant(groups, root, m)[a] == groups[r.0].paths[r.1],
        a == redundant(groups, root, r.0).len() + if r.1 < keeper_index(groups[r.0].paths@) {
            r.1
        } else {
            r.1 - 1
        },
    decreases m,
{
    let before = redundant(groups, root, m - 1);
    if a < before.len() {
        lemma_redundant_source(groups, root, m - 1, a)
    } else {
        let g = groups[m - 1];
        let ps = g.paths@;
        let kk = keeper_index(ps);
        let x = a - before.len();
        assert(!group_skipped(g, root));
        assert(ps.len() > 0);
        assert(0 <= kk < ps.len()) by {
            if ps.len() > 0 {
                lemma_keeper_exists(ps);
            }
        }
        if x < kk {
            assert(ps.remove(kk)[x] == ps[x]);
            (m - 1, x)
        } else {
            assert(ps.remove(kk)[x] == ps[x + 1]);
            (m - 1, x + 1)
        }
    }
}

/// Among the first `n` paths, one beats all the others.
proof fn lemma_best_of_prefix(paths: Seq<String>, n: int) -> (k: int)
    requires
        1 <= n <= paths.len(),
    ensures
        0 <= k < n,
        forall|j: int| 0 <= j < n && j != k ==> #[trigger] keeps_before(paths, k, j),
    decreases n,
{
    if n == 1 {
        0
    } else {
        let k = lemma_best_of_prefix(paths, n - 1);
        crate::recommend::lemma_keeps_before_order(paths, k, n - 1, k);
        if keeps_before(paths, n - 1, k) {
            assert forall|j: int| 0 <= j < n && j != n - 1 implies #[trigger] keeps_before(
                paths,
                n - 1,
                j,
            ) by {
                if j != k {
                    crate::recommend::lemma_keeps_before_order(paths, n - 1, k, j);
                }
            }
            n - 1
        } else {
            k
        }
    }
}

/// A group with paths has a keeper.
pub proof fn lemma_keeper_exists(paths: Seq<String>)
    requires
        paths.len() > 0,
    ensures
        beats_all(paths, keeper_index(paths)),
{
    let k = lemma_best_of_prefix(paths, paths.len() as int);
    assert(beats_all(paths, k));
}

/// Paths across all groups are pairwise different.
pub open spec fn groups_disjoint(groups: Seq<DuplicateGroup>) -> bool {
    forall|g1: int, k1: int, g2: int, k2: int|
        0 <= g1 < groups.len() && 0 <= k1 < groups[g1].paths.len() && 0 <= g2 < groups.len() && 0
            <= k2 < groups[g2].paths.len() && (g1 != g2 || k1 != k2) ==> (
        #[trigger] groups[g1].paths[k1])@ != (#[trigger] groups[g2].paths[k2])@
}

/// One file of every duplicate group survives: where no path is in two places
/// among the groups, the keeper of each group is never a redundant copy.
pub proof fn lemma_keeper_survives(groups: Seq<DuplicateGroup>, root: Seq<char>, g: int)
    requires
        groups_disjoint(groups),
        0 <= g < groups.len(),
        groups[g].paths.len() > 0,
    ensures
        0 <= keeper_index(groups[g].paths@) < groups[g].paths.len(),
        !has_text(
            redundant(groups, root, groups.len() as int),
            groups[g].paths[keeper_index(groups[g].paths@)]@,
        ),
{
    let ps = groups[g].paths@;
    lemma_keeper_exists(ps);
    let kk = keeper_index(ps);
    let red = redundant(groups, root, groups.len() as int);
    if has_text(red, ps[kk]@) {
        let a = choose|a: int| 0 <= a < red.len() && (#[trigger] red[a])@ == ps[kk]@;
        let (g2, k2) = lemma_redundant_source(groups, root, groups.len() as int, a);
        assert(groups[g2].paths[k2]@ == groups[g].paths[kk]@);
        assert(false);
    }
}

/// Where an element of `outside_dirs` comes from.
proof fn lemma_outside_source(dirs: Seq<String>, root: Seq<char>, m: int, a: int) -> (i: int)
    requires
        0 <= a < outside_dirs(dirs, root, m).len(),
    ensures
        0 <= i < m,
        outside_dirs(dirs, root, m)[a] == dirs[i],
        !within(dirs[i]@, root),
        outside_dirs(dirs, root, i).len() == a,
    decreases m,
{
    let before = outside_dirs(dirs, root, m - 1);
    if a < before.len() {
        lemma_outside_source(dirs, root, m - 1, a)
    } else {
        m - 1
    }
}

/// The data folder is never proposed for deletion: where no entry of `below`
/// lies within `root`, no path of any suggestion does.
pub proof fn lemma_data_dir_spared(
    j: int,
    below: Seq<FileEntry>,
    groups: Seq<DuplicateGroup>,
    root: Seq<char>,
    extracted: Seq<String>,
    empty_dirs: Seq<String>,
    config: AdviceConfig,
    now: Timestamp,
    a: int,
)
    requires
        0 <= j < 9,
        forall|i: int| 0 <= i < below.len() ==> !within((#[trigger] below[i]).path@, root),
        0 <= a < slot_paths(j, below, groups, root, extracted, empty_dirs, config, now).len(),
    ensures
        !within(slot_paths(j, below, groups, root, extracted, empty_dirs, config, now)[a]@, root),
{
    let hd = held(groups, root, groups.len() as int);
    if j == 0 {
        let (g, k) = lemma_redundant_source(groups, root, groups.len() as int, a);
        if within(groups[g].paths[k]@, root) {
            assert(group_within(groups[g], root));
        }
    } else if j == 8 {
        lemma_outside_source(empty_dirs, root, empty_dirs.len() as int, a);
    } else {
        lemma_picked_source(
            below,
            hd,
            extracted,
            config,
            now,
            bucket_finding(slot_bucket(j)),
            below.len() as int,
            a,
        );
    }
}

/// The folders whose presence decides whether the archives among the first
/// `m` entries were extracted, in order.
pub open spec fn archive_dirs(below: Seq<FileEntry>, config: AdviceConfig, m: int) -> Seq<Seq<char>>
    decreases m,
{
    if m <= 0 {
        Seq::empty()
    } else {
        let e = below[m - 1];
        archive_dirs(below, config, m - 1) + if has_text(config.archive_extensions@, entry_ext(e))
            && extraction_dir(e) is Some {
            seq![extraction_dir(e).unwrap()]
        } else {
            Seq::empty()
        }
    }
}

/// The folders to look at for archives that may have been extracted: the one
/// beside each archive, named after it. Those that exist and hold something
/// are the `extracted` of `cleanup_suggestions`.
pub fn extraction_candidates(below: &Vec<FileEntry>, config: &AdviceConfig) -> (r: Vec<String>)
    ensures
        r@.map_values(|s: String| s@) == archive_dirs(below@, *config, below.len() as int),
{
    let mut r: Vec<String> = Vec::new();
    let mut i: usize = 0;
    while i < below.len()
        invariant
            i <= below.len(),
            r@.map_values(|s: String| s@) == archive_dirs(below@, *config, i as int),
        decreases below.len() - i,
    {
        let e = &below[i];
        let ext: String = match &e.extension {
            Some(x) => x.clone(),
            None => String::new(),
        };
        assert(ext@ == entry_ext(*e));
        if list_has(&config.archive_extensions, &ext) {
            match extraction_dir_of(e) {
                Some(d) => {
                    let ghost before = r@;
                    r.push(d);
                    assert(r@.map_values(|s: String| s@) =~= before.map_values(|s: String| s@).push(
                        r@[r@.len() - 1]@,
                    ));
                },
                None => {},
            }
        }
        i = i + 1;
    }
    r
}

/// The first `m` entries of `walked` that lie outside `root`, in order.
pub open spec fn outside_entries(walked: Seq<FileEntry>, root: Seq<char>, m: int) -> Seq<FileEntry>
    decreases m,
{
    if m <= 0 {
        Seq::empty()
    } else {
        outside_entries(walked, root, m - 1) + if within(walked[m - 1].path@, root) {
            Seq::empty()
        } else {
            seq![walked[m - 1]]
        }
    }
}

impl crate::Filo {
    /// The entries of a walk that lie outside the tool's own data folder, in order.
    pub fn outside_data(&self, walked: Vec<FileEntry>) -> (r: Vec<FileEntry>)
        ensures
            r@ == outside_entries(walked@, self.data_dir_view(), walked.len() as int),
    {
        let root = chars_of(self.data_dir().as_str());
        let mut r: Vec<FileEntry> = Vec::new();
        let mut k: usize = 0;
        while k < walked.len()
            invariant
                k <= walked.len(),
                root@ == self.data_dir_view(),
                r@ == outside_entries(walked@, root@, k as int),
            decreases walked.len() - k,
        {
            let p = chars_of(walked[k].path.as_str());
            if !is_within(&p, &root) {
                r.push(crate::scan::copy_entry(&walked[k]));
            }
            k = k + 1;
        }
        r
    }
}

/// The bytes the first `m` suggestions free together.
pub open spec fn reclaimable_sum(all: Seq<CleanupSuggestion>, m: int) -> nat
    decreases m,
{
    if m <= 0 {
        0
    } else {
        reclaimable_sum(all, m - 1) + all[m - 1].reclaimable as nat
    }
}

/// The paths the first `m` suggestions propose together.
pub open spec fn flagged_sum(all: Seq<CleanupSuggestion>, m: int) -> nat
    decreases m,
{
    if m <= 0 {
        0
    } else {
        flagged_sum(all, m - 1) + all[m - 1].paths.len() as nat
    }
}

/// A sum over more suggestions is no smaller.
proof fn lemma_sums_grow(all: Seq<CleanupSuggestion>, a: int, b: int)
    requires
        0 <= a <= b,
    ensures
        reclaimable_sum(all, a) <= reclaimable_sum(all, b),
        flagged_sum(all, a) <= flagged_sum(all, b),
    decreases b - a,
{
    if a < b {
        lemma_sums_grow(all, a, b - 1);
    }
}

/// The bytes all suggestions free together.
pub fn total_reclaimable(all: &Vec<CleanupSuggestion>) -> (r: u64)
    requires
        reclaimable_sum(all@, all.len() as int) <= u64::MAX,
    ensures
        r == reclaimable_sum(all@, all.len() as int),
{
    let mut r: u64 = 0;
    let mut i: usize = 0;
    while i < all.len()
        invariant
            i <= all.len(),
            r == reclaimable_sum(all@, i as int),
            reclaimable_sum(all@, all.len() as int) <= u64::MAX,
        decreases all.len() - i,
    {
        proof {
            lemma_sums_grow(all@, i + 1, all.len() as int);
        }
        r = r + all[i].reclaimable;
        i = i + 1;
    }
    r
}

/// How many paths all suggestions propose together.
pub fn files_flagged(all: &Vec<CleanupSuggestion>) -> (r: usize)
    requires
        flagged_sum(all@, all.len() as int) <= usize::MAX,
    ensures
        r == flagged_sum(all@, all.len() as int),
{
    let mut r: usize = 0;
    let mut i: usize = 0;
    while i < all.len()
        invariant
            i <= all.len(),
            r == flagged_sum(all@, i as int),
            flagged_sum(all@, all.len() as int) <= usize::MAX,
        decreases all.len() - i,
    {
        proof {
            lemma_sums_grow(all@, i + 1, all.len() as int);
        }
        r = r + all[i].paths.len();
        i = i + 1;
    }
    r
}

/// The positions of the suggestions marked safe, in order.
pub fn safe_cleanups(all: &Vec<CleanupSuggestion>) -> (r: Vec<usize>)
    ensures
        forall|k: int| 0 <= k < r.len() ==> (#[trigger] r[k]) < all.len() && all[r[k] as int].safety
            == Safety::Safe,
        forall|i: int|
            0 <= i < all.len() && (#[trigger] all[i]).safety == Safety::Safe ==> r@.contains(
                i as usize,
            ),
        forall|a: int, b: int| 0 <= a < b < r.len() ==> r[a] < r[b],
{
    let mut r: Vec<usize> = Vec::new();
    let mut i: usize = 0;
    while i < all.len()
        invariant
            i <= all.len(),
            forall|k: int| 0 <= k < r.len() ==> (#[trigger] r[k]) < i && all[r[k] as int].safety
                == Safety::Safe,
            forall|q: int|
                0 <= q < i && (#[trigger] all[q]).safety == Safety::Safe ==> r@.contains(q as usize),
            forall|a: int, b: int| 0 <= a < b < r.len() ==> r[a] < r[b],
        decreases all.len() - i,
    {
        if all[i].safety == Safety::Safe {
            let ghost before = r@;
            r.push(i);
            assert forall|q: int|
                0 <= q < i + 1 && (#[trigger] all[q]).safety == Safety::Safe implies r@.contains(
                q as usize) by {
                if q < i {
                    let w = choose|w: int| 0 <= w < before.len() && before[w] == q as usize;
                    assert(r@[w] == q as usize);
                } else {
                    assert(r@[r@.len() - 1] == i);
                }
            }
        }
        i = i + 1;
    }
    r
}

/// No path is proposed twice, by two suggestions or twice by one, where no
/// path is in two places: the entries' paths differ, the groups' paths differ,
/// the empty folders differ, and no empty folder is an entry's or a group's path.
pub proof fn lemma_no_path_twice(
    below: Seq<FileEntry>,
    groups: Seq<DuplicateGroup>,
    root: Seq<char>,
    extracted: Seq<String>,
    empty_dirs: Seq<String>,
    config: AdviceConfig,
    now: Timestamp,
    j1: int,
    a: int,
    j2: int,
    b: int,
)
    requires
        distinct_entry_paths(below),
        groups_disjoint(groups),
        forall|x: int, y: int|
            0 <= x < empty_dirs.len() && 0 <= y < empty_dirs.len() && x != y ==> (
            #[trigger] empty_dirs[x])@ != (#[trigger] empty_dirs[y])@,
        forall|x: int, i: int|
            0 <= x < empty_dirs.len() && 0 <= i < below.len() ==> (#[trigger] empty_dirs[x])@ != (
            #[trigger] below[i]).path@,
        forall|x: int, g: int, k: int|
            0 <= x < empty_dirs.len() && 0 <= g < groups.len() && 0 <= k < groups[g].paths.len()
                ==> (#[trigger] empty_dirs[x])@ != (#[trigger] groups[g].paths[k])@,
        0 <= j1 < 9,
        0 <= j2 < 9,
        0 <= a < slot_paths(j1, below, groups, root, extracted, empty_dirs, config, now).len(),
        0 <= b < slot_paths(j2, below, groups, root, extracted, empty_dirs, config, now).len(),
        slot_paths(j1, below, groups, root, extracted, empty_dirs, config, now)[a]@ == slot_paths(
            j2,
            below,
            groups,
            root,
            extracted,
            empty_dirs,
            config,
            now,
        )[b]@,
    ensures
        j1 == j2 && a == b,
{
    let hd = held(groups, root, groups.len() as int);
    let n = below.len() as int;
    if j1 == 0 && j2 == 0 {
        let (g1, k1) = lemma_redundant_source(groups, root, groups.len() as int, a);
        let (g2, k2) = lemma_redundant_source(groups, root, groups.len() as int, b);
        assert(groups[g1].paths[k1]@ == groups[g2].paths[k2]@);
    } else if j1 == 8 && j2 == 8 {
        let x1 = lemma_outside_source(empty_dirs, root, empty_dirs.len() as int, a);
        let x2 = lemma_outside_source(empty_dirs, root, empty_dirs.len() as int, b);
        assert(empty_dirs[x1]@ == empty_dirs[x2]@);
    } else if j1 == 8 || j2 == 8 {
        let (jd, d, jo, o) = if j1 == 8 {
            (j1, a, j2, b)
        } else {
            (j2, b, j1, a)
        };
        let x = lemma_outside_source(empty_dirs, root, empty_dirs.len() as int, d);
        if jo == 0 {
            let (g, k) = lemma_redundant_source(groups, root, groups.len() as int, o);
            assert(empty_dirs[x]@ != groups[g].paths[k]@);
        } else {
            let i = lemma_picked_source(
                below,
                hd,
                extracted,
                config,
                now,
                bucket_finding(slot_bucket(jo)),
                n,
                o,
            );
            assert(empty_dirs[x]@ != below[i].path@);
        }
    } else if j1 == 0 || j2 == 0 {
        let (jr, r, jp, p) = if j1 == 0 {
            (j1, a, j2, b)
        } else {
            (j2, b, j1, a)
        };
        let f = bucket_finding(slot_bucket(jp));
        lemma_proposed_once(below, hd, extracted, config, now, f, f, p, p);
        let (g, k) = lemma_redundant_source(groups, root, groups.len() as int, r);
        lemma_held_has(groups, root, groups.len() as int, g, k);
        assert(has_text(hd, picked(below, hd, extracted, config, now, f, n)[p]@));
    } else {
        let f1 = bucket_finding(slot_bucket(j1));
        let f2 = bucket_finding(slot_bucket(j2));
        lemma_proposed_once(below, hd, extracted, config, now, f1, f2, a, b);
    }
}

/// No suggestion proposes the file a duplicate suggestion keeps, so applying
/// every suggestion never removes all copies of a content: where no path is in
/// two places among the groups and no empty folder is a group's path, the
/// keeper of a group that does not reach into `root` is in no suggestion.
pub proof fn lemma_keeper_never_proposed(
    below: Seq<FileEntry>,
    groups: Seq<DuplicateGroup>,
    root: Seq<char>,
    extracted: Seq<String>,
    empty_dirs: Seq<String>,
    config: AdviceConfig,
    now: Timestamp,
    g: int,
    j: int,
    a: int,
)
    requires
        groups_disjoint(groups),
        forall|x: int, h: int, k: int|
            0 <= x < empty_dirs.len() && 0 <= h < groups.len() && 0 <= k < groups[h].paths.len()
                ==> (#[trigger] empty_dirs[x])@ != (#[trigger] groups[h].paths[k])@,
        0 <= g < groups.len(),
        !group_skipped(groups[g], root),
        0 <= j < 9,
        0 <= a < slot_paths(j, below, groups, root, extracted, empty_dirs, config, now).len(),
    ensures
        0 <= keeper_index(groups[g].paths@) < groups[g].paths.len(),
        slot_paths(j, below, groups, root, extracted, empty_dirs, config, now)[a]@
            != groups[g].paths[keeper_index(groups[g].paths@)]@,
{
    let ps = groups[g].paths@;
    lemma_keeper_exists(ps);
    let kk = keeper_index(ps);
    let hd = held(groups, root, groups.len() as int);
    let p = slot_paths(j, below, groups, root, extracted, empty_dirs, config, now)[a];
    if j == 0 {
        lemma_keeper_survives(groups, root, g);
        let red = redundant(groups, root, groups.len() as int);
        if p@ == ps[kk]@ {
            assert(red[a]@ == ps[kk]@);
            assert(has_text(red, ps[kk]@));
        }
    } else if j == 8 {
        let x = lemma_outside_source(empty_dirs, root, empty_dirs.len() as int, a);
        assert(empty_dirs[x]@ != groups[g].paths[kk]@);
    } else {
        let f = bucket_finding(slot_bucket(j));
        let n = below.len() as int;
        let i = lemma_picked_source(below, hd, extracted, config, now, f, n, a);
        lemma_held_has(groups, root, groups.len() as int, g, kk);
        if p@ == ps[kk]@ {
            assert(verdict(below, hd, extracted, config, now, i) == Some(f));
            assert(taken_before(below, hd, extracted, config, now, below[i].path@, i));
        }
    }
}

/// A file is judged large and stale only when it is both at least
/// `large_file_bytes` big and untouched for at least `stale_days` days, and an
/// installer only when it is at least `stale_days` old.
pub proof fn lemma_stale_means_large_and_old(
    e: FileEntry,
    below: Seq<FileEntry>,
    extracted: Seq<String>,
    config: AdviceConfig,
    now: Timestamp,
)
    ensures
        finding(e, below, extracted, config, now) == Some(Finding::Stale) ==> e.size
            >= config.large_file_bytes && days_between(now, e.modified) >= config.stale_days,
        finding(e, below, extracted, config, now) == Some(Finding::Installer) ==> days_between(
            now,
            e.modified,
        ) >= config.stale_days,
{
}

/// Every path the large-and-stale suggestion proposes is a file of `below`
/// that is at least `large_file_bytes` big and at least `stale_days` old: a
/// file modified more recently is never proposed as large and stale.
pub proof fn lemma_stale_suggestion_is_large_and_old(
    j: int,
    below: Seq<FileEntry>,
    groups: Seq<DuplicateGroup>,
    root: Seq<char>,
    extracted: Seq<String>,
    empty_dirs: Seq<String>,
    config: AdviceConfig,
    now: Timestamp,
    a: int,
)
    requires
        0 <= j < 9,
        slot_kind(j) == CleanupKind::LargeAndStale,
        0 <= a < slot_paths(j, below, groups, root, extracted, empty_dirs, config, now).len(),
    ensures
        exists|i: int|
            0 <= i < below.len() && (#[trigger] below[i]).path == slot_paths(
                j,
                below,
                groups,
                root,
                extracted,
                empty_dirs,
                config,
                now,
            )[a] && below[i].size >= config.large_file_bytes && days_between(now, below[i].modified)
                >= config.stale_days,
{
    let hd = held(groups, root, groups.len() as int);
    let i = lemma_picked_source(below, hd, extracted, config, now, Finding::Stale, below.len() as int, a);
    assert(verdict(below, hd, extracted, config, now, i) == Some(Finding::Stale));
    lemma_stale_means_large_and_old(below[i], below, extracted, config, now);
}

} // verus!
