//! Tidy-up advice: which grouping suits a folder, and which files look
//! disposable.
use vstd::prelude::*;
use crate::organize::OrganizeStrategy;
use crate::path::{file_name, file_name_of, name_extension, name_stem, split_file_name};
use crate::scan::noise_dirs;
use crate::text::{
    append_chars, ascii_lowered, chars_of, ends_with_ascii_ci, has_suffix, is_u32,
    last_occurrence, parses_as_u32, rfind, skip_chars, take_chars, trim_end, trimmed_end, vec_of,
};

verus! {

/// The views of a list of texts.
pub open spec fn texts(v: Seq<String>) -> Seq<Seq<char>> {
    v.map_values(|s: String| s@)
}

/// Owned copies of some texts.
pub fn owned_texts(xs: &[&str]) -> (v: Vec<String>)
    ensures
        texts(v@) == xs@.map_values(|s: &str| s@),
{
    let mut v: Vec<String> = Vec::new();
    let mut i: usize = 0;
    while i < xs.len()
        invariant
            i <= xs.len(),
            v.len() == i,
            texts(v@) == xs@.map_values(|s: &str| s@).take(i as int),
        decreases xs.len() - i,
    {
        let t: String = xs[i].to_owned();
        assert(t@ == xs@[i as int]@);
        let ghost before = v@;
        v.push(t);
        assert(v@ == before.push(t));
        assert forall|k: int| 0 <= k < i + 1 implies #[trigger] texts(v@)[k] == xs@.map_values(
            |s: &str| s@,
        ).take(i + 1)[k] by {
            assert(texts(v@)[k] == v@[k]@);
            if k < i {
                assert(v@[k] == before[k]);
                assert(texts(before)[k] == before[k]@);
                assert(texts(before)[k] == xs@.map_values(|s: &str| s@).take(i as int)[k]);
            }
        }
        assert(texts(v@) =~= xs@.map_values(|s: &str| s@).take(i + 1));
        i = i + 1;
    }
    assert(xs@.map_values(|s: &str| s@).take(xs.len() as int) =~= xs@.map_values(|s: &str| s@));
    v
}

/// Everything the analysis treats as a threshold or a name list, so a machine
/// or a project can tune it.
#[derive(Debug)]
pub struct AdviceConfig {
    /// A file at or above this size counts as "large".
    pub large_file_bytes: u64,
    /// Untouched for at least this many days counts as "stale".
    pub stale_days: i64,
    /// Fewer files than this in a folder and reorganizing is not worth it.
    pub min_files_to_organize: usize,
    /// Exact file names that are always disposable.
    pub junk_names: Vec<String>,
    /// Extensions that are always disposable.
    pub junk_extensions: Vec<String>,
    /// Extensions that are usually disposable but worth a look first.
    pub review_extensions: Vec<String>,
    /// Empty files with these names are placeholders, not clutter.
    pub keep_empty_names: Vec<String>,
    /// Installer packages, deletable once they have been run.
    pub installer_extensions: Vec<String>,
    /// Archive formats that may already have been extracted alongside.
    pub archive_extensions: Vec<String>,
    /// Directory names to skip entirely: build output, dependencies, VCS.
    pub skip_dirs: Vec<String>,
}

/// The built-in settings: 100 MiB counts as large, 180 days as stale, four
/// files as worth organizing, and the name lists below.
pub open spec fn is_default(c: AdviceConfig) -> bool {
    &&& c.large_file_bytes == 100 * 1024 * 1024
    &&& c.stale_days == 180
    &&& c.min_files_to_organize == 4
    &&& texts(c.junk_names@) =~= seq!["thumbs.db"@, ".ds_store"@, "desktop.ini"@, ".localized"@]
    &&& texts(c.junk_extensions@) =~= seq!["crdownload"@, "part"@, "partial"@, "tmp"@, "temp"@]
    &&& texts(c.review_extensions@) =~= seq!["bak"@, "old"@, "log"@, "swp"@]
    &&& texts(c.keep_empty_names@) =~= seq![".gitkeep"@, ".keep"@, "__init__.py"@, "py.typed"@, ".nojekyll"@]
    &&& texts(c.installer_extensions@) =~= seq!["exe"@, "msi"@, "dmg"@, "pkg"@, "deb"@, "rpm"@, "appimage"@]
    &&& texts(c.archive_extensions@) =~= seq!["zip"@, "rar"@, "7z"@, "tar"@, "gz"@, "tgz"@, "bz2"@, "xz"@]
    &&& texts(c.skip_dirs@) =~= crate::scan::noise_dir_names()
}

impl Default for AdviceConfig {
    fn default() -> (c: Self)
        ensures
            is_default(c),
    {
        let junk_names = owned_texts(&["thumbs.db", ".ds_store", "desktop.ini", ".localized"]);
        let junk_extensions = owned_texts(&["crdownload", "part", "partial", "tmp", "temp"]);
        let review_extensions = owned_texts(&["bak", "old", "log", "swp"]);
        let keep_empty_names = owned_texts(
            &[".gitkeep", ".keep", "__init__.py", "py.typed", ".nojekyll"],
        );
        let installer_extensions = owned_texts(
            &["exe", "msi", "dmg", "pkg", "deb", "rpm", "appimage"],
        );
        let archive_extensions = owned_texts(&["zip", "rar", "7z", "tar", "gz", "tgz", "bz2", "xz"]);
        AdviceConfig {
            large_file_bytes: 100 * 1024 * 1024,
            stale_days: 180,
            min_files_to_organize: 4,
            junk_names,
            junk_extensions,
            review_extensions,
            keep_empty_names,
            installer_extensions,
            archive_extensions,
            skip_dirs: noise_dirs(),
        }
    }
}

/// The built-in ways to group a folder's files.
#[derive(Debug, Clone, Copy, PartialEq, Eq, Structural)]
pub enum Grouping {
    Extension,
    Date,
    Size,
    ExtensionThenDate,
}

impl Grouping {
    /// How a person reads the grouping.
    pub fn label(&self) -> (s: &'static str)
        ensures
            s@ == match *self {
                Grouping::Extension => "by file type"@,
                Grouping::Date => "by date"@,
                Grouping::Size => "by size"@,
                Grouping::ExtensionThenDate => "by file type, then month"@,
            },
    {
        match self {
            Grouping::Extension => "by file type",
            Grouping::Date => "by date",
            Grouping::Size => "by size",
            Grouping::ExtensionThenDate => "by file type, then month",
        }
    }

    /// The command-line name of the grouping.
    pub fn flag(&self) -> (s: &'static str)
        ensures
            s@ == match *self {
                Grouping::Extension => "ext"@,
                Grouping::Date => "date"@,
                Grouping::Size => "size"@,
                Grouping::ExtensionThenDate => "ext-date"@,
            },
    {
        match self {
            Grouping::Extension => "ext",
            Grouping::Date => "date",
            Grouping::Size => "size",
            Grouping::ExtensionThenDate => "ext-date",
        }
    }

    /// The organize strategy that carries the grouping out.
    pub fn strategy(&self) -> (s: OrganizeStrategy)
        ensures
            s == match *self {
                Grouping::Extension => OrganizeStrategy::Extension,
                Grouping::Date => OrganizeStrategy::Date,
                Grouping::Size => OrganizeStrategy::Size,
                Grouping::ExtensionThenDate => OrganizeStrategy::ExtensionThenDate,
            },
    {
        match self {
            Grouping::Extension => OrganizeStrategy::Extension,
            Grouping::Date => OrganizeStrategy::Date,
            Grouping::Size => OrganizeStrategy::Size,
            Grouping::ExtensionThenDate => OrganizeStrategy::ExtensionThenDate,
        }
    }
}

/// Position of a grouping among all groupings, simplest first.
pub open spec fn grouping_rank(g: Grouping) -> nat {
    match g {
        Grouping::Extension => 0,
        Grouping::Date => 1,
        Grouping::Size => 2,
        Grouping::ExtensionThenDate => 3,
    }
}

/// Position of a grouping among all groupings, simplest first.
pub fn rank_of(g: Grouping) -> (r: usize)
    ensures
        r == grouping_rank(g),
{
    match g {
        Grouping::Extension => 0,
        Grouping::Date => 1,
        Grouping::Size => 2,
        Grouping::ExtensionThenDate => 3,
    }
}

/// All groupings, simplest first.
pub fn all_groupings() -> (v: Vec<Grouping>)
    ensures
        v@ == seq![Grouping::Extension, Grouping::Date, Grouping::Size, Grouping::ExtensionThenDate],
{
    let mut v: Vec<Grouping> = Vec::new();
    v.push(Grouping::Extension);
    v.push(Grouping::Date);
    v.push(Grouping::Size);
    v.push(Grouping::ExtensionThenDate);
    v
}

/// How sure a cleanup suggestion is.
#[derive(Debug, Clone, Copy, PartialEq, Eq, Structural)]
pub enum Safety {
    Safe,
    Review,
}

impl Safety {
    /// How a person reads the safety.
    pub fn label(&self) -> (s: &'static str)
        ensures
            s@ == match *self {
                Safety::Safe => "safe"@,
                Safety::Review => "review"@,
            },
    {
        match self {
            Safety::Safe => "safe",
            Safety::Review => "review",
        }
    }
}

/// What a cleanup suggestion is about.
#[derive(Debug, Clone, Copy, PartialEq, Eq, Structural)]
pub enum CleanupKind {
    Duplicates,
    CopyClutter,
    Junk,
    Installers,
    ExtractedArchives,
    Empty,
    EmptyFolders,
    LargeAndStale,
}

/// Files or folders that look disposable, with how much deleting them frees.
#[derive(Debug)]
pub struct CleanupSuggestion {
    pub kind: CleanupKind,
    pub title: String,
    pub reason: String,
    pub reclaimable: u64,
    pub safety: Safety,
    pub paths: Vec<String>,
}

impl View for CleanupSuggestion {
    type V = (CleanupKind, Seq<char>, Seq<char>, u64, Safety, Seq<String>);

    open spec fn view(&self) -> Self::V {
        (self.kind, self.title@, self.reason@, self.reclaimable, self.safety, self.paths@)
    }
}

/// A byte count for a person to read (see `human_size`).
pub fn describe_bytes(bytes: u64) -> (s: String)
    ensures
        s@ == crate::units::size_text(bytes as nat),
{
    crate::units::human_size(bytes)
}

/// A folder that organizing would create, with a few of the files it would get.
#[derive(Debug)]
pub struct FolderPreview {
    /// The folder that would be created, e.g. "pdf" or "pdf/2026-09".
    pub folder: String,
    pub files: usize,
    /// A few of the files that would move into it, by name.
    pub examples: Vec<String>,
}

/// The stages of an analysis, reported as it goes.
#[derive(Debug, Clone, Copy, PartialEq, Eq, Structural)]
pub enum Phase {
    Scanning,
    Comparing,
    Analyzing,
}

/// What a copy marker leaves behind: `report (1)` and `report - Copy` both
/// reduce to `report`. `t` is a trimmed file stem.
pub open spec fn unmarked_stem(t: Seq<char>) -> Option<Seq<char>> {
    match last_occurrence(t, " ("@) {
        Some(open) => {
            let inside = t.skip(open + 2);
            if inside.len() > 0 && inside.last() == ')' && parses_as_u32(inside.drop_last()) {
                Some(t.take(open))
            } else {
                None
            }
        },
        None => {
            let low = ascii_lowered(t);
            if has_suffix(low, " - copy"@) {
                Some(t.take(t.len() - 7))
            } else if has_suffix(low, " copy"@) {
                Some(t.take(t.len() - 5))
            } else if has_suffix(low, "-copy"@) {
                Some(t.take(t.len() - 5))
            } else {
                None
            }
        },
    }
}

/// The name a copy was made from: `report (1).pdf` and `report - Copy.pdf`
/// both give `report.pdf`; `None` when the name carries no copy marker or
/// nothing would be left of it.
pub open spec fn original_name_of(name: Seq<char>) -> Option<Seq<char>> {
    match file_name(name) {
        None => None,
        Some(f) => match unmarked_stem(trimmed_end(name_stem(f))) {
            None => None,
            Some(b) => {
                let base = trimmed_end(b);
                if base.len() == 0 {
                    None
                } else {
                    match name_extension(f) {
                        Some(e) => Some(base + seq!['.'] + e),
                        None => Some(base),
                    }
                }
            },
        },
    }
}

/// The stem without its copy marker, if it has one.
fn strip_copy_marker(t: &Vec<char>) -> (r: Option<Vec<char>>)
    ensures
        r matches Some(v) ==> unmarked_stem(t@) == Some(v@),
        r is None ==> unmarked_stem(t@) is None,
{
    let open_pat = vec_of(" (");
    proof {
        reveal_strlit(" (");
    }
    assert(open_pat@.len() == 2);
    match rfind(t, &open_pat) {
        Some(open) => {
            assert(crate::text::occurs_at(t@, open_pat@, open as int));
            assert(open + 2 <= t@.len());
            assert(t@.len() == t.len());
            let inside = skip_chars(t, open + 2);
            if inside.len() > 0 && inside[inside.len() - 1] == ')' {
                let digits = take_chars(&inside, inside.len() - 1);
                assert(digits@ =~= inside@.drop_last());
                if is_u32(&digits) {
                    Some(take_chars(t, open))
                } else {
                    None
                }
            } else {
                None
            }
        },
        None => {
            let dash_copy = vec_of(" - copy");
            let space_copy = vec_of(" copy");
            let joined_copy = vec_of("-copy");
            proof {
                reveal_strlit(" - copy");
                reveal_strlit(" copy");
                reveal_strlit("-copy");
            }
            if ends_with_ascii_ci(t, &dash_copy) {
                Some(take_chars(t, t.len() - 7))
            } else if ends_with_ascii_ci(t, &space_copy) {
                Some(take_chars(t, t.len() - 5))
            } else if ends_with_ascii_ci(t, &joined_copy) {
                Some(take_chars(t, t.len() - 5))
            } else {
                None
            }
        },
    }
}

/// The name a copy was made from (see `original_name_of`).
///
/// The copy suffixes are matched ignoring ASCII case: only the ASCII letters
/// `C`, `O`, `P`, `Y` lower-case to the letters of `copy`, so this is the same
/// test as comparing the Unicode lower-case form of the name.
pub fn original_name(name: &str) -> (r: Option<String>)
    ensures
        r matches Some(v) ==> original_name_of(name@) == Some(v@),
        r is None ==> original_name_of(name@) is None,
{
    match original_chars(&chars_of(name)) {
        Some(v) => Some(crate::text::string_of(&v)),
        None => None,
    }
}

/// The name a copy was made from, character by character.
fn original_chars(name: &Vec<char>) -> (r: Option<Vec<char>>)
    ensures
        r matches Some(v) ==> original_name_of(name@) == Some(v@),
        r is None ==> original_name_of(name@) is None,
{
    let f = match file_name_of(name) {
        Some(f) => f,
        None => {
            return None;
        },
    };
    let parts = split_file_name(&f);
    let trimmed = trim_end(&parts.0);
    let b = match strip_copy_marker(&trimmed) {
        Some(b) => b,
        None => {
            return None;
        },
    };
    let base = trim_end(&b);
    if base.len() == 0 {
        return None;
    }
    match parts.1 {
        Some(e) => {
            let mut out = take_chars(&base, base.len());
            out.push('.');
            append_chars(&mut out, &e);
            assert(base@.take(base.len() as int) =~= base@);
            Some(out)
        },
        None => {
            assert(base@.take(base.len() as int) =~= base@);
            Some(take_chars(&base, base.len()))
        },
    }
}

/// Whether a name is marked as a copy of another.
pub open spec fn is_copy_name(name: Seq<char>) -> bool {
    original_name_of(name) is Some
}

/// Whether `name` is marked as a copy of another file.
pub fn looks_like_a_copy(name: &str) -> (r: bool)
    ensures
        r == is_copy_name(name@),
{
    original_name(name).is_some()
}

/// Bytes the UTF-8 encoding of a character takes.
pub open spec fn utf8_width(c: char) -> nat {
    if (c as u32) < 0x80 {
        1
    } else if (c as u32) < 0x800 {
        2
    } else if (c as u32) < 0x10000 {
        3
    } else {
        4
    }
}

/// Length in bytes of the UTF-8 encoding of `s` (`str::len`).
pub open spec fn utf8_len(s: Seq<char>) -> nat
    decreases s.len(),
{
    if s.len() == 0 {
        0
    } else {
        utf8_len(s.drop_last()) + utf8_width(s.last())
    }
}

proof fn lemma_utf8_len_bound(s: Seq<char>)
    ensures
        utf8_len(s) <= 4 * s.len(),
    decreases s.len(),
{
    if s.len() > 0 {
        lemma_utf8_len_bound(s.drop_last());
    }
}

/// Byte length of the UTF-8 encoding of `s`.
fn byte_len(s: &Vec<char>) -> (n: u64)
    requires
        s.len() < 0x1000_0000_0000,
    ensures
        n == utf8_len(s@),
{
    let mut n: u64 = 0;
    let mut i: usize = 0;
    while i < s.len()
        invariant
            i <= s.len(),
            s.len() < 0x1000_0000_0000,
            n == utf8_len(s@.take(i as int)),
            n <= 4 * i,
        decreases s.len() - i,
    {
        let c = s[i];
        let w: u64 = if (c as u32) < 0x80 {
            1
        } else if (c as u32) < 0x800 {
            2
        } else if (c as u32) < 0x10000 {
            3
        } else {
            4
        };
        assert(s@.take(i + 1).drop_last() =~= s@.take(i as int));
        n = n + w;
        i = i + 1;
    }
    assert(s@.take(s.len() as int) =~= s@);
    n
}

/// The file name a keeper is judged by: the last path component, or nothing.
pub open spec fn keeper_name(p: Seq<char>) -> Seq<char> {
    match file_name(p) {
        Some(n) => n,
        None => Seq::empty(),
    }
}

/// Path `i` is a better keeper than path `j`: not marked as a copy before
/// marked, then the shorter name in bytes, then the earlier path in the list.
pub open spec fn keeps_before(paths: Seq<String>, i: int, j: int) -> bool {
    let a = keeper_name(paths[i]@);
    let b = keeper_name(paths[j]@);
    let ca = is_copy_name(a);
    let cb = is_copy_name(b);
    ||| (!ca && cb)
    ||| (ca == cb && utf8_len(a) < utf8_len(b))
    ||| (ca == cb && utf8_len(a) == utf8_len(b) && i < j)
}

/// Copy marker and byte length of a path's name, as a keeper is judged.
fn keeper_rank(p: &String) -> (r: (bool, u64))
    requires
        p@.len() < 0x1000_0000_0000,
    ensures
        r.0 == is_copy_name(keeper_name(p@)),
        r.1 == utf8_len(keeper_name(p@)),
{
    let pc = chars_of(p.as_str());
    let name: Vec<char> = match file_name_of(&pc) {
        Some(n) => n,
        None => Vec::new(),
    };
    proof {
        if file_name(p@) is Some {
            assert(file_name(p@).unwrap().len() <= p@.len()) by {
                crate::path::lemma_last_index_of(p@, '/');
            }
        }
    }
    let copy = original_chars(&name).is_some();
    let bytes = byte_len(&name);
    (copy, bytes)
}

/// `keeps_before` is a strict total order on distinct indices.
pub proof fn lemma_keeps_before_order(paths: Seq<String>, i: int, j: int, l: int)
    ensures
        i != j ==> keeps_before(paths, i, j) || keeps_before(paths, j, i),
        keeps_before(paths, i, j) && keeps_before(paths, j, l) ==> keeps_before(paths, i, l),
        !keeps_before(paths, i, i),
{
}

/// Of a set of identical files, the index of the one to keep: never a file
/// whose name marks it as a copy when another is not, then the shortest name,
/// then the earliest path. `0` for no paths.
pub fn keeper_of(paths: &Vec<String>) -> (k: usize)
    requires
        forall|i: int| 0 <= i < paths.len() ==> (#[trigger] paths[i])@.len() < 0x1000_0000_0000,
    ensures
        paths.len() == 0 ==> k == 0,
        paths.len() > 0 ==> k < paths.len() && forall|j: int|
            0 <= j < paths.len() && j != k ==> keeps_before(paths@, k as int, j),
{
    if paths.len() == 0 {
        return 0;
    }
    let mut best: usize = 0;
    let mut best_rank = keeper_rank(&paths[0]);
    let mut j: usize = 1;
    while j < paths.len()
        invariant
            1 <= j <= paths.len(),
            best < j,
            forall|i: int| 0 <= i < paths.len() ==> (#[trigger] paths[i])@.len() < 0x1000_0000_0000,
            best_rank.0 == is_copy_name(keeper_name(paths@[best as int]@)),
            best_rank.1 == utf8_len(keeper_name(paths@[best as int]@)),
            forall|i: int| 0 <= i < j && i != best ==> keeps_before(paths@, best as int, i),
        decreases paths.len() - j,
    {
        let rank = keeper_rank(&paths[j]);
        let better = (!rank.0 && best_rank.0) || (rank.0 == best_rank.0 && rank.1 < best_rank.1);
        proof {
            lemma_keeps_before_order(paths@, j as int, best as int, j as int);
            if better {
                assert(keeps_before(paths@, j as int, best as int));
                assert forall|i: int| 0 <= i < j + 1 && i != j implies keeps_before(
                    paths@,
                    j as int,
                    i,
                ) by {
                    if i != best {
                        lemma_keeps_before_order(paths@, j as int, best as int, i);
                    }
                }
            } else {
                assert(!keeps_before(paths@, j as int, best as int));
                assert(keeps_before(paths@, best as int, j as int));
            }
        }
        if better {
            best = j;
            best_rank = rank;
        }
        j = j + 1;
    }
    best
}

/// The first of `loaded` that is there, if any.
pub open spec fn first_loaded(loaded: Seq<Option<AdviceConfig>>) -> Option<AdviceConfig>
    decreases loaded.len(),
{
    if loaded.len() == 0 {
        None
    } else if loaded[0] is Some {
        loaded[0]
    } else {
        first_loaded(loaded.drop_first())
    }
}

/// Where settings for the folder `dir` may be kept, in the order they are tried.
pub fn config_files(dir: &String) -> (r: Vec<String>)
    ensures
        r@.map_values(|s: String| s@) == seq![
            crate::path::join(dir@, "filo.toml"@),
            crate::path::join(dir@, ".filo.toml"@),
        ],
{
    let d = chars_of(dir.as_str());
    let mut r: Vec<String> = Vec::new();
    r.push(crate::text::string_of(&crate::path::join_path(&d, &vec_of("filo.toml"))));
    r.push(crate::text::string_of(&crate::path::join_path(&d, &vec_of(".filo.toml"))));
    assert(r@.map_values(|s: String| s@) =~= seq![
        crate::path::join(dir@, "filo.toml"@),
        crate::path::join(dir@, ".filo.toml"@),
    ]);
    r
}

impl AdviceConfig {
    /// The settings for a folder: the first of its settings files (see
    /// `config_files`) that could be read, as `loaded` holds them, else the
    /// built-in ones.
    pub fn discover(loaded: Vec<Option<AdviceConfig>>) -> (c: AdviceConfig)
        ensures
            first_loaded(loaded@) matches Some(f) ==> c == f,
            first_loaded(loaded@) is None ==> is_default(c),
    {
        let mut rest = loaded;
        while rest.len() > 0
            invariant
                first_loaded(rest@) == first_loaded(loaded@),
            decreases rest.len(),
        {
            let ghost before = rest@;
            let first = rest.remove(0);
            assert(rest@ =~= before.drop_first());
            match first {
                Some(c) => {
                    return c;
                },
                None => {},
            }
        }
        AdviceConfig::default()
    }

    /// The names of the folders a walk skips.
    pub fn skip_dirs(&self) -> (r: Vec<&str>)
        ensures
            r@.map_values(|s: &str| s@) == texts(self.skip_dirs@),
    {
        let mut r: Vec<&str> = Vec::new();
        let mut i: usize = 0;
        while i < self.skip_dirs.len()
            invariant
                i <= self.skip_dirs.len(),
                r@.map_values(|s: &str| s@) == texts(self.skip_dirs@).take(i as int),
            decreases self.skip_dirs.len() - i,
        {
            let ghost before = r@;
            r.push(self.skip_dirs[i].as_str());
            assert(r@.map_values(|s: &str| s@) =~= before.map_values(|s: &str| s@).push(
                self.skip_dirs@[i as int]@,
            ));
            assert(texts(self.skip_dirs@).take(i + 1) =~= texts(self.skip_dirs@).take(i as int).push(
                self.skip_dirs@[i as int]@,
            ));
            i = i + 1;
        }
        assert(texts(self.skip_dirs@).take(self.skip_dirs.len() as int) =~= texts(self.skip_dirs@));
        r
    }
}

/// The paths of `paths` that are among `chosen`, in order.
pub open spec fn chosen_of(paths: Seq<String>, chosen: Seq<String>) -> Seq<Seq<char>>
    decreases paths.len(),
{
    if paths.len() == 0 {
        Seq::empty()
    } else {
        chosen_of(paths.drop_last(), chosen) + if exists|i: int|
            0 <= i < chosen.len() && (#[trigger] chosen[i])@ == paths.last()@ {
            seq![paths.last()@]
        } else {
            Seq::empty()
        }
    }
}

/// The paths of a suggestion that are among `chosen`, in the suggestion's order.
pub fn chosen_paths(suggestion: &CleanupSuggestion, chosen: &Vec<String>) -> (r: Vec<String>)
    ensures
        r@.map_values(|s: String| s@) == chosen_of(suggestion.paths@, chosen@),
{
    let paths = &suggestion.paths;
    let mut r: Vec<String> = Vec::new();
    let mut i: usize = 0;
    while i < paths.len()
        invariant
            i <= paths.len(),
            r@.map_values(|s: String| s@) == chosen_of(paths@.take(i as int), chosen@),
        decreases paths.len() - i,
    {
        assert(paths@.take(i + 1).drop_last() =~= paths@.take(i as int));
        let ghost before = r@;
        if crate::cleanup::list_has(chosen, &paths[i]) {
            r.push(paths[i].clone());
            assert(r@.map_values(|s: String| s@) =~= before.map_values(|s: String| s@).push(
                paths@[i as int]@,
            ));
        }
        i = i + 1;
    }
    assert(paths@.take(paths.len() as int) =~= paths@);
    r
}

/// The original is kept, not the copy: of a group holding a file whose name
/// is not marked as a copy, the kept file is not one whose name is.
pub proof fn lemma_original_beats_copy(paths: Seq<String>, i: int, k: int)
    requires
        0 <= i < paths.len(),
        0 <= k < paths.len(),
        !is_copy_name(keeper_name(paths[i]@)),
        forall|j: int| 0 <= j < paths.len() && j != k ==> keeps_before(paths, k, j),
    ensures
        !is_copy_name(keeper_name(paths[k]@)),
{
    if i != k {
        assert(keeps_before(paths, k, i));
    }
}

} // verus!
