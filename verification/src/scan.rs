//! What a directory scan decides: how an entry is named, how a listing is
//! ordered, which folders a walk skips, and what marks a project root.
use vstd::prelude::*;
use crate::cleanup::{has_text, list_has};
use crate::model::{FileEntry, Timestamp};
use crate::path::{file_name, file_name_of, name_extension, split_file_name};
use crate::recommend::{owned_texts, texts};
use crate::sort::{is_permutation, key_views, sort_order, stably_sorted};
use crate::text::{chars_of, lowercase, push_text_key, string_of, text_key, to_lowercase};

verus! {

/// Names of folders that hold generated or vendored files.
pub open spec fn noise_dir_names() -> Seq<Seq<char>> {
    seq![
        ".git"@,
        "target"@,
        "node_modules"@,
        ".venv"@,
        "venv"@,
        "__pycache__"@,
        ".next"@,
        "dist"@,
        "build"@,
    ]
}

/// Directory names that hold generated or vendored files. Walking them is slow
/// and nothing inside is worth a tidy-up suggestion.
pub fn noise_dirs() -> (v: Vec<String>)
    ensures
        texts(v@) == noise_dir_names(),
{
    let v = owned_texts(
        &[".git", "target", "node_modules", ".venv", "venv", "__pycache__", ".next", "dist", "build"],
    );
    v
}

/// The name a scan gives the entry at `path`: its last component, or the
/// whole path when it has none.
pub open spec fn entry_name(path: Seq<char>) -> Seq<char> {
    match file_name(path) {
        Some(n) => n,
        None => path,
    }
}

/// The extension a scan records for `path`, lower-cased.
pub open spec fn entry_extension(path: Seq<char>) -> Option<Seq<char>> {
    match file_name(path) {
        Some(n) => match name_extension(n) {
            Some(x) => Some(lowercase(x)),
            None => None,
        },
        None => None,
    }
}

/// The entry a scan makes of what it found at `path`.
pub fn entry_for(path: String, is_dir: bool, size: u64, modified: Timestamp) -> (e: FileEntry)
    ensures
        e.path@ == path@,
        e.name@ == entry_name(path@),
        e.is_dir == is_dir,
        e.size == size,
        e.modified == modified,
        match e.extension {
            Some(x) => entry_extension(path@) == Some(x@),
            None => entry_extension(path@) is None,
        },
{
    let p = chars_of(path.as_str());
    let (name, extension) = match file_name_of(&p) {
        Some(n) => {
            let ext = match split_file_name(&n).1 {
                Some(x) => Some(to_lowercase(string_of(&x).as_str())),
                None => None,
            };
            (string_of(&n), ext)
        },
        None => (path.clone(), None),
    };
    FileEntry { path, name, is_dir, size, modified, extension }
}

/// The order of a listing: folders first, then by name.
pub open spec fn listing_key(e: FileEntry) -> Seq<u64> {
    seq![if e.is_dir { 0u64 } else { 1u64 }] + text_key(e.name@, false)
}

/// A copy of an entry.
pub fn copy_entry(e: &FileEntry) -> (r: FileEntry)
    ensures
        r == *e,
{
    let extension = match &e.extension {
        Some(x) => Some(x.clone()),
        None => None,
    };
    FileEntry {
        path: e.path.clone(),
        name: e.name.clone(),
        is_dir: e.is_dir,
        size: e.size,
        modified: e.modified,
        extension,
    }
}

/// The entries of a folder as a listing shows them: folders first, then by
/// name, entries that tie keeping their order.
pub fn sort_listing(entries: &Vec<FileEntry>) -> (r: Vec<FileEntry>)
    ensures
        exists|perm: Seq<usize>|
            {
                &&& is_permutation(perm, entries.len() as nat)
                &&& stably_sorted(entries@.map_values(|e: FileEntry| listing_key(e)), perm)
                &&& r.len() == entries.len()
                &&& forall|i: int| 0 <= i < r.len() ==> #[trigger] r[i] == entries[perm[i] as int]
            },
{
    let mut keys: Vec<Vec<u64>> = Vec::new();
    let mut i: usize = 0;
    while i < entries.len()
        invariant
            i <= entries.len(),
            keys.len() == i,
            forall|k: int| 0 <= k < i ==> (#[trigger] keys[k])@ == listing_key(entries[k]),
        decreases entries.len() - i,
    {
        let mut key: Vec<u64> = Vec::new();
        key.push(if entries[i].is_dir { 0 } else { 1 });
        let name = chars_of(entries[i].name.as_str());
        push_text_key(&mut key, &name, false);
        assert(key@ =~= listing_key(entries[i as int]));
        keys.push(key);
        i = i + 1;
    }
    let perm = sort_order(&keys);
    assert(key_views(keys@) =~= entries@.map_values(|e: FileEntry| listing_key(e)));
    let mut r: Vec<FileEntry> = Vec::new();
    let mut q: usize = 0;
    while q < perm.len()
        invariant
            q <= perm.len(),
            is_permutation(perm@, entries.len() as nat),
            r.len() == q,
            forall|x: int| 0 <= x < q ==> #[trigger] r[x] == entries[perm[x] as int],
        decreases perm.len() - q,
    {
        r.push(copy_entry(&entries[perm[q]]));
        q = q + 1;
    }
    r
}

/// Whether a walk leaves out the folder called `name`: its lower-case form
/// is one of `skip`.
pub fn skips_dir(name: &String, skip: &Vec<String>) -> (r: bool)
    ensures
        r == has_text(skip@, lowercase(name@)),
{
    let low = to_lowercase(name.as_str());
    list_has(skip, &low)
}

/// Files that mark a folder as the root of a project or repository.
pub open spec fn marker_names() -> Seq<Seq<char>> {
    seq![
        ".git"@,
        "Cargo.toml"@,
        "package.json"@,
        "pyproject.toml"@,
        "go.mod"@,
        "pom.xml"@,
        "build.gradle"@,
        "Gemfile"@,
        "composer.json"@,
        "CMakeLists.txt"@,
    ]
}

/// The first marker (in `marker_names` order) that `names` holds.
pub open spec fn first_marker(names: Seq<String>, k: int) -> Option<Seq<char>>
    decreases 10 - k,
{
    if k < 0 || k >= 10 {
        None
    } else if has_text(names, marker_names()[k]) {
        Some(marker_names()[k])
    } else {
        first_marker(names, k + 1)
    }
}

/// The marker that makes a folder look like a project root, given the
/// `names` of what it holds: organizing such a folder scatters the files its
/// tooling looks for.
pub fn project_marker(names: &Vec<String>) -> (r: Option<&'static str>)
    ensures
        match r {
            Some(m) => first_marker(names@, 0) == Some(m@),
            None => first_marker(names@, 0) is None,
        },
{
    let markers: [&'static str; 10] = [
        ".git",
        "Cargo.toml",
        "package.json",
        "pyproject.toml",
        "go.mod",
        "pom.xml",
        "build.gradle",
        "Gemfile",
        "composer.json",
        "CMakeLists.txt",
    ];
    assert(markers@.map_values(|m: &str| m@) =~= marker_names());
    let mut k: usize = 0;
    while k < 10
        invariant
            k <= 10,
            markers@.map_values(|m: &str| m@) == marker_names(),
            first_marker(names@, 0) == first_marker(names@, k as int),
        decreases 10 - k,
    {
        let m: &'static str = markers[k];
        assert(m@ == marker_names()[k as int]);
        let owned = string_of(&chars_of(m));
        if list_has(names, &owned) {
            return Some(m);
        }
        k = k + 1;
    }
    None
}

} // verus!
