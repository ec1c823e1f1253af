//! Duplicate detection. Files are compared by size, then by a hash of their
//! opening bytes, and only the survivors by a hash of their whole content.
//! Reading and hashing files happens outside; these functions decide which
//! hashes are needed and what the hashes mean.
use vstd::prelude::*;
use crate::grouping::{count_to, folders_in, lemma_folders_in};
use crate::Filo;
use crate::cleanup::groups_disjoint;
use crate::model::FileEntry;
use crate::sort::{is_permutation, key_views, lex_le, lex_lt, sort_order, stably_sorted};
use crate::text::{chars_of, push_text_key, text_key};

verus! {

/// Files are first compared on this many opening bytes only.
pub const HEAD_BYTES: u64 = 16384;

/// A set of files with identical content.
#[derive(Debug)]
pub struct DuplicateGroup {
    pub hash: String,
    pub size: u64,
    pub paths: Vec<String>,
}

/// A file that takes part: not a directory, and not empty (all empty files
/// "match", which is useless).
pub open spec fn eligible(e: FileEntry) -> bool {
    !e.is_dir && e.size > 0
}

/// What entry `i` is compared by: its size, the hash of its opening bytes and,
/// when it is larger than `HEAD_BYTES`, the hash of all of it. `None` when it
/// takes no part or a needed hash is missing.
pub open spec fn dup_key(
    entries: Seq<FileEntry>,
    heads: Seq<Option<String>>,
    fulls: Seq<Option<String>>,
    i: int,
) -> Option<(u64, Seq<char>, Option<Seq<char>>)> {
    let e = entries[i];
    if !eligible(e) {
        None
    } else {
        match heads[i] {
            None => None,
            Some(h) => if e.size <= HEAD_BYTES {
                Some((e.size, h@, None))
            } else {
                match fulls[i] {
                    None => None,
                    Some(f) => Some((e.size, h@, Some(f@))),
                }
            },
        }
    }
}

/// Entries `i` and `j` have identical content as far as the hashes tell.
pub open spec fn same_content(
    entries: Seq<FileEntry>,
    heads: Seq<Option<String>>,
    fulls: Seq<Option<String>>,
    i: int,
    j: int,
) -> bool {
    dup_key(entries, heads, fulls, i) is Some && dup_key(entries, heads, fulls, i) == dup_key(
        entries,
        heads,
        fulls,
        j,
    )
}

/// The hash a group reports: of the whole file for files beyond the head
/// size, otherwise of the head, which then is the whole file.
pub open spec fn group_hash(key: (u64, Seq<char>, Option<Seq<char>>)) -> Seq<char> {
    match key.2 {
        Some(f) => f,
        None => key.1,
    }
}

/// Sort key of a path: component by component.
pub open spec fn path_key(p: String) -> Seq<u64> {
    text_key(p@, true)
}

/// `g` lists exactly the files with the same content as entry `i`, each once,
/// in path order, with their common size and hash.
pub open spec fn lists_class(
    entries: Seq<FileEntry>,
    heads: Seq<Option<String>>,
    fulls: Seq<Option<String>>,
    g: DuplicateGroup,
    i: int,
) -> bool {
    &&& 0 <= i < entries.len()
    &&& dup_key(entries, heads, fulls, i) is Some
    &&& g.size == entries[i].size
    &&& g.hash@ == group_hash(dup_key(entries, heads, fulls, i).unwrap())
    &&& exists|idx: Seq<int>| #[trigger]
        class_listing(entries, heads, fulls, g.paths@, i, idx)
}

/// `idx` says which entry each of `paths` is, covering the class of `i`.
pub open spec fn class_listing(
    entries: Seq<FileEntry>,
    heads: Seq<Option<String>>,
    fulls: Seq<Option<String>>,
    paths: Seq<String>,
    i: int,
    idx: Seq<int>,
) -> bool {
    &&& idx.len() == paths.len()
    &&& forall|k: int|
        0 <= k < idx.len() ==> 0 <= #[trigger] idx[k] < entries.len() && same_content(
            entries,
            heads,
            fulls,
            i,
            idx[k],
        ) && paths[k] == entries[idx[k]].path
    &&& forall|j: int|
        0 <= j < entries.len() && same_content(entries, heads, fulls, i, j) ==> exists|k: int|
            0 <= k < idx.len() && #[trigger] idx[k] == j
    &&& forall|k1: int, k2: int| 0 <= k1 < k2 < idx.len() ==> idx[k1] != idx[k2]
    &&& forall|k1: int, k2: int|
        0 <= k1 < k2 < paths.len() ==> lex_le(
            #[trigger] path_key(paths[k1]),
            #[trigger] path_key(paths[k2]),
        )
}

/// No two entries share a path.
pub open spec fn distinct_paths(entries: Seq<FileEntry>) -> bool {
    forall|i: int, j: int| 0 <= i < j < entries.len() ==> entries[i].path@ != entries[j].path@
}

/// Whether entry `i` has everything it is compared by.
fn has_key(
    entries: &Vec<FileEntry>,
    heads: &Vec<Option<String>>,
    fulls: &Vec<Option<String>>,
    i: usize,
) -> (r: bool)
    requires
        i < entries.len(),
        heads.len() == entries.len(),
        fulls.len() == entries.len(),
    ensures
        r == dup_key(entries@, heads@, fulls@, i as int) is Some,
{
    let e = &entries[i];
    if e.is_dir || e.size == 0 {
        return false;
    }
    match &heads[i] {
        None => false,
        Some(_) => e.size <= HEAD_BYTES || fulls[i].is_some(),
    }
}

/// Which entries need the hash of their opening bytes: those that share their
/// size with another file that takes part.
pub fn head_hashes_needed(entries: &Vec<FileEntry>) -> (need: Vec<bool>)
    ensures
        need.len() == entries.len(),
        forall|i: int|
            0 <= i < entries.len() ==> #[trigger] need[i] == (eligible(entries[i]) && exists|j: int|
                0 <= j < entries.len() && j != i && eligible(entries[j]) && entries[j].size
                    == entries[i].size),
{
    let n = entries.len();
    let mut keys: Vec<Vec<u64>> = Vec::new();
    let mut i: usize = 0;
    while i < n
        invariant
            n == entries.len(),
            i <= n,
            keys.len() == i,
            forall|k: int|
                0 <= k < i ==> (#[trigger] keys[k])@ == if eligible(entries[k]) {
                    seq![1u64, entries[k].size]
                } else {
                    seq![0u64, k as u64]
                },
        decreases n - i,
    {
        let mut key: Vec<u64> = Vec::new();
        if !entries[i].is_dir && entries[i].size > 0 {
            key.push(1);
            key.push(entries[i].size);
        } else {
            key.push(0);
            key.push(i as u64);
        }
        assert(key@ =~= if eligible(entries[i as int]) {
            seq![1u64, entries[i as int].size]
        } else {
            seq![0u64, i as u64]
        });
        keys.push(key);
        i = i + 1;
    }
    let twin = crate::sort::twins(&keys);
    proof {
        assert forall|i: int| 0 <= i < n implies #[trigger] twin[i] == (eligible(entries[i]) && exists|
            j: int,
        | 0 <= j < entries.len() && j != i && eligible(entries[j]) && entries[j].size
            == entries[i].size) by {
            if twin[i] {
                let j = choose|j: int| 0 <= j < keys.len() && j != i && keys[j]@ == keys[i]@;
                assert(keys[j]@[0] == keys[i]@[0]);
                assert(keys[j]@[1] == keys[i]@[1]);
            }
            if eligible(entries[i]) && exists|j: int|
                0 <= j < entries.len() && j != i && eligible(entries[j]) && entries[j].size
                    == entries[i].size {
                let j = choose|j: int|
                    0 <= j < entries.len() && j != i && eligible(entries[j]) && entries[j].size
                        == entries[i].size;
                assert(keys[j]@ =~= keys[i]@);
            }
        }
    }
    twin
}

/// The opening bytes of entries `i` and `j` hash the same, and both files
/// take part and have the same size.
pub open spec fn same_head(
    entries: Seq<FileEntry>,
    heads: Seq<Option<String>>,
    i: int,
    j: int,
) -> bool {
    &&& eligible(entries[i])
    &&& eligible(entries[j])
    &&& entries[i].size == entries[j].size
    &&& heads[i] is Some
    &&& heads[j] is Some
    &&& heads[i].unwrap()@ == heads[j].unwrap()@
}

/// Which entries need the hash of their whole content: files beyond the head
/// size whose opening bytes match those of another file of the same size.
pub fn full_hashes_needed(entries: &Vec<FileEntry>, heads: &Vec<Option<String>>) -> (need: Vec<
    bool,
>)
    requires
        heads.len() == entries.len(),
    ensures
        need.len() == entries.len(),
        forall|i: int|
            0 <= i < entries.len() ==> #[trigger] need[i] == (entries[i].size > HEAD_BYTES && exists|
                j: int,
            | 0 <= j < entries.len() && j != i && same_head(entries@, heads@, i, j)),
{
    let n = entries.len();
    let mut keys: Vec<Vec<u64>> = Vec::new();
    let mut i: usize = 0;
    while i < n
        invariant
            n == entries.len(),
            heads.len() == n,
            i <= n,
            keys.len() == i,
            forall|k: int|
                0 <= k < i ==> (#[trigger] keys[k])@ == head_key(entries@, heads@, k),
        decreases n - i,
    {
        let mut key: Vec<u64> = Vec::new();
        let e = &entries[i];
        match &heads[i] {
            Some(h) => {
                if !e.is_dir && e.size > 0 {
                    key.push(1);
                    key.push(e.size);
                    push_text_key(&mut key, &chars_of(h.as_str()), false);
                } else {
                    key.push(0);
                    key.push(i as u64);
                }
            },
            None => {
                key.push(0);
                key.push(i as u64);
            },
        }
        assert(key@ =~= head_key(entries@, heads@, i as int));
        keys.push(key);
        i = i + 1;
    }
    let twin = crate::sort::twins(&keys);
    let mut need: Vec<bool> = Vec::new();
    let mut k: usize = 0;
    while k < n
        invariant
            n == entries.len(),
            heads.len() == n,
            k <= n,
            twin.len() == n,
            keys.len() == n,
            need.len() == k,
            forall|q: int| 0 <= q < n ==> (#[trigger] keys[q])@ == head_key(entries@, heads@, q),
            forall|q: int|
                0 <= q < n ==> #[trigger] twin[q] == exists|j: int|
                    0 <= j < keys.len() && j != q && keys[j]@ == keys[q]@,
            forall|q: int|
                0 <= q < k ==> #[trigger] need[q] == (entries[q].size > HEAD_BYTES && exists|j: int|
                    0 <= j < entries.len() && j != q && same_head(entries@, heads@, q, j)),
        decreases n - k,
    {
        proof {
            let q = k as int;
            if twin[q] {
                let j = choose|j: int| 0 <= j < keys.len() && j != q && keys[j]@ == keys[q]@;
                lemma_head_key_same(entries@, heads@, q, j);
            }
            if exists|j: int| 0 <= j < entries.len() && j != q && same_head(entries@, heads@, q, j) {
                let j = choose|j: int| 0 <= j < entries.len() && j != q && same_head(entries@, heads@, q, j);
                assert(keys[j]@ =~= keys[q]@);
            }
        }
        need.push(entries[k].size > HEAD_BYTES && twin[k]);
        k = k + 1;
    }
    need
}

/// The sort key that brings files with the same opening bytes together: size
/// and head hash for a file that takes part and has one, else a key of its own.
pub open spec fn head_key(entries: Seq<FileEntry>, heads: Seq<Option<String>>, i: int) -> Seq<u64> {
    match heads[i] {
        Some(h) => if eligible(entries[i]) {
            seq![1u64, entries[i].size] + text_key(h@, false)
        } else {
            seq![0u64, i as u64]
        },
        None => seq![0u64, i as u64],
    }
}

/// Equal head keys of different entries mean the same opening bytes.
proof fn lemma_head_key_same(entries: Seq<FileEntry>, heads: Seq<Option<String>>, i: int, j: int)
    requires
        0 <= i < entries.len(),
        0 <= j < entries.len(),
        i != j,
        heads.len() == entries.len(),
        i < u64::MAX,
        j < u64::MAX,
        head_key(entries, heads, i) == head_key(entries, heads, j),
    ensures
        same_head(entries, heads, i, j),
{
    let a = head_key(entries, heads, i);
    let b = head_key(entries, heads, j);
    assert(a[0] == b[0]);
    assert(a[1] == b[1]);
    let ki = heads[i] is Some && eligible(entries[i]);
    let kj = heads[j] is Some && eligible(entries[j]);
    if !ki {
        assert(a =~= seq![0u64, i as u64]);
        if kj {
            assert(b[0] == 1);
        } else {
            assert(b =~= seq![0u64, j as u64]);
        }
        assert(false);
    }
    if !kj {
        assert(b =~= seq![0u64, j as u64]);
        assert(a[0] == 1);
        assert(false);
    }
    if a[0] == 1 {
        let hi = heads[i].unwrap()@;
        let hj = heads[j].unwrap()@;
        assert(a.skip(2) =~= text_key(hi, false));
        assert(b.skip(2) =~= text_key(hj, false));
        crate::text::lemma_text_key_injective(hi, hj, false);
        assert(hi == hj);
        assert(a[1] == entries[i].size);
        assert(b[1] == entries[j].size);
        assert(eligible(entries[i]));
        assert(eligible(entries[j]));
    }
}

/// `mem` lists, in increasing order, exactly the entries with the same content as `l`.
pub open spec fn is_class(
    entries: Seq<FileEntry>,
    heads: Seq<Option<String>>,
    fulls: Seq<Option<String>>,
    l: int,
    mem: Seq<usize>,
) -> bool {
    &&& 0 <= l < entries.len()
    &&& dup_key(entries, heads, fulls, l) is Some
    &&& forall|k: int|
        0 <= k < mem.len() ==> #[trigger] mem[k] < entries.len() && same_content(
            entries,
            heads,
            fulls,
            l,
            mem[k] as int,
        )
    &&& forall|k1: int, k2: int| 0 <= k1 < k2 < mem.len() ==> mem[k1] < mem[k2]
    &&& forall|j: int|
        0 <= j < entries.len() && same_content(entries, heads, fulls, l, j) ==> exists|k: int|
            0 <= k < mem.len() && #[trigger] mem[k] == j
}

/// The group for the class of `l`, whose members `mem` lists.
fn build_group(
    entries: &Vec<FileEntry>,
    heads: &Vec<Option<String>>,
    fulls: &Vec<Option<String>>,
    l: usize,
    mem: &Vec<usize>,
) -> (g: DuplicateGroup)
    requires
        heads.len() == entries.len(),
        fulls.len() == entries.len(),
        is_class(entries@, heads@, fulls@, l as int, mem@),
    ensures
        lists_class(entries@, heads@, fulls@, g, l as int),
        g.paths.len() == mem.len(),
{
    let mut keys: Vec<Vec<u64>> = Vec::new();
    let mut k: usize = 0;
    while k < mem.len()
        invariant
            k <= mem.len(),
            keys.len() == k,
            is_class(entries@, heads@, fulls@, l as int, mem@),
            forall|t: int| 0 <= t < k ==> (#[trigger] keys[t])@ == path_key(entries[mem[t] as int].path),
        decreases mem.len() - k,
    {
        let m = mem[k];
        let pc = chars_of(entries[m].path.as_str());
        let mut key: Vec<u64> = Vec::new();
        push_text_key(&mut key, &pc, true);
        assert(key@ =~= path_key(entries[m as int].path));
        keys.push(key);
        k = k + 1;
    }
    let perm = sort_order(&keys);
    let mut paths: Vec<String> = Vec::new();
    let ghost mut idx: Seq<int> = Seq::empty();
    let mut t: usize = 0;
    while t < perm.len()
        invariant
            t <= perm.len(),
            perm.len() == mem.len(),
            keys.len() == mem.len(),
            is_permutation(perm@, keys.len() as nat),
            stably_sorted(key_views(keys@), perm@),
            is_class(entries@, heads@, fulls@, l as int, mem@),
            forall|q: int| 0 <= q < keys.len() ==> (#[trigger] keys[q])@ == path_key(entries[mem[q] as int].path),
            paths.len() == t,
            idx.len() == t,
            forall|q: int| 0 <= q < t ==> #[trigger] idx[q] == mem[perm[q] as int] as int,
            forall|q: int| 0 <= q < t ==> #[trigger] paths[q] == entries[idx[q]].path,
        decreases perm.len() - t,
    {
        let m = mem[perm[t]];
        paths.push(entries[m].path.clone());
        proof {
            idx = idx.push(m as int);
        }
        t = t + 1;
    }
    let hash = if entries[l].size <= HEAD_BYTES {
        match &heads[l] {
            Some(h) => h.clone(),
            None => String::new(),
        }
    } else {
        match &fulls[l] {
            Some(f) => f.clone(),
            None => String::new(),
        }
    };
    let g = DuplicateGroup { hash, size: entries[l].size, paths };
    proof {
        let kv = key_views(keys@);
        assert forall|q: int| 0 <= q < perm.len() implies #[trigger] kv[perm[q] as int] == path_key(
            g.paths[q],
        ) by {
            assert(kv[perm[q] as int] == keys@[perm[q] as int]@);
        }
        assert forall|j: int|
            0 <= j < entries.len() && same_content(entries@, heads@, fulls@, l as int, j) implies exists|q: int|
            0 <= q < idx.len() && #[trigger] idx[q] == j by {
            let km = choose|km: int| 0 <= km < mem.len() && #[trigger] mem[km] == j;
            // perm is onto 0..n because it is injective on n slots.
            let q = crate::sort::lemma_permutation_onto(perm@, mem.len() as nat, km);
            assert(idx[q] == j);
        }
        assert forall|k1: int, k2: int| 0 <= k1 < k2 < g.paths.len() implies lex_le(
            #[trigger] path_key(g.paths[k1]),
            #[trigger] path_key(g.paths[k2]),
        ) by {
            assert(kv[perm[k1] as int] == path_key(g.paths[k1]));
            assert(kv[perm[k2] as int] == path_key(g.paths[k2]));
        }
        assert forall|k1: int, k2: int| 0 <= k1 < k2 < idx.len() implies idx[k1] != idx[k2] by {
            assert(perm[k1] != perm[k2]);
            if perm[k1] < perm[k2] {
                assert(mem[perm[k1] as int] < mem[perm[k2] as int]);
            } else {
                assert(mem[perm[k2] as int] < mem[perm[k1] as int]);
            }
        }
        assert(class_listing(entries@, heads@, fulls@, g.paths@, l as int, idx));
    }
    g
}

/// A group lists the class of any of its members.
proof fn lemma_lists_class_member(
    entries: Seq<FileEntry>,
    heads: Seq<Option<String>>,
    fulls: Seq<Option<String>>,
    g: DuplicateGroup,
    l: int,
    i: int,
)
    requires
        lists_class(entries, heads, fulls, g, l),
        0 <= i < entries.len(),
        same_content(entries, heads, fulls, l, i),
    ensures
        lists_class(entries, heads, fulls, g, i),
{
    let idx = choose|idx: Seq<int>| #[trigger] class_listing(entries, heads, fulls, g.paths@, l, idx);
    assert forall|k: int| 0 <= k < idx.len() implies 0 <= #[trigger] idx[k] < entries.len()
        && same_content(entries, heads, fulls, i, idx[k]) && g.paths@[k] == entries[idx[k]].path by {
        assert(same_content(entries, heads, fulls, l, idx[k]));
    }
    assert forall|j: int|
        0 <= j < entries.len() && same_content(entries, heads, fulls, i, j) implies exists|k: int|
        0 <= k < idx.len() && #[trigger] idx[k] == j by {
        assert(same_content(entries, heads, fulls, l, j));
    }
    assert(class_listing(entries, heads, fulls, g.paths@, i, idx));
}

/// The sort key that brings identical files together, largest first: for a
/// file with something to compare by, `u64::MAX` less its size, its head hash,
/// a 0, and its full hash if it has one; for any other file a key of its own.
pub open spec fn class_key(
    entries: Seq<FileEntry>,
    heads: Seq<Option<String>>,
    fulls: Seq<Option<String>>,
    i: int,
) -> Seq<u64> {
    match dup_key(entries, heads, fulls, i) {
        Some(k) => seq![(u64::MAX - k.0) as u64] + text_key(k.1, false) + seq![0u64] + match k.2 {
            Some(f) => text_key(f, false),
            None => Seq::empty(),
        },
        None => seq![u64::MAX, i as u64],
    }
}

/// A text key holds no 0.
proof fn lemma_text_key_positive(t: Seq<char>)
    ensures
        forall|i: int| 0 <= i < text_key(t, false).len() ==> text_key(t, false)[i] > 0,
{
}

/// Two files have equal class keys exactly when they are identical (or are one file).
proof fn lemma_class_key(
    entries: Seq<FileEntry>,
    heads: Seq<Option<String>>,
    fulls: Seq<Option<String>>,
    i: int,
    j: int,
)
    requires
        0 <= i < entries.len(),
        0 <= j < entries.len(),
        i < u64::MAX,
        j < u64::MAX,
        heads.len() == entries.len(),
        fulls.len() == entries.len(),
    ensures
        (class_key(entries, heads, fulls, i) == class_key(entries, heads, fulls, j)) <==> (i == j
            || same_content(entries, heads, fulls, i, j)),
{
    let a = class_key(entries, heads, fulls, i);
    let b = class_key(entries, heads, fulls, j);
    let ki = dup_key(entries, heads, fulls, i);
    let kj = dup_key(entries, heads, fulls, j);
    if a == b && i != j {
        assert(a[0] == b[0]);
        if ki is Some && kj is Some {
            let x = ki.unwrap();
            let y = kj.unwrap();
            let ta = text_key(x.1, false);
            let tb = text_key(y.1, false);
            lemma_text_key_positive(x.1);
            lemma_text_key_positive(y.1);
            let ra = a.skip(1);
            let rb = b.skip(1);
            assert(ra == rb);
            if ta.len() < tb.len() {
                assert(ra[ta.len() as int] == 0);
                assert(rb[ta.len() as int] == tb[ta.len() as int]);
            } else if tb.len() < ta.len() {
                assert(rb[tb.len() as int] == 0);
                assert(ra[tb.len() as int] == ta[tb.len() as int]);
            }
            assert(ta =~= ra.take(ta.len() as int));
            assert(tb =~= rb.take(tb.len() as int));
            crate::text::lemma_text_key_injective(x.1, y.1, false);
            match (x.2, y.2) {
                (Some(fa), Some(fb)) => {
                    assert(text_key(fa, false) =~= ra.skip(ta.len() + 1 as int));
                    assert(text_key(fb, false) =~= rb.skip(tb.len() + 1 as int));
                    crate::text::lemma_text_key_injective(fa, fb, false);
                },
                _ => {},
            }
        } else if ki is Some {
            assert(a[0] < u64::MAX);
        } else if kj is Some {
            assert(b[0] < u64::MAX);
        } else {
            assert(a[1] == b[1]);
        }
    }
}

/// The class keys of all entries.
fn class_keys(entries: &Vec<FileEntry>, heads: &Vec<Option<String>>, fulls: &Vec<Option<String>>) -> (keys: Vec<Vec<u64>>)
    requires
        heads.len() == entries.len(),
        fulls.len() == entries.len(),
    ensures
        keys.len() == entries.len(),
        forall|i: int| 0 <= i < entries.len() ==> (#[trigger] keys[i])@ == class_key(entries@, heads@, fulls@, i),
{
    let n = entries.len();
    let mut keys: Vec<Vec<u64>> = Vec::new();
    let mut i: usize = 0;
    while i < n
        invariant
            n == entries.len(),
            heads.len() == n,
            fulls.len() == n,
            i <= n,
            keys.len() == i,
            forall|k: int| 0 <= k < i ==> (#[trigger] keys[k])@ == class_key(entries@, heads@, fulls@, k),
        decreases n - i,
    {
        let mut key: Vec<u64> = Vec::new();
        if has_key(entries, heads, fulls, i) {
            let e = &entries[i];
            key.push(u64::MAX - e.size);
            match &heads[i] {
                Some(h) => push_text_key(&mut key, &chars_of(h.as_str()), false),
                None => {},
            }
            key.push(0);
            if e.size > HEAD_BYTES {
                match &fulls[i] {
                    Some(f) => push_text_key(&mut key, &chars_of(f.as_str()), false),
                    None => {},
                }
            }
        } else {
            key.push(u64::MAX);
            key.push(i as u64);
        }
        assert(key@ =~= class_key(entries@, heads@, fulls@, i as int));
        keys.push(key);
        i = i + 1;
    }
    keys
}

/// Where the run of equal keys that starts at `start` ends.
fn run_end(keys: &Vec<Vec<u64>>, perm: &Vec<usize>, start: usize) -> (end: usize)
    requires
        is_permutation(perm@, keys.len() as nat),
        start < perm.len(),
    ensures
        start < end <= perm.len(),
        forall|q: int| start <= q < end ==> #[trigger] keys[perm[q] as int]@ == keys[perm[start as int] as int]@,
        end < perm.len() ==> keys[perm[end as int] as int]@ != keys[perm[start as int] as int]@,
{
    let mut end = start + 1;
    while end < perm.len() && crate::sort::same_key_text(&keys[perm[end]], &keys[perm[start]])
        invariant
            is_permutation(perm@, keys.len() as nat),
            start < end <= perm.len(),
            forall|q: int| start <= q < end ==> #[trigger] keys[perm[q] as int]@ == keys[perm[start as int] as int]@,
        decreases perm.len() - end,
    {
        end = end + 1;
    }
    end
}

/// A run of equal class keys of entries with a key is a class, its members in increasing order.
proof fn lemma_run_is_class(
    es: Seq<FileEntry>,
    hs: Seq<Option<String>>,
    fs: Seq<Option<String>>,
    kv: Seq<Seq<u64>>,
    perm: Seq<usize>,
    start: int,
    end: int,
    mem: Seq<usize>,
)
    requires
        hs.len() == es.len(),
        fs.len() == es.len(),
        es.len() <= usize::MAX,
        kv.len() == es.len(),
        forall|i: int| 0 <= i < es.len() ==> #[trigger] kv[i] == class_key(es, hs, fs, i),
        is_permutation(perm, es.len()),
        stably_sorted(kv, perm),
        0 <= start < end <= perm.len(),
        start > 0 ==> kv[perm[start - 1] as int] != kv[perm[start] as int],
        forall|q: int| start <= q < end ==> #[trigger] kv[perm[q] as int] == kv[perm[start] as int],
        end < perm.len() ==> kv[perm[end] as int] != kv[perm[start] as int],
        dup_key(es, hs, fs, perm[start] as int) is Some,
        mem.len() == end - start,
        forall|k: int| 0 <= k < mem.len() ==> #[trigger] mem[k] == perm[start + k],
    ensures
        is_class(es, hs, fs, perm[start] as int, mem),
{
    let l = perm[start] as int;
    assert forall|k: int| 0 <= k < mem.len() implies #[trigger] mem[k] < es.len() && same_content(
        es,
        hs,
        fs,
        l,
        mem[k] as int,
    ) by {
        assert(kv[perm[start + k] as int] == kv[l]);
        lemma_class_key(es, hs, fs, l, mem[k] as int);
    }
    assert forall|k1: int, k2: int| 0 <= k1 < k2 < mem.len() implies mem[k1] < mem[k2] by {
        let x = kv[perm[start + k1] as int];
        assert(kv[perm[start + k2] as int] == x);
        crate::sort::lemma_lex_irreflexive(x);
    }
    assert forall|j: int| 0 <= j < es.len() && same_content(es, hs, fs, l, j) implies exists|k: int|
        0 <= k < mem.len() && #[trigger] mem[k] == j by {
        lemma_class_key(es, hs, fs, l, j);
        let q = crate::sort::lemma_permutation_onto(perm, es.len(), j);
        if q < start {
            crate::sort::lemma_sorted_between(kv, perm, q, start - 1, start);
        } else if q >= end {
            crate::sort::lemma_sorted_between(kv, perm, start, end, q);
        } else {
            assert(mem[q - start] == j);
        }
    }
}

/// A file with a twin lies in a run of at least two, which lists its class.
proof fn lemma_run_member(
    es: Seq<FileEntry>,
    hs: Seq<Option<String>>,
    fs: Seq<Option<String>>,
    kv: Seq<Seq<u64>>,
    perm: Seq<usize>,
    start: int,
    end: int,
    q: int,
    j: int,
)
    requires
        hs.len() == es.len(),
        fs.len() == es.len(),
        es.len() <= usize::MAX,
        kv.len() == es.len(),
        forall|i: int| 0 <= i < es.len() ==> #[trigger] kv[i] == class_key(es, hs, fs, i),
        is_permutation(perm, es.len()),
        stably_sorted(kv, perm),
        0 <= start <= q < end <= perm.len(),
        start > 0 ==> kv[perm[start - 1] as int] != kv[perm[start] as int],
        forall|r: int| start <= r < end ==> #[trigger] kv[perm[r] as int] == kv[perm[start] as int],
        end < perm.len() ==> kv[perm[end] as int] != kv[perm[start] as int],
        0 <= j < es.len(),
        j != perm[q],
        same_content(es, hs, fs, perm[q] as int, j),
    ensures
        end - start >= 2,
        dup_key(es, hs, fs, perm[start] as int) is Some,
        same_content(es, hs, fs, perm[start] as int, perm[q] as int),
{
    let i = perm[q] as int;
    lemma_class_key(es, hs, fs, i, j);
    let qj = crate::sort::lemma_permutation_onto(perm, es.len(), j);
    assert(kv[perm[qj] as int] == kv[i]);
    assert(kv[i] == kv[perm[start] as int]);
    if qj < start {
        crate::sort::lemma_sorted_between(kv, perm, qj, start - 1, start);
    } else if qj >= end {
        crate::sort::lemma_sorted_between(kv, perm, start, end, qj);
    }
    assert(qj != q);
    lemma_class_key(es, hs, fs, perm[start] as int, i);
}

/// Groups of files with identical content among `entries`, largest files
/// first. `heads[i]` and `fulls[i]` are the hashes of the opening bytes and
/// of the whole content of entry `i`, where they were taken (see
/// `head_hashes_needed` and `full_hashes_needed`).
///
/// Each group lists one class of identical files, each file once, in path
/// order; every file that has an identical twin is in a group; and, when no
/// two entries share a path, no class is listed twice.
pub fn find_duplicates_in(
    entries: &Vec<FileEntry>,
    heads: &Vec<Option<String>>,
    fulls: &Vec<Option<String>>,
) -> (groups: Vec<DuplicateGroup>)
    requires
        heads.len() == entries.len(),
        fulls.len() == entries.len(),
    ensures
        forall|k: int|
            0 <= k < groups.len() ==> (#[trigger] groups[k]).paths.len() >= 2 && exists|i: int|
                lists_class(entries@, heads@, fulls@, groups[k], i),
        forall|i: int, j: int|
            0 <= i < entries.len() && 0 <= j < entries.len() && i != j && same_content(
                entries@,
                heads@,
                fulls@,
                i,
                j,
            ) ==> exists|k: int|
                0 <= k < groups.len() && lists_class(entries@, heads@, fulls@, #[trigger] groups[k], i),
        distinct_paths(entries@) ==> forall|k1: int, k2: int, i1: int, i2: int|
            #![trigger lists_class(entries@, heads@, fulls@, groups[k1], i1), lists_class(entries@, heads@, fulls@, groups[k2], i2)]
            0 <= k1 < groups.len() && 0 <= k2 < groups.len() && k1 != k2 && lists_class(
                entries@,
                heads@,
                fulls@,
                groups[k1],
                i1,
            ) && lists_class(entries@, heads@, fulls@, groups[k2], i2) ==> !same_content(
                entries@,
                heads@,
                fulls@,
                i1,
                i2,
            ),
        forall|k1: int, k2: int|
            0 <= k1 < k2 < groups.len() ==> (#[trigger] groups[k1]).size >= (#[trigger] groups[k2]).size,
{
    let n = entries.len();
    let ghost es = entries@;
    let ghost hs = heads@;
    let ghost fs = fulls@;
    let keys = class_keys(entries, heads, fulls);
    let ghost kv = key_views(keys@);
    proof {
        assert forall|i: int| 0 <= i < n implies #[trigger] kv[i] == class_key(es, hs, fs, i) by {
            assert(kv[i] == keys@[i]@);
        }
    }
    let perm = sort_order(&keys);
    let mut groups: Vec<DuplicateGroup> = Vec::new();
    let ghost mut lpos: Seq<int> = Seq::empty();
    let mut p: usize = 0;
    while p < n
        invariant
            n == entries.len(),
            heads.len() == n,
            fulls.len() == n,
            es == entries@,
            hs == heads@,
            fs == fulls@,
            keys.len() == n,
            kv == key_views(keys@),
            kv.len() == n,
            forall|i: int| 0 <= i < n ==> #[trigger] kv[i] == class_key(es, hs, fs, i),
            is_permutation(perm@, n as nat),
            stably_sorted(kv, perm@),
            p <= n,
            p > 0 && p < n ==> kv[perm[p - 1] as int] != kv[perm[p as int] as int],
            lpos.len() == groups.len(),
            forall|k: int| 0 <= k < lpos.len() ==> 0 <= #[trigger] lpos[k] < p,
            forall|k1: int, k2: int| 0 <= k1 < k2 < lpos.len() ==> lpos[k1] < lpos[k2],
            forall|k: int|
                0 <= k < groups.len() ==> (#[trigger] groups[k]).paths.len() >= 2 && lists_class(
                    es,
                    hs,
                    fs,
                    groups[k],
                    perm[lpos[k]] as int,
                ),
            forall|k1: int, k2: int|
                0 <= k1 < k2 < lpos.len() ==> kv[perm[lpos[k1]] as int] != kv[perm[lpos[k2]] as int],
            forall|q: int, j: int|
                0 <= q < p && 0 <= j < n && j != perm[q] && #[trigger] same_content(
                    es,
                    hs,
                    fs,
                    perm[q] as int,
                    j,
                ) ==> exists|k: int|
                    0 <= k < groups.len() && lists_class(es, hs, fs, #[trigger] groups[k], perm[q] as int),
        decreases n - p,
    {
        let start = p;
        let end = run_end(&keys, &perm, start);
        proof {
            assert forall|q: int| start <= q < end implies #[trigger] kv[perm[q] as int] == kv[perm[start as int] as int] by {
                assert(kv[perm[q] as int] == keys@[perm[q] as int]@);
                assert(kv[perm[start as int] as int] == keys@[perm[start as int] as int]@);
            }
            if end < n {
                assert(kv[perm[end as int] as int] == keys@[perm[end as int] as int]@);
                assert(kv[perm[start as int] as int] == keys@[perm[start as int] as int]@);
            }
        }
        let l = perm[start];
        let ghost pre_groups = groups@;
        let keyed = has_key(entries, heads, fulls, l);
        if keyed && end - start >= 2 {
            let mut mem: Vec<usize> = Vec::new();
            let mut t: usize = start;
            while t < end
                invariant
                    start <= t <= end,
                    end <= n,
                    n == perm.len(),
                    mem.len() == t - start,
                    forall|k: int| 0 <= k < mem.len() ==> #[trigger] mem[k] == perm[start + k],
                decreases end - t,
            {
                mem.push(perm[t]);
                t = t + 1;
            }
            proof {
                lemma_run_is_class(es, hs, fs, kv, perm@, start as int, end as int, mem@);
            }
            let g = build_group(entries, heads, fulls, l, &mem);
            let ghost old_groups = groups@;
            groups.push(g);
            proof {
                let old_lpos = lpos;
                lpos = lpos.push(start as int);
                assert forall|k1: int, k2: int|
                    0 <= k1 < k2 < lpos.len() implies kv[perm[lpos[k1]] as int] != kv[perm[lpos[k2]] as int] by {
                    if k2 == lpos.len() - 1 {
                        let q = lpos[k1];
                        if kv[perm[q] as int] == kv[perm[start as int] as int] {
                            crate::sort::lemma_sorted_between(kv, perm@, q, start - 1, start as int);
                        }
                    }
                }
                assert forall|k: int|
                    0 <= k < groups.len() implies (#[trigger] groups[k]).paths.len() >= 2 && lists_class(
                        es,
                        hs,
                        fs,
                        groups[k],
                        perm[lpos[k]] as int,
                    ) by {
                    if k < old_groups.len() {
                        assert(groups[k] == old_groups[k]);
                    }
                }
            }
        }
        proof {
            assert forall|q: int, j: int|
                0 <= q < end && 0 <= j < n && j != perm[q] && #[trigger] same_content(
                    es,
                    hs,
                    fs,
                    perm[q] as int,
                    j,
                ) implies exists|k: int|
                    0 <= k < groups.len() && lists_class(es, hs, fs, #[trigger] groups[k], perm[q] as int) by {
                if q >= start {
                    lemma_run_member(es, hs, fs, kv, perm@, start as int, end as int, q, j);
                    let k = (groups.len() - 1) as int;
                    assert(lists_class(es, hs, fs, groups[k], perm[start as int] as int));
                    lemma_lists_class_member(es, hs, fs, groups[k], perm[start as int] as int, perm[q] as int);
                } else {
                    let k = choose|k: int|
                        0 <= k < pre_groups.len() && lists_class(es, hs, fs, #[trigger] pre_groups[k], perm[q] as int);
                    assert(groups[k] == pre_groups[k]);
                }
            }
        }
        p = end;
    }
    proof {
        assert forall|i: int, j: int|
            0 <= i < entries.len() && 0 <= j < entries.len() && i != j && same_content(
                entries@,
                heads@,
                fulls@,
                i,
                j,
            ) implies exists|k: int|
                0 <= k < groups.len() && lists_class(entries@, heads@, fulls@, #[trigger] groups[k], i) by {
            let q = crate::sort::lemma_permutation_onto(perm@, n as nat, i);
            assert(same_content(es, hs, fs, perm[q] as int, j));
        }
        assert forall|k: int|
            0 <= k < groups.len() implies (#[trigger] groups[k]).paths.len() >= 2 && exists|i: int|
                lists_class(entries@, heads@, fulls@, groups[k], i) by {
            assert(lists_class(es, hs, fs, groups[k], perm[lpos[k]] as int));
        }
        if distinct_paths(entries@) {
            assert forall|k1: int, k2: int, i1: int, i2: int|
                #![trigger lists_class(entries@, heads@, fulls@, groups[k1], i1), lists_class(entries@, heads@, fulls@, groups[k2], i2)]
                0 <= k1 < groups.len() && 0 <= k2 < groups.len() && k1 != k2 && lists_class(
                    entries@,
                    heads@,
                    fulls@,
                    groups[k1],
                    i1,
                ) && lists_class(entries@, heads@, fulls@, groups[k2], i2) implies !same_content(
                    entries@,
                    heads@,
                    fulls@,
                    i1,
                    i2,
                ) by {
                let l1 = perm[lpos[k1]] as int;
                let l2 = perm[lpos[k2]] as int;
                lemma_same_listing(es, hs, fs, groups[k1], l1, i1);
                lemma_same_listing(es, hs, fs, groups[k2], l2, i2);
                if same_content(es, hs, fs, i1, i2) {
                    assert(same_content(es, hs, fs, l1, l2));
                    assert(kv[l1] == kv[l2]);
                    if k1 < k2 {
                        assert(kv[perm[lpos[k1]] as int] != kv[perm[lpos[k2]] as int]);
                    } else {
                        assert(kv[perm[lpos[k2]] as int] != kv[perm[lpos[k1]] as int]);
                    }
                }
            }
        }
        assert forall|k1: int, k2: int|
            0 <= k1 < k2 < groups.len() implies (#[trigger] groups[k1]).size >= (#[trigger] groups[k2]).size by {
            let q1 = lpos[k1];
            let q2 = lpos[k2];
            let a = kv[perm[q1] as int];
            let b = kv[perm[q2] as int];
            assert(lists_class(es, hs, fs, groups[k1], perm[q1] as int));
            assert(lists_class(es, hs, fs, groups[k2], perm[q2] as int));
            assert(lex_lt(a, b) || a == b);
            crate::sort::lemma_lex_first(a, b);
        }
    }
    groups
}

/// When paths are distinct, a group's listing pins down its class.
proof fn lemma_same_listing(
    entries: Seq<FileEntry>,
    heads: Seq<Option<String>>,
    fulls: Seq<Option<String>>,
    g: DuplicateGroup,
    l: int,
    i: int,
)
    requires
        distinct_paths(entries),
        lists_class(entries, heads, fulls, g, l),
        lists_class(entries, heads, fulls, g, i),
        g.paths.len() > 0,
    ensures
        same_content(entries, heads, fulls, l, i),
{
    let a = choose|idx: Seq<int>| #[trigger] class_listing(entries, heads, fulls, g.paths@, l, idx);
    let b = choose|idx: Seq<int>| #[trigger] class_listing(entries, heads, fulls, g.paths@, i, idx);
    assert(g.paths@[0] == entries[a[0]].path);
    assert(g.paths@[0] == entries[b[0]].path);
    if a[0] != b[0] {
        if a[0] < b[0] {
            assert(entries[a[0]].path@ != entries[b[0]].path@);
        } else {
            assert(entries[b[0]].path@ != entries[a[0]].path@);
        }
    }
}

/// The hashes as texts.
pub open spec fn hash_views(hashes: Seq<Option<String>>) -> Seq<Option<Seq<char>>> {
    Seq::new(
        hashes.len(),
        |i: int|
            match hashes[i] {
                Some(h) => Some(h@),
                None => None,
            },
    )
}

/// The paths among the first `m` whose hash is `h`, in order.
pub open spec fn paths_with(paths: Seq<String>, hv: Seq<Option<Seq<char>>>, h: Seq<char>, m: int) -> Seq<
    Seq<char>,
>
    decreases m,
{
    if m <= 0 {
        Seq::empty()
    } else {
        paths_with(paths, hv, h, m - 1) + if hv[m - 1] == Some(h) {
            seq![paths[m - 1]@]
        } else {
            Seq::empty()
        }
    }
}

/// The paths grouped by their hash (`hashes[i]` is that of `paths[i]`; a path
/// without one is left out): one group per hash, in order of first
/// appearance, each with its paths in order.
pub fn group_by_hash(paths: &Vec<String>, hashes: &Vec<Option<String>>) -> (r: Vec<
    (String, Vec<String>),
>)
    requires
        hashes.len() == paths.len(),
    ensures
        ({
            let hv = hash_views(hashes@);
            let hs = folders_in(hv, paths.len() as int);
            &&& r.len() == hs.len()
            &&& forall|k: int|
                0 <= k < r.len() ==> (#[trigger] r[k]).0@ == hs[k] && r[k].1@.map_values(
                    |s: String| s@,
                ) == paths_with(paths@, hv, hs[k], paths.len() as int)
        }),
{
    let ghost hv = hash_views(hashes@);
    let mut all: Vec<(String, Vec<String>)> = Vec::new();
    let mut i: usize = 0;
    while i < paths.len()
        invariant
            i <= paths.len(),
            hashes.len() == paths.len(),
            hv == hash_views(hashes@),
            all.len() == folders_in(hv, i as int).len(),
            forall|k: int|
                0 <= k < all.len() ==> (#[trigger] all[k]).0@ == folders_in(hv, i as int)[k]
                    && all[k].1@.map_values(|s: String| s@) == paths_with(
                    paths@,
                    hv,
                    folders_in(hv, i as int)[k],
                    i as int,
                ),
        decreases paths.len() - i,
    {
        proof {
            lemma_folders_in(hv, i as int);
        }
        let ghost before = all@;
        let ghost fl = folders_in(hv, i as int);
        match &hashes[i] {
            Some(h) => {
                assert(hv[i as int] == Some(h@));
                let mut found: usize = all.len();
                let mut k: usize = 0;
                while k < all.len()
                    invariant
                        k <= all.len(),
                        found == all.len() || (found < all.len() && all[found as int].0@ == h@),
                        found == all.len() ==> forall|q: int| 0 <= q < k ==> (#[trigger] all[q]).0@ != h@,
                    decreases all.len() - k,
                {
                    if found == all.len() && String::eq(&all[k].0, h) {
                        found = k;
                    }
                    k = k + 1;
                }
                if found < all.len() {
                    let mut members = all[found].1.clone();
                    assert(members@ == all[found as int].1@);
                    let ghost old_members = members@;
                    members.push(paths[i].clone());
                    assert(members@.map_values(|s: String| s@) =~= old_members.map_values(
                        |s: String| s@,
                    ).push(paths@[i as int]@));
                    let name = all[found].0.clone();
                    all.set(found, (name, members));
                    proof {
                        assert(fl[found as int] == h@);
                        assert(fl.contains(h@));
                        assert(folders_in(hv, i + 1) == fl);
                        assert forall|q: int| 0 <= q < all.len() implies (#[trigger] all[q]).0@
                            == folders_in(hv, i + 1)[q] && all[q].1@.map_values(|s: String| s@)
                            == paths_with(paths@, hv, folders_in(hv, i + 1)[q], i + 1) by {
                            if q != found {
                                assert(fl[q] != fl[found as int]);
                                assert(all[q] == before[q]);
                            }
                        }
                    }
                } else {
                    let mut members: Vec<String> = Vec::new();
                    members.push(paths[i].clone());
                    assert(members@.map_values(|s: String| s@) =~= seq![paths@[i as int]@]);
                    let ghost hh = h@;
                    all.push((h.clone(), members));
                    proof {
                        assert forall|q: int| 0 <= q < fl.len() implies fl[q] != hh by {
                            assert(before[q].0@ == fl[q]);
                        }
                        assert(!fl.contains(hh));
                        assert(folders_in(hv, i + 1) == fl.push(hh));
                        assert(count_to(hv, hh, i as int) == 0);
                        lemma_paths_count(paths@, hv, hh, i as int);
                        assert forall|q: int| 0 <= q < all.len() implies (#[trigger] all[q]).0@
                            == folders_in(hv, i + 1)[q] && all[q].1@.map_values(|s: String| s@)
                            == paths_with(paths@, hv, folders_in(hv, i + 1)[q], i + 1) by {
                            if q < fl.len() {
                                assert(fl[q] != hh);
                                assert(all[q] == before[q]);
                            } else {
                                assert(paths_with(paths@, hv, hh, i + 1) =~= seq![paths@[i as int]@]);
                            }
                        }
                    }
                }
            },
            None => {
                proof {
                    assert(hv[i as int] is None);
                    assert(folders_in(hv, i + 1) == fl);
                }
            },
        }
        i = i + 1;
    }
    all
}

/// As many paths have a hash as are counted for it.
proof fn lemma_paths_count(paths: Seq<String>, hv: Seq<Option<Seq<char>>>, h: Seq<char>, m: int)
    ensures
        paths_with(paths, hv, h, m).len() == count_to(hv, h, m),
    decreases m,
{
    if m > 0 {
        lemma_paths_count(paths, hv, h, m - 1);
    }
}

/// The groups of identical files among `entries` (see `find_duplicates_in`),
/// given the hashes of their opening bytes and of their whole content.
pub fn find_duplicates(
    entries: &Vec<FileEntry>,
    heads: &Vec<Option<String>>,
    fulls: &Vec<Option<String>>,
) -> (groups: Vec<DuplicateGroup>)
    requires
        heads.len() == entries.len(),
        fulls.len() == entries.len(),
    ensures
        forall|k: int|
            0 <= k < groups.len() ==> (#[trigger] groups[k]).paths.len() >= 2 && exists|i: int|
                lists_class(entries@, heads@, fulls@, groups[k], i),
        forall|i: int, j: int|
            0 <= i < entries.len() && 0 <= j < entries.len() && i != j && same_content(
                entries@,
                heads@,
                fulls@,
                i,
                j,
            ) ==> exists|k: int|
                0 <= k < groups.len() && lists_class(entries@, heads@, fulls@, #[trigger] groups[k], i),
        distinct_paths(entries@) ==> forall|k1: int, k2: int, i1: int, i2: int|
            #![trigger lists_class(entries@, heads@, fulls@, groups[k1], i1), lists_class(entries@, heads@, fulls@, groups[k2], i2)]
            0 <= k1 < groups.len() && 0 <= k2 < groups.len() && k1 != k2 && lists_class(
                entries@,
                heads@,
                fulls@,
                groups[k1],
                i1,
            ) && lists_class(entries@, heads@, fulls@, groups[k2], i2) ==> !same_content(
                entries@,
                heads@,
                fulls@,
                i1,
                i2,
            ),
        forall|k1: int, k2: int|
            0 <= k1 < k2 < groups.len() ==> (#[trigger] groups[k1]).size >= (#[trigger] groups[k2]).size,
{
    find_duplicates_in(entries, heads, fulls)
}

impl Filo {
    /// The groups of identical files among `entries` (see `find_duplicates_in`).
    pub fn find_duplicates(
        &self,
        entries: &Vec<FileEntry>,
        heads: &Vec<Option<String>>,
        fulls: &Vec<Option<String>>,
    ) -> (groups: Vec<DuplicateGroup>)
        requires
            heads.len() == entries.len(),
            fulls.len() == entries.len(),
        ensures
            forall|k: int|
                0 <= k < groups.len() ==> (#[trigger] groups[k]).paths.len() >= 2 && exists|i: int|
                    lists_class(entries@, heads@, fulls@, groups[k], i),
            forall|i: int, j: int|
                0 <= i < entries.len() && 0 <= j < entries.len() && i != j && same_content(
                    entries@,
                    heads@,
                    fulls@,
                    i,
                    j,
                ) ==> exists|k: int|
                    0 <= k < groups.len() && lists_class(entries@, heads@, fulls@, #[trigger] groups[k], i),
            distinct_paths(entries@) ==> forall|k1: int, k2: int, i1: int, i2: int|
                #![trigger lists_class(entries@, heads@, fulls@, groups[k1], i1), lists_class(entries@, heads@, fulls@, groups[k2], i2)]
                0 <= k1 < groups.len() && 0 <= k2 < groups.len() && k1 != k2 && lists_class(
                    entries@,
                    heads@,
                    fulls@,
                    groups[k1],
                    i1,
                ) && lists_class(entries@, heads@, fulls@, groups[k2], i2) ==> !same_content(
                    entries@,
                    heads@,
                    fulls@,
                    i1,
                    i2,
                ),
            forall|k1: int, k2: int|
                0 <= k1 < k2 < groups.len() ==> (#[trigger] groups[k1]).size >= (#[trigger] groups[k2]).size,
    {
        find_duplicates(entries, heads, fulls)
    }

    /// What deleting the duplicates of `groups` removes: every path of each
    /// group but its first, in order.
    pub fn dedupe_victims(&self, groups: &Vec<DuplicateGroup>) -> (r: Vec<String>)
        ensures
            r@.map_values(|s: String| s@) == victims(groups@, groups.len() as int),
            r.len() == extra_copies(groups@, groups.len() as int),
    {
        proof {
            lemma_victims_len(groups@, groups.len() as int);
        }
        let mut r: Vec<String> = Vec::new();
        let mut g: usize = 0;
        while g < groups.len()
            invariant
                g <= groups.len(),
                r@.map_values(|s: String| s@) == victims(groups@, g as int),
            decreases groups.len() - g,
        {
            let ghost before = r@;
            let ps = &groups[g].paths;
            let ghost pv = ps@.map_values(|s: String| s@);
            if ps.len() > 0 {
                let mut k: usize = 1;
                assert(before.map_values(|s: String| s@) + pv.subrange(1, 1) =~= before.map_values(
                    |s: String| s@,
                ));
                while k < ps.len()
                    invariant
                        1 <= k <= ps.len(),
                        pv == ps@.map_values(|s: String| s@),
                        r@.map_values(|s: String| s@) == before.map_values(|s: String| s@)
                            + pv.subrange(1, k as int),
                    decreases ps.len() - k,
                {
                    let ghost mid = r@;
                    r.push(ps[k].clone());
                    assert(r@.map_values(|s: String| s@) =~= mid.map_values(|s: String| s@).push(
                        ps@[k as int]@,
                    ));
                    assert(pv.subrange(1, k + 1) =~= pv.subrange(1, k as int).push(ps@[k as int]@));
                    k = k + 1;
                }
            }
            proof {
                if ps.len() == 0 {
                    assert(victims(groups@, g + 1) =~= victims(groups@, g as int));
                }
            }
            g = g + 1;
        }
        r
    }
}

/// Every path but the first of each of the first `m` groups, in order.
pub open spec fn victims(groups: Seq<DuplicateGroup>, m: int) -> Seq<Seq<char>>
    decreases m,
{
    if m <= 0 {
        Seq::empty()
    } else {
        let ps = groups[m - 1].paths@.map_values(|s: String| s@);
        victims(groups, m - 1) + if ps.len() == 0 {
            Seq::empty()
        } else {
            ps.subrange(1, ps.len() as int)
        }
    }
}

/// How many paths deleting the duplicates of the first `m` groups removes:
/// all but one of each group that has paths.
pub open spec fn extra_copies(groups: Seq<DuplicateGroup>, m: int) -> int
    decreases m,
{
    if m <= 0 {
        0
    } else {
        extra_copies(groups, m - 1) + if groups[m - 1].paths.len() > 0 {
            groups[m - 1].paths.len() - 1
        } else {
            0
        }
    }
}

/// The victims of the first `m` groups number the later paths of those groups.
pub proof fn lemma_victims_len(groups: Seq<DuplicateGroup>, m: int)
    requires
        0 <= m <= groups.len(),
    ensures
        victims(groups, m).len() == extra_copies(groups, m),
    decreases m,
{
    if m > 0 {
        lemma_victims_len(groups, m - 1);
    }
}

/// Every later path of a group is among the victims: where it stands.
pub proof fn lemma_victims_has(groups: Seq<DuplicateGroup>, m: int, g: int, k: int) -> (a: int)
    requires
        0 <= g < m <= groups.len(),
        1 <= k < groups[g].paths.len(),
    ensures
        0 <= a < victims(groups, m).len(),
        victims(groups, m)[a] == groups[g].paths[k]@,
    decreases m,
{
    let prev = victims(groups, m - 1);
    let ps = groups[m - 1].paths@.map_values(|s: String| s@);
    if g < m - 1 {
        let a = lemma_victims_has(groups, m - 1, g, k);
        assert(victims(groups, m)[a] == prev[a]);
        a
    } else {
        let a = prev.len() + k - 1;
        assert(victims(groups, m)[a] == ps.subrange(1, ps.len() as int)[k - 1]);
        a
    }
}

/// Every victim is a later path of some group (never a first path): which one.
pub proof fn lemma_victims_source(groups: Seq<DuplicateGroup>, m: int, a: int) -> (r: (int, int))
    requires
        0 <= m <= groups.len(),
        0 <= a < victims(groups, m).len(),
    ensures
        0 <= r.0 < m,
        1 <= r.1 < groups[r.0].paths.len(),
        victims(groups, m)[a] == groups[r.0].paths[r.1]@,
    decreases m,
{
    let prev = victims(groups, m - 1);
    let ps = groups[m - 1].paths@.map_values(|s: String| s@);
    if a < prev.len() {
        assert(victims(groups, m)[a] == prev[a]);
        lemma_victims_source(groups, m - 1, a)
    } else {
        let k = a - prev.len() + 1;
        assert(victims(groups, m)[a] == ps.subrange(1, ps.len() as int)[a - prev.len()]);
        (m - 1, k)
    }
}

/// Deleting the duplicates removes every path of each group but its first,
/// and nothing else (see `lemma_victims_has` and `lemma_victims_source`): there
/// are exactly as many victims as later paths, and, where no path is in two
/// places, no group's first path is one of them.
pub proof fn lemma_victims_are_all_but_the_first(groups: Seq<DuplicateGroup>, m: int)
    requires
        0 <= m <= groups.len(),
    ensures
        victims(groups, m).len() == extra_copies(groups, m),
        groups_disjoint(groups) ==> forall|g: int, a: int|
            0 <= g < m && groups[g].paths.len() > 0 && 0 <= a < victims(groups, m).len()
                ==> #[trigger] victims(groups, m)[a] != (#[trigger] groups[g].paths[0])@,
{
    lemma_victims_len(groups, m);
    if groups_disjoint(groups) {
        assert forall|g: int, a: int|
            0 <= g < m && groups[g].paths.len() > 0 && 0 <= a < victims(groups, m).len() implies #[trigger] victims(
                groups,
                m,
            )[a] != (#[trigger] groups[g].paths[0])@ by {
            let (h, k) = lemma_victims_source(groups, m, a);
            if victims(groups, m)[a] == groups[g].paths[0]@ {
                assert(groups[h].paths[k]@ == groups[g].paths[0]@);
            }
        }
    }
}

} // verus!
