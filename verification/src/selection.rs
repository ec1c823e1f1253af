//! The paths a user has ticked: entries picked in a folder listing, or the
//! paths of cleanup suggestions chosen for the trash. Each path is held once.
use vstd::prelude::*;
use crate::cleanup::{has_text, list_has};
use crate::dedupe::path_key;
use crate::model::FileEntry;
use crate::recommend::CleanupSuggestion;
use crate::sort::{is_permutation, key_views, lex_le, sort_order, stably_sorted};
use crate::text::{chars_of, push_text_key};

verus! {

/// A set of paths, each held once.
pub struct Selection {
    paths: Vec<String>,
}

/// No text occurs twice in `list`.
pub open spec fn distinct_texts(list: Seq<String>) -> bool {
    forall|i: int, j: int| 0 <= i < j < list.len() ==> list[i]@ != list[j]@
}

/// The texts that `list` holds, as a set.
pub open spec fn text_set(list: Seq<String>) -> Set<Seq<char>> {
    Set::new(|t: Seq<char>| has_text(list, t))
}

impl View for Selection {
    type V = Set<Seq<char>>;

    closed spec fn view(&self) -> Set<Seq<char>> {
        text_set(self.paths@)
    }
}

/// Where `list` holds the text of `s`, if it does.
fn position(list: &Vec<String>, s: &String) -> (r: Option<usize>)
    ensures
        match r {
            Some(k) => k < list.len() && list@[k as int]@ == s@,
            None => !has_text(list@, s@),
        },
{
    let mut i: usize = 0;
    while i < list.len()
        invariant
            i <= list.len(),
            forall|k: int| 0 <= k < i ==> (#[trigger] list@[k])@ != s@,
        decreases list.len() - i,
    {
        if String::eq(&list[i], s) {
            return Some(i);
        }
        i = i + 1;
    }
    None
}

impl Selection {
    /// No path is held twice.
    pub closed spec fn wf(&self) -> bool {
        distinct_texts(self.paths@)
    }

    /// Nothing ticked.
    pub fn new() -> (s: Selection)
        ensures
            s.wf(),
            s@ == Set::<Seq<char>>::empty(),
    {
        let s = Selection { paths: Vec::new() };
        assert(s@ =~= Set::<Seq<char>>::empty());
        s
    }

    /// Whether `path` is ticked.
    pub fn contains(&self, path: &String) -> (r: bool)
        ensures
            r == self@.contains(path@),
    {
        list_has(&self.paths, path)
    }

    /// Ticks `path` (`on`) or unticks it.
    pub fn set(&mut self, path: &String, on: bool)
        requires
            old(self).wf(),
        ensures
            final(self).wf(),
            final(self)@ == if on {
                old(self)@.insert(path@)
            } else {
                old(self)@.remove(path@)
            },
    {
        let ghost before = self.paths@;
        match position(&self.paths, path) {
            Some(k) => {
                if !on {
                    self.paths.remove(k);
                    proof {
                        let after = self.paths@;
                        assert(after =~= before.remove(k as int));
                        assert forall|t: Seq<char>| #[trigger] has_text(after, t) <==> (has_text(before, t)
                            && t != path@) by {
                            if has_text(after, t) {
                                let i = choose|i: int| 0 <= i < after.len() && (#[trigger] after[i])@ == t;
                                if i < k {
                                    assert(before[i] == after[i]);
                                } else {
                                    assert(before[i + 1] == after[i]);
                                }
                            }
                            if has_text(before, t) && t != path@ {
                                let i = choose|i: int| 0 <= i < before.len() && (#[trigger] before[i])@ == t;
                                if i < k {
                                    assert(after[i] == before[i]);
                                } else {
                                    assert(i != k);
                                    assert(after[i - 1] == before[i]);
                                }
                            }
                        }
                        assert(self@ =~= old(self)@.remove(path@));
                    }
                } else {
                    proof {
                        assert(self@ =~= old(self)@.insert(path@));
                    }
                }
            },
            None => {
                if on {
                    self.paths.push(path.clone());
                    proof {
                        let after = self.paths@;
                        assert(after =~= before.push(*path));
                        assert(after[before.len() as int]@ == path@);
                        assert forall|t: Seq<char>| #[trigger] has_text(after, t) <==> (has_text(before, t)
                            || t == path@) by {
                            if has_text(before, t) {
                                let i = choose|i: int| 0 <= i < before.len() && (#[trigger] before[i])@ == t;
                                assert(after[i] == before[i]);
                            }
                        }
                        assert(self@ =~= old(self)@.insert(path@));
                    }
                } else {
                    proof {
                        assert(self@ =~= old(self)@.remove(path@));
                    }
                }
            },
        }
    }

    /// Flips whether `path` is ticked.
    pub fn toggle(&mut self, path: &String)
        requires
            old(self).wf(),
        ensures
            final(self).wf(),
            final(self)@ == if old(self)@.contains(path@) {
                old(self)@.remove(path@)
            } else {
                old(self)@.insert(path@)
            },
    {
        let on = !self.contains(path);
        self.set(path, on);
    }

    /// Unticks everything.
    pub fn clear(&mut self)
        ensures
            final(self).wf(),
            final(self)@ == Set::<Seq<char>>::empty(),
    {
        self.paths = Vec::new();
        assert(self@ =~= Set::<Seq<char>>::empty());
    }

    /// Ticks (`on`) or unticks every path of `paths`.
    pub fn set_all(&mut self, paths: &Vec<String>, on: bool)
        requires
            old(self).wf(),
        ensures
            final(self).wf(),
            final(self)@ == if on {
                old(self)@.union(text_set(paths@))
            } else {
                old(self)@.difference(text_set(paths@))
            },
    {
        let ghost start = self@;
        let mut i: usize = 0;
        while i < paths.len()
            invariant
                i <= paths.len(),
                self.wf(),
                self@ == if on {
                    start.union(text_set(paths@.take(i as int)))
                } else {
                    start.difference(text_set(paths@.take(i as int)))
                },
            decreases paths.len() - i,
        {
            self.set(&paths[i], on);
            proof {
                let a = paths@.take(i as int);
                let b = paths@.take(i + 1);
                assert forall|t: Seq<char>| #[trigger] has_text(b, t) <==> (has_text(a, t) || t == paths@[i as int]@) by {
                    if has_text(b, t) {
                        let j = choose|j: int| 0 <= j < b.len() && (#[trigger] b[j])@ == t;
                        if j < i {
                            assert(a[j] == b[j]);
                        }
                    }
                    if has_text(a, t) {
                        let j = choose|j: int| 0 <= j < a.len() && (#[trigger] a[j])@ == t;
                        assert(b[j] == a[j]);
                    }
                    if t == paths@[i as int]@ {
                        assert(b[i as int] == paths@[i as int]);
                    }
                }
                if on {
                    assert(self@ =~= start.union(text_set(b)));
                } else {
                    assert(self@ =~= start.difference(text_set(b)));
                }
            }
            i = i + 1;
        }
        assert(paths@.take(paths.len() as int) =~= paths@);
    }

    /// How many paths are ticked.
    pub fn len(&self) -> (n: usize)
        requires
            self.wf(),
        ensures
            self@.finite(),
            n == self@.len(),
    {
        proof {
            let tv = self.paths@.map_values(|s: String| s@);
            assert(tv.no_duplicates()) by {
                assert forall|i: int, j: int| 0 <= i < tv.len() && 0 <= j < tv.len() && i != j implies tv[i]
                    != tv[j] by {
                    if i < j {
                        assert(self.paths@[i]@ != self.paths@[j]@);
                    } else {
                        assert(self.paths@[j]@ != self.paths@[i]@);
                    }
                }
            }
            assert forall|t: Seq<char>| #[trigger] self@.contains(t) <==> tv.to_set().contains(t) by {
                if self@.contains(t) {
                    let i = choose|i: int| 0 <= i < self.paths@.len() && (#[trigger] self.paths@[i])@ == t;
                    assert(tv[i] == t);
                }
                if tv.to_set().contains(t) {
                    let i = choose|i: int| 0 <= i < tv.len() && tv[i] == t;
                    assert(self.paths@[i]@ == t);
                }
            }
            assert(self@ =~= tv.to_set());
            tv.unique_seq_to_set();
        }
        self.paths.len()
    }

    /// How many of `paths` are ticked, counting a path each time it occurs.
    pub fn count_in(&self, paths: &Vec<String>) -> (n: usize)
        ensures
            n == ticked_count(self@, paths@),
    {
        let mut n: usize = 0;
        let mut i: usize = 0;
        while i < paths.len()
            invariant
                i <= paths.len(),
                n == ticked_count(self@, paths@.take(i as int)),
                n <= i,
            decreases paths.len() - i,
        {
            assert(paths@.take(i + 1).drop_last() =~= paths@.take(i as int));
            if self.contains(&paths[i]) {
                n = n + 1;
            }
            i = i + 1;
        }
        assert(paths@.take(paths.len() as int) =~= paths@);
        n
    }

    /// Ticks exactly the entries of a listing.
    pub fn select_all(&mut self, entries: &Vec<FileEntry>)
        ensures
            final(self).wf(),
            final(self)@ == listed_paths(entries@),
    {
        self.clear();
        let mut i: usize = 0;
        while i < entries.len()
            invariant
                i <= entries.len(),
                self.wf(),
                self@ == listed_paths(entries@.take(i as int)),
            decreases entries.len() - i,
        {
            self.set(&entries[i].path, true);
            proof {
                let a = entries@.take(i as int);
                let b = entries@.take(i + 1);
                assert forall|t: Seq<char>| #[trigger] listed_paths(b).contains(t) <==> (listed_paths(a).contains(t)
                    || t == entries@[i as int].path@) by {
                    if listed_paths(b).contains(t) {
                        let j = choose|j: int| 0 <= j < b.len() && (#[trigger] b[j]).path@ == t;
                        if j < i {
                            assert(a[j] == b[j]);
                        }
                    }
                    if listed_paths(a).contains(t) {
                        let j = choose|j: int| 0 <= j < a.len() && (#[trigger] a[j]).path@ == t;
                        assert(b[j] == a[j]);
                    }
                    if t == entries@[i as int].path@ {
                        assert(b[i as int] == entries@[i as int]);
                    }
                }
                assert(self@ =~= listed_paths(b));
            }
            i = i + 1;
        }
        assert(entries@.take(entries.len() as int) =~= entries@);
    }

    /// Unticks every path that the listing no longer holds.
    pub fn retain_listed(&mut self, entries: &Vec<FileEntry>)
        requires
            old(self).wf(),
        ensures
            final(self).wf(),
            final(self)@ == old(self)@.intersect(listed_paths(entries@)),
    {
        let mut kept = Selection::new();
        let mut i: usize = 0;
        while i < self.paths.len()
            invariant
                i <= self.paths.len(),
                kept.wf(),
                kept@ == text_set(self.paths@.take(i as int)).intersect(listed_paths(entries@)),
            decreases self.paths.len() - i,
        {
            let ghost before = kept@;
            if lists_path(entries, &self.paths[i]) {
                kept.set(&self.paths[i], true);
            }
            proof {
                let a = self.paths@.take(i as int);
                let b = self.paths@.take(i + 1);
                assert forall|t: Seq<char>| #[trigger] has_text(b, t) <==> (has_text(a, t) || t == self.paths@[i as int]@) by {
                    if has_text(b, t) {
                        let j = choose|j: int| 0 <= j < b.len() && (#[trigger] b[j])@ == t;
                        if j < i {
                            assert(a[j] == b[j]);
                        }
                    }
                    if has_text(a, t) {
                        let j = choose|j: int| 0 <= j < a.len() && (#[trigger] a[j])@ == t;
                        assert(b[j] == a[j]);
                    }
                    if t == self.paths@[i as int]@ {
                        assert(b[i as int] == self.paths@[i as int]);
                    }
                }
                assert(kept@ =~= text_set(b).intersect(listed_paths(entries@)));
            }
            i = i + 1;
        }
        assert(self.paths@.take(self.paths.len() as int) =~= self.paths@);
        *self = kept;
    }

    /// Every path that the suggestions name, ticked.
    pub fn from_cleanup(items: &Vec<CleanupSuggestion>) -> (s: Selection)
        ensures
            s.wf(),
            s@ == suggested_paths(items@),
    {
        let mut s = Selection::new();
        let mut k: usize = 0;
        while k < items.len()
            invariant
                k <= items.len(),
                s.wf(),
                s@ == suggested_paths(items@.take(k as int)),
            decreases items.len() - k,
        {
            s.set_all(&items[k].paths, true);
            proof {
                let a = items@.take(k as int);
                let b = items@.take(k + 1);
                assert forall|t: Seq<char>| #[trigger] suggested_paths(b).contains(t) <==> (suggested_paths(a).contains(t)
                    || has_text(items@[k as int].paths@, t)) by {
                    if suggested_paths(b).contains(t) {
                        let j = choose|j: int| 0 <= j < b.len() && has_text((#[trigger] b[j]).paths@, t);
                        if j < k {
                            assert(a[j] == b[j]);
                        }
                    }
                    if suggested_paths(a).contains(t) {
                        let j = choose|j: int| 0 <= j < a.len() && has_text((#[trigger] a[j]).paths@, t);
                        assert(b[j] == a[j]);
                    }
                    if has_text(items@[k as int].paths@, t) {
                        assert(b[k as int] == items@[k as int]);
                    }
                }
                assert(s@ =~= suggested_paths(b));
            }
            k = k + 1;
        }
        assert(items@.take(items.len() as int) =~= items@);
        s
    }

    /// The ticked paths, each once, in path order.
    pub fn sorted(&self) -> (r: Vec<String>)
        requires
            self.wf(),
        ensures
            distinct_texts(r@),
            text_set(r@) == self@,
            forall|i: int, j: int| 0 <= i < j < r.len() ==> lex_le(#[trigger] path_key(r[i]), #[trigger] path_key(r[j])),
    {
        let n = self.paths.len();
        let mut keys: Vec<Vec<u64>> = Vec::new();
        let mut k: usize = 0;
        while k < n
            invariant
                n == self.paths.len(),
                k <= n,
                keys.len() == k,
                forall|t: int| 0 <= t < k ==> (#[trigger] keys[t])@ == path_key(self.paths@[t]),
            decreases n - k,
        {
            let mut key: Vec<u64> = Vec::new();
            push_text_key(&mut key, &chars_of(self.paths[k].as_str()), true);
            assert(key@ =~= path_key(self.paths@[k as int]));
            keys.push(key);
            k = k + 1;
        }
        let perm = sort_order(&keys);
        let ghost kv = key_views(keys@);
        let mut r: Vec<String> = Vec::new();
        let mut q: usize = 0;
        while q < n
            invariant
                n == self.paths.len(),
                keys.len() == n,
                kv == key_views(keys@),
                forall|t: int| 0 <= t < n ==> (#[trigger] keys[t])@ == path_key(self.paths@[t]),
                is_permutation(perm@, n as nat),
                stably_sorted(kv, perm@),
                q <= n,
                r.len() == q,
                forall|t: int| 0 <= t < q ==> #[trigger] r@[t] == self.paths@[perm@[t] as int],
            decreases n - q,
        {
            r.push(self.paths[perm[q]].clone());
            q = q + 1;
        }
        proof {
            assert forall|i: int, j: int| 0 <= i < j < r.len() implies lex_le(
                #[trigger] path_key(r[i]),
                #[trigger] path_key(r[j]),
            ) by {
                assert(kv[perm@[i] as int] == keys@[perm@[i] as int]@);
                assert(kv[perm@[j] as int] == keys@[perm@[j] as int]@);
            }
            assert forall|i: int, j: int| 0 <= i < j < r.len() implies r@[i]@ != r@[j]@ by {
                let a = perm@[i] as int;
                let b = perm@[j] as int;
                assert(a != b);
                if a < b {
                    assert(self.paths@[a]@ != self.paths@[b]@);
                } else {
                    assert(self.paths@[b]@ != self.paths@[a]@);
                }
            }
            assert forall|t: Seq<char>| #[trigger] has_text(r@, t) <==> has_text(self.paths@, t) by {
                if has_text(r@, t) {
                    let i = choose|i: int| 0 <= i < r@.len() && (#[trigger] r@[i])@ == t;
                    assert(self.paths@[perm@[i] as int]@ == t);
                }
                if has_text(self.paths@, t) {
                    let x = choose|x: int| 0 <= x < self.paths@.len() && (#[trigger] self.paths@[x])@ == t;
                    let i = crate::sort::lemma_permutation_onto(perm@, n as nat, x);
                    assert(r@[i]@ == t);
                }
            }
            assert(text_set(r@) =~= self@);
        }
        r
    }
}

/// The paths of the entries of a listing.
pub open spec fn listed_paths(entries: Seq<FileEntry>) -> Set<Seq<char>> {
    Set::new(|t: Seq<char>| exists|i: int| 0 <= i < entries.len() && (#[trigger] entries[i]).path@ == t)
}

/// Every path that some suggestion names.
pub open spec fn suggested_paths(items: Seq<CleanupSuggestion>) -> Set<Seq<char>> {
    Set::new(|t: Seq<char>| exists|k: int| 0 <= k < items.len() && has_text((#[trigger] items[k]).paths@, t))
}

/// Whether some entry of the listing has the path `p`.
fn lists_path(entries: &Vec<FileEntry>, p: &String) -> (r: bool)
    ensures
        r == listed_paths(entries@).contains(p@),
{
    let mut i: usize = 0;
    while i < entries.len()
        invariant
            i <= entries.len(),
            forall|k: int| 0 <= k < i ==> (#[trigger] entries@[k]).path@ != p@,
        decreases entries.len() - i,
    {
        if String::eq(&entries[i].path, p) {
            return true;
        }
        i = i + 1;
    }
    false
}

/// How many of `paths` are in `picked`, counting a path each time it occurs.
pub open spec fn ticked_count(picked: Set<Seq<char>>, paths: Seq<String>) -> nat
    decreases paths.len(),
{
    if paths.len() == 0 {
        0
    } else {
        ticked_count(picked, paths.drop_last()) + if picked.contains(paths.last()@) {
            1nat
        } else {
            0nat
        }
    }
}

} // verus!
