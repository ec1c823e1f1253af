//! Renaming every file of a folder at once, by a pattern or a regular expression.
use vstd::prelude::*;
use crate::clock::{calendar_date, utc_date};
use crate::error::FiloError;
use crate::model::{FileEntry, Timestamp};
use crate::path::{file_name, file_name_of, join, join_path, name_stem, split_file_name};
use crate::pattern::{check_regex, regex_error, regex_replace_all, regex_replaced};
use crate::sort::{is_permutation, key_views, lex_lt, sort_order, stably_sorted};
use crate::text::{
    append_chars, append_str, chars_of, contains, contains_seq, decimal, decimal_chars, ends_with,
    has_suffix, push_text_key, replace_all, replaced, string_of, text_key, vec_of, zero_padded,
    zero_padded_chars,
};
use crate::cleanup::has_text;
use crate::Filo;

verus! {

/// One file to rename.
#[derive(Debug)]
pub struct RenamePlan {
    pub from: String,
    pub to: String,
}

/// How the new names are made.
#[derive(Debug)]
pub enum RenameSpec {
    /// A template: `{n}` is the file's position (from 1) in name order,
    /// `{name}` its stem, `{ext}` its extension, `{date}` its modification day
    /// as `YYYYMMDD`. Where the template has no `{ext}`, the extension is kept.
    Pattern(String),
    /// Every match of `find` in the name is replaced by `replace`.
    Regex { find: String, replace: String },
}

/// The plans as (from, to) texts.
pub open spec fn plan_views(plans: Seq<RenamePlan>) -> Seq<(Seq<char>, Seq<char>)> {
    plans.map_values(|p: RenamePlan| (p.from@, p.to@))
}

/// A year as `%Y` writes it: four digits with leading zeros, and a sign
/// outside `0..10000`.
pub open spec fn year_text(y: int) -> Seq<char> {
    if 0 <= y < 10000 {
        zero_padded(y as nat, 4)
    } else if y >= 10000 {
        "+"@ + zero_padded(y as nat, 4)
    } else {
        "-"@ + zero_padded((-y) as nat, 4)
    }
}

/// The day of `t` as `%Y%m%d`.
pub open spec fn day_stamp(t: Timestamp) -> Seq<char> {
    let d = utc_date(t.secs as int);
    year_text(d.0) + zero_padded(d.1 as nat, 2) + zero_padded(d.2 as nat, 2)
}

/// The stem of a file called `name` (`Path::file_stem`, or the name itself).
pub open spec fn stem_of(name: Seq<char>) -> Seq<char> {
    match file_name(name) {
        Some(f) => name_stem(f),
        None => name,
    }
}

/// The new name a template gives the file `e`, the `n`-th in name order.
pub open spec fn pattern_name(tpl: Seq<char>, e: FileEntry, n: nat) -> Seq<char> {
    let ext = match e.extension {
        Some(x) => x@,
        None => Seq::<char>::empty(),
    };
    let name = replaced(
        replaced(
            replaced(replaced(tpl, "{n}"@, decimal(n)), "{name}"@, stem_of(e.name@)),
            "{ext}"@,
            ext,
        ),
        "{date}"@,
        day_stamp(e.modified),
    );
    if ext.len() > 0 && !contains_seq(tpl, "{ext}"@) && !has_suffix(name, "."@ + ext) {
        name + "."@ + ext
    } else {
        name
    }
}

/// The new name `spec` gives the file `e`, the `n`-th in name order.
pub open spec fn new_name(spec: RenameSpec, e: FileEntry, n: nat) -> Seq<char> {
    match spec {
        RenameSpec::Pattern(tpl) => pattern_name(tpl@, e, n),
        RenameSpec::Regex { find, replace } => regex_replaced(find@, e.name@, replace@),
    }
}

/// The day of `t` as `YYYYMMDD`.
fn day_stamp_of(t: &Timestamp) -> (r: Vec<char>)
    requires
        t.valid(),
    ensures
        r@ == day_stamp(*t),
{
    let (y, m, d) = calendar_date(t.secs);
    let mut v: Vec<char> = Vec::new();
    if 0 <= y && y < 10000 {
        v = zero_padded_chars(y as u64, 4);
    } else if y >= 10000 {
        append_str(&mut v, "+");
        let digits = zero_padded_chars(y as u64, 4);
        append_chars(&mut v, &digits);
    } else {
        append_str(&mut v, "-");
        let digits = zero_padded_chars((-(y as i64)) as u64, 4);
        append_chars(&mut v, &digits);
    }
    let mm = zero_padded_chars(m as u64, 2);
    append_chars(&mut v, &mm);
    let dd = zero_padded_chars(d as u64, 2);
    append_chars(&mut v, &dd);
    proof {
        assert(Seq::<char>::empty() + year_text(y as int) =~= year_text(y as int));
    }
    v
}

/// The new name a template gives `e`, the `n`-th file in name order.
fn pattern_name_of(tpl: &String, e: &FileEntry, n: u64) -> (r: Vec<char>)
    requires
        e.modified.valid(),
    ensures
        r@ == pattern_name(tpl@, *e, n as nat),
{
    proof {
        reveal_strlit("{n}");
        reveal_strlit("{name}");
        reveal_strlit("{ext}");
        reveal_strlit("{date}");
    }
    let t = chars_of(tpl.as_str());
    let name_chars = chars_of(e.name.as_str());
    let stem: Vec<char> = match file_name_of(&name_chars) {
        Some(f) => split_file_name(&f).0,
        None => chars_of(e.name.as_str()),
    };
    let ext: Vec<char> = match &e.extension {
        Some(x) => chars_of(x.as_str()),
        None => Vec::new(),
    };
    let step1 = replace_all(&t, &vec_of("{n}"), &decimal_chars(n));
    let step2 = replace_all(&step1, &vec_of("{name}"), &stem);
    let step3 = replace_all(&step2, &vec_of("{ext}"), &ext);
    let step4 = replace_all(&step3, &vec_of("{date}"), &day_stamp_of(&e.modified));
    let mut dotted = vec_of(".");
    append_chars(&mut dotted, &ext);
    if ext.len() > 0 && !contains(&t, &vec_of("{ext}")) && !ends_with(&step4, &dotted) {
        let mut out = step4;
        append_chars(&mut out, &dotted);
        out
    } else {
        step4
    }
}

/// The files of `listing` (folders left out), in name order.
pub open spec fn files_by_name(listing: Seq<FileEntry>, order: Seq<usize>) -> bool {
    &&& forall|i: int| 0 <= i < order.len() ==> !listing[#[trigger] order[i] as int].is_dir
    &&& forall|i: int|
        0 <= i < listing.len() && !(#[trigger] listing[i]).is_dir ==> exists|k: int|
            0 <= k < order.len() && order[k] == i
    &&& forall|i: int, j: int| 0 <= i < j < order.len() ==> order[i] != order[j]
    &&& forall|i: int| 0 <= i < order.len() ==> #[trigger] order[i] < listing.len()
    &&& forall|i: int, j: int|
        0 <= i < j < order.len() ==> {
            ||| lex_lt(
                text_key(listing[order[i] as int].name@, false),
                text_key(listing[order[j] as int].name@, false),
            )
            ||| (listing[order[i] as int].name@ == listing[order[j] as int].name@ && #[trigger] order[i]
                < #[trigger] order[j])
        }
}

/// The renames `spec` makes of the files, taken in the given order: each file
/// whose new name is neither empty nor its old name goes to `dir/new name`.
pub open spec fn renames(
    dir: Seq<char>,
    listing: Seq<FileEntry>,
    order: Seq<usize>,
    spec: RenameSpec,
    m: int,
) -> Seq<(Seq<char>, Seq<char>)>
    decreases m,
{
    if m <= 0 {
        Seq::empty()
    } else {
        let e = listing[order[m - 1] as int];
        let nn = new_name(spec, e, m as nat);
        let before = renames(dir, listing, order, spec, m - 1);
        if nn == e.name@ || nn.len() == 0 {
            before
        } else {
            before.push((e.path@, join(dir, nn)))
        }
    }
}

/// The files of `listing`, in name order.
fn file_order(listing: &Vec<FileEntry>) -> (order: Vec<usize>)
    ensures
        files_by_name(listing@, order@),
{
    let mut idx: Vec<usize> = Vec::new();
    let mut keys: Vec<Vec<u64>> = Vec::new();
    let mut i: usize = 0;
    while i < listing.len()
        invariant
            i <= listing.len(),
            idx.len() == keys.len(),
            forall|k: int| 0 <= k < idx.len() ==> (#[trigger] idx[k]) < i,
            forall|k: int| 0 <= k < idx.len() ==> !listing[#[trigger] idx[k] as int].is_dir,
            forall|k: int|
                0 <= k < idx.len() ==> (#[trigger] keys[k])@ == text_key(
                    listing[idx[k] as int].name@,
                    false,
                ),
            forall|a: int, b: int| 0 <= a < b < idx.len() ==> #[trigger] idx[a] < #[trigger] idx[b],
            forall|q: int|
                0 <= q < i && !(#[trigger] listing[q]).is_dir ==> exists|k: int|
                    0 <= k < idx.len() && idx[k] == q,
        decreases listing.len() - i,
    {
        let ghost old_idx = idx@;
        if !listing[i].is_dir {
            let mut key: Vec<u64> = Vec::new();
            let name = chars_of(listing[i].name.as_str());
            push_text_key(&mut key, &name, false);
            assert(key@ =~= text_key(listing[i as int].name@, false));
            idx.push(i);
            keys.push(key);
            assert(idx[idx.len() - 1] == i);
        }
        assert forall|q: int|
            0 <= q < i + 1 && !(#[trigger] listing[q]).is_dir implies exists|k: int|
                0 <= k < idx.len() && idx[k] == q by {
            if q < i {
                let k = choose|k: int| 0 <= k < old_idx.len() && old_idx[k] == q;
                assert(idx[k] == q);
            } else {
                assert(idx[idx.len() - 1] == i);
            }
        }
        i = i + 1;
    }
    let perm = sort_order(&keys);
    let mut order: Vec<usize> = Vec::new();
    let mut k: usize = 0;
    while k < perm.len()
        invariant
            k <= perm.len(),
            is_permutation(perm@, keys.len() as nat),
            idx.len() == keys.len(),
            order.len() == k,
            forall|q: int| 0 <= q < k ==> #[trigger] order[q] == idx[perm[q] as int],
        decreases perm.len() - k,
    {
        order.push(idx[perm[k]]);
        k = k + 1;
    }
    proof {
        assert forall|a: int, b: int| 0 <= a < b < order.len() implies order[a] != order[b] by {
            if idx[perm[a] as int] == idx[perm[b] as int] {
                assert(perm[a] != perm[b]);
                if perm[a] < perm[b] {
                    assert(idx[perm[a] as int] < idx[perm[b] as int]);
                } else {
                    assert(idx[perm[b] as int] < idx[perm[a] as int]);
                }
            }
        }
        assert forall|q: int|
            0 <= q < listing.len() && !(#[trigger] listing[q]).is_dir implies exists|k: int|
                0 <= k < order.len() && order[k] == q by {
            let w = choose|w: int| 0 <= w < idx.len() && idx[w] == q;
            let p = crate::sort::lemma_permutation_onto(perm@, keys.len() as nat, w);
            assert(order[p] == q);
        }
        assert forall|a: int, b: int| 0 <= a < b < order.len() implies {
            ||| lex_lt(
                text_key(listing[order[a] as int].name@, false),
                text_key(listing[order[b] as int].name@, false),
            )
            ||| (listing[order[a] as int].name@ == listing[order[b] as int].name@ && #[trigger] order[a]
                < #[trigger] order[b])
        } by {
            let kv = key_views(keys@);
            assert(kv[perm[a] as int] == keys[perm[a] as int]@);
            assert(kv[perm[b] as int] == keys[perm[b] as int]@);
            if kv[perm[a] as int] == kv[perm[b] as int] {
                crate::sort::lemma_lex_irreflexive(kv[perm[a] as int]);
                crate::text::lemma_text_key_injective(
                    listing[order[a] as int].name@,
                    listing[order[b] as int].name@,
                    false,
                );
                assert(perm[a] < perm[b]);
            }
        }
    }
    order
}

/// The renames `spec` makes of the files of `listing` (the contents of `dir`),
/// in name order, before any check for collisions. A `find` pattern that
/// does not compile is a `Regex` error.
pub fn rename_targets(dir: &String, listing: &Vec<FileEntry>, spec: &RenameSpec) -> (r: Result<
    Vec<RenamePlan>,
    FiloError,
>)
    requires
        forall|i: int| 0 <= i < listing.len() ==> (#[trigger] listing[i]).modified.valid(),
        listing.len() < u64::MAX,
    ensures
        spec is Regex && regex_error(spec->find@) is Some ==> (r matches Err(FiloError::Regex(m))
            && regex_error(spec->find@) == Some(m@)),
        r matches Ok(plans) ==> exists|order: Seq<usize>|
            files_by_name(listing@, order) && plan_views(plans@) == renames(
                dir@,
                listing@,
                order,
                *spec,
                order.len() as int,
            ),
        (spec is Pattern || regex_error(spec->find@) is None) ==> r is Ok,
{
    match spec {
        RenameSpec::Regex { find, .. } => {
            match check_regex(find.as_str()) {
                Ok(()) => {},
                Err(m) => {
                    return Err(FiloError::Regex(m));
                },
            }
        },
        RenameSpec::Pattern(_) => {},
    }
    let order = file_order(listing);
    proof {
        lemma_order_fits(listing@, order@);
    }
    let d = chars_of(dir.as_str());
    let mut plans: Vec<RenamePlan> = Vec::new();
    let mut i: usize = 0;
    while i < order.len()
        invariant
            i <= order.len(),
            d@ == dir@,
            files_by_name(listing@, order@),
            order.len() <= listing.len(),
            listing.len() < u64::MAX,
            forall|q: int| 0 <= q < listing.len() ==> (#[trigger] listing[q]).modified.valid(),
            spec matches RenameSpec::Regex { find, .. } ==> regex_error(find@) is None,
            plan_views(plans@) == renames(dir@, listing@, order@, *spec, i as int),
        decreases order.len() - i,
    {
        let e = &listing[order[i]];
        let n: u64 = (i + 1) as u64;
        let nn: Vec<char> = match spec {
            RenameSpec::Pattern(tpl) => pattern_name_of(tpl, e, n),
            RenameSpec::Regex { find, replace } => chars_of(
                regex_replace_all(find.as_str(), e.name.as_str(), replace.as_str()).as_str(),
            ),
        };
        let old_name = chars_of(e.name.as_str());
        if !crate::text::same_chars(&nn, &old_name) && nn.len() > 0 {
            let to = string_of(&join_path(&d, &nn));
            let ghost before = plans@;
            plans.push(RenamePlan { from: e.path.clone(), to });
            assert(plan_views(plans@) =~= plan_views(before).push(
                (listing@[order@[i as int] as int].path@, plans@[plans@.len() - 1].to@),
            ));
        }
        i = i + 1;
    }
    Ok(plans)
}

/// An order of distinct indices into `listing` is no longer than it.
proof fn lemma_order_fits(listing: Seq<FileEntry>, order: Seq<usize>)
    requires
        files_by_name(listing, order),
    ensures
        order.len() <= listing.len(),
{
    crate::sort::lemma_distinct_bound(order, listing.len() as nat);
}

/// Whether the `k`-th of `plans` collides: another plan before it has the same
/// destination, or its destination is `occupied` by a file no plan moves away.
pub open spec fn collides(plans: Seq<(Seq<char>, Seq<char>)>, occupied: Seq<String>, k: int) -> bool {
    ||| exists|j: int| 0 <= j < k && (#[trigger] plans[j]).1 == plans[k].1
    ||| (has_text(occupied, plans[k].1) && !exists|j: int|
        0 <= j < plans.len() && (#[trigger] plans[j]).0 == plans[k].1)
}

/// Whether some of `plans` has `p` as its source.
fn is_source(plans: &Vec<RenamePlan>, p: &String) -> (r: bool)
    ensures
        r == exists|j: int| 0 <= j < plans.len() && (#[trigger] plans@[j]).from@ == p@,
{
    let mut j: usize = 0;
    while j < plans.len()
        invariant
            j <= plans.len(),
            forall|q: int| 0 <= q < j ==> (#[trigger] plans@[q]).from@ != p@,
        decreases plans.len() - j,
    {
        if String::eq(&plans[j].from, p) {
            return true;
        }
        j = j + 1;
    }
    false
}

/// Refuses the renames if two of them share a destination, or one would land
/// on a path that is `occupied` and that no rename moves away; the error names
/// the first such destination.
pub fn check_collisions(plans: &Vec<RenamePlan>, occupied: &Vec<String>) -> (r: Result<(), FiloError>)
    ensures
        r is Ok <==> forall|k: int|
            0 <= k < plans.len() ==> !#[trigger] collides(plan_views(plans@), occupied@, k),
        r matches Err(e) ==> exists|k: int|
            0 <= k < plans.len() && collides(plan_views(plans@), occupied@, k) && (forall|j: int|
                0 <= j < k ==> !#[trigger] collides(plan_views(plans@), occupied@, j)) && e
                == FiloError::NameCollision(plans@[k].to),
{
    let ghost pv = plan_views(plans@);
    let mut k: usize = 0;
    while k < plans.len()
        invariant
            k <= plans.len(),
            pv == plan_views(plans@),
            forall|j: int| 0 <= j < k ==> !#[trigger] collides(pv, occupied@, j),
        decreases plans.len() - k,
    {
        let mut twice = false;
        let mut j: usize = 0;
        while j < k
            invariant
                j <= k,
                k < plans.len(),
                pv == plan_views(plans@),
                twice == exists|q: int| 0 <= q < j && (#[trigger] pv[q]).1 == pv[k as int].1,
            decreases k - j,
        {
            assert(pv[j as int] == (plans@[j as int].from@, plans@[j as int].to@));
            assert(pv[k as int] == (plans@[k as int].from@, plans@[k as int].to@));
            if String::eq(&plans[j].to, &plans[k].to) {
                twice = true;
            }
            j = j + 1;
        }
        assert(pv[k as int] == (plans@[k as int].from@, plans@[k as int].to@));
        let taken = crate::cleanup::list_has(occupied, &plans[k].to);
        let moved_away = is_source(plans, &plans[k].to);
        proof {
            assert(moved_away == exists|q: int|
                0 <= q < pv.len() && (#[trigger] pv[q]).0 == pv[k as int].1) by {
                if moved_away {
                    let q = choose|q: int| 0 <= q < plans.len() && (#[trigger] plans@[q]).from@
                        == plans@[k as int].to@;
                    assert(pv[q].0 == plans@[q].from@);
                }
                if exists|q: int| 0 <= q < pv.len() && (#[trigger] pv[q]).0 == pv[k as int].1 {
                    let q = choose|q: int| 0 <= q < pv.len() && (#[trigger] pv[q]).0 == pv[k as int].1;
                    assert(plans@[q].from@ == pv[q].0);
                }
            }
        }
        if twice || (taken && !moved_away) {
            assert(collides(pv, occupied@, k as int));
            return Err(FiloError::NameCollision(plans[k].to.clone()));
        }
        assert(!collides(pv, occupied@, k as int));
        k = k + 1;
    }
    Ok(())
}

/// Plan `p` waits for plan `q` when it moves onto the file `q` moves away.
pub open spec fn waits_for(plans: Seq<(Seq<char>, Seq<char>)>, p: int, q: int) -> bool {
    p != q && plans[p].1 == plans[q].0
}

/// `order` runs every plan once, and none before a plan it waits for, so no
/// rename lands on a file before that file has moved away.
pub open spec fn respects(plans: Seq<(Seq<char>, Seq<char>)>, order: Seq<usize>) -> bool {
    &&& is_permutation(order, plans.len())
    &&& forall|a: int, b: int|
        0 <= a < b < order.len() ==> !waits_for(plans, #[trigger] order[a] as int, #[trigger] order[b] as int)
}

/// When every plan not yet done waits for another not yet done, no order
/// whose first `a` plans are all done can respect the plans.
proof fn lemma_no_order(
    plans: Seq<(Seq<char>, Seq<char>)>,
    done: Seq<bool>,
    order: Seq<usize>,
    a: int,
)
    requires
        is_permutation(order, plans.len()),
        done.len() == plans.len(),
        0 <= a <= order.len(),
        exists|p: int| 0 <= p < plans.len() && !done[p],
        forall|p: int|
            0 <= p < plans.len() && !#[trigger] done[p] ==> exists|q: int|
                0 <= q < plans.len() && !done[q] && waits_for(plans, p, q),
        forall|x: int| 0 <= x < a ==> done[#[trigger] order[x] as int],
    ensures
        !respects(plans, order),
    decreases order.len() - a,
{
    if a == order.len() {
        let p = choose|p: int| 0 <= p < plans.len() && !done[p];
        let at = crate::sort::lemma_permutation_onto(order, plans.len(), p);
        assert(done[order[at] as int]);
    } else if !done[order[a] as int] {
        let p = order[a] as int;
        let q = choose|q: int| 0 <= q < plans.len() && !done[q] && waits_for(plans, p, q);
        let b = crate::sort::lemma_permutation_onto(order, plans.len(), q);
        if b < a {
            assert(done[order[b] as int]);
        } else {
            assert(b != a);
            assert(waits_for(plans, order[a] as int, order[b] as int));
        }
    } else {
        lemma_no_order(plans, done, order, a + 1);
    }
}

/// When every plan not yet done waits for another not yet done, no order can
/// respect the plans.
proof fn lemma_stuck(pv: Seq<(Seq<char>, Seq<char>)>, done: Seq<bool>, first: int)
    requires
        done.len() == pv.len(),
        0 <= first < pv.len(),
        !done[first],
        forall|p: int|
            0 <= p < pv.len() && !done[p] ==> exists|q: int|
                0 <= q < pv.len() && !done[q] && waits_for(pv, p, q),
    ensures
        forall|ord: Seq<usize>| !respects(pv, ord),
{
    assert forall|ord: Seq<usize>| !respects(pv, ord) by {
        if is_permutation(ord, pv.len()) {
            lemma_no_order(pv, done, ord, 0);
        }
    }
}

/// The first plan not yet `done` that waits for no plan not yet done (or
/// `n` when there is none), and the first plan not yet done (or `n`).
fn next_ready(plans: &Vec<RenamePlan>, done: &Vec<bool>) -> (r: (usize, usize))
    requires
        done.len() == plans.len(),
    ensures
        r.0 <= plans.len(),
        r.1 <= plans.len(),
        r.0 < plans.len() ==> !done[r.0 as int] && forall|j: int|
            0 <= j < plans.len() && !done[j] ==> !waits_for(plan_views(plans@), r.0 as int, j),
        r.0 == plans.len() ==> forall|p: int|
            0 <= p < plans.len() && !done[p] ==> exists|q: int|
                0 <= q < plans.len() && !done[q] && waits_for(plan_views(plans@), p, q),
        r.1 < plans.len() ==> !done[r.1 as int],
        r.1 == plans.len() ==> forall|p: int| 0 <= p < plans.len() ==> done[p],
{
    let ghost pv = plan_views(plans@);
    let n = plans.len();
    let mut pick: usize = n;
    let mut first_pending: usize = n;
    let mut i: usize = 0;
    while i < n && pick == n
        invariant
            i <= n,
            n == plans.len(),
            pv == plan_views(plans@),
            done.len() == n,
            pick == n || (pick < n && !done[pick as int] && forall|j: int|
                0 <= j < n && !done[j] ==> !waits_for(pv, pick as int, j)),
            pick == n ==> forall|p: int|
                0 <= p < i && !done[p] ==> exists|q: int|
                    0 <= q < n && !done[q] && waits_for(pv, p, q),
            first_pending <= n,
            pick < n ==> first_pending < n,
            first_pending == n ==> forall|p: int| 0 <= p < i ==> done[p],
            first_pending < n ==> !done[first_pending as int],
        decreases n - i,
    {
        if !done[i] {
            if first_pending == n {
                first_pending = i;
            }
            let mut blocked = false;
            let mut j: usize = 0;
            while j < n
                invariant
                    j <= n,
                    i < n,
                    n == plans.len(),
                    pv == plan_views(plans@),
                    done.len() == n,
                    blocked == exists|q: int| 0 <= q < j && !done[q] && waits_for(pv, i as int, q),
                decreases n - j,
            {
                assert(pv[j as int] == (plans@[j as int].from@, plans@[j as int].to@));
                assert(pv[i as int] == (plans@[i as int].from@, plans@[i as int].to@));
                if j != i && !done[j] && String::eq(&plans[i].to, &plans[j].from) {
                    blocked = true;
                }
                j = j + 1;
            }
            if !blocked {
                pick = i;
            }
        }
        i = i + 1;
    }
    (pick, first_pending)
}

/// An order to carry out the renames in so that none lands on a file before
/// that file has moved away (`b -> bb` after `bb -> bbb`). Refused, naming a
/// destination, exactly when no such order exists: when renames form a cycle.
/// A swap (`a -> b` with `b -> a`) is such a cycle; it is refused rather than
/// carried out, since every order would overwrite one of the two files.
pub fn rename_schedule(plans: &Vec<RenamePlan>) -> (r: Result<Vec<usize>, FiloError>)
    ensures
        r matches Ok(order) ==> respects(plan_views(plans@), order@),
        r is Err ==> !exists|order: Seq<usize>| respects(plan_views(plans@), order),
        r matches Err(e) ==> exists|k: int|
            0 <= k < plans.len() && e == FiloError::NameCollision(plans@[k].to),
{
    let ghost pv = plan_views(plans@);
    let n = plans.len();
    let mut done: Vec<bool> = Vec::new();
    let mut t: usize = 0;
    while t < n
        invariant
            t <= n,
            done.len() == t,
            forall|x: int| 0 <= x < t ==> !(#[trigger] done[x]),
        decreases n - t,
    {
        done.push(false);
        t = t + 1;
    }
    let mut order: Vec<usize> = Vec::new();
    while order.len() < n
        invariant
            n == plans.len(),
            pv == plan_views(plans@),
            done.len() == n,
            order.len() <= n,
            forall|a: int| 0 <= a < order.len() ==> #[trigger] order[a] < n,
            forall|a: int, b: int| 0 <= a < b < order.len() ==> order[a] != order[b],
            forall|x: int|
                0 <= x < n ==> (#[trigger] done[x] <==> exists|a: int|
                    0 <= a < order.len() && order[a] == x),
            forall|a: int, j: int|
                0 <= a < order.len() && 0 <= j < n && !#[trigger] done[j] ==> !waits_for(
                    pv,
                    #[trigger] order[a] as int,
                    j,
                ) && order[a] != j,
            forall|a: int, b: int|
                0 <= a < b < order.len() ==> !waits_for(pv, #[trigger] order[a] as int, #[trigger] order[b] as int),
        decreases n - order.len(),
    {
        let (pick, first_pending) = next_ready(plans, &done);
        if pick == n {
            proof {
                if first_pending == n {
                    assert forall|x: int| 0 <= x < n implies #[trigger] lists(order@, x) by {
                        assert(done[x]);
                        let a = choose|a: int| 0 <= a < order.len() && order[a] == x;
                        assert(order@[a] == x);
                    }
                    lemma_covers(order@, n);
                }
                lemma_stuck(pv, done@, first_pending as int);
            }
            return Err(FiloError::NameCollision(plans[first_pending].to.clone()));
        }
        proof {
            assert(!done[pick as int]);
        }
        let ghost old_done = done@;
        let ghost old_order = order@;
        order.push(pick);
        done.set(pick, true);
        proof {
            assert forall|x: int|
                0 <= x < n implies (#[trigger] done[x] <==> exists|a: int|
                    0 <= a < order.len() && order[a] == x) by {
                if x == pick {
                    assert(order[order.len() - 1] == x);
                } else if old_done[x] {
                    let a = choose|a: int| 0 <= a < old_order.len() && old_order[a] == x;
                    assert(order[a] == x);
                } else {
                    if exists|a: int| 0 <= a < order.len() && order[a] == x {
                        let a = choose|a: int| 0 <= a < order.len() && order[a] == x;
                        if a < old_order.len() {
                            assert(old_order[a] == x);
                        }
                    }
                }
            }
            assert forall|a: int, b: int| 0 <= a < b < order.len() implies order[a] != order[b] by {
                if b == order.len() - 1 {
                    assert(old_order[a] != pick);
                }
            }
            assert forall|a: int, b: int|
                0 <= a < b < order.len() implies !waits_for(pv, #[trigger] order[a] as int, #[trigger] order[b] as int) by {
                if b == order.len() - 1 {
                    assert(!old_done[pick as int]);
                    assert(order[a] == old_order[a]);
                }
            }
        }
    }
    proof {
        assert(is_permutation(order@, n as nat));
    }
    Ok(order)
}

/// Whether `s` holds `x`.
pub open spec fn lists(s: Seq<usize>, x: int) -> bool {
    exists|a: int| 0 <= a < s.len() && s[a] == x
}

/// A list of values below `n` that holds each of them is at least `n` long.
proof fn lemma_covers(s: Seq<usize>, n: usize)
    requires
        forall|x: int| 0 <= x < n ==> #[trigger] lists(s, x),
        forall|a: int| 0 <= a < s.len() ==> s[a] < n,
        forall|a: int, b: int| 0 <= a < b < s.len() ==> s[a] != s[b],
        s.len() <= n,
    ensures
        s.len() == n,
{
    if s.len() < n {
        let g = Seq::new(
            n as nat,
            |x: int| (choose|a: int| 0 <= a < s.len() && s[a] == x) as usize,
        );
        assert forall|i: int| 0 <= i < g.len() implies g[i] < s.len() && s[g[i] as int] == i by {
            assert(lists(s, i));
            let a = choose|a: int| 0 <= a < s.len() && s[a] == i;
            assert(0 <= a < s.len());
            assert(g[i] == a as usize);
        }
        assert forall|i: int, j: int| 0 <= i < j < g.len() implies g[i] != g[j] by {
            assert(s[g[i] as int] == i);
            assert(s[g[j] as int] == j);
        }
        crate::sort::lemma_distinct_bound(g, s.len() as nat);
    }
}

impl Filo {
    /// The renames `spec` makes of the files of `listing` (the contents of
    /// `dir`), in name order, refused when two would collide or one would land
    /// on an `occupied` path that no rename frees (see `check_collisions`).
    pub fn plan_bulk_rename(
        &self,
        dir: &String,
        listing: &Vec<FileEntry>,
        spec: &RenameSpec,
        occupied: &Vec<String>,
    ) -> (r: Result<Vec<RenamePlan>, FiloError>)
        requires
            forall|i: int| 0 <= i < listing.len() ==> (#[trigger] listing[i]).modified.valid(),
            listing.len() < u64::MAX,
        ensures
            spec is Regex && regex_error(spec->find@) is Some ==> (r matches Err(
                FiloError::Regex(m),
            ) && regex_error(spec->find@) == Some(m@)),
            r matches Ok(plans) ==> (exists|order: Seq<usize>|
                files_by_name(listing@, order) && plan_views(plans@) == renames(
                    dir@,
                    listing@,
                    order,
                    *spec,
                    order.len() as int,
                )) && forall|k: int|
                0 <= k < plans.len() ==> !#[trigger] collides(plan_views(plans@), occupied@, k),
            r matches Err(FiloError::NameCollision(p)) ==> exists|order: Seq<usize>, k: int|
                files_by_name(listing@, order) && 0 <= k < renames(
                    dir@,
                    listing@,
                    order,
                    *spec,
                    order.len() as int,
                ).len() && collides(
                    renames(dir@, listing@, order, *spec, order.len() as int),
                    occupied@,
                    k,
                ) && p@ == renames(dir@, listing@, order, *spec, order.len() as int)[k].1,
            (spec is Pattern || regex_error(spec->find@) is None) ==> (r is Ok || r is Err
                && r->Err_0 is NameCollision),
    {
        let plans = rename_targets(dir, listing, spec)?;
        match check_collisions(&plans, occupied) {
            Ok(()) => Ok(plans),
            Err(e) => Err(e),
        }
    }
}

/// A pattern's name keeps the file's extension exactly once. The name is the
/// template with `{n}`, `{name}`, `{ext}` and `{date}` filled in, with `.ext`
/// added only when the template names no `{ext}`: then it always ends in
/// `.ext`, and when the filled-in template already ends in `.ext` nothing is
/// added, so the extension is never doubled.
pub proof fn lemma_pattern_keeps_extension_once(tpl: Seq<char>, e: FileEntry, n: nat)
    ensures
        ({
            let ext = match e.extension {
                Some(x) => x@,
                None => Seq::<char>::empty(),
            };
            let filled = replaced(
                replaced(
                    replaced(replaced(tpl, "{n}"@, decimal(n)), "{name}"@, stem_of(e.name@)),
                    "{ext}"@,
                    ext,
                ),
                "{date}"@,
                day_stamp(e.modified),
            );
            let out = pattern_name(tpl, e, n);
            &&& out == filled || out == filled + "."@ + ext
            &&& has_suffix(filled, "."@ + ext) ==> out == filled
            &&& (ext.len() == 0 || contains_seq(tpl, "{ext}"@)) ==> out == filled
            &&& (ext.len() > 0 && !contains_seq(tpl, "{ext}"@)) ==> has_suffix(out, "."@ + ext)
        }),
{
    let ext = match e.extension {
        Some(x) => x@,
        None => Seq::<char>::empty(),
    };
    let filled = replaced(
        replaced(
            replaced(replaced(tpl, "{n}"@, decimal(n)), "{name}"@, stem_of(e.name@)),
            "{ext}"@,
            ext,
        ),
        "{date}"@,
        day_stamp(e.modified),
    );
    let d = "."@ + ext;
    let out = filled + d;
    assert(out.skip(out.len() - d.len()) =~= d);
    assert(has_suffix(out, d));
    let name = pattern_name(tpl, e, n);
    if ext.len() > 0 && !contains_seq(tpl, "{ext}"@) && !has_suffix(filled, d) {
        assert(name == out);
    } else {
        assert(name == filled);
    }
}

} // verus!
