//! Lexicographic keys and a stable sort that reports the permutation it chose.
use vstd::prelude::*;

verus! {

/// Strict lexicographic order on key sequences; a proper prefix comes first.
pub open spec fn lex_lt(a: Seq<u64>, b: Seq<u64>) -> bool
    decreases a.len(),
{
    if a.len() == 0 {
        b.len() > 0
    } else if b.len() == 0 {
        false
    } else if a[0] != b[0] {
        a[0] < b[0]
    } else {
        lex_lt(a.drop_first(), b.drop_first())
    }
}

/// Non-strict lexicographic order.
pub open spec fn lex_le(a: Seq<u64>, b: Seq<u64>) -> bool {
    a == b || lex_lt(a, b)
}

pub proof fn lemma_lex_irreflexive(a: Seq<u64>)
    ensures
        !lex_lt(a, a),
    decreases a.len(),
{
    if a.len() > 0 {
        lemma_lex_irreflexive(a.drop_first());
    }
}

pub proof fn lemma_lex_transitive(a: Seq<u64>, b: Seq<u64>, c: Seq<u64>)
    requires
        lex_lt(a, b),
        lex_lt(b, c),
    ensures
        lex_lt(a, c),
    decreases a.len(),
{
    if a.len() > 0 && b.len() > 0 && c.len() > 0 && a[0] == b[0] && b[0] == c[0] {
        lemma_lex_transitive(a.drop_first(), b.drop_first(), c.drop_first());
    }
}

pub proof fn lemma_lex_total(a: Seq<u64>, b: Seq<u64>)
    ensures
        a == b || lex_lt(a, b) || lex_lt(b, a),
    decreases a.len(),
{
    if a.len() > 0 && b.len() > 0 && a[0] == b[0] {
        lemma_lex_total(a.drop_first(), b.drop_first());
        if a.drop_first() == b.drop_first() {
            assert(a =~= seq![a[0]] + a.drop_first());
            assert(b =~= seq![b[0]] + b.drop_first());
        }
    } else if a.len() == 0 && b.len() == 0 {
        assert(a =~= b);
    }
}

/// Whether `a` comes strictly before `b`.
pub fn key_less(a: &Vec<u64>, b: &Vec<u64>) -> (r: bool)
    ensures
        r == lex_lt(a@, b@),
{
    let mut i: usize = 0;
    assert(a@.skip(0) =~= a@);
    assert(b@.skip(0) =~= b@);
    while i < a.len() && i < b.len()
        invariant
            i <= a.len(),
            i <= b.len(),
            lex_lt(a@, b@) == lex_lt(a@.skip(i as int), b@.skip(i as int)),
        decreases a.len() - i,
    {
        if a[i] != b[i] {
            return a[i] < b[i];
        }
        assert(a@.skip(i as int).drop_first() =~= a@.skip(i + 1));
        assert(b@.skip(i as int).drop_first() =~= b@.skip(i + 1));
        i = i + 1;
    }
    i == a.len() && i < b.len()
}

/// `perm` lists each index of `0..n` exactly once.
pub open spec fn is_permutation(perm: Seq<usize>, n: nat) -> bool {
    &&& perm.len() == n
    &&& forall|i: int| 0 <= i < perm.len() ==> #[trigger] perm[i] < n
    &&& forall|i: int, j: int| 0 <= i < j < perm.len() ==> perm[i] != perm[j]
}

/// `perm` orders `keys` ascending, keeping equal keys in their original order.
pub open spec fn stably_sorted(keys: Seq<Seq<u64>>, perm: Seq<usize>) -> bool {
    forall|i: int, j: int|
        0 <= i < j < perm.len() ==> {
            ||| lex_lt(#[trigger] keys[perm[i] as int], #[trigger] keys[perm[j] as int])
            ||| (keys[perm[i] as int] == keys[perm[j] as int] && perm[i] < perm[j])
        }
}

/// The views of a vector of keys.
pub open spec fn key_views(keys: Seq<Vec<u64>>) -> Seq<Seq<u64>> {
    keys.map_values(|k: Vec<u64>| k@)
}

/// Index `x` comes before index `y` in the stable order of the keys `kv`.
pub open spec fn before(kv: Seq<Seq<u64>>, x: int, y: int) -> bool {
    ||| lex_lt(kv[x], kv[y])
    ||| (kv[x] == kv[y] && x < y)
}

/// `before` is transitive.
proof fn lemma_before_transitive(kv: Seq<Seq<u64>>, x: int, y: int, z: int)
    requires
        before(kv, x, y),
        before(kv, y, z),
    ensures
        before(kv, x, z),
{
    if lex_lt(kv[x], kv[y]) && lex_lt(kv[y], kv[z]) {
        lemma_lex_transitive(kv[x], kv[y], kv[z]);
    }
}

/// `run` holds distinct indices from `lo..hi`, in the stable order of `kv`.
pub open spec fn sorted_run(kv: Seq<Seq<u64>>, run: Seq<usize>, lo: int, hi: int) -> bool {
    &&& forall|i: int| 0 <= i < run.len() ==> lo <= #[trigger] run[i] < hi
    &&& forall|i: int, j: int| 0 <= i < j < run.len() ==> run[i] != run[j]
    &&& forall|i: int, j: int|
        0 <= i < j < run.len() ==> before(kv, #[trigger] run[i] as int, #[trigger] run[j] as int)
}

/// Merges two runs, the first of indices below `mid`, the second of indices
/// from `mid` on; on equal keys the first run's index goes first.
fn merge_runs(keys: &Vec<Vec<u64>>, left: &Vec<usize>, right: &Vec<usize>, lo: usize, mid: usize, hi: usize) -> (r: Vec<usize>)
    requires
        lo <= mid <= hi <= keys.len(),
        sorted_run(key_views(keys@), left@, lo as int, mid as int),
        sorted_run(key_views(keys@), right@, mid as int, hi as int),
    ensures
        sorted_run(key_views(keys@), r@, lo as int, hi as int),
        r.len() == left.len() + right.len(),
{
    let ghost kv = key_views(keys@);
    let mut r: Vec<usize> = Vec::new();
    let mut i: usize = 0;
    let mut j: usize = 0;
    while i < left.len() || j < right.len()
        invariant
            kv == key_views(keys@),
            kv.len() == keys.len(),
            lo <= mid <= hi <= keys.len(),
            sorted_run(kv, left@, lo as int, mid as int),
            sorted_run(kv, right@, mid as int, hi as int),
            i <= left.len(),
            j <= right.len(),
            r.len() == i + j,
            sorted_run(kv, r@, lo as int, hi as int),
            forall|k: int| 0 <= k < r.len() ==> (exists|a: int| 0 <= a < i && left[a] == #[trigger] r[k])
                || (exists|b: int| 0 <= b < j && right[b] == r[k]),
            forall|k: int, a: int|
                0 <= k < r.len() && i <= a < left.len() ==> before(kv, #[trigger] r[k] as int, #[trigger] left[a] as int),
            forall|k: int, b: int|
                0 <= k < r.len() && j <= b < right.len() ==> before(kv, #[trigger] r[k] as int, #[trigger] right[b] as int),
        decreases left.len() + right.len() - i - j,
    {
        let take_left = if i < left.len() && j < right.len() {
            !key_less(&keys[right[j]], &keys[left[i]])
        } else {
            i < left.len()
        };
        let ghost old_r = r@;
        if take_left {
            let x = left[i];
            proof {
                assert(kv[x as int] == keys@[x as int]@);
                if j < right.len() {
                    let y = right[j as int];
                    assert(kv[y as int] == keys@[y as int]@);
                    lemma_lex_total(kv[x as int], kv[y as int]);
                    assert(before(kv, x as int, y as int));
                    assert forall|b: int| j <= b < right.len() implies before(kv, x as int, #[trigger] right[b] as int) by {
                        if b > j {
                            lemma_before_transitive(kv, x as int, y as int, right[b] as int);
                        }
                    }
                }
            }
            r.push(x);
            i = i + 1;
            proof {
                assert forall|k: int, a: int|
                    0 <= k < r.len() && i <= a < left.len() implies before(kv, #[trigger] r[k] as int, #[trigger] left[a] as int) by {
                    if k == r.len() - 1 {
                        assert(r[k] == x);
                        assert(before(kv, left[i - 1] as int, left[a] as int));
                    } else {
                        assert(r[k] == old_r[k]);
                    }
                }
                assert forall|k: int| 0 <= k < r.len() implies (exists|a: int| 0 <= a < i && left[a] == #[trigger] r[k])
                    || (exists|b: int| 0 <= b < j && right[b] == r[k]) by {
                    if k == r.len() - 1 {
                        assert(left[i - 1] == r[k]);
                    } else {
                        assert(r[k] == old_r[k]);
                    }
                }
                assert forall|a: int, b: int| 0 <= a < b < r.len() implies r[a] != r[b] by {
                    if b == r.len() - 1 {
                        assert(r[a] == old_r[a]);
                        assert(before(kv, old_r[a] as int, x as int));
                    }
                }
                assert forall|a: int, b: int|
                    0 <= a < b < r.len() implies before(kv, #[trigger] r[a] as int, #[trigger] r[b] as int) by {
                    if b == r.len() - 1 {
                        assert(r[a] == old_r[a]);
                    } else {
                        assert(r[a] == old_r[a]);
                        assert(r[b] == old_r[b]);
                    }
                }
            }
        } else {
            let y = right[j];
            proof {
                assert(kv[y as int] == keys@[y as int]@);
                if i < left.len() {
                    let x = left[i as int];
                    assert(kv[x as int] == keys@[x as int]@);
                    assert(lex_lt(kv[y as int], kv[x as int]));
                    assert(before(kv, y as int, x as int));
                    assert forall|a: int| i <= a < left.len() implies before(kv, y as int, #[trigger] left[a] as int) by {
                        if a > i {
                            lemma_before_transitive(kv, y as int, x as int, left[a] as int);
                        }
                    }
                }
            }
            r.push(y);
            j = j + 1;
            proof {
                assert forall|k: int, b: int|
                    0 <= k < r.len() && j <= b < right.len() implies before(kv, #[trigger] r[k] as int, #[trigger] right[b] as int) by {
                    if k == r.len() - 1 {
                        assert(r[k] == y);
                        assert(before(kv, right[j - 1] as int, right[b] as int));
                    } else {
                        assert(r[k] == old_r[k]);
                    }
                }
                assert forall|k: int| 0 <= k < r.len() implies (exists|a: int| 0 <= a < i && left[a] == #[trigger] r[k])
                    || (exists|b: int| 0 <= b < j && right[b] == r[k]) by {
                    if k == r.len() - 1 {
                        assert(right[j - 1] == r[k]);
                    } else {
                        assert(r[k] == old_r[k]);
                    }
                }
                assert forall|a: int, b: int| 0 <= a < b < r.len() implies r[a] != r[b] by {
                    if b == r.len() - 1 {
                        assert(r[a] == old_r[a]);
                        assert(before(kv, old_r[a] as int, y as int));
                    }
                }
                assert forall|a: int, b: int|
                    0 <= a < b < r.len() implies before(kv, #[trigger] r[a] as int, #[trigger] r[b] as int) by {
                    if b == r.len() - 1 {
                        assert(r[a] == old_r[a]);
                    } else {
                        assert(r[a] == old_r[a]);
                        assert(r[b] == old_r[b]);
                    }
                }
            }
        }
    }
    r
}

/// The indices `lo..hi` in the stable order of their keys.
fn sort_range(keys: &Vec<Vec<u64>>, lo: usize, hi: usize) -> (r: Vec<usize>)
    requires
        lo <= hi <= keys.len(),
    ensures
        sorted_run(key_views(keys@), r@, lo as int, hi as int),
        r.len() == hi - lo,
    decreases hi - lo,
{
    if hi - lo == 0 {
        return Vec::new();
    }
    if hi - lo == 1 {
        let mut r: Vec<usize> = Vec::new();
        r.push(lo);
        return r;
    }
    let mid = lo + (hi - lo) / 2;
    let left = sort_range(keys, lo, mid);
    let right = sort_range(keys, mid, hi);
    merge_runs(keys, &left, &right, lo, mid, hi)
}

/// The stable ascending order of `keys`, as a permutation of their indices.
pub fn sort_order(keys: &Vec<Vec<u64>>) -> (perm: Vec<usize>)
    ensures
        is_permutation(perm@, keys.len() as nat),
        stably_sorted(key_views(keys@), perm@),
{
    let perm = sort_range(keys, 0, keys.len());
    proof {
        let kv = key_views(keys@);
        assert forall|i: int, j: int| 0 <= i < j < perm.len() implies {
            ||| lex_lt(#[trigger] kv[perm[i] as int], #[trigger] kv[perm[j] as int])
            ||| (kv[perm[i] as int] == kv[perm[j] as int] && perm[i] < perm[j])
        } by {
            assert(before(kv, perm[i] as int, perm[j] as int));
        }
    }
    perm
}

/// A permutation of `0..n` reaches every index.
pub proof fn lemma_permutation_onto(perm: Seq<usize>, n: nat, x: int) -> (q: int)
    requires
        is_permutation(perm, n),
        0 <= x < n,
    ensures
        0 <= q < perm.len(),
        perm[q] == x,
{
    if forall|q: int| 0 <= q < perm.len() ==> perm[q] != x {
        let t = perm.map_values(|v: usize| if v > x { (v - 1) as usize } else { v });
        assert forall|i: int, j: int| 0 <= i < j < t.len() implies t[i] != t[j] by {
            assert(perm[i] != perm[j]);
            assert(perm[i] != x && perm[j] != x);
        }
        assert forall|i: int| 0 <= i < t.len() implies t[i] < (n - 1) as nat by {
            assert(perm[i] < n && perm[i] != x);
        }
        lemma_distinct_bound(t, (n - 1) as nat);
        assert(false);
    }
    choose|q: int| 0 <= q < perm.len() && perm[q] == x
}

/// Distinct values below `k` number at most `k`.
pub proof fn lemma_distinct_bound(s: Seq<usize>, k: nat)
    requires
        forall|i: int, j: int| 0 <= i < j < s.len() ==> s[i] != s[j],
        forall|i: int| 0 <= i < s.len() ==> s[i] < k,
    ensures
        s.len() <= k,
    decreases k,
{
    if k == 0 {
        if s.len() > 0 {
            assert(s[0] < 0);
        }
    } else if exists|p: int| 0 <= p < s.len() && s[p] == k - 1 {
        let p = choose|p: int| 0 <= p < s.len() && s[p] == k - 1;
        let t = s.remove(p);
        assert forall|i: int, j: int| 0 <= i < j < t.len() implies t[i] != t[j] by {
            let si = if i < p { i } else { i + 1 };
            let sj = if j < p { j } else { j + 1 };
            assert(t[i] == s[si] && t[j] == s[sj]);
        }
        assert forall|i: int| 0 <= i < t.len() implies t[i] < (k - 1) as nat by {
            let si = if i < p { i } else { i + 1 };
            assert(t[i] == s[si]);
            assert(si != p);
        }
        lemma_distinct_bound(t, (k - 1) as nat);
    } else {
        lemma_distinct_bound(s, (k - 1) as nat);
    }
}

/// In a stable order, positions whose keys are equal enclose only that key.
pub proof fn lemma_sorted_between(kv: Seq<Seq<u64>>, perm: Seq<usize>, p: int, r: int, q: int)
    requires
        stably_sorted(kv, perm),
        forall|i: int| 0 <= i < perm.len() ==> #[trigger] perm[i] < kv.len(),
        0 <= p <= r <= q < perm.len(),
        kv[perm[p] as int] == kv[perm[q] as int],
    ensures
        kv[perm[r] as int] == kv[perm[p] as int],
{
    let a = kv[perm[p] as int];
    let b = kv[perm[r] as int];
    if p < r && r < q {
        assert(lex_lt(a, b) || a == b);
        assert(lex_lt(b, a) || b == a);
        if lex_lt(a, b) {
            if lex_lt(b, a) {
                lemma_lex_transitive(a, b, a);
                lemma_lex_irreflexive(a);
            }
        }
    } else if p < r && r == q {
    } else {
    }
}

/// The first element of a key orders keys first.
pub proof fn lemma_lex_first(a: Seq<u64>, b: Seq<u64>)
    requires
        lex_lt(a, b) || a == b,
        a.len() > 0,
        b.len() > 0,
    ensures
        a[0] <= b[0],
{
}

/// Whether two keys are equal.
pub fn same_key_text(a: &Vec<u64>, b: &Vec<u64>) -> (r: bool)
    ensures
        r == (a@ == b@),
{
    if a.len() != b.len() {
        return false;
    }
    let mut i: usize = 0;
    while i < a.len()
        invariant
            i <= a.len(),
            a.len() == b.len(),
            forall|k: int| 0 <= k < i ==> a@[k] == b@[k],
        decreases a.len() - i,
    {
        if a[i] != b[i] {
            return false;
        }
        i = i + 1;
    }
    assert(a@ =~= b@);
    true
}

/// For each index, whether some other index has the same key.
pub fn twins(keys: &Vec<Vec<u64>>) -> (r: Vec<bool>)
    ensures
        r.len() == keys.len(),
        forall|i: int|
            0 <= i < keys.len() ==> #[trigger] r[i] == exists|j: int|
                0 <= j < keys.len() && j != i && keys[j]@ == keys[i]@,
{
    let ghost kv = key_views(keys@);
    let n = keys.len();
    let perm = sort_order(keys);
    let mut r: Vec<bool> = Vec::new();
    let mut z: usize = 0;
    while z < n
        invariant
            z <= n,
            r.len() == z,
        decreases n - z,
    {
        r.push(false);
        z = z + 1;
    }
    let mut p: usize = 0;
    while p < n
        invariant
            n == keys.len(),
            kv == key_views(keys@),
            is_permutation(perm@, n as nat),
            stably_sorted(kv, perm@),
            r.len() == n,
            p <= n,
            forall|q: int|
                0 <= q < p ==> #[trigger] r[perm[q] as int] == ((q > 0 && kv[perm[q - 1] as int]
                    == kv[perm[q] as int]) || (q + 1 < n && kv[perm[q + 1] as int] == kv[perm[q] as int])),
        decreases n - p,
    {
        let here = &keys[perm[p]];
        let prev = p > 0 && same_key_text(&keys[perm[p - 1]], here);
        let next = p + 1 < n && same_key_text(&keys[perm[p + 1]], here);
        proof {
            assert(kv[perm[p as int] as int] == keys@[perm[p as int] as int]@);
            if p > 0 {
                assert(kv[perm[p - 1] as int] == keys@[perm[p - 1] as int]@);
            }
            if p + 1 < n {
                assert(kv[perm[p + 1] as int] == keys@[perm[p + 1] as int]@);
            }
        }
        let ghost old_r = r@;
        r.set(perm[p], prev || next);
        proof {
            assert forall|q: int|
                0 <= q < p + 1 implies #[trigger] r[perm[q] as int] == ((q > 0 && kv[perm[q - 1] as int]
                    == kv[perm[q] as int]) || (q + 1 < n && kv[perm[q + 1] as int] == kv[perm[q] as int])) by {
                if q < p {
                    assert(perm[q] != perm[p as int]);
                    assert(r[perm[q] as int] == old_r[perm[q] as int]);
                }
            }
        }
        p = p + 1;
    }
    proof {
        assert forall|i: int| 0 <= i < n implies #[trigger] r[i] == exists|j: int|
            0 <= j < keys.len() && j != i && keys[j]@ == keys[i]@ by {
            let q = lemma_permutation_onto(perm@, n as nat, i);
            assert(kv[i] == keys@[i]@);
            if exists|j: int| 0 <= j < keys.len() && j != i && keys[j]@ == keys[i]@ {
                let j = choose|j: int| 0 <= j < keys.len() && j != i && keys[j]@ == keys[i]@;
                let qj = lemma_permutation_onto(perm@, n as nat, j);
                assert(kv[j] == keys@[j]@);
                if qj > q {
                    lemma_sorted_between(kv, perm@, q, q + 1, qj);
                } else {
                    lemma_sorted_between(kv, perm@, qj, q - 1, q);
                    lemma_sorted_between(kv, perm@, qj, q, q);
                }
            } else {
                if q > 0 {
                    assert(kv[perm[q - 1] as int] == keys@[perm[q - 1] as int]@);
                    assert(perm[q - 1] != i);
                }
                if q + 1 < n {
                    assert(kv[perm[q + 1] as int] == keys@[perm[q + 1] as int]@);
                    assert(perm[q + 1] != i);
                }
            }
        }
    }
    r
}

} // verus!
