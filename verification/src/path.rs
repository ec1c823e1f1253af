//! Paths as text: `/`-separated components, as produced by joining names onto
//! a root. These follow `std::path` on such paths; a path is never normalised
//! here, so `a//b` or a trailing `/` are taken literally.
use vstd::prelude::*;
use crate::text::{append_chars, has_prefix, same_chars, skip_chars, starts_with, take_chars};

verus! {

/// Index of the last `/` in `p`, or -1.
pub open spec fn last_index_of(p: Seq<char>, c: char) -> int
    decreases p.len(),
{
    if p.len() == 0 {
        -1
    } else if p.last() == c {
        p.len() - 1
    } else {
        last_index_of(p.drop_last(), c)
    }
}

pub proof fn lemma_last_index_of(p: Seq<char>, c: char)
    ensures
        -1 <= last_index_of(p, c) < p.len(),
        last_index_of(p, c) >= 0 ==> p[last_index_of(p, c)] == c,
        forall|j: int| last_index_of(p, c) < j < p.len() ==> p[j] != c,
    decreases p.len(),
{
    if p.len() > 0 && p.last() != c {
        lemma_last_index_of(p.drop_last(), c);
        assert forall|j: int| last_index_of(p, c) < j < p.len() implies p[j] != c by {
            if j < p.len() - 1 {
                assert(p[j] == p.drop_last()[j]);
            }
        }
    }
}

/// The last component of `p` (`Path::file_name`): `None` for an empty last
/// component, `.` or `..`.
pub open spec fn file_name(p: Seq<char>) -> Option<Seq<char>> {
    let n = p.skip(last_index_of(p, '/') + 1);
    if n.len() == 0 || n == seq!['.'] || n == seq!['.', '.'] {
        None
    } else {
        Some(n)
    }
}

/// `p` without its last component (`Path::parent`).
pub open spec fn parent(p: Seq<char>) -> Option<Seq<char>> {
    let k = last_index_of(p, '/');
    if p.len() == 0 || p == seq!['/'] {
        None
    } else if k < 0 {
        Some(Seq::empty())
    } else if k == 0 {
        Some(seq!['/'])
    } else {
        Some(p.take(k))
    }
}

/// A parent is shorter than its path.
pub proof fn lemma_parent_shorter(p: Seq<char>)
    ensures
        parent(p) matches Some(q) ==> q.len() < p.len(),
{
    lemma_last_index_of(p, '/');
    let k = last_index_of(p, '/');
    if p.len() == 1 && k == 0 {
        assert(p =~= seq!['/']);
    }
}

/// `a` joined with `b` (`Path::join`): an absolute `b` replaces `a`.
pub open spec fn join(a: Seq<char>, b: Seq<char>) -> Seq<char> {
    if b.len() > 0 && b[0] == '/' {
        b
    } else if a.len() == 0 {
        b
    } else if a.last() == '/' {
        a + b
    } else {
        a + seq!['/'] + b
    }
}

/// `p` lies at or below `root`, compared component by component (`Path::starts_with`).
pub open spec fn within(p: Seq<char>, root: Seq<char>) -> bool {
    ||| root.len() == 0
    ||| p == root
    ||| (has_prefix(p, root) && root.len() < p.len() && (root.last() == '/' || p[root.len() as int]
        == '/'))
}

/// Stem and extension of a file name (`Path::file_stem` / `Path::extension`):
/// split at the last `.`, unless that dot is the first character.
pub open spec fn split_name(n: Seq<char>) -> (Seq<char>, Option<Seq<char>>) {
    let k = last_index_of(n, '.');
    if n == seq!['.', '.'] || k <= 0 {
        (n, None)
    } else {
        (n.take(k), Some(n.skip(k + 1)))
    }
}

/// The stem of a file name.
pub open spec fn name_stem(n: Seq<char>) -> Seq<char> {
    split_name(n).0
}

/// The extension of a file name.
pub open spec fn name_extension(n: Seq<char>) -> Option<Seq<char>> {
    split_name(n).1
}

/// Index of the last `c` in `p`, or `None`.
pub fn last_index(p: &Vec<char>, c: char) -> (r: Option<usize>)
    ensures
        match r {
            Some(i) => i == last_index_of(p@, c) && i < p.len(),
            None => last_index_of(p@, c) == -1,
        },
{
    let mut n: usize = p.len();
    assert(p@.take(n as int) =~= p@);
    while n > 0
        invariant
            n <= p.len(),
            last_index_of(p@, c) == last_index_of(p@.take(n as int), c),
        decreases n,
    {
        if p[n - 1] == c {
            return Some(n - 1);
        }
        assert(p@.take(n as int).drop_last() =~= p@.take(n - 1));
        n = n - 1;
    }
    None
}

/// The last component of `p`.
pub fn file_name_of(p: &Vec<char>) -> (r: Option<Vec<char>>)
    ensures
        r matches Some(v) ==> file_name(p@) == Some(v@),
        r is None ==> file_name(p@) is None,
{
    proof {
        lemma_last_index_of(p@, '/');
    }
    let start: usize = match last_index(p, '/') {
        Some(i) => i + 1,
        None => 0,
    };
    let n = skip_chars(p, start);
    if n.len() == 0 || (n.len() == 1 && n[0] == '.') || (n.len() == 2 && n[0] == '.' && n[1] == '.') {
        proof {
            if n.len() == 1 {
                assert(n@ =~= seq!['.']);
            }
            if n.len() == 2 {
                assert(n@ =~= seq!['.', '.']);
            }
        }
        None
    } else {
        proof {
            if n@ == seq!['.'] {
                assert(n@.len() == 1);
            }
        }
        Some(n)
    }
}

/// `p` without its last component.
pub fn parent_of(p: &Vec<char>) -> (r: Option<Vec<char>>)
    ensures
        r matches Some(v) ==> parent(p@) == Some(v@),
        r is None ==> parent(p@) is None,
{
    proof {
        lemma_last_index_of(p@, '/');
    }
    if p.len() == 0 || (p.len() == 1 && p[0] == '/') {
        proof {
            if p.len() == 1 {
                assert(p@ =~= seq!['/']);
            }
        }
        return None;
    }
    proof {
        if p@ == seq!['/'] {
            assert(p@.len() == 1);
        }
    }
    match last_index(p, '/') {
        None => Some(Vec::new()),
        Some(0) => {
            let mut v: Vec<char> = Vec::new();
            v.push('/');
            assert(v@ =~= seq!['/']);
            Some(v)
        },
        Some(k) => Some(take_chars(p, k)),
    }
}

/// `a` joined with `b`.
pub fn join_path(a: &Vec<char>, b: &Vec<char>) -> (r: Vec<char>)
    ensures
        r@ == join(a@, b@),
{
    if b.len() > 0 && b[0] == '/' {
        let mut r: Vec<char> = Vec::new();
        append_chars(&mut r, b);
        assert(r@ =~= b@);
        r
    } else if a.len() == 0 {
        let mut r: Vec<char> = Vec::new();
        append_chars(&mut r, b);
        assert(r@ =~= b@);
        r
    } else {
        let mut r: Vec<char> = Vec::new();
        append_chars(&mut r, a);
        if a[a.len() - 1] != '/' {
            r.push('/');
        }
        append_chars(&mut r, b);
        proof {
            assert(Seq::<char>::empty() + a@ =~= a@);
        }
        r
    }
}

/// Whether `p` lies at or below `root`.
pub fn is_within(p: &Vec<char>, root: &Vec<char>) -> (r: bool)
    ensures
        r == within(p@, root@),
{
    if root.len() == 0 {
        return true;
    }
    if same_chars(p, root) {
        return true;
    }
    if root.len() < p.len() && starts_with(p, root) {
        root[root.len() - 1] == '/' || p[root.len()] == '/'
    } else {
        false
    }
}

/// Stem and extension of a file name.
pub fn split_file_name(n: &Vec<char>) -> (r: (Vec<char>, Option<Vec<char>>))
    ensures
        r.0@ == split_name(n@).0,
        r.1 matches Some(e) ==> split_name(n@).1 == Some(e@),
        r.1 is None ==> split_name(n@).1 is None,
{
    proof {
        lemma_last_index_of(n@, '.');
    }
    let whole = n.len() == 2 && n[0] == '.' && n[1] == '.';
    proof {
        if n.len() == 2 && n[0] == '.' && n[1] == '.' {
            assert(n@ =~= seq!['.', '.']);
        }
        if n@ == seq!['.', '.'] {
            assert(n@.len() == 2);
        }
    }
    match last_index(n, '.') {
        Some(k) => {
            if whole || k == 0 {
                (take_chars(n, n.len()), None)
            } else {
                (take_chars(n, k), Some(skip_chars(n, k + 1)))
            }
        },
        None => (take_chars(n, n.len()), None),
    }
}

} // verus!
