//! Character-level string helpers with their specifications.
use vstd::prelude::*;

verus! {

/// The character for a decimal digit `d` (`0..=9`).
pub open spec fn digit_char(d: int) -> char {
    ((48 + d) as u8) as char
}

/// Decimal digits of `n`, most significant first, no leading zeros.
pub open spec fn decimal(n: nat) -> Seq<char>
    decreases n,
{
    if n < 10 {
        seq![digit_char(n as int)]
    } else {
        decimal(n / 10).push(digit_char((n % 10) as int))
    }
}

/// `n` in decimal, left-padded with zeros to at least `width` digits.
pub open spec fn zero_padded(n: nat, width: nat) -> Seq<char> {
    let d = decimal(n);
    if d.len() >= width {
        d
    } else {
        Seq::new((width - d.len()) as nat, |_i: int| '0') + d
    }
}

/// Characters of a string, in order.
pub fn chars_of(s: &str) -> (v: Vec<char>)
    ensures
        v@ == s@,
{
    let mut v: Vec<char> = Vec::new();
    for c in it: s.chars()
        invariant
            v@ == it.seq().take(it.index() as int),
            it.seq() == s@,
    {
        v.push(c);
    }
    v
}

/// Appends one character (`String::push`).
#[verifier::external_body]
pub(crate) fn push_char(s: &mut String, c: char)
    ensures
        final(s)@ == old(s)@.push(c),
{
    s.push(c);
}

/// A `String` holding the given characters.
pub fn string_of(v: &Vec<char>) -> (s: String)
    ensures
        s@ == v@,
{
    let mut s = String::new();
    let mut i: usize = 0;
    while i < v.len()
        invariant
            i <= v.len(),
            s@ == v@.take(i as int),
        decreases v.len() - i,
    {
        push_char(&mut s, v[i]);
        assert(v@.take(i + 1) =~= v@.take(i as int).push(v@[i as int]));
        i = i + 1;
    }
    assert(v@.take(v.len() as int) =~= v@);
    s
}

/// The decimal digits of `n`.
pub fn decimal_chars(n: u64) -> (v: Vec<char>)
    ensures
        v@ == decimal(n as nat),
    decreases n,
{
    let d: u8 = (n % 10) as u8;
    let c: char = (48u8 + d) as char;
    if n < 10 {
        let mut v: Vec<char> = Vec::new();
        v.push(c);
        v
    } else {
        let mut v = decimal_chars(n / 10);
        v.push(c);
        v
    }
}


/// `p` is a prefix of `s`.
pub open spec fn has_prefix(s: Seq<char>, p: Seq<char>) -> bool {
    p.len() <= s.len() && s.take(p.len() as int) == p
}

/// `p` is a suffix of `s`.
pub open spec fn has_suffix(s: Seq<char>, p: Seq<char>) -> bool {
    p.len() <= s.len() && s.skip(s.len() - p.len()) == p
}

/// `t` occurs at position `i` of `s`.
pub open spec fn occurs_at(s: Seq<char>, t: Seq<char>, i: int) -> bool {
    0 <= i && i + t.len() <= s.len() && s.subrange(i, i + t.len()) == t
}

/// `t` occurs somewhere in `s`.
pub open spec fn contains_seq(s: Seq<char>, t: Seq<char>) -> bool {
    exists|i: int| occurs_at(s, t, i)
}

/// Whether `s` starts with `p`.
pub fn starts_with(s: &Vec<char>, p: &Vec<char>) -> (r: bool)
    ensures
        r == has_prefix(s@, p@),
{
    if p.len() > s.len() {
        return false;
    }
    let mut i: usize = 0;
    while i < p.len()
        invariant
            p.len() <= s.len(),
            i <= p.len(),
            forall|k: int| 0 <= k < i ==> s@[k] == p@[k],
        decreases p.len() - i,
    {
        if s[i] != p[i] {
            assert(s@.take(p.len() as int)[i as int] != p@[i as int]);
            return false;
        }
        i = i + 1;
    }
    assert(s@.take(p.len() as int) =~= p@);
    true
}

/// Whether `t` occurs at position `i` of `s`.
pub fn matches_at(s: &Vec<char>, t: &Vec<char>, i: usize) -> (r: bool)
    ensures
        r == occurs_at(s@, t@, i as int),
{
    if i > s.len() || t.len() > s.len() - i {
        return false;
    }
    let mut k: usize = 0;
    while k < t.len()
        invariant
            i + t.len() <= s.len(),
            k <= t.len(),
            forall|j: int| 0 <= j < k ==> s@[i + j] == t@[j],
        decreases t.len() - k,
    {
        if s[i + k] != t[k] {
            assert(s@.subrange(i as int, i + t.len())[k as int] != t@[k as int]);
            return false;
        }
        k = k + 1;
    }
    assert(s@.subrange(i as int, i + t.len()) =~= t@);
    true
}

/// Whether `s` ends with `p`.
pub fn ends_with(s: &Vec<char>, p: &Vec<char>) -> (r: bool)
    ensures
        r == has_suffix(s@, p@),
{
    if p.len() > s.len() {
        return false;
    }
    let r = matches_at(s, p, s.len() - p.len());
    assert(s@.subrange(s.len() - p.len(), s.len() as int) =~= s@.skip(s.len() - p.len()));
    r
}

/// Whether `t` occurs anywhere in `s`.
pub fn contains(s: &Vec<char>, t: &Vec<char>) -> (r: bool)
    ensures
        r == contains_seq(s@, t@),
{
    if t.len() == 0 {
        assert(s@.subrange(0, 0) =~= t@);
        assert(occurs_at(s@, t@, 0));
        return true;
    }
    if t.len() > s.len() {
        assert forall|j: int| !occurs_at(s@, t@, j) by {}
        return false;
    }
    let mut i: usize = 0;
    while i <= s.len() - t.len()
        invariant
            0 < t.len() <= s.len(),
            i <= s.len() - t.len() + 1,
            forall|j: int| 0 <= j < i ==> !occurs_at(s@, t@, j),
        decreases s.len() - t.len() + 1 - i,
    {
        if matches_at(s, t, i) {
            return true;
        }
        i = i + 1;
    }
    assert forall|j: int| !occurs_at(s@, t@, j) by {
        if 0 <= j && j + t@.len() <= s@.len() {
            assert(j < i);
        }
    }
    false
}

/// The last position at which `t` occurs in `s`, if any.
pub open spec fn last_occurrence(s: Seq<char>, t: Seq<char>) -> Option<int> {
    if contains_seq(s, t) {
        Some(choose|i: int| occurs_at(s, t, i) && forall|j: int| occurs_at(s, t, j) ==> j <= i)
    } else {
        None
    }
}

/// The last position at which `t` occurs in `s` (`str::rfind`, counted in characters).
pub fn rfind(s: &Vec<char>, t: &Vec<char>) -> (r: Option<usize>)
    ensures
        match r {
            Some(i) => occurs_at(s@, t@, i as int) && forall|j: int| occurs_at(s@, t@, j) ==> j <= i,
            None => !contains_seq(s@, t@),
        },
        r matches Some(i) ==> last_occurrence(s@, t@) == Some(i as int),
        r is None ==> last_occurrence(s@, t@) is None,
{
    if t.len() > s.len() {
        assert forall|j: int| !occurs_at(s@, t@, j) by {}
        return None;
    }
    if t.len() == 0 {
        let k = s.len();
        proof {
            assert(s@.subrange(k as int, k as int) =~= t@);
            assert(occurs_at(s@, t@, k as int));
            let c = choose|c: int| occurs_at(s@, t@, c) && forall|j: int| occurs_at(s@, t@, j) ==> j <= c;
            assert(c <= k && k <= c);
        }
        return Some(k);
    }
    let mut i: usize = s.len() - t.len() + 1;
    while i > 0
        invariant
            t.len() <= s.len(),
            i <= s.len() - t.len() + 1,
            forall|j: int| i <= j && #[trigger] occurs_at(s@, t@, j) ==> false,
        decreases i,
    {
        if matches_at(s, t, i - 1) {
            let k = i - 1;
            proof {
                assert forall|j: int| occurs_at(s@, t@, j) implies j <= k by {
                    if j > k {
                        assert(i <= j);
                    }
                }
                let c = choose|c: int| occurs_at(s@, t@, c) && forall|j: int| occurs_at(s@, t@, j) ==> j <= c;
                assert(occurs_at(s@, t@, k as int));
                assert(c <= k && k <= c);
            }
            return Some(k);
        }
        i = i - 1;
    }
    None
}

/// `s` with every non-overlapping occurrence of the non-empty `pat`, scanned
/// left to right, replaced by `rep` (`str::replace`).
pub open spec fn replaced(s: Seq<char>, pat: Seq<char>, rep: Seq<char>) -> Seq<char>
    decreases s.len(),
{
    if s.len() == 0 || pat.len() == 0 {
        s
    } else if has_prefix(s, pat) {
        rep + replaced(s.skip(pat.len() as int), pat, rep)
    } else {
        seq![s[0]] + replaced(s.skip(1), pat, rep)
    }
}

/// `s` with each occurrence of `pat` replaced by `rep`.
pub fn replace_all(s: &Vec<char>, pat: &Vec<char>, rep: &Vec<char>) -> (r: Vec<char>)
    requires
        pat.len() > 0,
    ensures
        r@ == replaced(s@, pat@, rep@),
{
    let mut out: Vec<char> = Vec::new();
    let mut i: usize = 0;
    assert(s@.skip(0) =~= s@);
    while i < s.len()
        invariant
            i <= s.len(),
            pat.len() > 0,
            replaced(s@, pat@, rep@) == out@ + replaced(s@.skip(i as int), pat@, rep@),
        decreases s.len() - i,
    {
        let ghost rest = s@.skip(i as int);
        if matches_at(s, pat, i) {
            assert(rest.take(pat.len() as int) =~= s@.subrange(i as int, i + pat.len()));
            assert(rest.skip(pat.len() as int) =~= s@.skip(i + pat.len()));
            let mut k: usize = 0;
            let ghost before = out@;
            while k < rep.len()
                invariant
                    k <= rep.len(),
                    out@ == before + rep@.take(k as int),
                decreases rep.len() - k,
            {
                out.push(rep[k]);
                assert(rep@.take(k + 1) =~= rep@.take(k as int).push(rep@[k as int]));
                k = k + 1;
            }
            assert(rep@.take(rep.len() as int) =~= rep@);
            assert(out@ + replaced(s@.skip(i + pat.len()), pat@, rep@) =~= before + (rep@
                + replaced(s@.skip(i + pat.len()), pat@, rep@)));
            i = i + pat.len();
        } else {
            proof {
                if has_prefix(rest, pat@) {
                    assert(rest.take(pat.len() as int) =~= s@.subrange(i as int, i + pat.len()));
                }
            }
            assert(rest.skip(1) =~= s@.skip(i + 1));
            let ghost before = out@;
            out.push(s[i]);
            assert(out@ + replaced(s@.skip(i + 1), pat@, rep@) =~= before + (seq![s@[i as int]]
                + replaced(s@.skip(i + 1), pat@, rep@)));
            i = i + 1;
        }
    }
    assert(s@.skip(s.len() as int) =~= Seq::<char>::empty());
    assert(out@ + Seq::<char>::empty() =~= out@);
    out
}

/// Appends all of `t` to `v`.
pub fn append_chars(v: &mut Vec<char>, t: &Vec<char>)
    ensures
        final(v)@ == old(v)@ + t@,
{
    let mut k: usize = 0;
    let ghost before = v@;
    while k < t.len()
        invariant
            k <= t.len(),
            v@ == before + t@.take(k as int),
        decreases t.len() - k,
    {
        v.push(t[k]);
        assert(t@.take(k + 1) =~= t@.take(k as int).push(t@[k as int]));
        k = k + 1;
    }
    assert(t@.take(t.len() as int) =~= t@);
}

/// Appends the characters of `t` to `v`.
pub fn append_str(v: &mut Vec<char>, t: &str)
    ensures
        final(v)@ == old(v)@ + t@,
{
    let c = chars_of(t);
    append_chars(v, &c);
}

/// The characters of `t`, as a new vector.
pub fn vec_of(t: &str) -> (v: Vec<char>)
    ensures
        v@ == t@,
{
    chars_of(t)
}

/// Whether two character vectors are equal.
pub fn same_chars(a: &Vec<char>, b: &Vec<char>) -> (r: bool)
    ensures
        r == (a@ == b@),
{
    if a.len() != b.len() {
        return false;
    }
    let r = starts_with(a, b);
    assert(a@.take(b.len() as int) =~= a@);
    r
}

/// `s` with its first `n` characters.
pub fn take_chars(s: &Vec<char>, n: usize) -> (r: Vec<char>)
    requires
        n <= s.len(),
    ensures
        r@ == s@.take(n as int),
{
    let mut r: Vec<char> = Vec::new();
    let mut i: usize = 0;
    while i < n
        invariant
            n <= s.len(),
            i <= n,
            r@ == s@.take(i as int),
        decreases n - i,
    {
        r.push(s[i]);
        assert(s@.take(i + 1) =~= s@.take(i as int).push(s@[i as int]));
        i = i + 1;
    }
    r
}

/// `s` without its first `n` characters.
pub fn skip_chars(s: &Vec<char>, n: usize) -> (r: Vec<char>)
    requires
        n <= s.len(),
    ensures
        r@ == s@.skip(n as int),
{
    let mut r: Vec<char> = Vec::new();
    let mut i: usize = n;
    while i < s.len()
        invariant
            n <= i <= s.len(),
            r@ == s@.subrange(n as int, i as int),
        decreases s.len() - i,
    {
        r.push(s[i]);
        assert(s@.subrange(n as int, i + 1) =~= s@.subrange(n as int, i as int).push(s@[i as int]));
        i = i + 1;
    }
    assert(s@.subrange(n as int, s.len() as int) =~= s@.skip(n as int));
    r
}

/// `char::is_whitespace`: the Unicode `White_Space` characters.
pub open spec fn is_white(c: char) -> bool {
    ||| ('\t' <= c <= '\r')
    ||| c == ' '
    ||| c == '\u{85}'
    ||| c == '\u{a0}'
    ||| c == '\u{1680}'
    ||| ('\u{2000}' <= c <= '\u{200a}')
    ||| c == '\u{2028}'
    ||| c == '\u{2029}'
    ||| c == '\u{202f}'
    ||| c == '\u{205f}'
    ||| c == '\u{3000}'
}

/// `s` without trailing whitespace (`str::trim_end`).
pub open spec fn trimmed_end(s: Seq<char>) -> Seq<char>
    decreases s.len(),
{
    if s.len() > 0 && is_white(s.last()) {
        trimmed_end(s.drop_last())
    } else {
        s
    }
}

/// Whether `c` is white space.
pub fn white(c: char) -> (r: bool)
    ensures
        r == is_white(c),
{
    ('\t' <= c && c <= '\r') || c == ' ' || c == '\u{85}' || c == '\u{a0}' || c == '\u{1680}'
        || ('\u{2000}' <= c && c <= '\u{200a}') || c == '\u{2028}' || c == '\u{2029}' || c
        == '\u{202f}' || c == '\u{205f}' || c == '\u{3000}'
}

/// `s` without its trailing white space.
pub fn trim_end(s: &Vec<char>) -> (r: Vec<char>)
    ensures
        r@ == trimmed_end(s@),
{
    let mut n: usize = s.len();
    assert(s@.take(n as int) =~= s@);
    while n > 0 && white(s[n - 1])
        invariant
            n <= s.len(),
            trimmed_end(s@) == trimmed_end(s@.take(n as int)),
        decreases n,
    {
        assert(s@.take(n as int).drop_last() =~= s@.take(n - 1));
        n = n - 1;
    }
    proof {
        if n == s.len() {
            assert(s@.take(n as int) =~= s@);
        }
    }
    take_chars(s, n)
}

/// An ASCII decimal digit.
pub open spec fn is_digit(c: char) -> bool {
    '0' <= c <= '9'
}

/// The number written by the decimal digits `s`.
pub open spec fn digits_value(s: Seq<char>) -> nat
    decreases s.len(),
{
    if s.len() == 0 {
        0
    } else {
        digits_value(s.drop_last()) * 10 + (s.last() as nat - 48) as nat
    }
}

/// `str::parse::<u32>` succeeds on `s`: an optional `+`, then one or more
/// decimal digits whose value fits in a `u32`.
pub open spec fn parses_as_u32(s: Seq<char>) -> bool {
    let d = unsigned_digits(s);
    &&& d.len() > 0
    &&& forall|i: int| 0 <= i < d.len() ==> is_digit(#[trigger] d[i])
    &&& digits_value(d) <= u32::MAX
}

/// The digit part of a number: `s` without one leading `+`.
pub open spec fn unsigned_digits(s: Seq<char>) -> Seq<char> {
    if s.len() > 0 && s[0] == '+' {
        s.drop_first()
    } else {
        s
    }
}

/// Whether `s` reads as a `u32`.
pub fn is_u32(s: &Vec<char>) -> (r: bool)
    ensures
        r == parses_as_u32(s@),
{
    let start: usize = if s.len() > 0 && s[0] == '+' {
        1
    } else {
        0
    };
    let ghost d = unsigned_digits(s@);
    assert(d =~= s@.skip(start as int));
    if start >= s.len() {
        return false;
    }
    let mut value: u64 = 0;
    let mut i: usize = start;
    while i < s.len()
        invariant
            start <= i <= s.len(),
            d == unsigned_digits(s@),
            d =~= s@.skip(start as int),
            value <= u32::MAX,
            value == digits_value(d.take(i - start)),
            forall|k: int| 0 <= k < i - start ==> is_digit(#[trigger] d[k]),
        decreases s.len() - i,
    {
        let c = s[i];
        if !('0' <= c && c <= '9') {
            assert(d[i - start] == c);
            assert(!is_digit(d[i - start]));
            return false;
        }
        let digit: u64 = (c as u32 - 48) as u64;
        assert(d.take(i + 1 - start).drop_last() =~= d.take(i - start));
        assert(d.take(i + 1 - start).last() == c);
        let next: u64 = value * 10 + digit;
        if next > 4294967295 {
            proof {
                if forall|j: int| 0 <= j < d.len() ==> is_digit(#[trigger] d[j]) {
                    lemma_digits_value_grows(d, (i + 1 - start) as int);
                }
            }
            return false;
        }
        value = next;
        i = i + 1;
    }
    assert(d.take(s.len() - start) =~= d);
    true
}

/// Extending a digit string never makes its value smaller.
pub proof fn lemma_digits_value_grows(d: Seq<char>, k: int)
    requires
        0 <= k <= d.len(),
        forall|i: int| 0 <= i < d.len() ==> is_digit(#[trigger] d[i]),
    ensures
        digits_value(d) >= digits_value(d.take(k)),
    decreases d.len() - k,
{
    if k < d.len() {
        lemma_digits_value_grows(d, k + 1);
        assert(d.take(k + 1).drop_last() =~= d.take(k));
        assert(is_digit(d[k]));
    } else {
        assert(d.take(k) =~= d);
    }
}

/// ASCII upper-case letters lowered; everything else unchanged.
pub open spec fn ascii_lower(c: char) -> char {
    if 'A' <= c <= 'Z' {
        ((c as u32) + 32) as char
    } else {
        c
    }
}

/// `s` with ASCII letters lowered.
pub open spec fn ascii_lowered(s: Seq<char>) -> Seq<char> {
    Seq::new(s.len(), |i: int| ascii_lower(s[i]))
}

/// Whether `s` ends with `suffix` (all lower-case ASCII) ignoring ASCII case.
pub fn ends_with_ascii_ci(s: &Vec<char>, suffix: &Vec<char>) -> (r: bool)
    ensures
        r == has_suffix(ascii_lowered(s@), suffix@),
{
    if suffix.len() > s.len() {
        return false;
    }
    let base = s.len() - suffix.len();
    let mut k: usize = 0;
    while k < suffix.len()
        invariant
            base + suffix.len() == s.len(),
            k <= suffix.len(),
            forall|j: int| 0 <= j < k ==> ascii_lower(s@[base + j]) == suffix@[j],
        decreases suffix.len() - k,
    {
        let c = s[base + k];
        let lc: char = if 'A' <= c && c <= 'Z' {
            ((c as u8) + 32) as char
        } else {
            c
        };
        assert(lc == ascii_lower(c)) by {
            if 'A' <= c && c <= 'Z' {
                assert((c as u8) as u32 == c as u32);
            }
        }
        if lc != suffix[k] {
            assert(ascii_lowered(s@).skip(base as int)[k as int] != suffix@[k as int]);
            return false;
        }
        k = k + 1;
    }
    assert(ascii_lowered(s@).skip(base as int) =~= suffix@);
    true
}

/// The lower-case form of `s` (`str::to_lowercase`, full Unicode case mapping).
pub uninterp spec fn lowercase(s: Seq<char>) -> Seq<char>;

/// Calls `str::to_lowercase`. Its result is named by `lowercase`, a function of
/// the input alone; nothing more of the Unicode case mapping is stated.
#[verifier::external_body]
pub(crate) fn to_lowercase(s: &str) -> (r: String)
    ensures
        r@ == lowercase(s@),
{
    s.to_lowercase()
}

/// Ordering weight of a character; with `slash_first`, `/` sorts before every
/// other character, which orders paths component by component.
pub open spec fn char_rank(c: char, slash_first: bool) -> u64 {
    if slash_first && c == '/' {
        0
    } else {
        ((c as u32) + 1) as u64
    }
}

/// The sort key of a text.
pub open spec fn text_key(s: Seq<char>, slash_first: bool) -> Seq<u64> {
    Seq::new(s.len(), |i: int| char_rank(s[i], slash_first))
}

/// Appends the sort key of `s` to `key`.
pub fn push_text_key(key: &mut Vec<u64>, s: &Vec<char>, slash_first: bool)
    ensures
        final(key)@ == old(key)@ + text_key(s@, slash_first),
{
    let ghost before = key@;
    let mut i: usize = 0;
    while i < s.len()
        invariant
            i <= s.len(),
            key@ == before + text_key(s@, slash_first).take(i as int),
        decreases s.len() - i,
    {
        let c = s[i];
        let r: u64 = if slash_first && c == '/' {
            0
        } else {
            (c as u32) as u64 + 1
        };
        assert(r == char_rank(c, slash_first));
        key.push(r);
        assert(text_key(s@, slash_first).take(i + 1) =~= text_key(s@, slash_first).take(
            i as int,
        ).push(r));
        i = i + 1;
    }
    assert(text_key(s@, slash_first).take(s.len() as int) =~= text_key(s@, slash_first));
}

/// `n` in decimal with at least `width` digits.
pub fn zero_padded_chars(n: u64, width: usize) -> (v: Vec<char>)
    ensures
        v@ == zero_padded(n as nat, width as nat),
{
    let d = decimal_chars(n);
    if d.len() >= width {
        return d;
    }
    let mut v: Vec<char> = Vec::new();
    let pad = width - d.len();
    let mut i: usize = 0;
    while i < pad
        invariant
            i <= pad,
            v@ == Seq::new(i as nat, |_i: int| '0'),
        decreases pad - i,
    {
        v.push('0');
        assert(v@ =~= Seq::new((i + 1) as nat, |_i: int| '0'));
        i = i + 1;
    }
    append_chars(&mut v, &d);
    v
}

/// Decimal form of a signed integer (`to_string`).
pub open spec fn signed_decimal(n: int) -> Seq<char> {
    if n < 0 {
        seq!['-'] + decimal((-n) as nat)
    } else {
        decimal(n as nat)
    }
}

/// The decimal form of `n`.
pub fn signed_decimal_chars(n: i64) -> (v: Vec<char>)
    ensures
        v@ == signed_decimal(n as int),
{
    if n < 0 {
        let m: u64 = if n == i64::MIN {
            9223372036854775808u64
        } else {
            (-n) as u64
        };
        let mut v: Vec<char> = Vec::new();
        v.push('-');
        let d = decimal_chars(m);
        append_chars(&mut v, &d);
        v
    } else {
        decimal_chars(n as u64)
    }
}

/// Different texts have different sort keys.
pub proof fn lemma_text_key_injective(a: Seq<char>, b: Seq<char>, slash_first: bool)
    ensures
        text_key(a, slash_first) == text_key(b, slash_first) ==> a == b,
{
    if text_key(a, slash_first) == text_key(b, slash_first) {
        assert(a.len() == text_key(a, slash_first).len());
        assert(a.len() == b.len());
        assert forall|i: int| 0 <= i < a.len() implies a[i] == b[i] by {
            assert(text_key(a, slash_first)[i] == text_key(b, slash_first)[i]);
            if slash_first && (a[i] == '/' || b[i] == '/') {
                assert(a[i] == '/' && b[i] == '/');
            } else {
                assert((a[i] as u32) == (b[i] as u32));
                vstd::utf8::char_u32_cast(a[i], a[i] as u32);
                vstd::utf8::char_u32_cast(b[i], b[i] as u32);
            }
        }
        assert(a =~= b);
    }
}

} // verus!
