//! Byte counts for people: `1536` becomes `1.5 KB`.
use vstd::prelude::*;
use crate::text::{append_str, decimal, decimal_chars, digit_char, string_of};

verus! {

/// 2 to the power `e`.
pub open spec fn pow2(e: nat) -> nat
    decreases e,
{
    if e == 0 {
        1
    } else {
        2 * pow2((e - 1) as nat)
    }
}

/// 1024 to the power `u`.
pub open spec fn pow1024(u: nat) -> nat
    decreases u,
{
    if u == 0 {
        1
    } else {
        1024 * pow1024((u - 1) as nat)
    }
}

/// Number of binary digits of `n` (0 for 0).
pub open spec fn bit_len(n: nat) -> nat
    decreases n,
{
    if n == 0 {
        0
    } else {
        1 + bit_len(n / 2)
    }
}

/// `n` rounded to the nearest value with at most 53 significant bits, ties to
/// even: the value of `n as f64`.
pub open spec fn as_f64(n: nat) -> nat {
    if bit_len(n) <= 53 {
        n
    } else {
        let e = (bit_len(n) - 53) as nat;
        let q = n / pow2(e);
        let r = n % pow2(e);
        let half = pow2((e - 1) as nat);
        let up = r > half || (r == half && q % 2 == 1);
        (if up { q + 1 } else { q }) * pow2(e)
    }
}

/// The unit a value is shown in: how often it can be divided by 1024 while it
/// stays at least 1024, at most four times (B, KB, MB, GB, TB).
pub open spec fn unit_of(f: nat) -> nat {
    if f >= pow1024(4) {
        4
    } else if f >= pow1024(3) {
        3
    } else if f >= pow1024(2) {
        2
    } else if f >= pow1024(1) {
        1
    } else {
        0
    }
}

/// `f / 1024^u` in tenths, rounded half to even (`{:.1}`).
pub open spec fn tenths(f: nat, u: nat) -> nat {
    let q = (f * 10) / pow1024(u);
    let r = (f * 10) % pow1024(u);
    let half = pow1024(u) / 2;
    if r > half || (r == half && q % 2 == 1) {
        q + 1
    } else {
        q
    }
}

/// The name of unit `u`.
pub open spec fn unit_name(u: nat) -> Seq<char> {
    if u == 0 {
        seq!['B']
    } else if u == 1 {
        seq!['K', 'B']
    } else if u == 2 {
        seq!['M', 'B']
    } else if u == 3 {
        seq!['G', 'B']
    } else {
        seq!['T', 'B']
    }
}

/// How a byte count reads: plain bytes below 1 KB, otherwise the value in the
/// largest unit up to TB with one decimal.
pub open spec fn size_text(bytes: nat) -> Seq<char> {
    let f = as_f64(bytes);
    let u = unit_of(f);
    if u == 0 {
        decimal(bytes) + seq![' ', 'B']
    } else {
        let t = tenths(f, u);
        decimal(t / 10) + seq!['.', digit_char((t % 10) as int), ' '] + unit_name(u)
    }
}

proof fn lemma_pow2_values()
    ensures
        pow2(0) == 1,
        pow2(1) == 2,
        pow2(2) == 4,
        pow2(3) == 8,
        pow2(4) == 16,
        pow2(5) == 32,
        pow2(6) == 64,
        pow2(7) == 128,
        pow2(8) == 256,
        pow2(9) == 512,
        pow2(10) == 1024,
        pow2(11) == 2048,
{
    reveal_with_fuel(pow2, 12);
}

proof fn lemma_pow1024_values()
    ensures
        pow1024(0) == 1,
        pow1024(1) == 1024,
        pow1024(2) == 1048576,
        pow1024(3) == 1073741824,
        pow1024(4) == 1099511627776,
{
    reveal_with_fuel(pow1024, 5);
}

/// `bit_len(n) <= k` exactly when `n < 2^k`.
proof fn lemma_bit_len_bound(n: nat, k: nat)
    ensures
        bit_len(n) <= k <==> n < pow2(k),
    decreases k,
{
    if k == 0 {
        if n > 0 {
            assert(bit_len(n) >= 1);
        }
    } else {
        if n == 0 {
            lemma_pow2_positive(k);
        } else {
            lemma_bit_len_bound(n / 2, (k - 1) as nat);
        }
    }
}

proof fn lemma_pow2_positive(k: nat)
    ensures
        pow2(k) >= 1,
    decreases k,
{
    if k > 0 {
        lemma_pow2_positive((k - 1) as nat);
    }
}

proof fn lemma_pow2_add(a: nat, b: nat)
    ensures
        pow2(a + b) == pow2(a) * pow2(b),
    decreases a,
{
    if a > 0 {
        let a1 = (a - 1) as nat;
        lemma_pow2_add(a1, b);
        let s = (a + b) as nat;
        assert(pow2(s) == 2 * pow2((s - 1) as nat));
        assert((s - 1) as nat == a1 + b);
        assert(pow2(a) == 2 * pow2(a1));
        let x = pow2(a1);
        let y = pow2(b);
        assert(2 * (x * y) == (2 * x) * y) by (nonlinear_arith);
        assert(pow2(s) == 2 * (x * y));
        assert(pow2(a) * pow2(b) == (2 * x) * y);
        assert(pow2(s) == pow2(a) * pow2(b));
    } else {
        assert(pow2(0) == 1);
        assert(a + b == b);
        assert(pow2(a) * pow2(b) == pow2(b));
    }
}

proof fn lemma_pow2_monotone(a: nat, b: nat)
    requires
        a <= b,
    ensures
        pow2(a) <= pow2(b),
    decreases b,
{
    if a < b {
        lemma_pow2_monotone(a, (b - 1) as nat);
        lemma_pow2_positive((b - 1) as nat);
    }
}

proof fn lemma_pow2_53()
    ensures
        pow2(53) == 9007199254740992,
        pow2(64) == 18446744073709551616,
{
    lemma_pow2_values();
    lemma_pow2_add(11, 11);
    lemma_pow2_add(22, 11);
    lemma_pow2_add(33, 11);
    lemma_pow2_add(44, 9);
    lemma_pow2_add(53, 11);
}

/// The value of `n as f64` for a 64-bit `n`, computed exactly.
fn f64_value(n: u64) -> (f: u128)
    ensures
        f == as_f64(n as nat),
        f <= 18446744073709551616,
{
    proof {
        lemma_pow2_values();
        lemma_pow2_53();
    }
    let m: u128 = n as u128;
    if m < 9007199254740992u128 {
        proof {
            lemma_bit_len_bound(n as nat, 53);
        }
        return m;
    }
    // Number of low bits that do not fit in the 53-bit significand.
    let mut e: u32 = 1;
    let mut p: u128 = 2;
    proof {
        lemma_pow2_add(52, 1);
    }
    while m >= p * 9007199254740992u128
        invariant
            1 <= e <= 11,
            p == pow2(e as nat),
            p <= 2048,
            m == n as nat,
            m >= pow2(52 + e as nat),
            pow2(53) == 9007199254740992,
            pow2(64) == 18446744073709551616,
        decreases 12 - e,
    {
        proof {
            lemma_pow2_add(53, e as nat);
            if e >= 11 {
                lemma_pow2_add(53 + e as nat, (e - 11) as nat);
                lemma_pow2_positive((e - 11) as nat);
                assert(pow2(53 + e as nat) >= pow2(64)) by (nonlinear_arith)
                    requires
                        pow2(53 + e as nat) == pow2(64) * pow2((e - 11) as nat),
                        pow2((e - 11) as nat) >= 1,
                ;
            }
        }
        proof {
            lemma_pow2_values();
            lemma_pow2_monotone(e as nat, 10);
        }
        e = e + 1;
        p = p * 2;
    }
    proof {
        lemma_pow2_add(53, e as nat);
        lemma_bit_len_bound(n as nat, 53 + e as nat);
        lemma_bit_len_bound(n as nat, 52 + e as nat);
        assert(bit_len(n as nat) == 53 + e);
        lemma_pow2_add(1, (e - 1) as nat);
    }
    let q: u128 = m / p;
    let r: u128 = m % p;
    let half: u128 = p / 2;
    let up = r > half || (r == half && q % 2 == 1);
    let k: u128 = if up {
        q + 1
    } else {
        q
    };
    proof {
        assert(half == pow2((e - 1) as nat));
        assert(q * p <= m) by (nonlinear_arith)
            requires
                q == m / p,
                p > 0,
        ;
        assert(m < p * 9007199254740992);
        assert(q < 9007199254740992) by (nonlinear_arith)
            requires
                q == m / p,
                p > 0,
                m < p * 9007199254740992,
        ;
        lemma_pow2_monotone(e as nat, 11);
        assert(k * p <= 18446744073709551616) by (nonlinear_arith)
            requires
                k <= 9007199254740992,
                p <= 2048,
        ;
    }
    k * p
}

/// `bytes` for a person to read: `512 B`, `1.5 KB`, `3.0 GB` (up to TB).
pub fn human_size(bytes: u64) -> (s: String)
    ensures
        s@ == size_text(bytes as nat),
{
    proof {
        lemma_pow1024_values();
    }
    let f = f64_value(bytes);
    let u: u32 = if f >= 1099511627776u128 {
        4
    } else if f >= 1073741824u128 {
        3
    } else if f >= 1048576u128 {
        2
    } else if f >= 1024u128 {
        1
    } else {
        0
    };
    let mut v: Vec<char>;
    if u == 0 {
        v = decimal_chars(bytes);
        v.push(' ');
        v.push('B');
        proof {
            assert(v@ =~= decimal(bytes as nat) + seq![' ', 'B']);
        }
    } else {
        let den: u128 = if u == 4 {
            1099511627776u128
        } else if u == 3 {
            1073741824u128
        } else if u == 2 {
            1048576u128
        } else {
            1024u128
        };
        assert(den == pow1024(u as nat));
        let d: u128 = f * 10;
        let q: u128 = d / den;
        let r: u128 = d % den;
        let half: u128 = den / 2;
        let t: u128 = if r > half || (r == half && q % 2 == 1) {
            q + 1
        } else {
            q
        };
        assert(t == tenths(f as nat, u as nat));
        assert(t / 10 <= 18446744073709551615u128) by (nonlinear_arith)
            requires
                t <= q + 1,
                q == d / den,
                den >= 1024,
                d == f * 10,
                f <= 18446744073709551616,
        ;
        let whole: u64 = (t / 10) as u64;
        let frac: u8 = (t % 10) as u8;
        v = decimal_chars(whole);
        v.push('.');
        v.push((48u8 + frac) as char);
        v.push(' ');
        let name = if u == 4 {
            "TB"
        } else if u == 3 {
            "GB"
        } else if u == 2 {
            "MB"
        } else {
            "KB"
        };
        proof {
            reveal_strlit("TB");
            reveal_strlit("GB");
            reveal_strlit("MB");
            reveal_strlit("KB");
        }
        append_str(&mut v, name);
        proof {
            assert(name@ =~= unit_name(u as nat));
            assert(v@ =~= decimal((t / 10) as nat) + seq!['.', digit_char((t % 10) as int), ' ']
                + unit_name(u as nat));
        }
    }
    string_of(&v)
}

} // verus!
