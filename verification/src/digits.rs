//! Shared facts about decimal digits — powers of ten, digit counts of
//! machine integers, digit characters — and the text scanning built on
//! them.

use vstd::prelude::*;
use vstd::arithmetic::div_mod::lemma_multiply_divide_lt;
use vstd::arithmetic::mul::lemma_mul_is_associative;

verus! {

/// `10^k` as a mathematical integer.
pub open spec fn pow10(k: nat) -> int
    decreases k,
{
    if k == 0 {
        1
    } else {
        10 * pow10((k - 1) as nat)
    }
}

/// Number of decimal digits of `n`; zero has one digit.
pub open spec fn n_digits(n: nat) -> nat
    decreases n,
{
    if n < 10 {
        1
    } else {
        1 + n_digits(n / 10)
    }
}

pub proof fn lemma_pow10_positive(k: nat)
    ensures
        pow10(k) >= 1,
    decreases k,
{
    if k > 0 {
        lemma_pow10_positive((k - 1) as nat);
    }
}

pub proof fn lemma_pow10_adds(a: nat, b: nat)
    ensures
        pow10(a + b) == pow10(a) * pow10(b),
    decreases a,
{
    if a == 0 {
    } else {
        lemma_pow10_adds((a - 1) as nat, b);
        assert(((a - 1) as nat) + b == (a + b - 1) as nat);
        assert(pow10((a + b - 1) as nat) == pow10((a - 1) as nat) * pow10(b));
        assert(pow10(a + b) == 10 * pow10((a + b - 1) as nat));
        assert(pow10(a) == 10 * pow10((a - 1) as nat));
        assert(10 * (pow10((a - 1) as nat) * pow10(b)) == (10 * pow10((a - 1) as nat)) * pow10(
            b,
        )) by {
            lemma_mul_is_associative(10, pow10((a - 1) as nat), pow10(b));
        }
        assert(pow10(a + b) == pow10(a) * pow10(b));
    }
}

pub proof fn lemma_pow10_increases(a: nat, b: nat)
    requires
        a <= b,
    ensures
        pow10(a) <= pow10(b),
    decreases b,
{
    if a < b {
        lemma_pow10_increases(a, (b - 1) as nat);
        lemma_pow10_positive((b - 1) as nat);
    }
}

/// Concrete powers of ten that overflow arguments are checked against.
pub proof fn lemma_pow10_values()
    ensures
        pow10(10) == 0x2540be400,
        pow10(19) == 0x8ac7230489e80000,
        pow10(20) == 0x56bc75e2d63100000,
{
    reveal_with_fuel(pow10, 21);
}

/// Any number below `10^k` has at most `k` digits.
pub proof fn lemma_n_digits_le(n: nat, k: nat)
    requires
        1 <= k,
        n < pow10(k),
    ensures
        n_digits(n) <= k,
    decreases k,
{
    if n >= 10 {
        assert(pow10(k) == 10 * pow10((k - 1) as nat));
        lemma_pow10_positive((k - 1) as nat);
        lemma_multiply_divide_lt(n as int, 10, pow10((k - 1) as nat));
        lemma_n_digits_le(n / 10, (k - 1) as nat);
    }
}

/// A 64-bit value never has more than 20 decimal digits.
pub proof fn lemma_n_digits_u64(n: u64)
    ensures
        1 <= n_digits(n as nat) <= 20,
{
    lemma_pow10_values();
    lemma_n_digits_le(n as nat, 20);
}

/// Number of decimal digits of `id`, computed by repeated division.
pub fn count_digits(id: u64) -> (d: u32)
    ensures
        d == n_digits(id as nat),
        1 <= d <= 20,
{
    proof {
        lemma_n_digits_u64(id);
    }
    let mut n: u64 = id;
    let mut d: u32 = 1;
    while n >= 10
        invariant
            n_digits(id as nat) == (d - 1) + n_digits(n as nat),
            n_digits(id as nat) <= 20,
            1 <= d <= 20,
        decreases n,
    {
        n = n / 10;
        d = d + 1;
        proof {
            assert(n_digits(n as nat) >= 1);
        }
    }
    d
}

/// `10^k` as a machine integer.
pub fn pow10_exec(k: u32) -> (p: u64)
    requires
        k <= 19,
    ensures
        p == pow10(k as nat),
{
    proof {
        lemma_pow10_values();
    }
    let mut p: u64 = 1;
    let mut j: u32 = 0;
    while j < k
        invariant
            j <= k <= 19,
            p == pow10(j as nat),
        decreases k - j,
    {
        proof {
            lemma_pow10_increases(j as nat, 18);
            lemma_pow10_values();
            reveal_with_fuel(pow10, 20);
        }
        p = p * 10;
        j = j + 1;
    }
    p
}

/// `c` is a decimal digit character; 48 and 57 are the code points of
/// `'0'` and `'9'`.
pub open spec fn is_digit_char(c: char) -> bool {
    48 <= c as u32 <= 57
}

/// Numeric value of a digit character.
pub open spec fn digit_val(c: char) -> int {
    c as u32 - 48
}

/// First index at or after `i` that is past the end of `s` or holds a
/// non-digit character.
pub open spec fn digit_run_end(s: Seq<char>, i: int) -> int
    decreases s.len() - i,
{
    if !(0 <= i < s.len()) {
        i
    } else if !is_digit_char(s[i]) {
        i
    } else {
        digit_run_end(s, i + 1)
    }
}

/// Value of the decimal digit string `s[i..j]`, most significant digit
/// first.
pub open spec fn digits_value(s: Seq<char>, i: int, j: int) -> int
    decreases j - i,
{
    if i >= j {
        0
    } else {
        digits_value(s, i, j - 1) * 10 + digit_val(s[j - 1])
    }
}

pub proof fn lemma_digits_value_nonneg(s: Seq<char>, i: int, j: int)
    requires
        forall|k: int| i <= k < j ==> is_digit_char(#[trigger] s[k]),
    ensures
        digits_value(s, i, j) >= 0,
    decreases j - i,
{
    if i < j {
        lemma_digits_value_nonneg(s, i, j - 1);
    }
}

/// Is `c` a decimal digit?
pub fn char_is_digit(c: char) -> (r: bool)
    ensures
        r == is_digit_char(c),
{
    let u: u32 = c as u32;
    48 <= u && u <= 57
}

/// Reads the longest run of digit characters in `s` that starts at
/// `from`, returning its value and the index just past it. `None` when
/// no digit stands at `from` or the value does not fit in 64 bits.
pub fn scan_u64(s: &str, from: usize) -> (r: Option<(u64, usize)>)
    ensures
        ({
            let e = digit_run_end(s@, from as int);
            match r {
                Some(p) => {
                    &&& p.1 == e
                    &&& from < e
                    &&& e <= s@.len()
                    &&& p.0 == digits_value(s@, from as int, e)
                },
                None => from as int == e || digits_value(s@, from as int, e) > u64::MAX,
            }
        }),
{
    let len: usize = s.unicode_len();
    let mut j: usize = from;
    let mut val: u64 = 0;
    let mut overflow: bool = false;
    while j < len && char_is_digit(s.get_char(j))
        invariant
            from <= j,
            j <= len || j == from,
            len == s@.len(),
            digit_run_end(s@, from as int) == digit_run_end(s@, j as int),
            forall|k: int| from <= k < j ==> is_digit_char(#[trigger] s@[k]),
            !overflow ==> val == digits_value(s@, from as int, j as int),
            overflow ==> digits_value(s@, from as int, j as int) > u64::MAX,
        decreases len - j,
    {
        let c = s.get_char(j);
        let d: u32 = (c as u32) - 48;
        proof {
            lemma_digits_value_nonneg(s@, from as int, j as int);
            assert(digits_value(s@, from as int, j + 1) == digits_value(s@, from as int, j as int)
                * 10 + digit_val(s@[j as int]));
        }
        if !overflow {
            if val > (u64::MAX - d as u64) / 10 {
                overflow = true;
                proof {
                    let q = (u64::MAX - d) as int / 10;
                    assert(u64::MAX - d == 10 * q + ((u64::MAX - d) as int % 10)) by {
                        vstd::arithmetic::div_mod::lemma_fundamental_div_mod(
                            (u64::MAX - d) as int,
                            10,
                        );
                    }
                    assert(val * 10 + d > u64::MAX);
                }
            } else {
                proof {
                    let q = (u64::MAX - d) as int / 10;
                    assert(u64::MAX - d == 10 * q + ((u64::MAX - d) as int % 10)) by {
                        vstd::arithmetic::div_mod::lemma_fundamental_div_mod(
                            (u64::MAX - d) as int,
                            10,
                        );
                    }
                    assert(val * 10 + d <= u64::MAX);
                }
                val = val * 10 + d as u64;
            }
        }
        j = j + 1;
    }
    if j == from {
        None
    } else if overflow {
        None
    } else {
        Some((val, j))
    }
}

/// Character-by-character string equality.
pub fn str_eq(a: &str, b: &str) -> (r: bool)
    ensures
        r == (a@ == b@),
{
    let la: usize = a.unicode_len();
    let lb: usize = b.unicode_len();
    if la != lb {
        proof {
            if a@ == b@ {
                assert(a@.len() == b@.len());
            }
        }
        return false;
    }
    let mut i: usize = 0;
    while i < la
        invariant
            i <= la,
            la == a@.len(),
            lb == b@.len(),
            la == lb,
            forall|k: int| 0 <= k < i ==> a@[k] == b@[k],
        decreases la - i,
    {
        let ca = a.get_char(i);
        let cb = b.get_char(i);
        if ca != cb {
            proof {
                if a@ == b@ {
                    assert(a@[i as int] == b@[i as int]);
                }
            }
            return false;
        }
        i = i + 1;
    }
    proof {
        assert(a@ =~= b@);
    }
    true
}

} // verus!
