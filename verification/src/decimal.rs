//! Exact decimal branch lengths.
//!
//! Branch lengths in Newick text are decimal literals.  The library stores
//! them as exact nano-unit integers: `"0.1"` becomes `100_000_000`.  A
//! literal is one or more digits, an optional point, and further digits
//! (at least one digit in all); fractional digits beyond the ninth are
//! ignored.  Values that do not fit in 64 bits of nano-units are rejected.

use vstd::prelude::*;
use vstd::arithmetic::mul::lemma_mul_inequality;
use vstd::arithmetic::mul::lemma_mul_left_inequality;

verus! {

/// Nano-units per whole unit.
pub const NANO: u64 = 1_000_000_000;

pub open spec fn is_digit(c: char) -> bool {
    48 <= (c as u32) && (c as u32) <= 57
}

pub open spec fn digit_val(c: char) -> int {
    (c as u32) - 48
}

pub open spec fn all_digits(s: Seq<char>) -> bool {
    forall|i: int| 0 <= i < s.len() ==> is_digit(#[trigger] s[i])
}

/// The integer denoted by a digit string (most significant digit first).
pub open spec fn digits_val(s: Seq<char>) -> int
    decreases s.len(),
{
    if s.len() == 0 {
        0
    } else {
        digits_val(s.drop_last()) * 10 + digit_val(s.last())
    }
}

pub open spec fn pow10(k: nat) -> int
    decreases k,
{
    if k == 0 {
        1
    } else {
        10 * pow10((k - 1) as nat)
    }
}

/// Index of the first `'.'` in `s` at or after `i`, or the length.
pub open spec fn find_dot(s: Seq<char>, i: int) -> int
    decreases s.len() - i,
{
    if 0 <= i < s.len() {
        if s[i] == '.' {
            i
        } else {
            find_dot(s, i + 1)
        }
    } else {
        s.len() as int
    }
}

/// The digits before the point.
pub open spec fn int_part(s: Seq<char>) -> Seq<char> {
    s.take(find_dot(s, 0))
}

/// The digits after the point (empty when there is no point).
pub open spec fn frac_part(s: Seq<char>) -> Seq<char> {
    if find_dot(s, 0) < s.len() {
        s.subrange(find_dot(s, 0) + 1, s.len() as int)
    } else {
        Seq::empty()
    }
}

/// A decimal literal: digits, an optional point, digits; nonempty.
pub open spec fn valid_decimal(s: Seq<char>) -> bool {
    &&& all_digits(int_part(s))
    &&& all_digits(frac_part(s))
    &&& int_part(s).len() + frac_part(s).len() > 0
}

/// Nano-unit value of the fractional digits: the first nine digits, scaled
/// so that nine digits fill the nano range; later digits are dropped.
pub open spec fn frac_nanos(fd: Seq<char>) -> int {
    if fd.len() <= 9 {
        digits_val(fd) * pow10((9 - fd.len()) as nat)
    } else {
        digits_val(fd.take(9))
    }
}

/// Nano-unit value of a decimal literal.
pub open spec fn decimal_nanos(s: Seq<char>) -> int {
    digits_val(int_part(s)) * (NANO as int) + frac_nanos(frac_part(s))
}

/// The first point lies between the start position and the end.
pub proof fn lemma_find_dot_range(s: Seq<char>, i: int)
    requires
        0 <= i <= s.len(),
    ensures
        i <= find_dot(s, i) <= s.len(),
    decreases s.len() - i,
{
    if i < s.len() && s[i] != '.' {
        lemma_find_dot_range(s, i + 1);
    }
}

/// A digit string denotes a nonnegative number.
pub proof fn lemma_digits_val_nonneg(s: Seq<char>)
    requires
        all_digits(s),
    ensures
        digits_val(s) >= 0,
    decreases s.len(),
{
    if s.len() > 0 {
        assert(all_digits(s.drop_last()));
        lemma_digits_val_nonneg(s.drop_last());
        assert(digits_val(s.drop_last()) * 10 >= 0);
    }
}

/// Extending a digit string on the right never shrinks its value.
pub proof fn lemma_digits_val_prefix(s: Seq<char>, k: int)
    requires
        all_digits(s),
        0 <= k <= s.len(),
    ensures
        digits_val(s.take(k)) <= digits_val(s),
    decreases s.len(),
{
    if k < s.len() {
        assert(all_digits(s.drop_last()));
        assert(s.take(k) =~= s.drop_last().take(k));
        lemma_digits_val_prefix(s.drop_last(), k);
        lemma_digits_val_nonneg(s.drop_last());
        assert(digits_val(s.drop_last()) * 10 >= digits_val(s.drop_last()));
    } else {
        assert(s.take(k) =~= s);
    }
}

/// A digit string of length `n` denotes a value below `10^n`.
pub proof fn lemma_digits_val_bound(s: Seq<char>)
    requires
        all_digits(s),
    ensures
        digits_val(s) < pow10(s.len()),
    decreases s.len(),
{
    if s.len() == 0 {
    } else {
        assert(all_digits(s.drop_last()));
        lemma_digits_val_bound(s.drop_last());
        assert(digits_val(s.drop_last()) <= pow10((s.len() - 1) as nat) - 1);
        lemma_digits_val_nonneg(s.drop_last());
        lemma_mul_inequality(digits_val(s.drop_last()), pow10((s.len() - 1) as nat) - 1, 10);
    }
}

pub proof fn lemma_pow10_positive(k: nat)
    ensures
        pow10(k) >= 1,
    decreases k,
{
    if k > 0 {
        lemma_pow10_positive((k - 1) as nat);
    }
}

/// Reads the decimal literal in `s[from..to]` (character positions) and
/// returns its nano-unit value; `None` when the text is not a decimal
/// literal or its value does not fit.
pub fn parse_nanos(s: &str, from: usize, to: usize) -> (r: Option<u64>)
    requires
        from <= to <= s@.len(),
    ensures
        r is Some <==> (valid_decimal(s@.subrange(from as int, to as int)) && decimal_nanos(
            s@.subrange(from as int, to as int),
        ) <= u64::MAX),
        r is Some ==> r.unwrap() == decimal_nanos(s@.subrange(from as int, to as int)),
{
    let ghost sub = s@.subrange(from as int, to as int);
    let n = to - from;
    // Find the decimal point, if any.
    let mut dot: usize = 0;
    while dot < n && s.get_char(from + dot) != '.'
        invariant
            from + n <= s@.len(),
            n == to - from,
            sub == s@.subrange(from as int, to as int),
            sub.len() == n,
            dot <= n,
            find_dot(sub, 0) == find_dot(sub, dot as int),
        decreases n - dot,
    {
        assert(sub[dot as int] == s@[from + dot]);
        dot = dot + 1;
    }
    let int_len = dot;
    proof {
        if int_len < n {
            assert(sub[int_len as int] == s@[from + int_len]);
            assert(find_dot(sub, int_len as int) == int_len);
        }
        assert(find_dot(sub, 0) == int_len);
        assert(int_part(sub) =~= sub.take(int_len as int));
    }
    // Integer part: accumulate the digits before the point.
    let mut i: usize = 0;
    let mut acc: u64 = 0;
    while i < int_len
        invariant
            from + n <= s@.len(),
            n == to - from,
            sub == s@.subrange(from as int, to as int),
            sub.len() == n,
            int_len <= n,
            find_dot(sub, 0) == int_len,
            int_part(sub) == sub.take(int_len as int),
            i <= int_len,
            all_digits(sub.take(i as int)),
            acc == digits_val(sub.take(i as int)),
        decreases int_len - i,
    {
        let c = s.get_char(from + i);
        assert(sub[i as int] == c);
        let u = c as u32;
        if u < 48 || u > 57 {
            proof {
                assert(!is_digit(int_part(sub)[i as int]));
                assert(!all_digits(int_part(sub)));
            }
            return None;
        }
        let d = (u - 48) as u64;
        proof {
            assert(sub.take(i + 1).drop_last() =~= sub.take(i as int));
            assert(sub.take(i + 1).last() == sub[i as int]);
            assert(digits_val(sub.take(i + 1)) == acc * 10 + d);
        }
        let acc10 = match acc.checked_mul(10) {
            Some(v) => v,
            None => {
                proof {
                    lemma_int_too_big(sub, i + 1);
                }
                return None;
            },
        };
        acc = match acc10.checked_add(d) {
            Some(v) => v,
            None => {
                proof {
                    lemma_int_too_big(sub, i + 1);
                }
                return None;
            },
        };
        i = i + 1;
    }
    // Fractional part: at most nine digits contribute.
    let mut facc: u64 = 0;
    let mut fcnt: u64 = 0;
    if i < n {
        // skip the point
        let mut j: usize = i + 1;
        while j < n
            invariant
                from + n <= s@.len(),
                n == to - from,
                sub == s@.subrange(from as int, to as int),
                sub.len() == n,
                int_len < n,
                find_dot(sub, 0) == int_len,
                int_len + 1 <= j <= n,
                all_digits(sub.subrange(int_len + 1, j as int)),
                fcnt == if j - int_len - 1 <= 9 {
                    (j - int_len - 1) as int
                } else {
                    9int
                },
                facc == digits_val(sub.subrange(int_len + 1, j as int).take(fcnt as int)),
                facc < 1_000_000_000,
            decreases n - j,
        {
            let c = s.get_char(from + j);
            assert(sub[j as int] == c);
            let u = c as u32;
            if u < 48 || u > 57 {
                proof {
                    assert(frac_part(sub) =~= sub.subrange(int_len + 1, n as int));
                    assert(!is_digit(frac_part(sub)[j - int_len - 1]));
                }
                return None;
            }
            let d = (u - 48) as u64;
            proof {
                assert(sub.subrange(int_len + 1, j + 1).drop_last() =~= sub.subrange(
                    int_len + 1,
                    j as int,
                ));
            }
            if fcnt < 9 {
                proof {
                    assert(sub.subrange(int_len + 1, j + 1).take(fcnt + 1) =~= sub.subrange(
                        int_len + 1,
                        j as int,
                    ).take(fcnt as int).push(sub[j as int]));
                    assert(sub.subrange(int_len + 1, j as int).take(fcnt as int) =~= sub.subrange(
                        int_len + 1,
                        j + 1,
                    ).take(fcnt + 1).drop_last());
                }
                facc = facc * 10 + d;
                fcnt = fcnt + 1;
                proof {
                    let pref = sub.subrange(int_len + 1, j + 1).take(fcnt as int);
                    assert(all_digits(pref));
                    lemma_digits_val_bound(pref);
                    lemma_pow10_monotone(pref.len() as nat, 9);
                    lemma_pow10_nine();
                }
            } else {
                proof {
                    assert(sub.subrange(int_len + 1, j + 1).take(9) =~= sub.subrange(
                        int_len + 1,
                        j as int,
                    ).take(9));
                }
            }
            j = j + 1;
        }
        proof {
            assert(frac_part(sub) =~= sub.subrange(int_len + 1, n as int));
        }
    } else {
        proof {
            assert(frac_part(sub) =~= Seq::<char>::empty());
        }
    }
    if int_len == 0 && (i >= n || i + 1 >= n) {
        // no digits at all: "" or "."
        proof {
            assert(int_part(sub).len() == 0);
            assert(frac_part(sub).len() == 0);
        }
        return None;
    }
    // Scale the fractional digits to nine places.
    let mut scale: u64 = 1;
    let mut k: u64 = fcnt;
    while k < 9
        invariant
            k <= 9,
            fcnt <= k,
            scale == pow10((k - fcnt) as nat),
            scale <= 1_000_000_000,
        decreases 9 - k,
    {
        proof {
            lemma_pow10_positive((k - fcnt) as nat);
            lemma_pow10_monotone((k - fcnt) as nat, 8);
            lemma_pow10_nine();
        }
        scale = scale * 10;
        k = k + 1;
    }
    let ghost fr = frac_part(sub);
    proof {
        assert(fcnt == if fr.len() <= 9 {
            fr.len() as int
        } else {
            9int
        });
        if fr.len() <= 9 {
            assert(fr.take(fcnt as int) =~= fr);
        } else {
            assert(fr.take(fcnt as int) =~= fr.take(9));
            lemma_pow10_positive(0);
        }
        lemma_digits_val_nonneg(fr);
        lemma_frac_nanos_bound(fr);
    }
    proof {
        vstd::arithmetic::mul::lemma_mul_upper_bound(
            facc as int,
            999_999_999,
            scale as int,
            1_000_000_000,
        );
    }
    let fval = facc * scale;
    proof {
        lemma_frac_value(fr, facc as int, scale as int, fcnt as int);
        assert(fval == frac_nanos(fr));
    }
    // Combine: int * NANO + frac.
    let hi = match acc.checked_mul(NANO) {
        Some(v) => v,
        None => {
            proof {
                lemma_digits_val_nonneg(fr.take(fcnt as int));
                assert(frac_nanos(fr) >= 0);
            }
            return None;
        },
    };
    let r = match hi.checked_add(fval) {
        Some(v) => v,
        None => {
            return None;
        },
    };
    Some(r)
}

/// If a prefix of the integer digits already exceeds the 64-bit range, the
/// whole literal does.
proof fn lemma_int_too_big(sub: Seq<char>, k: int)
    requires
        0 <= k <= sub.len(),
        all_digits(sub.take(k)),
        k <= find_dot(sub, 0),
        digits_val(sub.take(k)) > u64::MAX,
    ensures
        !(valid_decimal(sub) && decimal_nanos(sub) <= u64::MAX),
{
    if valid_decimal(sub) {
        lemma_find_dot_range(sub, 0);
        assert(int_part(sub) =~= sub.take(find_dot(sub, 0)));
        assert(int_part(sub).take(k) =~= sub.take(k));
        lemma_digits_val_prefix(int_part(sub), k);
        assert(digits_val(int_part(sub)) > u64::MAX);
        lemma_mul_left_inequality(NANO as int, 1, digits_val(int_part(sub)));
        assert(digits_val(int_part(sub)) * 1 == digits_val(int_part(sub)));
        lemma_digits_val_nonneg(frac_part(sub));
        lemma_frac_nanos_nonneg(frac_part(sub));
    }
}

proof fn lemma_pow10_monotone(a: nat, b: nat)
    requires
        a <= b,
    ensures
        pow10(a) <= pow10(b),
    decreases b,
{
    if a < b {
        lemma_pow10_monotone(a, (b - 1) as nat);
        lemma_pow10_positive((b - 1) as nat);
    }
}

proof fn lemma_frac_nanos_nonneg(fd: Seq<char>)
    requires
        all_digits(fd),
    ensures
        frac_nanos(fd) >= 0,
{
    if fd.len() <= 9 {
        lemma_digits_val_nonneg(fd);
        lemma_pow10_positive((9 - fd.len()) as nat);
        lemma_mul_inequality(0, digits_val(fd), pow10((9 - fd.len()) as nat));
    } else {
        assert(all_digits(fd.take(9)));
        lemma_digits_val_nonneg(fd.take(9));
    }
}

/// The scaled fractional accumulator equals the spec value and stays below
/// one whole unit.
proof fn lemma_frac_nanos_bound(fd: Seq<char>)
    requires
        all_digits(fd),
    ensures
        frac_nanos(fd) < 1_000_000_000,
{
    if fd.len() <= 9 {
        let dv = digits_val(fd);
        let pl = pow10(fd.len() as nat);
        let pr = pow10((9 - fd.len()) as nat);
        lemma_digits_val_bound(fd);
        lemma_digits_val_nonneg(fd);
        lemma_pow10_positive((9 - fd.len()) as nat);
        lemma_pow10_mul(fd.len() as nat, (9 - fd.len()) as nat);
        lemma_mul_inequality(dv, pl - 1, pr);
        vstd::arithmetic::mul::lemma_mul_is_distributive_sub_other_way(pr, pl, 1);
        assert((pl - 1) * pr == pl * pr - pr);
        lemma_pow10_nine();
    } else {
        assert(all_digits(fd.take(9)));
        lemma_digits_val_bound(fd.take(9));
        lemma_pow10_nine();
    }
}

proof fn lemma_pow10_nine()
    ensures
        pow10(8) == 100_000_000,
        pow10(9) == 1_000_000_000,
{
    assert(pow10(0) == 1);
    assert(pow10(1) == 10);
    assert(pow10(2) == 100);
    assert(pow10(3) == 1000);
    assert(pow10(4) == 10000);
    assert(pow10(5) == 100000);
    assert(pow10(6) == 1000000);
    assert(pow10(7) == 10000000);
    assert(pow10(8) == 100000000);
    assert(pow10(9) == 1000000000);
}

proof fn lemma_pow10_mul(a: nat, b: nat)
    ensures
        pow10(a) * pow10(b) == pow10(a + b),
    decreases a,
{
    if a == 0 {
        assert(pow10(0) * pow10(b) == pow10(b));
    } else {
        lemma_pow10_mul((a - 1) as nat, b);
        assert(pow10(a) * pow10(b) == 10 * pow10((a - 1) as nat) * pow10(b));
        vstd::arithmetic::mul::lemma_mul_is_associative(10, pow10((a - 1) as nat), pow10(b));
    }
}

proof fn lemma_frac_value(fd: Seq<char>, facc: int, scale: int, fcnt: int)
    requires
        all_digits(fd),
        fcnt == if fd.len() <= 9 {
            fd.len() as int
        } else {
            9int
        },
        facc == digits_val(fd.take(fcnt)),
        scale == pow10((9 - fcnt) as nat),
    ensures
        facc * scale == frac_nanos(fd),
{
    if fd.len() <= 9 {
        assert(fd.take(fcnt) =~= fd);
    } else {
        assert(fd.take(fcnt) =~= fd.take(9));
        assert(scale == 1);
    }
}

} // verus!
