//! The amount normalizer: turns a human-readable decimal string into an
//! exact integer count of the chain's smallest unit.
//!
//! A well-formed amount is `sign? digits ('.' digits)?` where `sign` is `+`
//! or `-` and each digit run is non-empty. The value is scaled by
//! `10^precision`; fractional digits beyond the precision are dropped
//! (truncation toward zero — the scaled value never gains from them).
//! Negative non-zero values and values that do not fit in `u64` are
//! rejected, as is any string outside the grammar.

use vstd::prelude::*;
use vstd::string::StrSliceExecFns;
use vstd::string::StringExecFns;
use crate::error::TransferError;

verus! {

/// Whether `c` is a decimal digit.
pub open spec fn is_digit(c: char) -> bool {
    '0' as u32 <= c as u32 && c as u32 <= '9' as u32
}

/// The numeric value of the decimal digit `c`.
pub open spec fn digit_val(c: char) -> nat {
    (c as u32 - '0' as u32) as nat
}

/// Whether every character of `s` is a decimal digit.
pub open spec fn all_digits(s: Seq<char>) -> bool {
    forall|i: int| 0 <= i < s.len() ==> is_digit(#[trigger] s[i])
}

/// The value of a digit run read in base 10, most significant digit first.
pub open spec fn digits_val(s: Seq<char>) -> nat
    decreases s.len(),
{
    if s.len() == 0 {
        0
    } else {
        digits_val(s.drop_last()) * 10 + digit_val(s.last())
    }
}

/// `10^n`.
pub open spec fn pow10(n: nat) -> nat
    decreases n,
{
    if n == 0 {
        1
    } else {
        10 * pow10((n - 1) as nat)
    }
}

/// Whether `s` starts with an explicit sign character.
pub open spec fn has_sign(s: Seq<char>) -> bool {
    s.len() > 0 && (s[0] == '+' || s[0] == '-')
}

/// Whether `s` carries a minus sign.
pub open spec fn sign_is_minus(s: Seq<char>) -> bool {
    s.len() > 0 && s[0] == '-'
}

/// `s` with its sign character, if any, removed.
pub open spec fn digits_part(s: Seq<char>) -> Seq<char> {
    if has_sign(s) {
        s.skip(1)
    } else {
        s
    }
}

/// The index of the first `.` in `b`, or `-1` if there is none.
pub open spec fn first_dot(b: Seq<char>) -> int
    decreases b.len(),
{
    if b.len() == 0 {
        -1
    } else if b[0] == '.' {
        0
    } else {
        let r = first_dot(b.drop_first());
        if r < 0 {
            -1
        } else {
            r + 1
        }
    }
}

/// The digits before the decimal point (the whole unsigned body when there
/// is no point).
pub open spec fn int_digits(s: Seq<char>) -> Seq<char> {
    let b = digits_part(s);
    if first_dot(b) < 0 {
        b
    } else {
        b.take(first_dot(b))
    }
}

/// The digits after the decimal point; empty when there is no point.
pub open spec fn frac_digits(s: Seq<char>) -> Seq<char> {
    let b = digits_part(s);
    if first_dot(b) < 0 {
        Seq::empty()
    } else {
        b.skip(first_dot(b) + 1)
    }
}

/// The grammar of an amount: `sign? digits ('.' digits)?`, each digit run
/// non-empty.
pub open spec fn is_decimal_string(s: Seq<char>) -> bool {
    &&& int_digits(s).len() > 0
    &&& all_digits(int_digits(s))
    &&& all_digits(frac_digits(s))
    &&& (first_dot(digits_part(s)) >= 0 ==> frac_digits(s).len() > 0)
}

/// The fractional digits that survive scaling to `p` decimal places.
pub open spec fn kept_frac(s: Seq<char>, p: nat) -> Seq<char> {
    let f = frac_digits(s);
    if f.len() <= p {
        f
    } else {
        f.take(p as int)
    }
}

/// The magnitude of `s` in smallest units at precision `p`: the kept digits
/// read as one integer, shifted up by the decimal places still missing.
/// For a valid `s` this equals the exact value of `s` times `10^p`,
/// truncated toward zero.
pub open spec fn scaled_units(s: Seq<char>, p: nat) -> nat {
    let shift = if frac_digits(s).len() <= p {
        (p - frac_digits(s).len()) as nat
    } else {
        0
    };
    digits_val(int_digits(s) + kept_frac(s, p)) * pow10(shift)
}

/// What normalization returns: `None` exactly on the inputs that are
/// rejected — strings outside the grammar, negative non-zero values, and
/// values whose scaled magnitude exceeds `u64::MAX`.
pub open spec fn spec_normalize(s: Seq<char>, p: nat) -> Option<u64> {
    if !is_decimal_string(s) {
        None
    } else if sign_is_minus(s) && digits_val(int_digits(s) + frac_digits(s)) != 0 {
        None
    } else if scaled_units(s, p) > u64::MAX {
        None
    } else {
        Some(scaled_units(s, p) as u64)
    }
}

/// The diagnostic text normalization attaches to a rejected input.
pub open spec fn amount_error_text(s: Seq<char>) -> Seq<char> {
    if !is_decimal_string(s) {
        "Failed to parse amount"@
    } else {
        "Failed to convert to integer"@
    }
}

/// `10^n` is positive.
pub proof fn lemma_pow10_pos(n: nat)
    ensures
        pow10(n) >= 1,
    decreases n,
{
    if n > 0 {
        lemma_pow10_pos((n - 1) as nat);
    }
}

/// Powers of ten multiply when exponents add.
pub proof fn lemma_pow10_add(a: nat, b: nat)
    ensures
        pow10(a + b) == pow10(a) * pow10(b),
    decreases a,
{
    if a == 0 {
        assert(pow10(0 + b) == 1 * pow10(b));
    } else {
        lemma_pow10_add((a - 1) as nat, b);
        assert((a + b - 1) as nat == (a - 1) as nat + b);
        assert(10 * ((pow10((a - 1) as nat)) * pow10(b)) == (10 * pow10((a - 1) as nat)) * pow10(
            b,
        )) by (nonlinear_arith);
    }
}

/// `10^n` grows with `n`.
pub proof fn lemma_pow10_monotone(a: nat, b: nat)
    requires
        a <= b,
    ensures
        pow10(a) <= pow10(b),
{
    lemma_pow10_add(a, (b - a) as nat);
    lemma_pow10_pos((b - a) as nat);
    assert(pow10(a) * 1 <= pow10(a) * pow10((b - a) as nat)) by (nonlinear_arith)
        requires
            pow10((b - a) as nat) >= 1,
    ;
}

/// Reading a digit run splits at any point: the prefix shifted up by the
/// suffix's width, plus the suffix.
pub proof fn lemma_digits_split(s: Seq<char>, i: int)
    requires
        0 <= i <= s.len(),
    ensures
        digits_val(s) == digits_val(s.take(i)) * pow10((s.len() - i) as nat) + digits_val(
            s.skip(i),
        ),
    decreases s.len(),
{
    if i == s.len() {
        assert(s.take(i) =~= s);
        assert(s.skip(i) =~= Seq::<char>::empty());
        let a = digits_val(s.take(i));
        assert(pow10((s.len() - i) as nat) == 1);
        assert(a * pow10((s.len() - i) as nat) == a) by (nonlinear_arith)
            requires
                pow10((s.len() - i) as nat) == 1,
        ;
    } else {
        let d = s.drop_last();
        lemma_digits_split(d, i);
        assert(d.take(i) =~= s.take(i));
        assert(s.skip(i).drop_last() =~= d.skip(i));
        assert(s.skip(i).last() == s.last());
        let a = digits_val(s.take(i));
        let pb = pow10((d.len() - i) as nat);
        let r = digits_val(d.skip(i));
        let c = digit_val(s.last());
        assert(digits_val(s) == digits_val(d) * 10 + c);
        assert(digits_val(d) == a * pb + r);
        assert(digits_val(s.skip(i)) == r * 10 + c);
        assert((a * pb + r) * 10 + c == a * (10 * pb) + (r * 10 + c)) by (nonlinear_arith);
        assert(pow10((s.len() - i) as nat) == 10 * pb);
        assert(a * pow10((s.len() - i) as nat) == a * (10 * pb));
        assert(digits_val(s) == a * pow10((s.len() - i) as nat) + digits_val(s.skip(i)));
    }
}

/// A digit run of width `n` reads to a value below `10^n`.
pub proof fn lemma_digits_bound(s: Seq<char>)
    requires
        all_digits(s),
    ensures
        digits_val(s) < pow10(s.len()),
    decreases s.len(),
{
    if s.len() == 0 {
    } else {
        let d = s.drop_last();
        assert(all_digits(d)) by {
            assert(forall|i: int| 0 <= i < d.len() ==> d[i] == s[i] && is_digit(#[trigger] s[i]));
        }
        lemma_digits_bound(d);
        assert(digit_val(s.last()) <= 9);
        assert(digits_val(d) * 10 + 9 < pow10(d.len()) * 10) by (nonlinear_arith)
            requires
                digits_val(d) < pow10(d.len()),
        ;
        assert(pow10(s.len()) == 10 * pow10(d.len()));
    }
}

/// A digit run reads to zero exactly when every digit is `0`.
pub proof fn lemma_digits_zero(s: Seq<char>)
    ensures
        digits_val(s) == 0 <==> (forall|i: int| 0 <= i < s.len() ==> digit_val(#[trigger] s[i])
            == 0),
    decreases s.len(),
{
    if s.len() > 0 {
        let d = s.drop_last();
        lemma_digits_zero(d);
        if digits_val(s) == 0 {
            assert(digits_val(d) == 0 && digit_val(s.last()) == 0);
            assert forall|i: int| 0 <= i < s.len() implies digit_val(#[trigger] s[i]) == 0 by {
                if i < s.len() - 1 {
                    assert(s[i] == d[i]);
                } else {
                    assert(s[i] == s.last());
                }
            }
        } else {
            if forall|i: int| 0 <= i < s.len() ==> digit_val(#[trigger] s[i]) == 0 {
                assert forall|i: int| 0 <= i < d.len() implies digit_val(#[trigger] d[i])
                    == 0 by {
                    assert(d[i] == s[i]);
                }
                assert(digits_val(d) == 0);
                assert(digit_val(s.last()) == digit_val(s[s.len() - 1]) == 0);
            }
        }
    }
}

/// Where the first `.` of `b` lies: nowhere, or at `first_dot(b)` with none
/// before it.
pub proof fn lemma_first_dot_props(b: Seq<char>)
    ensures
        first_dot(b) == -1 ==> forall|i: int| 0 <= i < b.len() ==> b[i] != '.',
        first_dot(b) != -1 ==> 0 <= first_dot(b) < b.len() && b[first_dot(b)] == '.' && forall|
            i: int,
        | 0 <= i < first_dot(b) ==> b[i] != '.',
    decreases b.len(),
{
    if b.len() == 0 {
    } else if b[0] == '.' {
    } else {
        let t = b.drop_first();
        lemma_first_dot_props(t);
        let r = first_dot(t);
        if r < 0 {
            assert(first_dot(b) == -1);
            assert forall|i: int| 0 <= i < b.len() implies b[i] != '.' by {
                if i > 0 {
                    assert(b[i] == t[i - 1]);
                }
            }
        } else {
            assert(first_dot(b) == r + 1);
            assert(b[r + 1] == t[r]);
            assert forall|i: int| 0 <= i < r + 1 implies b[i] != '.' by {
                if i > 0 {
                    assert(b[i] == t[i - 1]);
                }
            }
        }
    }
}

/// If the first `.` of `b` comes only after digits, it is the first
/// non-digit of `b`.
proof fn lemma_first_dot_at(b: Seq<char>, m: int)
    requires
        0 <= m < b.len(),
        forall|i: int| 0 <= i < m ==> is_digit(#[trigger] b[i]),
        b[m] == '.',
    ensures
        first_dot(b) == m,
{
    lemma_first_dot_props(b);
    let k = first_dot(b);
    if k == -1 {
        assert(b[m] != '.');
    } else if k < m {
        assert(is_digit(b[k]));
        assert(b[k] == '.');
        assert(!is_digit('.'));
    } else if k > m {
        assert(b[m] != '.');
    }
}

/// A body made only of digits has no decimal point.
proof fn lemma_no_dot(b: Seq<char>)
    requires
        forall|i: int| 0 <= i < b.len() ==> is_digit(#[trigger] b[i]),
    ensures
        first_dot(b) == -1,
{
    lemma_first_dot_props(b);
    let k = first_dot(b);
    if k != -1 {
        assert(is_digit(b[k]));
        assert(!is_digit('.'));
    }
}

/// A character that is neither a digit nor the decimal point, standing
/// after leading digits, puts the whole string outside the grammar.
proof fn lemma_body_invalid_at(s: Seq<char>, m: int)
    requires
        0 <= m < digits_part(s).len(),
        forall|i: int| 0 <= i < m ==> is_digit(#[trigger] digits_part(s)[i]),
        !is_digit(digits_part(s)[m]),
        digits_part(s)[m] != '.',
    ensures
        !is_decimal_string(s),
{
    let b = digits_part(s);
    lemma_first_dot_props(b);
    let k = first_dot(b);
    if k == -1 {
        assert(int_digits(s) == b);
        assert(!is_digit(int_digits(s)[m]));
    } else if k < m {
        assert(is_digit(b[k]));
        assert(!is_digit('.'));
    } else {
        assert(k > m);
        assert(int_digits(s) == b.take(k));
        assert(!is_digit(int_digits(s)[m]));
    }
}

/// Prepending a run of digits to `acc` splits at any point: extend by the
/// prefix first, then by the suffix.
proof fn lemma_acc_split(acc: nat, d: Seq<char>, m: int)
    requires
        0 <= m <= d.len(),
    ensures
        acc * pow10(d.len()) + digits_val(d) == (acc * pow10(m as nat) + digits_val(d.take(m)))
            * pow10((d.len() - m) as nat) + digits_val(d.skip(m)),
{
    lemma_digits_split(d, m);
    lemma_pow10_add(m as nat, (d.len() - m) as nat);
    let ph = pow10(m as nat);
    let pt = pow10((d.len() - m) as nat);
    let dt = digits_val(d.take(m));
    assert(acc * (ph * pt) + (dt * pt + digits_val(d.skip(m))) == (acc * ph + dt) * pt
        + digits_val(d.skip(m))) by (nonlinear_arith);
}

/// Extending by more digits never shrinks the accumulated value.
proof fn lemma_acc_extends_bound(acc: nat, d: Seq<char>, m: int)
    requires
        0 <= m <= d.len(),
    ensures
        acc * pow10(d.len()) + digits_val(d) >= acc * pow10(m as nat) + digits_val(d.take(m)),
{
    lemma_acc_split(acc, d, m);
    lemma_pow10_pos((d.len() - m) as nat);
    let x = acc * pow10(m as nat) + digits_val(d.take(m));
    let p = pow10((d.len() - m) as nat);
    assert(x * p >= x) by (nonlinear_arith)
        requires
            p >= 1,
    ;
}

/// The decimal digit value of `c`, if it is one.
fn digit_of(c: char) -> (r: Option<u8>)
    ensures
        r is Some <==> is_digit(c),
        r matches Some(d) ==> d == digit_val(c),
{
    let u = c as u32;
    if 48 <= u && u <= 57 {
        Some((u - 48) as u8)
    } else {
        None
    }
}

/// The first position in `[from, to)` of `s` holding a non-digit, or `to`.
fn first_non_digit(s: &str, from: usize, to: usize) -> (j: usize)
    requires
        from <= to <= s@.len(),
    ensures
        from <= j <= to,
        forall|i: int| from <= i < j ==> is_digit(#[trigger] s@[i]),
        j < to ==> !is_digit(s@[j as int]),
{
    let mut j = from;
    while j < to
        invariant
            from <= j <= to <= s@.len(),
            forall|i: int| from <= i < j ==> is_digit(#[trigger] s@[i]),
        decreases to - j,
    {
        let c = s.get_char(j);
        if digit_of(c).is_none() {
            return j;
        }
        j = j + 1;
    }
    j
}

/// Whether some digit in `[from, to)` of `s` is non-zero.
fn has_nonzero_digit(s: &str, from: usize, to: usize) -> (r: bool)
    requires
        from <= to <= s@.len(),
        forall|i: int| from <= i < to ==> is_digit(#[trigger] s@[i]),
    ensures
        r <==> exists|i: int| from <= i < to && digit_val(#[trigger] s@[i]) != 0,
{
    let mut j = from;
    while j < to
        invariant
            from <= j <= to <= s@.len(),
            forall|i: int| from <= i < to ==> is_digit(#[trigger] s@[i]),
            forall|i: int| from <= i < j ==> digit_val(#[trigger] s@[i]) == 0,
        decreases to - j,
    {
        let c = s.get_char(j);
        match digit_of(c) {
            Some(d) => {
                if d != 0 {
                    return true;
                }
            },
            None => {
                proof {
                    assert(is_digit(s@[j as int]));
                }
            },
        }
        j = j + 1;
    }
    false
}

/// Reads the digits of `s[from..to]` onto the tail of `acc` in base 10,
/// reporting when the value passes `u64::MAX`.
fn accumulate_digits(s: &str, from: usize, to: usize, acc: u64) -> (r: Option<u64>)
    requires
        from <= to <= s@.len(),
        forall|i: int| from <= i < to ==> is_digit(#[trigger] s@[i]),
    ensures
        ({
            let total = acc * pow10((to - from) as nat) + digits_val(
                s@.subrange(from as int, to as int),
            );
            match r {
                Some(v) => v == total,
                None => total > u64::MAX,
            }
        }),
{
    let ghost whole = s@.subrange(from as int, to as int);
    let mut cur = acc;
    let mut j = from;
    proof {
        assert(s@.subrange(from as int, from as int) =~= Seq::<char>::empty());
        assert(pow10((from - from) as nat) == 1);
        assert(acc * pow10((from - from) as nat) == acc) by (nonlinear_arith)
            requires
                pow10((from - from) as nat) == 1,
        ;
    }
    while j < to
        invariant
            whole == s@.subrange(from as int, to as int),
            from <= j <= to <= s@.len(),
            forall|i: int| from <= i < to ==> is_digit(#[trigger] s@[i]),
            cur == acc * pow10((j - from) as nat) + digits_val(
                s@.subrange(from as int, j as int),
            ),
        decreases to - j,
    {
        let c = s.get_char(j);
        let d = match digit_of(c) {
            Some(d) => d,
            None => {
                proof {
                    assert(is_digit(s@[j as int]));
                }
                0
            },
        };
        let ghost prev = s@.subrange(from as int, j as int);
        let ghost next = s@.subrange(from as int, j + 1 as int);
        proof {
            assert(next.drop_last() =~= prev);
            assert(next.last() == s@[j as int]);
            assert(digits_val(next) == digits_val(prev) * 10 + digit_val(s@[j as int]));
            let a = acc;
            let p = pow10((j - from) as nat);
            assert(pow10((j + 1 - from) as nat) == 10 * p);
            assert((a * p + digits_val(prev)) * 10 + digit_val(s@[j as int]) == a * (10 * p) + (
            digits_val(prev) * 10 + digit_val(s@[j as int]))) by (nonlinear_arith);
        }
        let stepped = match cur.checked_mul(10) {
            Some(m) => m.checked_add(d as u64),
            None => None,
        };
        match stepped {
            Some(v) => {
                cur = v;
            },
            None => {
                proof {
                    let partial = acc * pow10((j + 1 - from) as nat) + digits_val(next);
                    assert(partial > u64::MAX);
                    lemma_acc_split(acc as nat, whole, j + 1 - from);
                    assert(whole.take(j + 1 - from) =~= next);
                    lemma_acc_extends_bound(acc as nat, whole, j + 1 - from);
                }
                return None;
            },
        }
        j = j + 1;
    }
    proof {
        assert(s@.subrange(from as int, j as int) =~= whole);
    }
    Some(cur)
}

/// Normalization is exact when no fractional digit is dropped: for a valid
/// non-negative decimal string with at most `p` fractional digits, the
/// result is the reading of all its digits shifted up by the missing
/// decimal places — the value of the string times `10^p` — whenever that
/// fits in `u64`.
pub proof fn lemma_normalize_exact(s: Seq<char>, p: nat)
    requires
        is_decimal_string(s),
        !sign_is_minus(s),
        frac_digits(s).len() <= p,
        digits_val(int_digits(s) + frac_digits(s)) * pow10((p - frac_digits(s).len()) as nat)
            <= u64::MAX,
    ensures
        spec_normalize(s, p) == Some(
            (digits_val(int_digits(s) + frac_digits(s)) * pow10(
                (p - frac_digits(s).len()) as nat,
            )) as u64,
        ),
{
    assert(kept_frac(s, p) == frac_digits(s));
}

/// When the fractional run is longer than the precision, the scaled value
/// is the reading of all digits divided by `10^excess`: the excess digits
/// are truncated toward zero, never rounded.
pub proof fn lemma_normalize_truncates(s: Seq<char>, p: nat)
    requires
        is_decimal_string(s),
        frac_digits(s).len() > p,
    ensures
        scaled_units(s, p) == digits_val(int_digits(s) + frac_digits(s)) / pow10(
            (frac_digits(s).len() - p) as nat,
        ),
{
    let f = frac_digits(s);
    let ip = int_digits(s);
    let kept = f.take(p as int);
    let dropped = f.skip(p as int);
    let full = ip + f;
    let cut = ip.len() + p;
    lemma_digits_split(full, cut as int);
    assert(full.take(cut as int) =~= ip + kept);
    assert(full.skip(cut as int) =~= dropped);
    assert forall|i: int| 0 <= i < dropped.len() implies is_digit(#[trigger] dropped[i]) by {
        assert(dropped[i] == f[i + p]);
    }
    lemma_digits_bound(dropped);
    lemma_pow10_pos(dropped.len());
    vstd::arithmetic::div_mod::lemma_fundamental_div_mod_converse(
        digits_val(full) as int,
        pow10(dropped.len()) as int,
        digits_val(ip + kept) as int,
        digits_val(dropped) as int,
    );
    assert(scaled_units(s, p) == digits_val(ip + kept) * pow10(0));
    assert(digits_val(ip + kept) * pow10(0) == digits_val(ip + kept)) by (nonlinear_arith)
        requires
            pow10(0) == 1,
    ;
}

/// A minus-signed amount with any non-zero digit is rejected: no
/// non-negative count of smallest units represents it.
pub proof fn lemma_normalize_rejects_negative(s: Seq<char>, p: nat)
    requires
        is_decimal_string(s),
        sign_is_minus(s),
        digits_val(int_digits(s) + frac_digits(s)) != 0,
    ensures
        spec_normalize(s, p) is None,
{
}

/// The two powers of ten that bracket the `u64` range.
proof fn lemma_pow10_values()
    ensures
        pow10(19) == 10_000_000_000_000_000_000,
        pow10(20) == 100_000_000_000_000_000_000,
{
    reveal_with_fuel(pow10, 21);
}

/// `10^e` as a machine word, for the exponents that fit one.
fn pow10_u64(e: u32) -> (r: u64)
    requires
        e <= 19,
    ensures
        r == pow10(e as nat),
{
    let mut r: u64 = 1;
    let mut i: u32 = 0;
    while i < e
        invariant
            i <= e <= 19,
            r == pow10(i as nat),
        decreases e - i,
    {
        proof {
            lemma_pow10_monotone((i + 1) as nat, 19);
            lemma_pow10_values();
            assert(pow10((i + 1) as nat) == 10 * pow10(i as nat));
        }
        r = r * 10;
        i = i + 1;
    }
    r
}

/// Checks `amount` against the grammar and locates its pieces: the offset
/// of the first digit, the end of the integer digit run, and whether a
/// decimal point follows.
#[verifier::rlimit(50)]
fn split_amount(amount: &str) -> (r: Option<(usize, usize, bool)>)
    ensures
        r is None ==> !is_decimal_string(amount@),
        r matches Some((start, j, has_dot)) ==> ({
            &&& is_decimal_string(amount@)
            &&& start <= j <= amount@.len()
            &&& j - start > 0
            &&& int_digits(amount@) == amount@.subrange(start as int, j as int)
            &&& (has_dot ==> j < amount@.len() && frac_digits(amount@) == amount@.subrange(
                j + 1 as int,
                amount@.len() as int,
            ))
            &&& (!has_dot ==> j == amount@.len() && frac_digits(amount@).len() == 0)
        }),
{
    let ghost s = amount@;
    let n = amount.unicode_len();
    if n == 0 {
        proof {
            assert(digits_part(s) == s);
            assert(int_digits(s).len() == 0);
        }
        return None;
    }
    let c0 = amount.get_char(0);
    let neg = c0 == '-';
    let start: usize = if c0 == '-' || c0 == '+' {
        1
    } else {
        0
    };
    let ghost b = digits_part(s);
    proof {
        assert(c0 == s[0]);
        assert(neg == sign_is_minus(s));
        if start == 0 {
            assert(s.skip(0) =~= s);
        }
        assert(b == s.skip(start as int));
    }
    let j = first_non_digit(amount, start, n);
    proof {
        assert(forall|q: int| 0 <= q < b.len() ==> #[trigger] b[q] == s[q + start]);
    }
    if j == start {
        proof {
            if start == n {
                assert(b.len() == 0);
                assert(int_digits(s).len() == 0);
            } else {
                assert(!is_digit(b[0]));
                if b[0] == '.' {
                    assert(first_dot(b) == 0);
                    assert(int_digits(s) =~= b.take(0));
                    assert(int_digits(s).len() == 0);
                } else {
                    lemma_body_invalid_at(s, 0);
                }
            }
        }
        return None;
    }
    let ghost m = j - start;
    let mut has_dot = false;
    if j < n {
        let cj = amount.get_char(j);
        if cj != '.' {
            proof {
                assert(b[m] == s[j as int]);
                assert(forall|i: int| 0 <= i < m ==> is_digit(#[trigger] b[i]));
                lemma_body_invalid_at(s, m);
            }
            return None;
        }
        has_dot = true;
        proof {
            assert(b[m] == '.');
            assert(forall|i: int| 0 <= i < m ==> is_digit(#[trigger] b[i]));
            lemma_first_dot_at(b, m);
        }
        let k = first_non_digit(amount, j + 1, n);
        if k < n {
            proof {
                assert(frac_digits(s) == b.skip(m + 1));
                assert(frac_digits(s)[k - j - 1] == s[k as int]);
                assert(!all_digits(frac_digits(s)));
            }
            return None;
        }
        if n - j - 1 == 0 {
            proof {
                assert(frac_digits(s) == b.skip(m + 1));
                assert(frac_digits(s).len() == 0);
                assert(first_dot(digits_part(s)) >= 0);
            }
            return None;
        }
    }
    let fl: usize = if has_dot {
        n - j - 1
    } else {
        0
    };
    proof {
        if has_dot {
            assert(int_digits(s) =~= s.subrange(start as int, j as int));
            assert(frac_digits(s) =~= s.subrange(j + 1 as int, n as int));
        } else {
            lemma_no_dot(b);
            assert(int_digits(s) =~= s.subrange(start as int, j as int));
            assert(frac_digits(s) == Seq::<char>::empty());
        }
        assert forall|q: int| 0 <= q < int_digits(s).len() implies is_digit(
            #[trigger] int_digits(s)[q],
        ) by {
            assert(int_digits(s)[q] == s[q + start]);
        }
        assert forall|q: int| 0 <= q < frac_digits(s).len() implies is_digit(
            #[trigger] frac_digits(s)[q],
        ) by {
            assert(frac_digits(s)[q] == s[q + j + 1]);
        }
        assert(is_decimal_string(s));
    }
    Some((start, j, has_dot))
}

/// Converts the decimal string `amount` into an integer count of smallest
/// units at `precision` decimal places.
///
/// The result is exactly `spec_normalize`: the value of `amount` scaled by
/// `10^precision` and truncated toward zero, or an `InvalidAmountFormat`
/// error when the string is outside the grammar, its value is negative and
/// non-zero, or the scaled value does not fit in `u64`.
#[verifier::rlimit(100)]
pub fn normalize(amount: &str, precision: u32) -> (r: Result<u64, TransferError>)
    ensures
        r matches Ok(v) ==> spec_normalize(amount@, precision as nat) == Some(v),
        r matches Err(e) ==> spec_normalize(amount@, precision as nat) is None && (e matches
            TransferError::InvalidAmountFormat(m) && m@ == amount_error_text(amount@)),
{
    let ghost s = amount@;
    let ghost p = precision as nat;
    let (start, j, has_dot) = match split_amount(amount) {
        Some(t) => t,
        None => {
            return Err(
                TransferError::InvalidAmountFormat(String::from_str("Failed to parse amount")),
            );
        },
    };
    let n = amount.unicode_len();
    proof {
        if s.len() == 0 {
            assert(digits_part(s) == s);
            assert(int_digits(s) == s);
        }
        assert forall|i: int| start <= i < j implies is_digit(#[trigger] s[i]) by {
            assert(s[i] == int_digits(s)[i - start]);
        }
        if has_dot {
            assert forall|i: int| j + 1 <= i < n implies is_digit(#[trigger] s[i]) by {
                assert(s[i] == frac_digits(s)[i - j - 1]);
            }
        }
    }
    let c0 = amount.get_char(0);
    let neg = c0 == '-';
    proof {
        assert(c0 == s[0]);
        assert(neg == sign_is_minus(s));
    }
    let fl: usize = if has_dot {
        n - j - 1
    } else {
        0
    };
    if neg {
        let nz_int = has_nonzero_digit(amount, start, j);
        let nz_frac = if has_dot {
            has_nonzero_digit(amount, j + 1, n)
        } else {
            false
        };
        let ghost full = int_digits(s) + frac_digits(s);
        proof {
            lemma_digits_zero(full);
            assert(forall|q: int|
                0 <= q < int_digits(s).len() ==> #[trigger] full[q] == int_digits(s)[q]
                    == s[q + start]);
            assert(forall|q: int|
                int_digits(s).len() <= q < full.len() ==> #[trigger] full[q] == frac_digits(
                    s,
                )[q - int_digits(s).len()] == s[q - int_digits(s).len() + j + 1]);
        }
        if nz_int || nz_frac {
            proof {
                if nz_int {
                    let i = choose|i: int|
                        start <= i < j && digit_val(#[trigger] s[i]) != 0;
                    assert(full[i - start] == s[i]);
                    assert(digit_val(full[i - start]) != 0);
                } else {
                    let i = choose|i: int|
                        j + 1 <= i < n && digit_val(#[trigger] s[i]) != 0;
                    assert(full[i - j - 1 + int_digits(s).len()] == s[i]);
                    assert(digit_val(full[i - j - 1 + int_digits(s).len()]) != 0);
                }
                assert(digits_val(full) != 0);
            }
            return Err(
                TransferError::InvalidAmountFormat(
                    String::from_str("Failed to convert to integer"),
                ),
            );
        }
        proof {
            assert forall|q: int| 0 <= q < full.len() implies digit_val(#[trigger] full[q])
                == 0 by {
                if q < int_digits(s).len() {
                    assert(full[q] == s[q + start]);
                } else {
                    assert(full[q] == s[q - int_digits(s).len() + j + 1]);
                }
            }
            assert(digits_val(full) == 0);
        }
    }
    let keep: usize = if fl <= precision as usize {
        fl
    } else {
        precision as usize
    };
    let ghost kept = kept_frac(s, p);
    let ghost concat = int_digits(s) + kept;
    proof {
        if fl <= precision as usize {
            assert(kept == frac_digits(s));
        }
        if has_dot {
            assert(kept =~= s.subrange(j + 1 as int, j + 1 + keep as int));
        } else {
            assert(kept =~= Seq::<char>::empty());
        }
    }
    let units = match accumulate_digits(amount, start, j, 0) {
        Some(a1) => {
            proof {
                assert(0 * pow10((j - start) as nat) == 0) by (nonlinear_arith);
                assert(a1 == digits_val(int_digits(s)));
            }
            if has_dot && keep > 0 {
                match accumulate_digits(amount, j + 1, j + 1 + keep, a1) {
                    Some(a2) => {
                        proof {
                            lemma_digits_split(concat, int_digits(s).len() as int);
                            assert(concat.take(int_digits(s).len() as int) =~= int_digits(s));
                            assert(concat.skip(int_digits(s).len() as int) =~= kept);
                            assert(kept =~= s.subrange(j + 1 as int, j + 1 + keep as int));
                            assert(a2 == digits_val(concat));
                        }
                        Some(a2)
                    },
                    None => {
                        proof {
                            lemma_digits_split(concat, int_digits(s).len() as int);
                            assert(concat.take(int_digits(s).len() as int) =~= int_digits(s));
                            assert(concat.skip(int_digits(s).len() as int) =~= kept);
                            assert(kept =~= s.subrange(j + 1 as int, j + 1 + keep as int));
                            assert(digits_val(concat) > u64::MAX);
                        }
                        None
                    },
                }
            } else {
                proof {
                    assert(kept.len() == 0);
                    assert(concat =~= int_digits(s));
                    assert(a1 == digits_val(concat));
                }
                Some(a1)
            }
        },
        None => {
            proof {
                assert(0 * pow10((j - start) as nat) == 0) by (nonlinear_arith);
                assert(digits_val(int_digits(s)) > u64::MAX);
                lemma_digits_split(concat, int_digits(s).len() as int);
                assert(concat.take(int_digits(s).len() as int) =~= int_digits(s));
                assert(concat.skip(int_digits(s).len() as int) =~= kept);
                lemma_pow10_pos(kept.len());
                assert(digits_val(concat) >= digits_val(int_digits(s)) * pow10(kept.len()))
                    by (nonlinear_arith)
                    requires
                        digits_val(concat) == digits_val(int_digits(s)) * pow10(kept.len())
                            + digits_val(kept),
                ;
                assert(digits_val(int_digits(s)) * pow10(kept.len()) >= digits_val(
                    int_digits(s),
                )) by (nonlinear_arith)
                    requires
                        pow10(kept.len()) >= 1,
                ;
                assert(digits_val(concat) > u64::MAX);
            }
            None
        },
    };
    let units = match units {
        Some(u) => u,
        None => {
            proof {
                let shift = if frac_digits(s).len() <= p {
                    (p - frac_digits(s).len()) as nat
                } else {
                    0
                };
                lemma_pow10_pos(shift);
                assert(scaled_units(s, p) >= digits_val(concat)) by (nonlinear_arith)
                    requires
                        scaled_units(s, p) == digits_val(concat) * pow10(shift),
                        pow10(shift) >= 1,
                ;
            }
            return Err(
                TransferError::InvalidAmountFormat(
                    String::from_str("Failed to convert to integer"),
                ),
            );
        },
    };
    // units == digits_val(int_digits + kept_frac); apply the remaining shift.
    if units == 0 {
        proof {
            let shift = if frac_digits(s).len() <= p {
                (p - frac_digits(s).len()) as nat
            } else {
                0
            };
            assert(scaled_units(s, p) == 0 * pow10(shift));
            assert(0 * pow10(shift) == 0) by (nonlinear_arith);
        }
        return Ok(0);
    }
    if fl <= precision as usize {
        let shift: u32 = precision - fl as u32;
        if shift >= 20 {
            proof {
                lemma_pow10_values();
                lemma_pow10_monotone(20, shift as nat);
                assert(scaled_units(s, p) >= pow10(shift as nat)) by (nonlinear_arith)
                    requires
                        scaled_units(s, p) == digits_val(concat) * pow10(shift as nat),
                        digits_val(concat) >= 1,
                ;
            }
            return Err(
                TransferError::InvalidAmountFormat(
                    String::from_str("Failed to convert to integer"),
                ),
            );
        }
        let scale = pow10_u64(shift);
        match units.checked_mul(scale) {
            Some(v) => {
                proof {
                    assert(scaled_units(s, p) == v);
                }
                Ok(v)
            },
            None => {
                proof {
                    assert(scaled_units(s, p) > u64::MAX);
                }
                Err(
                    TransferError::InvalidAmountFormat(
                        String::from_str("Failed to convert to integer"),
                    ),
                )
            },
        }
    } else {
        proof {
            assert(scaled_units(s, p) == digits_val(concat) * pow10(0));
            assert(digits_val(concat) * pow10(0) == digits_val(concat)) by (nonlinear_arith)
                requires
                    pow10(0) == 1,
            ;
        }
        Ok(units)
    }
}

} // verus!
