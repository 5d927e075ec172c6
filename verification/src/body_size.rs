//! The limit on the size of request bodies, as it is written in a configuration: a number
//! of bytes, a number with a unit, or a word for no limit.
//!
//! A number is read as the IEEE double that is nearest to it, and the limit is the integer
//! part of that double times the unit. This module computes it with integers.

use vstd::prelude::*;
use vstd::slice::slice_subrange;

use crate::numeral;
use crate::outside;
use crate::text;
use crate::text::Trim;

verus! {

/// The limit where the setting cannot be read.
pub const MAX_BODY: i64 = 1_048_576;

/// The number of bits of a double's significand, as the power of two that it stays below.
pub const SIGNIFICAND: u64 = 0x20_0000_0000_0000;

// ---------------------------------------------------------------------------
// Doubles
// ---------------------------------------------------------------------------

/// The integer nearest to `n / d`, the even one where two are equally near.
pub open spec fn nearest(n: nat, d: nat) -> nat {
    let q = n / d;
    let r = n % d;
    if 2 * r > d || (2 * r == d && q % 2 == 1) {
        q + 1
    } else {
        q
    }
}

/// The integer part of `m` times two to the power of `t`.
pub open spec fn shifted(m: nat, t: int) -> nat
    decreases (if t < 0 {
        -t
    } else {
        t
    }),
{
    if t > 0 {
        shifted(2 * m, t - 1)
    } else if t < 0 {
        shifted(m / 2, t + 1)
    } else {
        m
    }
}

/// How far `n / d` is from having a significand of the right size.
pub open spec fn distance(n: nat, d: nat) -> int {
    if n >= SIGNIFICAND * d {
        n - d
    } else if 2 * n < SIGNIFICAND * d {
        SIGNIFICAND * d - 2 * n
    } else {
        0
    }
}

/// The integer part of `D` times two to the power of `t`, where `D` is the double nearest
/// to `n / d`: the fraction is scaled by powers of two until its integer part has the 53
/// bits of a significand, then rounded. Fractions that are too small or too large for a
/// double of full precision come out as zero, and as more than any `i64`, with such
/// scalings as are used here.
pub open spec fn scaled_double(n: nat, d: nat, t: int) -> nat
    decreases distance(n, d),
{
    if n == 0 || d == 0 {
        0
    } else if n >= SIGNIFICAND * d {
        scaled_double(n, 2 * d, t + 1)
    } else if 2 * n < SIGNIFICAND * d {
        scaled_double(2 * n, d, t - 1)
    } else {
        shifted(nearest(n, d), t)
    }
}

/// A number of bytes, brought into the range of `i64`.
pub open spec fn saturated(n: nat) -> i64 {
    if n > i64::MAX {
        i64::MAX
    } else {
        n as i64
    }
}

proof fn lemma_shifted_grows(m: nat, t: int)
    requires
        t >= 0,
    ensures
        shifted(m, t) >= m,
    decreases t,
{
    if t > 0 {
        lemma_shifted_grows(2 * m, t - 1);
    }
}

proof fn lemma_shifted_to_zero(m: nat, t: int)
    requires
        m < vstd::arithmetic::power2::pow2((-t) as nat),
        t <= 0,
    ensures
        shifted(m, t) == 0,
    decreases -t,
{
    vstd::arithmetic::power2::lemma2_to64();
    if t < 0 {
        vstd::arithmetic::power2::lemma_pow2_unfold((-t) as nat);
        lemma_shifted_to_zero(m / 2, t + 1);
    }
}

proof fn lemma_shifted_large(m: nat, t: int, b: nat)
    requires
        m >= vstd::arithmetic::power2::pow2(b),
        t >= 0,
        b + t >= 63,
    ensures
        shifted(m, t) > i64::MAX,
    decreases t,
{
    vstd::arithmetic::power2::lemma2_to64();
    vstd::arithmetic::power2::lemma2_to64_rest();
    if b >= 63 {
        if b > 63 {
            vstd::arithmetic::power2::lemma_pow2_strictly_increases(63, b);
        }
        lemma_shifted_grows(m, t);
    } else {
        vstd::arithmetic::power2::lemma_pow2_unfold(b + 1);
        lemma_shifted_large(2 * m, t - 1, b + 1);
    }
}

/// A fraction of 2^63 or more gives more than any `i64`.
proof fn lemma_large(n: nat, d: nat, t: int, b: nat)
    requires
        d > 0,
        t >= 0,
        b >= 52,
        b + t >= 63,
        n >= vstd::arithmetic::power2::pow2(b) * d,
    ensures
        scaled_double(n, d, t) > i64::MAX,
    decreases distance(n, d),
{
    vstd::arithmetic::power2::lemma2_to64();
    vstd::arithmetic::power2::lemma2_to64_rest();
    let p = vstd::arithmetic::power2::pow2(b);
    if b > 52 {
        vstd::arithmetic::power2::lemma_pow2_strictly_increases(52, b);
    }
    assert(n >= 0x10_0000_0000_0000 * d) by (nonlinear_arith)
        requires
            n >= p * d,
            p >= 0x10_0000_0000_0000,
    ;
    if n >= SIGNIFICAND * d {
        if b > 52 {
            let half = vstd::arithmetic::power2::pow2((b - 1) as nat);
            vstd::arithmetic::power2::lemma_pow2_unfold(b);
            assert(half * (2 * d) == p * d) by (nonlinear_arith)
                requires
                    p == 2 * half,
            ;
            lemma_large(n, 2 * d, t + 1, (b - 1) as nat);
        } else {
            lemma_large(n, 2 * d, t + 1, 52);
        }
    } else {
        if b > 52 {
            if b > 53 {
                vstd::arithmetic::power2::lemma_pow2_strictly_increases(53, b);
            }
            assert(n >= SIGNIFICAND * d) by (nonlinear_arith)
                requires
                    n >= p * d,
                    p >= SIGNIFICAND,
            ;
        }
        assert(n / d >= 0x10_0000_0000_0000) by (nonlinear_arith)
            requires
                n >= 0x10_0000_0000_0000 * d,
                d > 0,
        ;
        lemma_shifted_large(nearest(n, d), t, 52);
    }
}

/// A fraction below 2^53 that is scaled down by 54 bits or more gives zero.
proof fn lemma_small(n: nat, d: nat, t: int)
    requires
        d > 0,
        t <= -54,
        n < SIGNIFICAND * d,
    ensures
        scaled_double(n, d, t) == 0,
    decreases distance(n, d),
{
    if n > 0 {
        if 2 * n < SIGNIFICAND * d {
            lemma_small(2 * n, d, t - 1);
        } else {
            vstd::arithmetic::power2::lemma2_to64();
            vstd::arithmetic::power2::lemma2_to64_rest();
            assert(n / d < SIGNIFICAND) by (nonlinear_arith)
                requires
                    n < SIGNIFICAND * d,
                    d > 0,
            ;
            if -t > 54 {
                vstd::arithmetic::power2::lemma_pow2_strictly_increases(54, (-t) as nat);
            }
            lemma_shifted_to_zero(nearest(n, d), t);
        }
    }
}

/// Scales a significand and brings it into the range of `i64`.
fn shift(m: u64, t: i64) -> (r: i64)
    requires
        m <= SIGNIFICAND,
    ensures
        r == saturated(shifted(m as nat, t as int)),
{
    let mut x: u64 = m;
    let mut left: i64 = t;
    while left > 0
        invariant
            left > 0 ==> t >= left,
            left <= 0 ==> left == t || left == 0,
            shifted(m as nat, t as int) == shifted(x as nat, left as int),
            left == t ==> x <= SIGNIFICAND,
        decreases left,
    {
        if x > 0x7fff_ffff_ffff_ffff {
            proof {
                lemma_shifted_grows(x as nat, left as int);
            }
            return i64::MAX;
        }
        x = x * 2;
        left = left - 1;
    }
    while left < 0
        invariant
            left <= 0,
            shifted(m as nat, t as int) == shifted(x as nat, left as int),
        decreases -left,
    {
        x = x / 2;
        left = left + 1;
    }
    if x > 0x7fff_ffff_ffff_ffff {
        i64::MAX
    } else {
        x as i64
    }
}

// ---------------------------------------------------------------------------
// Decimal fractions
// ---------------------------------------------------------------------------

/// Ten to the power of `k`.
pub open spec fn tens(k: nat) -> nat
    decreases k,
{
    if k == 0 {
        1
    } else {
        10 * tens((k - 1) as nat)
    }
}

/// The value of decimal digits.
pub open spec fn digits_number(f: Seq<u8>) -> nat
    decreases f.len(),
{
    if f.len() == 0 {
        0
    } else {
        (f[0] as nat) * tens((f.len() - 1) as nat) + digits_number(f.drop_first())
    }
}

/// All are decimal digits.
pub open spec fn are_digits(f: Seq<u8>) -> bool {
    forall|i: int| 0 <= i < f.len() ==> #[trigger] f[i] <= 9
}

proof fn lemma_tens_positive(k: nat)
    ensures
        tens(k) > 0,
    decreases k,
{
    if k > 0 {
        lemma_tens_positive((k - 1) as nat);
    }
}

proof fn lemma_digits_below(f: Seq<u8>)
    requires
        are_digits(f),
    ensures
        digits_number(f) < tens(f.len()),
    decreases f.len(),
{
    if f.len() > 0 {
        let rest = f.drop_first();
        assert forall|i: int| 0 <= i < rest.len() implies #[trigger] rest[i] <= 9 by {
            assert(rest[i] == f[i + 1]);
        }
        lemma_digits_below(rest);
        let t = tens((f.len() - 1) as nat);
        let h = f[0];
        assert(h <= 9);
        assert(h * t <= 9 * t) by (nonlinear_arith)
            requires
                h <= 9,
        ;
    }
}

proof fn lemma_zero_digits(f: Seq<u8>)
    requires
        are_digits(f),
    ensures
        digits_number(f) == 0 <==> (forall|i: int| 0 <= i < f.len() ==> #[trigger] f[i] == 0),
    decreases f.len(),
{
    if f.len() > 0 {
        let rest = f.drop_first();
        assert forall|i: int| 0 <= i < rest.len() implies #[trigger] rest[i] <= 9 by {
            assert(rest[i] == f[i + 1]);
        }
        lemma_zero_digits(rest);
        let t = tens((f.len() - 1) as nat);
        lemma_tens_positive((f.len() - 1) as nat);
        let h = f[0];
        if h == 0 {
            assert(h * t == 0) by (nonlinear_arith)
                requires
                    h == 0,
            ;
            if digits_number(f) == 0 {
                assert forall|i: int| 0 <= i < f.len() implies #[trigger] f[i] == 0 by {
                    if i > 0 {
                        assert(rest[i - 1] == f[i]);
                    }
                }
            }
            if forall|i: int| 0 <= i < f.len() ==> #[trigger] f[i] == 0 {
                assert forall|i: int| 0 <= i < rest.len() implies #[trigger] rest[i] == 0 by {
                    assert(rest[i] == f[i + 1]);
                }
            }
        } else {
            assert(h * t > 0) by (nonlinear_arith)
                requires
                    h > 0,
                    t > 0,
            ;
        }
    }
}

/// Doubles a decimal fraction: its digits become those of the fractional part of the double,
/// and the integer part is returned.
fn double_digits(f: &mut Vec<u8>) -> (carry: u8)
    requires
        are_digits(old(f)@),
    ensures
        carry <= 1,
        final(f)@.len() == old(f)@.len(),
        are_digits(final(f)@),
        digits_number(final(f)@) + carry * tens(old(f)@.len()) == 2 * digits_number(old(f)@),
{
    let ghost was = f@;
    let n: usize = f.len();
    let mut i: usize = n;
    let mut carry: u8 = 0;
    assert(f@.skip(n as int) =~= Seq::<u8>::empty());
    assert(was.skip(n as int) =~= Seq::<u8>::empty());
    while i > 0
        invariant
            i <= n,
            carry <= 1,
            f@.len() == n,
            was.len() == n,
            are_digits(was),
            forall|j: int| 0 <= j < i ==> f@[j] == was[j],
            forall|j: int| i <= j < n ==> #[trigger] f@[j] <= 9,
            digits_number(f@.skip(i as int)) + carry * tens((n - i) as nat) == 2 * digits_number(
                was.skip(i as int),
            ),
        decreases i,
    {
        let ghost old_f = f@;
        let ghost old_carry = carry;
        i = i - 1;
        let h = f[i];
        assert(f@[i as int] == was[i as int]);
        assert(h <= 9);
        let twice: u8 = 2 * h + carry;
        let low: u8 = if twice >= 10 {
            twice - 10
        } else {
            twice
        };
        let up: u8 = if twice >= 10 {
            1
        } else {
            0
        };
        f.set(i, low);
        carry = up;
        proof {
            let t = tens((n - i - 1) as nat);
            assert(f@.skip(i as int).drop_first() =~= old_f.skip(i + 1));
            assert(was.skip(i as int).drop_first() =~= was.skip(i + 1));
            assert(f@.skip(i as int)[0] == low);
            assert(was.skip(i as int)[0] == h);
            assert(tens((n - i) as nat) == 10 * t);
            assert(low * t + up * (10 * t) == 2 * (h * t) + old_carry * t) by (nonlinear_arith)
                requires
                    low + 10 * up == 2 * h + old_carry,
            ;
        }
    }
    assert(f@.skip(0) =~= f@);
    assert(was.skip(0) =~= was);
    carry
}

fn is_zero(f: &Vec<u8>) -> (r: bool)
    requires
        are_digits(f@),
    ensures
        r == (digits_number(f@) == 0),
{
    proof {
        lemma_zero_digits(f@);
    }
    for i in 0..f.len()
        invariant
            forall|j: int| 0 <= j < i ==> #[trigger] f@[j] == 0,
            digits_number(f@) == 0 <==> (forall|j: int| 0 <= j < f@.len() ==> #[trigger] f@[j] == 0),
    {
        if f[i] != 0 {
            return false;
        }
    }
    true
}

// ---------------------------------------------------------------------------
// The double of a decimal number, scaled
// ---------------------------------------------------------------------------

/// Splits a mixed number: its integer part and the rest.
proof fn lemma_mixed(q: nat, r: nat, d: nat)
    requires
        r < d,
    ensures
        (q * d + r) / d == q,
        (q * d + r) % d == r,
{
    vstd::arithmetic::div_mod::lemma_fundamental_div_mod_converse(
        (q * d + r) as int,
        d as int,
        q as int,
        r as int,
    );
}

/// Numbers below 2^53: doubles the fraction until the significand is full, then rounds.
fn scale_up(whole: u64, fraction: Vec<u8>, t: i64) -> (r: i64)
    requires
        whole < SIGNIFICAND,
        are_digits(fraction@),
        0 <= t <= 30,
    ensures
        r == saturated(
            scaled_double(
                (whole as nat) * tens(fraction@.len()) + digits_number(fraction@),
                tens(fraction@.len()),
                t as int,
            ),
        ),
{
    let mut y: u64 = whole;
    let mut f = fraction;
    let mut left: i64 = t;
    let ghost d = tens(fraction@.len());
    let ghost n = (whole as nat) * d + digits_number(fraction@);
    proof {
        lemma_tens_positive(fraction@.len());
    }
    while y < SIGNIFICAND / 2 && left > -54
        invariant
            d == tens(f@.len()),
            d > 0,
            y < SIGNIFICAND,
            are_digits(f@),
            -54 <= left <= 30,
            scaled_double(n, d, t as int) == scaled_double(
                (y as nat) * d + digits_number(f@),
                d,
                left as int,
            ),
        decreases left + 54,
    {
        let ghost v = digits_number(f@);
        let ghost was = y;
        proof {
            lemma_digits_below(f@);
        }
        let carry = double_digits(&mut f);
        y = 2 * y + carry as u64;
        left = left - 1;
        proof {
            let w = digits_number(f@);
            let now = y;
            assert(2 * (was * d + v) < SIGNIFICAND * d) by (nonlinear_arith)
                requires
                    was < 0x10_0000_0000_0000,
                    SIGNIFICAND == 0x20_0000_0000_0000,
                    v < d,
            ;
            assert(2 * (was * d + v) == now * d + w) by (nonlinear_arith)
                requires
                    now == 2 * was + carry,
                    w + carry * d == 2 * v,
            ;
            if was * d + v == 0 {
                assert(now * d + w == 0);
            }
        }
    }
    let ghost v = digits_number(f@);
    proof {
        lemma_digits_below(f@);
    }
    if y < SIGNIFICAND / 2 {
        proof {
            let now = y;
            assert(now * d + v < SIGNIFICAND * d) by (nonlinear_arith)
                requires
                    now < 0x10_0000_0000_0000,
                    SIGNIFICAND == 0x20_0000_0000_0000,
                    v < d,
            ;
            lemma_small((y * d + v) as nat, d, left as int);
        }
        return 0;
    }
    proof {
        let now = y;
        assert(now * d + v < SIGNIFICAND * d) by (nonlinear_arith)
            requires
                now + 1 <= SIGNIFICAND,
                v < d,
        ;
        assert(2 * (now * d + v) >= SIGNIFICAND * d) by (nonlinear_arith)
            requires
                2 * now >= SIGNIFICAND,
        ;
        lemma_mixed(y as nat, v, d);
    }
    let carry = double_digits(&mut f);
    let exact_half = is_zero(&f);
    proof {
        lemma_digits_below(f@);
    }
    let up = carry == 1 && (!exact_half || y % 2 == 1);
    let m: u64 = if up {
        y + 1
    } else {
        y
    };
    assert(m == nearest((y * d + v) as nat, d)) by {
        let w = digits_number(f@);
        assert(w + carry * d == 2 * v);
        assert(carry == 1 ==> carry * d == d) by (nonlinear_arith);
        assert(carry == 0 ==> carry * d == 0) by (nonlinear_arith);
    }
    shift(m, left)
}

/// Numbers of 2^53 and more, below 2^63: halves the integer part until the significand is
/// full, then rounds.
fn scale_down(whole: u64, fraction: &Vec<u8>, t: i64) -> (r: i64)
    requires
        SIGNIFICAND <= whole < 0x8000_0000_0000_0000,
        are_digits(fraction@),
        0 <= t <= 30,
    ensures
        r == saturated(
            scaled_double(
                (whole as nat) * tens(fraction@.len()) + digits_number(fraction@),
                tens(fraction@.len()),
                t as int,
            ),
        ),
{
    let mut q: u64 = whole;
    let mut rest: u64 = 0;
    let mut h: u64 = 1;
    let mut left: i64 = t;
    let ghost d = tens(fraction@.len());
    let ghost v = digits_number(fraction@);
    let ghost n = (whole as nat) * d + v;
    proof {
        lemma_tens_positive(fraction@.len());
        lemma_digits_below(fraction@);
    }
    while q >= SIGNIFICAND
        invariant
            v < d,
            d > 0,
            n == whole * d + v,
            whole < 0x8000_0000_0000_0000,
            whole == q * h + rest,
            rest < h,
            1 <= h,
            q >= SIGNIFICAND / 2,
            0 <= left,
            left <= t + h,
            t <= 30,
            scaled_double(n as nat, d, t as int) == scaled_double(
                n as nat,
                (d * h) as nat,
                left as int,
            ),
            h == 1 ==> q == whole,
            h > 1 ==> h % 2 == 0,
        decreases q,
    {
        let ghost q0 = q;
        let ghost h0 = h;
        let ghost r0 = rest;
        proof {
            assert(h0 <= 1024) by (nonlinear_arith)
                requires
                    q0 * h0 + r0 < 0x8000_0000_0000_0000,
                    q0 >= SIGNIFICAND,
                    SIGNIFICAND == 0x20_0000_0000_0000,
                    r0 >= 0,
            ;
        }
        if q % 2 == 1 {
            rest = rest + h;
        }
        q = q / 2;
        h = h * 2;
        left = left + 1;
        proof {
            let q1 = q;
            let r1 = rest;
            let h1 = h;
            assert(q1 * h1 + r1 == q0 * h0 + r0) by (nonlinear_arith)
                requires
                    h1 == 2 * h0,
                    q0 == 2 * q1 && r1 == r0 || q0 == 2 * q1 + 1 && r1 == r0 + h0,
            ;
            assert(n >= SIGNIFICAND * (d * h0)) by (nonlinear_arith)
                requires
                    n == (q0 * h0 + r0) * d + v,
                    q0 >= SIGNIFICAND,
                    h0 >= 1,
                    d >= 1,
                    r0 >= 0,
                    v >= 0,
            ;
            assert(d * h1 == 2 * (d * h0)) by (nonlinear_arith)
                requires
                    h1 == 2 * h0,
            ;
            assert(d * h0 > 0) by (nonlinear_arith)
                requires
                    d > 0,
                    h0 > 0,
            ;
        }
    }
    let ghost dh = (d * h) as nat;
    let ghost rem = (rest * d + v) as nat;
    proof {
        let q1 = q;
        let r1 = rest;
        let h1 = h;
        assert(n == q1 * (d * h1) + (r1 * d + v)) by (nonlinear_arith)
            requires
                n == (q1 * h1 + r1) * d + v,
        ;
        assert(r1 * d + v < d * h1) by (nonlinear_arith)
            requires
                r1 + 1 <= h1,
                v < d,
        ;
        lemma_mixed(q as nat, rem, dh);
        assert(n < SIGNIFICAND * dh) by (nonlinear_arith)
            requires
                n == q1 * dh + rem,
                rem < dh,
                q1 + 1 <= SIGNIFICAND,
        ;
        assert(2 * n >= SIGNIFICAND * dh) by (nonlinear_arith)
            requires
                n == q1 * dh + rem,
                2 * q1 >= SIGNIFICAND,
        ;
    }
    let half = h / 2;
    let whole_fraction = is_zero(fraction);
    let up = rest > half || (rest == half && (!whole_fraction || q % 2 == 1));
    let m: u64 = if up {
        q + 1
    } else {
        q
    };
    proof {
        let r1 = rest;
        let h1 = h;
        let k = half;
        assert(h1 == 2 * k);
        if r1 > k {
            assert(2 * (r1 * d + v) > d * h1) by (nonlinear_arith)
                requires
                    r1 >= k + 1,
                    h1 == 2 * k,
                    d >= 1,
            ;
        } else if r1 == k {
            assert(2 * (r1 * d + v) == d * h1 + 2 * v) by (nonlinear_arith)
                requires
                    r1 == k,
                    h1 == 2 * k,
            ;
        } else {
            assert(2 * (r1 * d + v) < d * h1) by (nonlinear_arith)
                requires
                    r1 + 1 <= k,
                    h1 == 2 * k,
                    v < d,
            ;
        }
        assert(m == nearest(n as nat, dh));
    }
    shift(m, left)
}

// ---------------------------------------------------------------------------
// Settings
// ---------------------------------------------------------------------------

/// A decimal digit.
pub open spec fn is_digit(c: char) -> bool {
    '0' <= c <= '9'
}

/// The length of the number at the start of a text: digits, and one dot at most.
pub open spec fn number_len(s: Seq<char>, seen_dot: bool) -> int
    decreases s.len(),
{
    if s.len() == 0 {
        0
    } else if is_digit(s[0]) {
        1 + number_len(s.drop_first(), seen_dot)
    } else if s[0] == '.' && !seen_dot {
        1 + number_len(s.drop_first(), true)
    } else {
        0
    }
}

/// The power of two that a unit stands for.
pub open spec fn unit_power(unit: Seq<char>) -> Option<int> {
    if unit.len() == 0 || unit == "b"@ {
        Some(0)
    } else if unit == "kb"@ {
        Some(10)
    } else if unit == "mb"@ {
        Some(20)
    } else if unit == "gb"@ {
        Some(30)
    } else {
        None
    }
}

/// The digits before the dot of a number.
pub open spec fn whole_part(num: Seq<char>) -> Seq<char> {
    text::before(num, '.')
}

/// The digits behind the dot of a number.
pub open spec fn fraction_part(num: Seq<char>) -> Seq<char> {
    match text::cut(num, '.') {
        Some((_, f)) => f,
        None => seq![],
    }
}

/// One digit or more, and where there is a dot, one digit or more behind it.
pub open spec fn is_number(num: Seq<char>) -> bool {
    whole_part(num).len() > 0 && (num.contains('.') ==> fraction_part(num).len() > 0)
}

/// The integer part of the double nearest to a decimal number, times a power of two, brought
/// into the range of `i64`.
pub open spec fn number_of_bytes(num: Seq<char>, power: int) -> i64 {
    let f = fraction_part(num);
    saturated(
        scaled_double(
            numeral::digits_value(whole_part(num), 10) * tens(f.len()) + numeral::digits_value(
                f,
                10,
            ),
            tens(f.len()),
            power,
        ),
    )
}

/// The limit that a setting stands for, or nothing where it stands for no limit: a number with
/// a unit or without one. Every other text stands for the default limit.
pub open spec fn body_limit(value: Seq<char>) -> Option<i64> {
    let s = outside::lowercase(text::trimmed(value, Trim::Space));
    if s == "unlimited"@ || s == "none"@ || s == "off"@ || s == "0"@ {
        None
    } else {
        let k = number_len(s, false);
        let num = s.take(k);
        match unit_power(text::trim_left(s.skip(k), Trim::Space)) {
            Some(power) => if is_number(num) {
                Some(number_of_bytes(num, power))
            } else {
                Some(MAX_BODY)
            },
            None => Some(MAX_BODY),
        }
    }
}

proof fn lemma_number_shape(s: Seq<char>, seen_dot: bool)
    ensures
        0 <= number_len(s, seen_dot) <= s.len(),
        seen_dot ==> (forall|i: int| 0 <= i < number_len(s, seen_dot) ==> is_digit(#[trigger] s[i])),
        !seen_dot ==> (forall|i: int|
            0 <= i < number_len(s, seen_dot) && i != text::first_of(
                s.take(number_len(s, seen_dot)),
                '.',
            ) ==> is_digit(#[trigger] s[i])),
    decreases s.len(),
{
    let k = number_len(s, seen_dot);
    if s.len() > 0 && (is_digit(s[0]) || (s[0] == '.' && !seen_dot)) {
        let rest = s.drop_first();
        let next = if is_digit(s[0]) {
            seen_dot
        } else {
            true
        };
        lemma_number_shape(rest, next);
        assert(s.take(k).drop_first() =~= rest.take(k - 1));
        assert forall|i: int|
            0 <= i < k && (seen_dot || i != text::first_of(s.take(k), '.')) implies is_digit(
            #[trigger] s[i],
        ) by {
            if i > 0 {
                assert(rest[i - 1] == s[i]);
            }
        }
    }
}

fn number_length(s: &Vec<char>) -> (k: usize)
    ensures
        k == number_len(s@, false),
        k <= s@.len(),
{
    let mut i: usize = 0;
    let mut seen_dot = false;
    assert(s@.skip(0) =~= s@);
    while i < s.len()
        invariant
            i <= s@.len(),
            number_len(s@, false) == i + number_len(s@.skip(i as int), seen_dot),
        decreases s.len() - i,
    {
        let c = s[i];
        let ghost rest = s@.skip(i as int);
        assert(rest[0] == c);
        assert(rest.drop_first() =~= s@.skip(i + 1));
        if '0' <= c && c <= '9' {
            i = i + 1;
        } else if c == '.' && !seen_dot {
            seen_dot = true;
            i = i + 1;
        } else {
            return i;
        }
    }
    i
}

/// The digits of a text as numbers.
spec fn digit_bytes(s: Seq<char>) -> Seq<u8> {
    s.map_values(|c: char| (c as u32 - 48) as u8)
}

proof fn lemma_front_digit(s: Seq<char>)
    requires
        s.len() > 0,
    ensures
        numeral::digits_value(s, 10) == numeral::digit_value(s[0], 10).unwrap_or(0) * tens(
            (s.len() - 1) as nat,
        ) + numeral::digits_value(s.drop_first(), 10),
    decreases s.len(),
{
    let h = numeral::digit_value(s[0], 10).unwrap_or(0);
    if s.len() == 1 {
        assert(s.drop_last() =~= Seq::<char>::empty());
        assert(s.drop_first() =~= Seq::<char>::empty());
        let t = tens(0);
        assert(h * t == h) by (nonlinear_arith)
            requires
                t == 1,
        ;
        assert(numeral::digits_value(s.drop_last(), 10) == 0);
        assert(numeral::digits_value(s.drop_first(), 10) == 0);
    } else {
        let init = s.drop_last();
        lemma_front_digit(init);
        let mid = init.drop_first();
        assert(s.drop_first().drop_last() =~= mid);
        assert(s.drop_first().last() == s.last());
        let t = tens((init.len() - 1) as nat);
        assert(tens((s.len() - 1) as nat) == 10 * t);
        let m = numeral::digits_value(mid, 10);
        assert((h * t + m) * 10 == h * (10 * t) + m * 10) by (nonlinear_arith);
    }
}

proof fn lemma_digit_bytes(s: Seq<char>)
    requires
        forall|i: int| 0 <= i < s.len() ==> is_digit(#[trigger] s[i]),
    ensures
        are_digits(digit_bytes(s)),
        digits_number(digit_bytes(s)) == numeral::digits_value(s, 10),
    decreases s.len(),
{
    assert forall|i: int| 0 <= i < s.len() implies #[trigger] digit_bytes(s)[i] <= 9 by {
        assert(is_digit(s[i]));
    }
    if s.len() > 0 {
        let rest = s.drop_first();
        assert forall|i: int| 0 <= i < rest.len() implies is_digit(#[trigger] rest[i]) by {
            assert(rest[i] == s[i + 1]);
        }
        lemma_digit_bytes(rest);
        lemma_front_digit(s);
        assert(digit_bytes(s).drop_first() =~= digit_bytes(rest));
        assert(is_digit(s[0]));
    }
}

fn to_digit_bytes(s: &[char]) -> (v: Vec<u8>)
    requires
        forall|i: int| 0 <= i < s@.len() ==> is_digit(#[trigger] s@[i]),
    ensures
        v@ == digit_bytes(s@),
{
    let mut v: Vec<u8> = Vec::new();
    for i in 0..s.len()
        invariant
            forall|j: int| 0 <= j < s@.len() ==> is_digit(#[trigger] s@[j]),
            v@ == digit_bytes(s@.take(i as int)),
    {
        let c = s[i];
        assert(is_digit(s@[i as int]));
        v.push(c as u8 - 48);
        assert(v@ =~= digit_bytes(s@.take(i as int + 1)));
    }
    assert(s@.take(s@.len() as int) =~= s@);
    v
}

/// The number of bytes that a number with a unit stands for.
fn count_bytes(num: &[char], power: i64) -> (r: i64)
    requires
        forall|i: int|
            0 <= i < num@.len() && i != text::first_of(num@, '.') ==> is_digit(#[trigger] num@[i]),
        0 <= power <= 30,
    ensures
        r == number_of_bytes(num@, power as int),
{
    let k = text::find_char(num, '.');
    let whole = slice_subrange(num, 0, k);
    let fraction: &[char] = if k < num.len() {
        slice_subrange(num, k + 1, num.len())
    } else {
        slice_subrange(num, k, k)
    };
    let ghost ival = numeral::digits_value(whole@, 10);
    let ghost d = tens(fraction@.len());
    let ghost v = numeral::digits_value(fraction@, 10);
    proof {
        text::lemma_first_of(num@, '.');
        assert(whole@ =~= whole_part(num@));
        assert(fraction@ =~= fraction_part(num@));
        assert forall|i: int| 0 <= i < whole@.len() implies is_digit(#[trigger] whole@[i]) by {
            assert(whole@[i] == num@[i]);
        }
        assert forall|i: int| 0 <= i < fraction@.len() implies is_digit(#[trigger] fraction@[i]) by {
            assert(fraction@[i] == num@[i + k + 1]);
        }
        lemma_digit_bytes(fraction@);
        lemma_tens_positive(fraction@.len());
        assert forall|i: int| 0 <= i < whole@.len() implies numeral::digit_value(
            #[trigger] whole@[i],
            10,
        ) is Some by {
            assert(is_digit(whole@[i]));
        }
    }
    let f = to_digit_bytes(fraction);
    let i: u64 = if whole.len() == 0 {
        0
    } else {
        match numeral::read_digits(whole, 10, 0x7fff_ffff_ffff_ffff) {
            Some(n) => n,
            None => {
                proof {
                    vstd::arithmetic::power2::lemma2_to64_rest();
                    assert(ival * d + v >= 0x8000_0000_0000_0000 * d) by (nonlinear_arith)
                        requires
                            ival >= 0x8000_0000_0000_0000,
                    ;
                    lemma_large(ival * d + v, d, power as int, 63);
                }
                return i64::MAX;
            },
        }
    };
    if i < SIGNIFICAND {
        scale_up(i, f, power)
    } else {
        scale_down(i, &f, power)
    }
}

fn unit_of(unit: &str) -> (r: Option<i64>)
    ensures
        r is Some == unit_power(unit@) is Some,
        r matches Some(p) ==> unit_power(unit@) == Some(p as int) && 0 <= p <= 30,
{
    if unit.is_empty() || text::str_eq(unit, "b") {
        Some(0)
    } else if text::str_eq(unit, "kb") {
        Some(10)
    } else if text::str_eq(unit, "mb") {
        Some(20)
    } else if text::str_eq(unit, "gb") {
        Some(30)
    } else {
        None
    }
}

/// Reads a limit on the size of bodies: a number of bytes, a number with one of the units
/// `b`, `kb`, `mb` and `gb`, or a word for no limit. What cannot be read is the default
/// limit.
pub fn parse_body_size_str(value: &str) -> (r: Option<i64>)
    ensures
        r == body_limit(value@),
{
    let raw = text::chars_of(value);
    let trimmed = text::string_of(text::trim(raw.as_slice(), Trim::Space));
    let lower = outside::to_lowercase(trimmed.as_str());
    let word = lower.as_str();
    if text::str_eq(word, "unlimited") || text::str_eq(word, "none") || text::str_eq(word, "off")
        || text::str_eq(word, "0") {
        return None;
    }
    let s = text::chars_of(word);
    let k = number_length(&s);
    let num = slice_subrange(s.as_slice(), 0, k);
    let rest = slice_subrange(s.as_slice(), k, s.len());
    assert(num@ =~= s@.take(k as int));
    assert(rest@ =~= s@.skip(k as int));
    let unit = text::string_of(text::trim_start(rest, Trim::Space));
    match unit_of(unit.as_str()) {
        Some(power) => {
            proof {
                lemma_number_shape(s@, false);
                text::lemma_first_of(num@, '.');
            }
            let dot = text::find_char(num, '.');
            proof {
                if num@.contains('.') {
                    let i = choose|i: int| 0 <= i < num@.len() && num@[i] == '.';
                    assert(dot <= i);
                } else if dot < num@.len() {
                    assert(num@.contains(num@[dot as int]));
                }
            }
            if dot > 0 && (dot == num.len() || num.len() - dot > 1) {
                Some(count_bytes(num, power))
            } else {
                Some(MAX_BODY)
            }
        },
        None => Some(MAX_BODY),
    }
}

// ---------------------------------------------------------------------------
// Laws
// ---------------------------------------------------------------------------

proof fn lemma_whole_is_exact(n: nat, t: int)
    requires
        0 < n < SIGNIFICAND,
    ensures
        scaled_double(n, 1, t) == shifted(n, t),
    decreases SIGNIFICAND - n,
{
    if 2 * n < SIGNIFICAND {
        lemma_whole_is_exact(2 * n, t - 1);
        assert(shifted(2 * n, t - 1) == shifted(n, t));
    } else {
        assert(n / 1 == n && n % 1 == 0);
        assert(nearest(n, 1) == n);
    }
}

proof fn lemma_shifted_is_product(n: nat, t: nat)
    ensures
        shifted(n, t as int) == n * vstd::arithmetic::power2::pow2(t),
    decreases t,
{
    vstd::arithmetic::power2::lemma2_to64();
    if t > 0 {
        lemma_shifted_is_product(2 * n, (t - 1) as nat);
        vstd::arithmetic::power2::lemma_pow2_unfold(t);
        let p = vstd::arithmetic::power2::pow2((t - 1) as nat);
        assert((2 * n) * p == n * (2 * p)) by (nonlinear_arith);
    } else {
        assert(n * 1 == n);
    }
}

/// A whole number below 2^53 with a unit stands for exactly that many bytes, as far as an
/// `i64` goes.
pub proof fn law_whole_sizes_are_exact(num: Seq<char>, power: nat)
    requires
        numeral::all_digits(num, 10),
        numeral::digits_value(num, 10) < SIGNIFICAND,
    ensures
        number_of_bytes(num, power as int) == saturated(
            numeral::digits_value(num, 10) * vstd::arithmetic::power2::pow2(power),
        ),
{
    let n = numeral::digits_value(num, 10);
    assert forall|i: int| 0 <= i < num.len() implies num[i] != '.' by {
        assert(numeral::digit_value(num[i], 10) is Some);
    }
    text::lemma_first_of_unique(num, '.', num.len() as int);
    assert(whole_part(num) =~= num);
    assert(fraction_part(num) =~= Seq::<char>::empty());
    assert(n * tens(0) + numeral::digits_value(fraction_part(num), 10) == n) by {
        let t = tens(0);
        assert(n * t == n) by (nonlinear_arith)
            requires
                t == 1,
        ;
    }
    if n > 0 {
        lemma_whole_is_exact(n, power as int);
        lemma_shifted_is_product(n, power);
    } else {
        let p = vstd::arithmetic::power2::pow2(power);
        assert(n * p == 0) by (nonlinear_arith)
            requires
                n == 0,
        ;
    }
}

proof fn lemma_number_len(num: Seq<char>, rest: Seq<char>)
    requires
        forall|i: int| 0 <= i < num.len() ==> is_digit(#[trigger] num[i]),
        rest.len() == 0 || (!is_digit(rest[0]) && rest[0] != '.'),
    ensures
        number_len(num + rest, false) == num.len(),
    decreases num.len(),
{
    let s = num + rest;
    if num.len() > 0 {
        let t = num.drop_first();
        assert(s[0] == num[0]);
        assert forall|i: int| 0 <= i < t.len() implies is_digit(#[trigger] t[i]) by {
            assert(t[i] == num[i + 1]);
        }
        assert(s.drop_first() =~= t + rest);
        lemma_number_len(t, rest);
    } else {
        assert(s =~= rest);
    }
}

proof fn lemma_size_is_read(num: Seq<char>, gap: Seq<char>, unit: Seq<char>, power: int)
    requires
        num.len() > 0,
        forall|i: int| 0 <= i < num.len() ==> is_digit(#[trigger] num[i]),
        num != seq!['0'],
        forall|i: int| 0 <= i < gap.len() ==> #[trigger] gap[i] == ' ',
        forall|i: int| 0 <= i < unit.len() ==> 'A' <= text::lower_char(#[trigger] unit[i]) <= 'z',
        unit.len() == 0 ==> gap.len() == 0,
        forall|i: int|
            0 <= i < unit.len() ==> 'a' <= #[trigger] text::lower_ascii(unit)[i] <= 'z',
        unit_power(text::lower_ascii(unit)) == Some(power),
    ensures
        body_limit(num + gap + unit) == Some(number_of_bytes(num, power)),
{
    let value = num + gap + unit;
    let low = text::lower_ascii(unit);
    let s = num + gap + low;
    assert(value[0] == num[0]);
    assert(value.last() == if unit.len() > 0 {
        unit.last()
    } else {
        num.last()
    });
    if unit.len() > 0 {
        assert(text::lower_ascii(unit)[unit.len() - 1] == text::lower_char(unit.last()));
    }
    text::lemma_trimmed_same(value, Trim::Space);
    assert forall|i: int| 0 <= i < value.len() implies (#[trigger] value[i] as u32) < 128
        && text::lower_char(value[i]) == s[i] by {
        if i < num.len() {
            assert(value[i] == num[i]);
            assert(s[i] == num[i]);
        } else if i < num.len() + gap.len() {
            assert(value[i] == gap[i - num.len()]);
            assert(s[i] == gap[i - num.len()]);
        } else {
            let j = i - num.len() - gap.len();
            assert(value[i] == unit[j]);
            assert(s[i] == low[j]);
            assert('a' <= low[j] <= 'z');
        }
    }
    assert(vstd::utf8::is_ascii_chars(value));
    assert(text::lower_ascii(value) =~= s);
    reveal_strlit("unlimited");
    reveal_strlit("none");
    reveal_strlit("off");
    reveal_strlit("0");
    assert(s[0] == num[0]);
    assert("unlimited"@[0] == 'u' && "none"@[0] == 'n' && "off"@[0] == 'o');
    if s == "0"@ {
        assert(s.len() == 1);
        assert(num =~= seq!['0']);
    }
    let rest = gap + low;
    assert(s =~= num + rest);
    if rest.len() > 0 {
        if gap.len() > 0 {
            assert(rest[0] == gap[0]);
        } else {
            assert(rest[0] == low[0]);
            assert('a' <= low[0] <= 'z');
        }
    }
    lemma_number_len(num, rest);
    assert(s.take(num.len() as int) =~= num);
    assert(s.skip(num.len() as int) =~= rest);
    if low.len() > 0 {
        assert('a' <= low[0] <= 'z');
        assert(rest[gap.len() as int] == low[0]);
        assert forall|i: int| 0 <= i < gap.len() implies Trim::Space.holds(rest[i]) by {
            assert(rest[i] == gap[i]);
        }
        text::lemma_trim_left(rest, Trim::Space, gap.len() as int);
        assert(rest.skip(gap.len() as int) =~= low);
    } else {
        assert(rest =~= low);
    }
    text::law_text_is_cut_at_the_first(num, '.', seq![]);
    assert(!num.contains('.')) by {
        if num.contains('.') {
            let i = choose|i: int| 0 <= i < num.len() && num[i] == '.';
            assert(is_digit(num[i]));
        }
    }
}

/// A size in digits, with a unit behind it in either case or without one, is that many bytes,
/// kilobytes, megabytes or gigabytes of 1024, as far as an `i64` goes.
pub proof fn law_sizes_have_units(num: Seq<char>, gap: Seq<char>)
    requires
        num.len() > 0,
        forall|i: int| 0 <= i < num.len() ==> '0' <= #[trigger] num[i] <= '9',
        num != seq!['0'],
        numeral::digits_value(num, 10) < 0x20_0000_0000_0000,
        forall|i: int| 0 <= i < gap.len() ==> #[trigger] gap[i] == ' ',
    ensures
        ({
            let n = numeral::digits_value(num, 10) as int;
            let fit = |m: int|
                if m > i64::MAX {
                    i64::MAX as int
                } else {
                    m
                };
            &&& body_limit(num) matches Some(b) && b == fit(n)
            &&& body_limit(num + gap + seq!['b']) matches Some(b) && b == fit(n)
            &&& body_limit(num + gap + seq!['B']) matches Some(b) && b == fit(n)
            &&& body_limit(num + gap + seq!['k', 'b']) matches Some(b) && b == fit(n * 1024)
            &&& body_limit(num + gap + seq!['K', 'B']) matches Some(b) && b == fit(n * 1024)
            &&& body_limit(num + gap + seq!['m', 'b']) matches Some(b) && b == fit(n * 1_048_576)
            &&& body_limit(num + gap + seq!['M', 'B']) matches Some(b) && b == fit(n * 1_048_576)
            &&& body_limit(num + gap + seq!['g', 'b']) matches Some(b) && b == fit(
                n * 1_073_741_824,
            )
            &&& body_limit(num + gap + seq!['G', 'B']) matches Some(b) && b == fit(
                n * 1_073_741_824,
            )
        }),
{
    reveal_strlit("b");
    reveal_strlit("kb");
    reveal_strlit("mb");
    reveal_strlit("gb");
    assert("b"@ =~= seq!['b']);
    assert("kb"@ =~= seq!['k', 'b']);
    assert("mb"@ =~= seq!['m', 'b']);
    assert("gb"@ =~= seq!['g', 'b']);
    assert(numeral::all_digits(num, 10)) by {
        assert forall|i: int| 0 <= i < num.len() implies numeral::digit_value(
            #[trigger] num[i],
            10,
        ) is Some by {
            assert('0' <= num[i] <= '9');
        }
    }
    assert forall|i: int| 0 <= i < num.len() implies is_digit(#[trigger] num[i]) by {}
    vstd::arithmetic::power2::lemma2_to64();
    law_whole_sizes_are_exact(num, 0);
    law_whole_sizes_are_exact(num, 10);
    law_whole_sizes_are_exact(num, 20);
    law_whole_sizes_are_exact(num, 30);
    let none = Seq::<char>::empty();
    assert(text::lower_ascii(none) =~= none);
    lemma_size_is_read(num, none, none, 0);
    assert(num + none + none =~= num);
    assert(text::lower_ascii(seq!['b']) =~= "b"@);
    assert(text::lower_ascii(seq!['B']) =~= "b"@);
    lemma_size_is_read(num, gap, seq!['b'], 0);
    lemma_size_is_read(num, gap, seq!['B'], 0);
    assert(text::lower_ascii(seq!['k', 'b']) =~= "kb"@);
    assert(text::lower_ascii(seq!['K', 'B']) =~= "kb"@);
    lemma_size_is_read(num, gap, seq!['k', 'b'], 10);
    lemma_size_is_read(num, gap, seq!['K', 'B'], 10);
    assert(text::lower_ascii(seq!['m', 'b']) =~= "mb"@);
    assert(text::lower_ascii(seq!['M', 'B']) =~= "mb"@);
    lemma_size_is_read(num, gap, seq!['m', 'b'], 20);
    lemma_size_is_read(num, gap, seq!['M', 'B'], 20);
    assert(text::lower_ascii(seq!['g', 'b']) =~= "gb"@);
    assert(text::lower_ascii(seq!['G', 'B']) =~= "gb"@);
    lemma_size_is_read(num, gap, seq!['g', 'b'], 30);
    lemma_size_is_read(num, gap, seq!['G', 'B'], 30);
}

/// There is no limit exactly where the setting is one of the words for that, or zero; a setting
/// that does not begin with a digit, and is none of them, is a megabyte.
pub proof fn law_limits_in_words(value: Seq<char>)
    ensures
        ({
            let s = outside::lowercase(text::trimmed(value, Trim::Space));
            &&& body_limit(value) is None <==> s == "unlimited"@ || s == "none"@ || s == "off"@ || s
                == "0"@
            &&& body_limit(value) is Some && (s.len() == 0 || !('0' <= s[0] <= '9'))
                ==> body_limit(value) == Some(1_048_576i64)
        }),
{
    let s = outside::lowercase(text::trimmed(value, Trim::Space));
    if s.len() == 0 || !('0' <= s[0] <= '9') {
        let k = number_len(s, false);
        let num = s.take(k);
        lemma_number_len_in_range(s, false);
        if num.len() > 0 {
            assert(num[0] == s[0]);
            assert(s[0] == '.');
            text::lemma_first_of_unique(num, '.', 0);
            assert(whole_part(num).len() == 0);
        } else {
            assert(whole_part(num).len() == 0) by {
                text::lemma_first_of(num, '.');
            }
        }
    }
}

proof fn lemma_number_len_in_range(s: Seq<char>, seen_dot: bool)
    ensures
        0 <= number_len(s, seen_dot) <= s.len(),
    decreases s.len(),
{
    if s.len() > 0 {
        lemma_number_len_in_range(s.drop_first(), seen_dot);
        lemma_number_len_in_range(s.drop_first(), true);
    }
}

/// The nearest integer is no further away than half of one, and the even one of two that are
/// equally near.
pub proof fn law_nearest_integer(n: nat, d: nat)
    requires
        d > 0,
    ensures
        2 * (nearest(n, d) * d) <= 2 * n + d,
        2 * (nearest(n, d) * d) + d >= 2 * n,
        2 * (nearest(n, d) * d) == 2 * n + d || 2 * (nearest(n, d) * d) + d == 2 * n ==> nearest(n, d)
            % 2 == 0,
{
    let q = n / d;
    let r = n % d;
    assert(q * d + r == n && r < d) by (nonlinear_arith)
        requires
            q == n / d,
            r == n % d,
            d > 0,
    ;
    assert((q + 1) * d == q * d + d) by (nonlinear_arith);
}

proof fn lemma_ratio_is_exact(m: nat, d: nat, t: int)
    requires
        0 < m < SIGNIFICAND,
        d > 0,
    ensures
        scaled_double(m * d, d, t) == shifted(m, t),
    decreases SIGNIFICAND - m,
{
    let n = m * d;
    assert(n < SIGNIFICAND * d && n > 0) by (nonlinear_arith)
        requires
            n == m * d,
            0 < m < SIGNIFICAND,
            d > 0,
    ;
    assert(2 * n == (2 * m) * d) by (nonlinear_arith)
        requires
            n == m * d,
    ;
    assert(2 * n < SIGNIFICAND * d <==> 2 * m < SIGNIFICAND) by (nonlinear_arith)
        requires
            2 * n == (2 * m) * d,
            d > 0,
    ;
    if 2 * m < SIGNIFICAND {
        lemma_ratio_is_exact(2 * m, d, t - 1);
        assert(shifted(2 * m, t - 1) == shifted(m, t)) by {
            lemma_shifted_doubles(m, t);
        }
    } else {
        assert(n / d == m && n % d == 0) by (nonlinear_arith)
            requires
                n == m * d,
                d > 0,
        ;
        assert(nearest(n, d) == m);
    }
}

proof fn lemma_shifted_doubles(m: nat, t: int)
    ensures
        shifted(2 * m, t - 1) == shifted(m, t),
{
    if t <= 0 {
        assert((2 * m) / 2 == m);
    }
}

proof fn lemma_dyadic_is_exact(n: nat, d: nat, m: nat, a: nat, t: int)
    requires
        0 < m < SIGNIFICAND,
        d > 0,
        n * vstd::arithmetic::power2::pow2(a) == m * d,
    ensures
        scaled_double(n, d, t) == shifted(m, t - a),
    decreases a,
{
    vstd::arithmetic::power2::lemma2_to64();
    if a == 0 {
        assert(n * 1 == n);
        lemma_ratio_is_exact(m, d, t);
    } else {
        vstd::arithmetic::power2::lemma_pow2_unfold(a);
        let p = vstd::arithmetic::power2::pow2((a - 1) as nat);
        vstd::arithmetic::power2::lemma_pow2_pos((a - 1) as nat);
        assert((2 * n) * p == m * d) by (nonlinear_arith)
            requires
                n * (2 * p) == m * d,
        ;
        assert(2 * n < SIGNIFICAND * d && n > 0) by (nonlinear_arith)
            requires
                (2 * n) * p == m * d,
                0 < m < SIGNIFICAND,
                d > 0,
                p >= 1,
        ;
        assert(!(n >= SIGNIFICAND * d)) by (nonlinear_arith)
            requires
                2 * n < SIGNIFICAND * d,
                d > 0,
        ;
        lemma_dyadic_is_exact(2 * n, d, m, (a - 1) as nat, t - 1);
    }
}

proof fn lemma_tens_are_powers(k: nat)
    ensures
        tens(k) == vstd::arithmetic::power::pow(10, k),
        tens(k) > 0,
    decreases k,
{
    reveal(vstd::arithmetic::power::pow);
    if k > 0 {
        lemma_tens_are_powers((k - 1) as nat);
    }
}

/// A size with a fraction is exact where it can be: where its value is `m` over a power of two
/// that its unit makes up for, as one and a half kilobytes are, it is that many bytes.
pub proof fn law_fractions_are_exact(
    whole: Seq<char>,
    fraction: Seq<char>,
    m: nat,
    a: nat,
    power: nat,
)
    requires
        whole.len() > 0,
        forall|i: int| 0 <= i < whole.len() ==> '0' <= #[trigger] whole[i] <= '9',
        0 < m < 0x20_0000_0000_0000,
        a <= power,
        ({
            let ten = vstd::arithmetic::power::pow(10, fraction.len());
            (numeral::digits_value(whole, 10) * ten + numeral::digits_value(fraction, 10))
                * vstd::arithmetic::power2::pow2(a) == m * ten
        }),
    ensures
        number_of_bytes(whole + seq!['.'] + fraction, power as int) == saturated(
            m * vstd::arithmetic::power2::pow2((power - a) as nat),
        ),
{
    let num = whole + seq!['.'] + fraction;
    assert forall|i: int| 0 <= i < whole.len() implies whole[i] != '.' by {
        assert('0' <= whole[i]);
    }
    text::law_text_is_cut_at_the_first(whole, '.', fraction);
    lemma_tens_are_powers(fraction.len());
    let d = tens(fraction.len());
    let w = numeral::digits_value(whole, 10);
    let f = numeral::digits_value(fraction, 10);
    let n = (w * d + f) as nat;
    lemma_dyadic_is_exact(n, d, m, a, power as int);
    lemma_shifted_is_product(m, (power - a) as nat);
}

/// A number of bytes that an `i64` does not hold is the largest that it does.
pub proof fn law_sizes_are_brought_in(n: nat)
    ensures
        n <= i64::MAX ==> saturated(n) == n,
        n > i64::MAX ==> saturated(n) == i64::MAX,
{
}

} // verus!
