//! Integers as text: decimal and hexadecimal numerals, written and read.

use vstd::prelude::*;

verus! {

/// The digit character of `d`, for `d` below 16.
pub open spec fn digit_char(d: int) -> char {
    if d < 10 {
        (d + 48) as char
    } else {
        (d - 10 + 97) as char
    }
}

/// The numeral of `n` in base `base`, without leading zeros.
pub open spec fn numeral(n: nat, base: nat) -> Seq<char>
    decreases n,
{
    if base < 2 || n < base {
        seq![digit_char(n as int)]
    } else {
        proof {
            assert(n / base < n) by (nonlinear_arith)
                requires
                    n >= base,
                    base >= 2,
            ;
        }
        numeral(n / base, base).push(digit_char((n % base) as int))
    }
}

/// The decimal numeral of `n`.
pub open spec fn decimal(n: nat) -> Seq<char> {
    numeral(n, 10)
}

/// The decimal numeral of an integer, with a leading minus where it is negative.
pub open spec fn signed_decimal(n: int) -> Seq<char> {
    if n < 0 {
        seq!['-'] + decimal((-n) as nat)
    } else {
        decimal(n as nat)
    }
}

/// The value of a digit character below the base, in either case.
pub open spec fn digit_value(c: char, base: nat) -> Option<nat> {
    let n = c as u32;
    let v = if 48 <= n <= 57 {
        Some((n - 48) as nat)
    } else if 97 <= n <= 122 {
        Some((n - 97 + 10) as nat)
    } else if 65 <= n <= 90 {
        Some((n - 65 + 10) as nat)
    } else {
        None
    };
    match v {
        Some(d) => if d < base {
            Some(d)
        } else {
            None
        },
        None => None,
    }
}

/// Every character of `s` is a digit of the base.
pub open spec fn all_digits(s: Seq<char>, base: nat) -> bool {
    forall|i: int| 0 <= i < s.len() ==> digit_value(#[trigger] s[i], base) is Some
}

/// The value of a sequence of digits.
pub open spec fn digits_value(s: Seq<char>, base: nat) -> nat
    decreases s.len(),
{
    if s.len() == 0 {
        0
    } else {
        digits_value(s.drop_last(), base) * base + digit_value(s.last(), base).unwrap_or(0)
    }
}

/// The number that an unsigned numeral denotes: one or more digits, which a `+` may precede.
pub open spec fn read_unsigned(s: Seq<char>, base: nat) -> Option<nat> {
    let d = if s.len() > 0 && s[0] == '+' {
        s.drop_first()
    } else {
        s
    };
    if d.len() > 0 && all_digits(d, base) {
        Some(digits_value(d, base))
    } else {
        None
    }
}

/// The number that a signed decimal numeral denotes.
pub open spec fn read_signed(s: Seq<char>) -> Option<int> {
    if s.len() > 0 && s[0] == '-' {
        let d = s.drop_first();
        if d.len() > 0 && all_digits(d, 10) {
            Some(-(digits_value(d, 10) as int))
        } else {
            None
        }
    } else {
        match read_unsigned(s, 10) {
            Some(n) => Some(n as int),
            None => None,
        }
    }
}

/// What reading `s` as a `usize` gives.
pub open spec fn usize_of(s: Seq<char>, base: nat) -> Option<usize> {
    match read_unsigned(s, base) {
        Some(n) => if n <= usize::MAX {
            Some(n as usize)
        } else {
            None
        },
        None => None,
    }
}

/// What reading `s` as an `i64` gives.
pub open spec fn i64_of(s: Seq<char>) -> Option<i64> {
    match read_signed(s) {
        Some(n) => if i64::MIN <= n <= i64::MAX {
            Some(n as i64)
        } else {
            None
        },
        None => None,
    }
}

// ---------------------------------------------------------------------------
// Writing
// ---------------------------------------------------------------------------

fn digit(d: u8) -> (c: char)
    requires
        d < 16,
    ensures
        c == digit_char(d as int),
{
    if d < 10 {
        (d + 48) as char
    } else {
        (d - 10 + 97) as char
    }
}

/// The digits of `n`, last digit first.
fn digits_reversed(n: u64, base: u64) -> (v: Vec<char>)
    requires
        2 <= base <= 16,
    ensures
        v@.reverse() == numeral(n as nat, base as nat),
{
    let mut v: Vec<char> = Vec::new();
    let mut rest: u64 = n;
    let ghost whole = numeral(n as nat, base as nat);
    assert(v@.reverse() == Seq::<char>::empty());
    assert(whole + v@.reverse() == whole);
    while rest >= base
        invariant
            2 <= base <= 16,
            numeral(rest as nat, base as nat) + v@.reverse() == whole,
        decreases rest,
    {
        let d: u64 = rest % base;
        let ghost old_v = v@;
        let ghost old_rest = rest as nat;
        let c = digit(d as u8);
        v.push(c);
        rest = rest / base;
        proof {
            assert(rest < old_rest) by (nonlinear_arith)
                requires
                    rest == old_rest / (base as nat),
                    base >= 2,
                    old_rest >= base,
            ;
            assert(v@.reverse() == seq![c] + old_v.reverse());
            assert(numeral(old_rest, base as nat) == numeral(rest as nat, base as nat).push(c));
            assert(numeral(rest as nat, base as nat).push(c) + old_v.reverse() == numeral(
                rest as nat,
                base as nat,
            ) + v@.reverse());
        }
    }
    let ghost old_v = v@;
    let c = digit(rest as u8);
    v.push(c);
    assert(v@.reverse() == seq![c] + old_v.reverse());
    v
}

fn push_reversed(out: &mut String, v: &Vec<char>)
    ensures
        final(out)@ == old(out)@ + v@.reverse(),
{
    let mut i: usize = v.len();
    let ghost start = out@;
    while i > 0
        invariant
            i <= v.len(),
            out@ == start + v@.reverse().take(v@.len() - i),
        decreases i,
    {
        i = i - 1;
        out.push(v[i]);
        assert(v@.reverse().take(v@.len() - i) == v@.reverse().take(v@.len() - i - 1).push(v@[i as int]));
    }
    assert(v@.reverse().take(v@.len() as int) == v@.reverse());
}

/// The decimal numeral of `n`.
pub fn u64_to_string(n: u64) -> (s: String)
    ensures
        s@ == decimal(n as nat),
{
    let mut s = String::new();
    let v = digits_reversed(n, 10);
    push_reversed(&mut s, &v);
    s
}

/// The hexadecimal numeral of `n`, in lower case.
pub fn u64_to_hex(n: u64) -> (s: String)
    ensures
        s@ == numeral(n as nat, 16),
{
    let mut s = String::new();
    let v = digits_reversed(n, 16);
    push_reversed(&mut s, &v);
    s
}

/// The decimal numeral of `n`.
pub fn i64_to_string(n: i64) -> (s: String)
    ensures
        s@ == signed_decimal(n as int),
{
    let mut s = String::new();
    if n < 0 {
        s.push('-');
        let m: u64 = if n == i64::MIN {
            0x8000_0000_0000_0000u64
        } else {
            (-n) as u64
        };
        let v = digits_reversed(m, 10);
        push_reversed(&mut s, &v);
    } else {
        let v = digits_reversed(n as u64, 10);
        push_reversed(&mut s, &v);
    }
    s
}

// ---------------------------------------------------------------------------
// Reading
// ---------------------------------------------------------------------------

/// The value of a digit character below the base.
pub fn digit_of(c: char, base: u32) -> (d: Option<u32>)
    ensures
        d is Some == digit_value(c, base as nat) is Some,
        d matches Some(v) ==> v == digit_value(c, base as nat)->0,
{
    let n = c as u32;
    let v: Option<u32> = if 48 <= n && n <= 57 {
        Some(n - 48)
    } else if 97 <= n && n <= 122 {
        Some(n - 97 + 10)
    } else if 65 <= n && n <= 90 {
        Some(n - 65 + 10)
    } else {
        None
    };
    match v {
        Some(d) => if d < base {
            Some(d)
        } else {
            None
        },
        None => None,
    }
}

proof fn lemma_digits_value_grows(s: Seq<char>, k: int, base: nat)
    requires
        base >= 1,
        0 <= k <= s.len(),
    ensures
        digits_value(s.take(k), base) <= digits_value(s, base),
    decreases s.len(),
{
    if k < s.len() {
        lemma_digits_value_grows(s.drop_last(), k, base);
        assert(s.drop_last().take(k) == s.take(k));
        let d = digits_value(s.drop_last(), base);
        assert(d * base >= d) by (nonlinear_arith)
            requires
                base >= 1,
        ;
    } else {
        assert(s.take(k) == s);
    }
}

/// The value of a sequence of digits, where it is one and its value is at most `limit`.
pub fn read_digits(s: &[char], base: u32, limit: u64) -> (r: Option<u64>)
    requires
        2 <= base <= 16,
    ensures
        r is Some == (s@.len() > 0 && all_digits(s@, base as nat) && digits_value(s@, base as nat)
            <= limit),
        r matches Some(v) ==> v == digits_value(s@, base as nat),
{
    if s.len() == 0 {
        return None;
    }
    let mut acc: u64 = 0;
    let mut i: usize = 0;
    while i < s.len()
        invariant
            2 <= base <= 16,
            i <= s.len(),
            acc <= limit,
            all_digits(s@.take(i as int), base as nat),
            acc == digits_value(s@.take(i as int), base as nat),
        decreases s.len() - i,
    {
        let ghost pre = s@.take(i as int);
        let ghost next = s@.take(i as int + 1);
        proof {
            assert(next.drop_last() == pre);
            assert(next.last() == s@[i as int]);
        }
        match digit_of(s[i], base) {
            None => {
                assert(!all_digits(s@, base as nat));
                return None;
            },
            Some(d) => {
                assert((acc as u128) * (base as u128) <= 0xffff_ffff_ffff_ffffu128 * 16) by (nonlinear_arith)
                    requires
                        acc <= 0xffff_ffff_ffff_ffffu64,
                        base <= 16,
                ;
                let wide: u128 = (acc as u128) * (base as u128) + (d as u128);
                assert(wide == digits_value(next, base as nat));
                if wide > limit as u128 {
                    proof {
                        lemma_digits_value_grows(s@, i as int + 1, base as nat);
                    }
                    return None;
                }
                acc = wide as u64;
                assert forall|j: int| 0 <= j < next.len() implies digit_value(
                    #[trigger] next[j],
                    base as nat,
                ) is Some by {
                    if j < i {
                        assert(pre[j] == next[j]);
                    }
                }
            },
        }
        i = i + 1;
    }
    assert(s@.take(s@.len() as int) == s@);
    Some(acc)
}

/// Reads an unsigned numeral in the base, where its value fits.
pub fn parse_usize(s: &[char], base: u32) -> (r: Option<usize>)
    requires
        2 <= base <= 16,
    ensures
        r == usize_of(s@, base as nat),
{
    let v = if s.len() > 0 && s[0] == '+' {
        let d = vstd::slice::slice_subrange(s, 1, s.len());
        assert(d@ == s@.drop_first());
        read_digits(d, base, usize::MAX as u64)
    } else {
        read_digits(s, base, usize::MAX as u64)
    };
    match v {
        Some(n) => Some(n as usize),
        None => None,
    }
}

/// Reads a signed decimal numeral, where its value fits.
pub fn parse_i64(s: &[char]) -> (r: Option<i64>)
    ensures
        r == i64_of(s@),
{
    if s.len() > 0 && s[0] == '-' {
        let d = vstd::slice::slice_subrange(s, 1, s.len());
        assert(d@ == s@.drop_first());
        match read_digits(d, 10, 0x8000_0000_0000_0000u64) {
            Some(n) => if n == 0x8000_0000_0000_0000u64 {
                Some(i64::MIN)
            } else {
                Some(-(n as i64))
            },
            None => None,
        }
    } else {
        let v = if s.len() > 0 && s[0] == '+' {
            let d = vstd::slice::slice_subrange(s, 1, s.len());
            assert(d@ == s@.drop_first());
            read_digits(d, 10, 0x7fff_ffff_ffff_ffffu64)
        } else {
            read_digits(s, 10, 0x7fff_ffff_ffff_ffffu64)
        };
        match v {
            Some(n) => Some(n as i64),
            None => None,
        }
    }
}

proof fn lemma_numeral_printable(n: nat)
    ensures
        forall|i: int| 0 <= i < numeral(n, 10).len() ==> '0' <= #[trigger] numeral(n, 10)[i] <= '9',
    decreases n,
{
    if n >= 10 {
        lemma_numeral_printable(n / 10);
        let r = numeral(n / 10, 10);
        assert(numeral(n, 10) == r.push(digit_char((n % 10) as int)));
        assert forall|i: int| 0 <= i < numeral(n, 10).len() implies '0' <= #[trigger] numeral(
            n,
            10,
        )[i] <= '9' by {
            if i < r.len() {
                assert(numeral(n, 10)[i] == r[i]);
            }
        }
    }
}

/// A numeral is made of a sign and digits.
pub proof fn lemma_signed_decimal_printable(n: int)
    ensures
        forall|i: int|
            0 <= i < signed_decimal(n).len() ==> ' ' <= #[trigger] signed_decimal(n)[i] <= '~',
{
    if n < 0 {
        lemma_numeral_printable((-n) as nat);
        let d = decimal((-n) as nat);
        assert forall|i: int| 0 <= i < signed_decimal(n).len() implies ' ' <= #[trigger] signed_decimal(
            n,
        )[i] <= '~' by {
            if i > 0 {
                assert(signed_decimal(n)[i] == d[i - 1]);
            }
        }
    } else {
        lemma_numeral_printable(n as nat);
    }
}

/// A numeral in a base up to 16 is read back as the number that it was written for.
pub proof fn law_numerals_read_back(n: nat, base: nat)
    requires
        2 <= base <= 16,
    ensures
        read_unsigned(numeral(n, base), base) == Some(n),
        all_digits(numeral(n, base), base),
    decreases n,
{
    let s = numeral(n, base);
    let d = digit_char((n % base) as int);
    if n < base {
        assert(n % base == n) by (nonlinear_arith)
            requires
                n < base,
        ;
        assert(s.drop_last() =~= Seq::<char>::empty());
        assert(digits_value(s.drop_last(), base) == 0);
        assert(s.last() == d);
    } else {
        assert(n / base < n) by (nonlinear_arith)
            requires
                n >= base,
                base >= 2,
        ;
        law_numerals_read_back(n / base, base);
        let r = numeral(n / base, base);
        assert(s.drop_last() =~= r);
        assert(s.last() == d);
        assert(r.len() > 0);
        assert(r[0] != '+') by {
            assert(digit_value(r[0], base) is Some);
        }
        assert(s[0] == r[0]);
        assert(digits_value(r, base) == n / base);
        assert forall|i: int| 0 <= i < s.len() implies digit_value(#[trigger] s[i], base) is Some by {
            if i < r.len() {
                assert(s[i] == r[i]);
            }
        }
    }
    assert(0 <= n % base < base);
    assert((n / base) * base + n % base == n) by (nonlinear_arith)
        requires
            base >= 2,
    ;
    assert(digit_value(d, base) == Some(n % base));
    assert(digits_value(s.drop_last(), base) == n / base) by {
        if n < base {
            assert(n / base == 0) by (nonlinear_arith)
                requires
                    n < base,
            ;
        }
    }
    assert(digits_value(s, base) == (n / base) * base + n % base);
    assert(digit_value(s[0], base) is Some);
    assert(s[0] != '+');
}

/// The decimal numeral of a machine integer is read back as that integer.
pub proof fn law_integers_read_back(i: i64)
    ensures
        i64_of(signed_decimal(i as int)) == Some(i),
{
    let n = (if i < 0 {
        -i
    } else {
        i as int
    }) as nat;
    law_numerals_read_back(n, 10);
    let d = decimal(n);
    assert(digit_value(d[0], 10) is Some);
    if i < 0 {
        assert(signed_decimal(i as int).drop_first() =~= d);
    }
}

/// Digits are written `0` to `9` and, above those, `a` to `f`, and are read in either case; no
/// other character is a digit.
pub proof fn law_digits(d: int, c: char)
    ensures
        0 <= d < 10 ==> digit_char(d) as int == '0' as int + d && digit_value(
            ('0' as int + d) as char,
            10,
        ) == Some(d as nat),
        10 <= d < 16 ==> digit_char(d) as int == 'a' as int + d - 10 && digit_value(
            ('a' as int + d - 10) as char,
            16,
        ) == Some(d as nat) && digit_value(('A' as int + d - 10) as char, 16) == Some(d as nat),
        !('0' <= c <= '9') ==> digit_value(c, 10) is None,
        !('0' <= c <= '9') && !('a' <= c <= 'f') && !('A' <= c <= 'F') ==> digit_value(
            c,
            16,
        ) is None,
{
}

/// The numeral of a number is that of the number without its last digit, with that digit
/// behind it; a number below the base is one digit. A negative number has a minus before it.
pub proof fn law_numerals_are_written_digit_by_digit(n: nat, d: nat, base: nat)
    requires
        2 <= base <= 16,
        d < base,
    ensures
        numeral(d, base) == seq![digit_char(d as int)],
        n > 0 ==> numeral(n * base + d, base) == numeral(n, base).push(digit_char(d as int)),
        decimal(n) == numeral(n, 10),
        signed_decimal(n as int) == numeral(n, 10),
        n > 0 ==> signed_decimal(-(n as int)) == seq!['-'] + numeral(n, 10),
{
    if n > 0 {
        let all = n * base + d;
        assert(all >= base && all / base == n && all % base == d) by (nonlinear_arith)
            requires
                all == n * base + d,
                n > 0,
                d < base,
                base >= 2,
        ;
    }
}

/// A text is read as a number exactly where it is digits, one at least, behind a sign that
/// may be missing; the value is that of the digits, each counted by its place.
pub proof fn law_what_is_a_numeral(s: Seq<char>, d: char)
    ensures
        read_signed(seq![]) is None,
        read_signed(seq!['-']) is None,
        read_signed(seq!['+']) is None,
        s.len() > 0 && all_digits(s, 10) ==> read_signed(s) == Some(digits_value(s, 10) as int)
            && read_signed(seq!['-'] + s) == Some(-(digits_value(s, 10) as int)) && read_signed(
            seq!['+'] + s,
        ) == Some(digits_value(s, 10) as int),
        '0' <= d <= '9' ==> digits_value(s.push(d), 10) == digits_value(s, 10) * 10 + (d as int
            - '0' as int),
        (exists|i: int| 0 < i < s.len() && !('0' <= #[trigger] s[i] <= '9')) ==> read_signed(
            s,
        ) is None && read_unsigned(s, 10) is None,
        s.len() > 0 && s[0] != '-' && s[0] != '+' && !('0' <= s[0] <= '9') ==> read_signed(
            s,
        ) is None && read_unsigned(s, 10) is None,
{
    assert(seq!['-'].drop_first() =~= Seq::<char>::empty());
    assert(seq!['+'].drop_first() =~= Seq::<char>::empty());
    assert((seq!['-'] + s).drop_first() =~= s);
    assert((seq!['+'] + s).drop_first() =~= s);
    assert(s.push(d).drop_last() =~= s);
    if s.len() > 0 && all_digits(s, 10) {
        assert(digit_value(s[0], 10) is Some);
    }
    if exists|i: int| 0 < i < s.len() && !('0' <= #[trigger] s[i] <= '9') {
        let i = choose|i: int| 0 < i < s.len() && !('0' <= #[trigger] s[i] <= '9');
        law_digits(0, s[i]);
        assert(s.drop_first()[i - 1] == s[i]);
    }
    if s.len() > 0 && s[0] != '-' && s[0] != '+' && !('0' <= s[0] <= '9') {
        law_digits(0, s[0]);
    }
}

/// A number that fits is read as it is, and one that does not is not read.
pub proof fn law_numbers_that_fit(s: Seq<char>, base: nat)
    ensures
        read_signed(s) matches Some(n) ==> (i64::MIN <= n <= i64::MAX ==> i64_of(s) == Some(n as i64)
            && (i64_of(s)->0) as int == n) && (!(i64::MIN <= n <= i64::MAX) ==> i64_of(s) is None),
        read_signed(s) is None ==> i64_of(s) is None,
        read_unsigned(s, base) matches Some(n) ==> (n <= usize::MAX ==> usize_of(s, base) == Some(
            n as usize,
        ) && (usize_of(s, base)->0) as int == n) && (n > usize::MAX ==> usize_of(s, base) is None),
        read_unsigned(s, base) is None ==> usize_of(s, base) is None,
{
}

} // verus!
