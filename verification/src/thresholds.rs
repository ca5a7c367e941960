//! Threshold values and per-marker overrides.
//!
//! The analytical threshold is a ratio in [0, 1].  It is held as an exact
//! fraction with a power-of-ten denominator, parsed from its decimal text,
//! so that the resolved count `floor(total * fraction)` is computed exactly
//! in integers.  `ReadCountThreshold` holds a panel-wide default plus
//! marker-keyed overrides; two independent registries exist, one for the
//! detection (absolute) threshold and one for the analytical (fractional)
//! one.

use vstd::prelude::*;

use vstd::arithmetic::div_mod::{
    lemma_div_is_ordered, lemma_div_multiples_vanish, lemma_fundamental_div_mod,
};
use vstd::string::StrSliceExecFns;

verus! {

/// Largest supported denominator: nine decimal digits of precision.
pub const MAX_DENOMINATOR: u32 = 1_000_000_000;

/// An exact ratio in [0, 1].
#[derive(Clone, Copy, Debug, PartialEq, Eq, Structural)]
pub struct Fraction {
    pub num: u32,
    pub den: u32,
}

/// Comparison of two fractions as rationals.
pub open spec fn frac_le(a: Fraction, b: Fraction) -> bool {
    a.num * b.den <= b.num * a.den
}

/// The resolved absolute count for a fractional threshold over a cleaned
/// total: `floor(total * num / den)`.
pub open spec fn resolved_count(total: nat, f: Fraction) -> nat
    recommends
        f.den >= 1,
{
    (((total * f.num) as int) / (f.den as int)) as nat
}

pub open spec fn is_digit(c: char) -> bool {
    48 <= c as u32 <= 57
}

pub open spec fn digit_val(c: char) -> nat {
    (c as u32 - 48) as nat
}

pub open spec fn all_digits(s: Seq<char>) -> bool {
    forall|i: int| 0 <= i < s.len() ==> is_digit(#[trigger] s[i])
}

/// The number denoted by a sequence of decimal digits (empty denotes zero).
pub open spec fn digits_val(s: Seq<char>) -> nat
    decreases s.len(),
{
    if s.len() == 0 {
        0
    } else {
        digits_val(s.drop_last()) * 10 + digit_val(s.last())
    }
}

pub open spec fn pow10(k: nat) -> nat
    decreases k,
{
    if k == 0 {
        1
    } else {
        10 * pow10((k - 1) as nat)
    }
}

pub open spec fn has_dot(s: Seq<char>) -> bool {
    exists|p: int| 0 <= p < s.len() && s[p] == '.'
}

pub open spec fn spec_dot_pos(s: Seq<char>) -> int {
    choose|p: int| 0 <= p < s.len() && s[p] == '.'
}

/// Denominator denoted by a decimal literal: one power of ten per digit
/// after the dot.
pub open spec fn spec_decimal_den(s: Seq<char>) -> nat {
    if has_dot(s) {
        pow10((s.len() - spec_dot_pos(s) - 1) as nat)
    } else {
        1
    }
}

/// Numerator denoted by a decimal literal, scaled by its denominator.
pub open spec fn spec_decimal_num(s: Seq<char>) -> nat {
    if has_dot(s) {
        digits_val(s.take(spec_dot_pos(s))) * spec_decimal_den(s) + digits_val(
            s.skip(spec_dot_pos(s) + 1),
        )
    } else {
        digits_val(s)
    }
}

/// The decimal literals accepted for a threshold ratio: digits with an
/// optional dot followed by one to nine digits, denoting a value in [0, 1].
pub open spec fn valid_decimal(s: Seq<char>) -> bool {
    if has_dot(s) {
        let p = spec_dot_pos(s);
        &&& all_digits(s.take(p))
        &&& all_digits(s.skip(p + 1))
        &&& 1 <= s.len() - p - 1 <= 9
        &&& spec_decimal_num(s) <= spec_decimal_den(s)
    } else {
        s.len() > 0 && all_digits(s) && digits_val(s) <= 1
    }
}

pub proof fn lemma_pow10_values()
    ensures
        pow10(0) == 1,
        pow10(1) == 10,
        pow10(2) == 100,
        pow10(3) == 1000,
        pow10(4) == 10000,
        pow10(5) == 100000,
        pow10(6) == 1000000,
        pow10(7) == 10000000,
        pow10(8) == 100000000,
        pow10(9) == 1000000000,
{
    assert(pow10(0) == 1);
    assert(pow10(1) == 10);
    assert(pow10(2) == 100);
    assert(pow10(3) == 1000);
    assert(pow10(4) == 10000);
    assert(pow10(5) == 100000);
    assert(pow10(6) == 1000000);
    assert(pow10(7) == 10000000);
    assert(pow10(8) == 100000000);
    assert(pow10(9) == 1000000000);
}

/// A digit string of length `n` denotes a value below `10^n`.
pub proof fn lemma_digits_val_bound(s: Seq<char>)
    requires
        all_digits(s),
    ensures
        digits_val(s) < pow10(s.len()),
    decreases s.len(),
{
    if s.len() > 0 {
        assert(all_digits(s.drop_last()));
        lemma_digits_val_bound(s.drop_last());
        assert(digit_val(s.last()) <= 9);
    }
}

/// Once a digit prefix denotes two or more, every extension does as well.
proof fn lemma_digits_val_extend_ge(s: Seq<char>, i: int)
    requires
        0 <= i <= s.len(),
        digits_val(s.take(i)) >= 2,
    ensures
        digits_val(s) >= 2,
    decreases s.len() - i,
{
    if i == s.len() {
        assert(s.take(i) =~= s);
    } else {
        assert(s.take(i + 1).drop_last() =~= s.take(i));
        assert(digits_val(s.take(i + 1)) == digits_val(s.take(i)) * 10 + digit_val(
            s.take(i + 1).last(),
        ));
        lemma_digits_val_extend_ge(s, i + 1);
    }
}

/// Floor division respects the order of fractions: a smaller ratio resolves
/// to a count at most that of a larger one.
pub proof fn lemma_resolved_monotone(total: nat, a: Fraction, b: Fraction)
    requires
        a.wf(),
        b.wf(),
        frac_le(a, b),
    ensures
        resolved_count(total, a) <= resolved_count(total, b),
{
    let x = (total * a.num) as int;
    let y = (total * b.num) as int;
    let da = a.den as int;
    let db = b.den as int;
    assert(x * db <= y * da) by (nonlinear_arith)
        requires
            x == total * a.num,
            y == total * b.num,
            da == a.den,
            db == b.den,
            a.num * b.den <= b.num * a.den,
            total >= 0,
    ;
    let k = x / da;
    lemma_fundamental_div_mod(x, da);
    assert(k * da <= x);
    assert(k * db <= y) by (nonlinear_arith)
        requires
            k * da <= x,
            x * db <= y * da,
            da >= 1,
            db >= 1,
            k >= 0,
            x >= 0,
            y >= 0,
    ;
    lemma_div_is_ordered(k * db, y, db);
    lemma_div_multiples_vanish(k, db);
    assert((db * k) / db == k);
    assert(k * db == db * k) by (nonlinear_arith);
}

/// A ratio at most one resolves to a count at most the total.
pub proof fn lemma_resolved_le_total(total: nat, f: Fraction)
    requires
        f.wf(),
    ensures
        resolved_count(total, f) <= total,
{
    let x = (total * f.num) as int;
    let d = f.den as int;
    assert(x <= total * f.den) by (nonlinear_arith)
        requires
            x == total * f.num,
            f.num <= f.den,
            total >= 0,
    ;
    lemma_div_is_ordered(x, (total * f.den) as int, d);
    lemma_div_multiples_vanish(total as int, d);
    assert((total * f.den) as int == d * (total as int)) by (nonlinear_arith)
        requires
            d == f.den,
    ;
}

impl Fraction {
    /// The denominator is positive and bounded, and the ratio is at most
    /// one.
    pub open spec fn wf(&self) -> bool {
        1 <= self.den <= MAX_DENOMINATOR && self.num <= self.den
    }

    /// The ratio zero.
    pub fn zero() -> (r: Fraction)
        ensures
            r.num == 0,
            r.den == 1,
            r.wf(),
    {
        Fraction { num: 0, den: 1 }
    }

    /// Build a ratio from a numerator and denominator; rejected unless the
    /// denominator is positive and bounded and the ratio is at most one.
    pub fn new(num: u32, den: u32) -> (r: Option<Fraction>)
        ensures
            r is Some <==> 1 <= den <= MAX_DENOMINATOR && num <= den,
            r matches Some(f) ==> f.num == num && f.den == den && f.wf(),
    {
        if 1 <= den && den <= MAX_DENOMINATOR && num <= den {
            Some(Fraction { num, den })
        } else {
            None
        }
    }

    /// Parse a decimal literal such as `0.04` into an exact ratio.  The
    /// accepted forms are digits with an optional dot followed by one to
    /// nine digits; the value must not exceed one.
    pub fn from_decimal_str(s: &str) -> (r: Option<Fraction>)
        ensures
            r is Some <==> valid_decimal(s@),
            r matches Some(f) ==> f.wf() && f.num as nat == spec_decimal_num(s@) && f.den as nat
                == spec_decimal_den(s@),
    {
        let n = s.unicode_len();
        let mut dot: usize = n;
        let mut i: usize = 0;
        while i < n
            invariant
                n == s@.len(),
                i <= n,
                dot <= n,
                dot == n ==> forall|j: int| 0 <= j < i ==> is_digit(#[trigger] s@[j]),
                dot < n ==> dot < i && s@[dot as int] == '.' && forall|j: int|
                    0 <= j < i && j != dot ==> is_digit(#[trigger] s@[j]),
            decreases n - i,
        {
            let c = s.get_char(i);
            if c == '.' {
                if dot < n {
                    proof {
                        lemma_invalid_two_dots(s@, dot as int, i as int);
                    }
                    return None;
                }
                dot = i;
            } else {
                let u = c as u32;
                if u < 48 || u > 57 {
                    proof {
                        lemma_invalid_bad_char(s@, i as int);
                    }
                    return None;
                }
            }
            i = i + 1;
        }
        if dot == n {
            // plain digits, no dot
            if n == 0 {
                proof {
                    assert(!has_dot(s@));
                }
                return None;
            }
            proof {
                assert(!has_dot(s@)) by {
                    if has_dot(s@) {
                        let p = spec_dot_pos(s@);
                        assert(is_digit(s@[p]));
                    }
                }
            }
            let v = parse_digits_capped(s, 0, n);
            if v >= 2 {
                proof {
                    lemma_digits_val_extend_ge(s@, n as int);
                    assert(s@.take(n as int) =~= s@);
                }
                return None;
            }
            proof {
                assert(s@.take(n as int) =~= s@);
            }
            return Some(Fraction { num: v, den: 1 });
        }
        // one dot at `dot`
        proof {
            assert(has_dot(s@));
            assert(spec_dot_pos(s@) == dot as int) by {
                let p = spec_dot_pos(s@);
                assert(0 <= p < s@.len() && s@[p] == '.');
                if p != dot {
                    assert(is_digit(s@[p]));
                }
            }
        }
        let frac_len = n - dot - 1;
        if frac_len < 1 || frac_len > 9 {
            return None;
        }
        let den = pow10_exec(frac_len);
        let int_val = parse_digits_capped(s, 0, dot);
        let frac_val = parse_digits_exact(s, dot + 1, n, frac_len);
        proof {
            assert(s@.take(dot as int) =~= s@.subrange(0, dot as int));
            assert(s@.skip(dot + 1) =~= s@.subrange(dot + 1, n as int));
        }
        proof {
            lemma_pow10_monotone((s@.len() - spec_dot_pos(s@) - 1) as nat, 9);
            lemma_pow10_values();
        }
        if int_val >= 2 {
            proof {
                assert(spec_decimal_num(s@) >= 2 * spec_decimal_den(s@)) by (nonlinear_arith)
                    requires
                        spec_decimal_num(s@) == digits_val(s@.take(spec_dot_pos(s@)))
                            * spec_decimal_den(s@) + digits_val(s@.skip(spec_dot_pos(s@) + 1)),
                        digits_val(s@.take(spec_dot_pos(s@))) >= 2,
                        spec_decimal_den(s@) >= 0,
                ;
                assert(spec_decimal_den(s@) >= 1) by {
                    lemma_pow10_monotone(0, (s@.len() - spec_dot_pos(s@) - 1) as nat);
                }
            }
            return None;
        }
        let num64: u64 = if int_val == 1 {
            (den as u64) + (frac_val as u64)
        } else {
            frac_val as u64
        };
        proof {
            if int_val == 1 {
                assert((int_val as nat) * (den as nat) == den as nat) by (nonlinear_arith)
                    requires
                        int_val == 1,
                ;
            } else {
                assert((int_val as nat) * (den as nat) == 0) by (nonlinear_arith)
                    requires
                        int_val == 0,
                ;
            }
            assert(num64 as nat == (int_val as nat) * (den as nat) + (frac_val as nat));
            assert(num64 as nat == spec_decimal_num(s@)) by (nonlinear_arith)
                requires
                    num64 as nat == (int_val as nat) * (den as nat) + (frac_val as nat),
                    spec_decimal_num(s@) == digits_val(s@.take(spec_dot_pos(s@)))
                        * spec_decimal_den(s@) + digits_val(s@.skip(spec_dot_pos(s@) + 1)),
                    int_val as nat == digits_val(s@.take(spec_dot_pos(s@))),
                    den as nat == spec_decimal_den(s@),
                    frac_val as nat == digits_val(s@.skip(spec_dot_pos(s@) + 1)),
            ;
        }
        if num64 > den as u64 {
            return None;
        }
        Some(Fraction { num: num64 as u32, den })
    }
}

/// Two dots make a literal invalid.
proof fn lemma_invalid_two_dots(s: Seq<char>, d1: int, d2: int)
    requires
        0 <= d1 < d2 < s.len(),
        s[d1] == '.',
        s[d2] == '.',
    ensures
        !valid_decimal(s),
{
    if valid_decimal(s) {
        assert(has_dot(s));
        let p = spec_dot_pos(s);
        if d1 != p {
            if d1 < p {
                assert(s.take(p)[d1] == '.');
                assert(is_digit(s.take(p)[d1]));
            } else {
                assert(s.skip(p + 1)[d1 - p - 1] == '.');
                assert(is_digit(s.skip(p + 1)[d1 - p - 1]));
            }
        } else {
            assert(s.skip(p + 1)[d2 - p - 1] == '.');
            assert(is_digit(s.skip(p + 1)[d2 - p - 1]));
        }
    }
}

/// A character that is neither a digit nor the dot makes a literal invalid.
proof fn lemma_invalid_bad_char(s: Seq<char>, i: int)
    requires
        0 <= i < s.len(),
        s[i] != '.',
        !is_digit(s[i]),
    ensures
        !valid_decimal(s),
{
    if valid_decimal(s) {
        if has_dot(s) {
            let p = spec_dot_pos(s);
            if i < p {
                assert(is_digit(s.take(p)[i]));
            } else if i > p {
                assert(is_digit(s.skip(p + 1)[i - p - 1]));
            }
        } else {
            assert(is_digit(s[i]));
        }
    }
}

pub proof fn lemma_pow10_monotone(a: nat, b: nat)
    requires
        a <= b,
    ensures
        pow10(a) <= pow10(b),
        pow10(a) >= 1,
    decreases b,
{
    if a == b {
        if a > 0 {
            lemma_pow10_monotone((a - 1) as nat, (a - 1) as nat);
        }
    } else {
        lemma_pow10_monotone(a, (b - 1) as nat);
    }
}

/// Parse the digits of `s` in `[from, to)`, capping the running value at
/// two: the callers only need to know whether the value exceeds one.
fn parse_digits_capped(s: &str, from: usize, to: usize) -> (r: u32)
    requires
        from <= to <= s@.len(),
        all_digits(s@.subrange(from as int, to as int)),
    ensures
        r <= 2,
        r <= 1 ==> r as nat == digits_val(s@.subrange(from as int, to as int)),
        r == 2 ==> digits_val(s@.subrange(from as int, to as int)) >= 2,
{
    let ghost d = s@.subrange(from as int, to as int);
    let mut v: u32 = 0;
    let mut j: usize = from;
    while j < to
        invariant
            from <= j <= to <= s@.len(),
            d == s@.subrange(from as int, to as int),
            all_digits(d),
            v <= 2,
            v <= 1 ==> v as nat == digits_val(d.take(j - from)),
            v == 2 ==> digits_val(d.take(j - from)) >= 2,
        decreases to - j,
    {
        let c = s.get_char(j);
        proof {
            assert(d[j - from] == s@[j as int]);
            assert(d.take(j - from + 1).drop_last() =~= d.take(j - from));
            assert(d.take(j - from + 1).last() == d[j - from]);
        }
        let dv = (c as u32) - 48;
        if v == 0 {
            v = dv;
            if v >= 2 {
                v = 2;
            }
        } else if v == 1 {
            v = 2;
            if dv == 0 {
                v = 2;
            }
            proof {
                assert(digits_val(d.take(j - from + 1)) == 10 + digit_val(d[j - from]));
            }
        } else {
            proof {
                lemma_digits_val_extend_ge(d, j - from);
                assert(digits_val(d.take(j - from + 1)) >= 2) by {
                    assert(d.take(j - from + 1).take(j - from) =~= d.take(j - from));
                    lemma_digits_val_extend_ge(d.take(j - from + 1), j - from);
                }
            }
        }
        j = j + 1;
    }
    proof {
        assert(d.take(to - from) =~= d);
    }
    v
}

/// Parse exactly `len` digits of `s` in `[from, to)`; with at most nine
/// digits the value fits comfortably.
fn parse_digits_exact(s: &str, from: usize, to: usize, len: usize) -> (r: u32)
    requires
        from <= to <= s@.len(),
        to - from == len,
        len <= 9,
        all_digits(s@.subrange(from as int, to as int)),
    ensures
        r as nat == digits_val(s@.subrange(from as int, to as int)),
        (r as nat) < pow10(len as nat),
{
    let ghost d = s@.subrange(from as int, to as int);
    let mut v: u32 = 0;
    let mut j: usize = from;
    while j < to
        invariant
            from <= j <= to <= s@.len(),
            d == s@.subrange(from as int, to as int),
            to - from == len <= 9,
            all_digits(d),
            v as nat == digits_val(d.take(j - from)),
            (v as nat) < pow10((j - from) as nat),
        decreases to - j,
    {
        let c = s.get_char(j);
        proof {
            assert(d[j - from] == s@[j as int]);
            assert(d.take(j - from + 1).drop_last() =~= d.take(j - from));
            assert(d.take(j - from + 1).last() == d[j - from]);
            lemma_pow10_monotone((j - from + 1) as nat, 9);
            lemma_pow10_values();
        }
        let dv = (c as u32) - 48;
        v = v * 10 + dv;
        j = j + 1;
    }
    proof {
        assert(d.take(to - from) =~= d);
        lemma_pow10_monotone(len as nat, 9);
        lemma_pow10_values();
        lemma_digits_val_bound(d);
    }
    v
}

/// `10^k` for `k` up to nine.
fn pow10_exec(k: usize) -> (r: u32)
    requires
        k <= 9,
    ensures
        r as nat == pow10(k as nat),
        1 <= r <= MAX_DENOMINATOR,
{
    let mut r: u32 = 1;
    let mut j: usize = 0;
    proof {
        lemma_pow10_values();
    }
    while j < k
        invariant
            j <= k <= 9,
            r as nat == pow10(j as nat),
        decreases k - j,
    {
        proof {
            lemma_pow10_monotone((j + 1) as nat, 9);
            lemma_pow10_values();
        }
        r = r * 10;
        j = j + 1;
    }
    proof {
        lemma_pow10_monotone(k as nat, 9);
        lemma_pow10_values();
    }
    r
}

/// The resolved thresholds carried in a typing result: the fractional input
/// (`dynamic`), the absolute analytical count it resolved to, and the
/// detection count.
#[derive(Clone, Copy, Debug, PartialEq, Eq, Structural)]
pub struct TypingThresholds {
    pub dynamic: Fraction,
    pub analytical: u64,
    pub detection: u16,
}

/// First-match lookup in a keyed sequence.
pub open spec fn lookup<T>(s: Seq<(Seq<char>, T)>, k: Seq<char>) -> Option<T>
    decreases s.len(),
{
    if s.len() == 0 {
        None
    } else if s[0].0 == k {
        Some(s[0].1)
    } else {
        lookup(s.drop_first(), k)
    }
}

/// First index holding the key, or -1.
pub open spec fn find_key<T>(s: Seq<(Seq<char>, T)>, key: Seq<char>) -> int
    decreases s.len(),
{
    if s.len() == 0 {
        -1
    } else if s[0].0 == key {
        0
    } else {
        let r = find_key(s.drop_first(), key);
        if r < 0 {
            -1
        } else {
            r + 1
        }
    }
}

pub proof fn lemma_find_key_props<T>(s: Seq<(Seq<char>, T)>, key: Seq<char>)
    ensures
        find_key(s, key) == -1 || 0 <= find_key(s, key) < s.len(),
        find_key(s, key) == -1 ==> forall|j: int| 0 <= j < s.len() ==> s[j].0 != key,
        find_key(s, key) >= 0 ==> s[find_key(s, key)].0 == key && forall|j: int|
            0 <= j < find_key(s, key) ==> s[j].0 != key,
    decreases s.len(),
{
    if s.len() > 0 && s[0].0 != key {
        let df = s.drop_first();
        lemma_find_key_props(df, key);
        let r = find_key(df, key);
        if r < 0 {
            assert forall|j: int| 0 <= j < s.len() implies s[j].0 != key by {
                if j > 0 {
                    assert(df[j - 1] == s[j]);
                    assert(df[j - 1].0 != key);
                }
            }
        } else {
            assert(find_key(s, key) == r + 1);
            assert(s[r + 1] == df[r]);
            assert forall|j: int| 0 <= j < r + 1 implies s[j].0 != key by {
                if j > 0 {
                    assert(df[j - 1] == s[j]);
                    assert(df[j - 1].0 != key);
                }
            }
        }
    }
}

/// A found value is one of the entries.
pub proof fn lemma_lookup_in<T>(s: Seq<(Seq<char>, T)>, k: Seq<char>)
    ensures
        lookup(s, k) matches Some(t) ==> exists|i: int|
            0 <= i < s.len() && s[i].0 == k && #[trigger] s[i].1 == t,
    decreases s.len(),
{
    if s.len() > 0 {
        if s[0].0 == k {
        } else {
            lemma_lookup_in(s.drop_first(), k);
            if lookup(s, k) is Some {
                let t = lookup(s, k)->0;
                assert(lookup(s.drop_first(), k) == lookup(s, k));
                let i = choose|i: int|
                    0 <= i < s.drop_first().len() && s.drop_first()[i].0 == k
                        && #[trigger] s.drop_first()[i].1 == t;
                assert(s[i + 1].0 == k && s[i + 1].1 == t);
            }
        }
    }
}

/// Inserting an entry whose key is absent from the prefix before the
/// insertion point adds its key and leaves every other lookup unchanged.
pub proof fn lemma_lookup_insert<T>(s: Seq<(Seq<char>, T)>, i: int, p: (Seq<char>, T), k: Seq<char>)
    requires
        0 <= i <= s.len(),
        forall|j: int| 0 <= j < i ==> s[j].0 != p.0,
    ensures
        lookup(s.insert(i, p), k) == if k == p.0 {
            Some(p.1)
        } else {
            lookup(s, k)
        },
    decreases i,
{
    let t = s.insert(i, p);
    s.insert_ensures(i, p);
    if i == 0 {
        assert(t[0] == p);
        if k != p.0 {
            assert(t.drop_first() =~= s);
        }
    } else {
        assert(t[0] == s[0]);
        assert(s[0].0 != p.0);
        assert(t.drop_first() =~= s.drop_first().insert(i - 1, p));
        assert(forall|j: int| 0 <= j < i - 1 ==> s.drop_first()[j] == s[j + 1]);
        lemma_lookup_insert(s.drop_first(), i - 1, p, k);
    }
}

pub proof fn lemma_lookup_found<T>(s: Seq<(Seq<char>, T)>, i: int)
    requires
        0 <= i < s.len(),
        forall|j: int| 0 <= j < i ==> s[j].0 != s[i].0,
    ensures
        lookup(s, s[i].0) == Some(s[i].1),
    decreases i,
{
    if i > 0 {
        assert(s.drop_first()[i - 1] == s[i]);
        lemma_lookup_found(s.drop_first(), i - 1);
    }
}

pub proof fn lemma_lookup_absent<T>(s: Seq<(Seq<char>, T)>, k: Seq<char>)
    requires
        forall|j: int| 0 <= j < s.len() ==> s[j].0 != k,
    ensures
        lookup(s, k) == None::<T>,
    decreases s.len(),
{
    if s.len() > 0 {
        assert(forall|j: int| 0 <= j < s.drop_first().len() ==> s.drop_first()[j] == s[j + 1]);
        lemma_lookup_absent(s.drop_first(), k);
    }
}

pub proof fn lemma_lookup_update<T>(s: Seq<(Seq<char>, T)>, i: int, t: T, k: Seq<char>)
    requires
        0 <= i < s.len(),
        forall|j: int| 0 <= j < i ==> s[j].0 != s[i].0,
    ensures
        lookup(s.update(i, (s[i].0, t)), k) == if k == s[i].0 {
            Some(t)
        } else {
            lookup(s, k)
        },
    decreases i,
{
    let u = s.update(i, (s[i].0, t));
    if i == 0 {
        assert(u[0] == (s[0].0, t));
        if k != s[0].0 {
            assert(u.drop_first() =~= s.drop_first());
        }
    } else {
        assert(u[0] == s[0]);
        assert(u.drop_first() =~= s.drop_first().update(i - 1, (s.drop_first()[i - 1].0, t)));
        assert(s.drop_first()[i - 1] == s[i]);
        lemma_lookup_update(s.drop_first(), i - 1, t, k);
    }
}

pub proof fn lemma_lookup_push<T>(s: Seq<(Seq<char>, T)>, p: (Seq<char>, T), k: Seq<char>)
    ensures
        lookup(s.push(p), k) == if lookup(s, k) is Some {
            lookup(s, k)
        } else if k == p.0 {
            Some(p.1)
        } else {
            None::<T>
        },
    decreases s.len(),
{
    if s.len() == 0 {
        assert(s.push(p)[0] == p);
        assert(s.push(p).drop_first() =~= Seq::<(Seq<char>, T)>::empty());
    } else {
        assert(s.push(p)[0] == s[0]);
        assert(s.push(p).drop_first() =~= s.drop_first().push(p));
        lemma_lookup_push(s.drop_first(), p, k);
        if s[0].0 == k {
            assert(lookup(s, k) == Some(s[0].1));
            assert(lookup(s.push(p), k) == Some(s[0].1));
        } else {
            assert(lookup(s, k) == lookup(s.drop_first(), k));
            assert(lookup(s.push(p), k) == lookup(s.drop_first().push(p), k));
        }
    }
}

/// Threshold registry for a whole panel: a default value plus per-marker
/// overrides.
#[derive(Debug)]
pub struct ReadCountThreshold<T> {
    default: T,
    by_marker: Vec<(String, T)>,
}

impl<T: Copy> ReadCountThreshold<T> {
    /// The panel-wide default.
    pub closed spec fn spec_default(&self) -> T {
        self.default
    }

    /// The override table: marker identifier to value.
    pub closed spec fn overrides(&self) -> Seq<(Seq<char>, T)> {
        self.by_marker@.map_values(|p: (String, T)| (p.0@, p.1))
    }

    /// The value resolved for a marker: its override if present, else the
    /// default.
    pub open spec fn spec_get(&self, marker_id: Seq<char>) -> T {
        match lookup(self.overrides(), marker_id) {
            Some(t) => t,
            None => self.spec_default(),
        }
    }

    /// A registry with no overrides.
    pub fn new(default: T) -> (r: ReadCountThreshold<T>)
        ensures
            r.spec_default() == default,
            r.overrides() == Seq::<(Seq<char>, T)>::empty(),
    {
        let r = ReadCountThreshold { default, by_marker: Vec::new() };
        proof {
            assert(r.overrides() =~= Seq::<(Seq<char>, T)>::empty());
        }
        r
    }

    /// Set the override for one marker, replacing any earlier one.
    pub fn insert(&mut self, marker_id: &str, threshold: T)
        ensures
            final(self).spec_default() == old(self).spec_default(),
            forall|k: Seq<char>| #[trigger] lookup(final(self).overrides(), k) == if k
                == marker_id@ {
                Some(threshold)
            } else {
                lookup(old(self).overrides(), k)
            },
            final(self).overrides() == if find_key(old(self).overrides(), marker_id@) >= 0 {
                old(self).overrides().update(
                    find_key(old(self).overrides(), marker_id@),
                    (marker_id@, threshold),
                )
            } else {
                old(self).overrides().push((marker_id@, threshold))
            },
    {
        let ghost olds = self.overrides();
        proof {
            lemma_find_key_props(olds, marker_id@);
        }
        let key = marker_id.to_owned();
        let mut i: usize = 0;
        while i < self.by_marker.len()
            invariant
                key@ == marker_id@,
                i <= olds.len(),
                olds.len() == self.by_marker@.len(),
                self.overrides() == olds,
                olds == old(self).overrides(),
                self.spec_default() == old(self).spec_default(),
                forall|j: int| 0 <= j < i ==> olds[j].0 != marker_id@,
            decreases olds.len() - i,
        {
            if self.by_marker[i].0 == key {
                let old_key = self.by_marker[i].0.clone();
                self.by_marker[i] = (old_key, threshold);
                proof {
                    lemma_find_key_props(olds, marker_id@);
                    let f = find_key(olds, marker_id@);
                    assert(olds[i as int].0 == marker_id@);
                    assert(f >= 0);
                    if f < i as int {
                        assert(olds[f].0 == marker_id@);
                    } else if f > i as int {
                        assert(olds[i as int].0 != marker_id@);
                    }
                    assert(f == i as int);
                    assert(self.overrides() =~= olds.update(i as int, (olds[i as int].0,
                    threshold)));
                    assert forall|k: Seq<char>| #[trigger] lookup(self.overrides(), k) == (if k
                        == marker_id@ {
                        Some(threshold)
                    } else {
                        lookup(olds, k)
                    }) by {
                        lemma_lookup_update(olds, i as int, threshold, k);
                    }
                }
                return;
            }
            i = i + 1;
        }
        self.by_marker.push((key, threshold));
        proof {
            lemma_find_key_props(olds, marker_id@);
            if find_key(olds, marker_id@) >= 0 {
                assert(olds[find_key(olds, marker_id@)].0 == marker_id@);
            }
            assert(self.overrides() =~= olds.push((marker_id@, threshold)));
            assert forall|k: Seq<char>| #[trigger] lookup(self.overrides(), k) == (if k
                == marker_id@ {
                Some(threshold)
            } else {
                lookup(olds, k)
            }) by {
                lemma_lookup_push(olds, (marker_id@, threshold), k);
                if k == marker_id@ {
                    lemma_lookup_absent(olds, k);
                }
            }
        }
    }

    /// The value for a marker: its override if present, else the default.
    pub fn get(&self, marker_id: &str) -> (r: T)
        ensures
            r == self.spec_get(marker_id@),
    {
        let key = marker_id.to_owned();
        let mut i: usize = 0;
        while i < self.by_marker.len()
            invariant
                key@ == marker_id@,
                i <= self.overrides().len(),
                self.overrides().len() == self.by_marker@.len(),
                forall|j: int| 0 <= j < i ==> self.overrides()[j].0 != marker_id@,
            decreases self.overrides().len() - i,
        {
            if self.by_marker[i].0 == key {
                proof {
                    lemma_lookup_found(self.overrides(), i as int);
                }
                return self.by_marker[i].1;
            }
            i = i + 1;
        }
        proof {
            lemma_lookup_absent(self.overrides(), marker_id@);
        }
        self.default
    }
}

/// Registry of absolute detection thresholds.
pub type DetectionThreshold = ReadCountThreshold<u16>;

/// Registry of fractional analytical thresholds.
pub type AnalyticalThreshold = ReadCountThreshold<Fraction>;

} // verus!
