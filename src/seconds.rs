//! Reading a count of seconds written as a decimal number: digits with an
//! optional point, an optional leading `+`, and an optional exponent, as
//! `f64::from_str` accepts finite non-negative values. Only the whole part
//! of the value is kept.

use vstd::prelude::*;
use vstd::arithmetic::div_mod::lemma_fundamental_div_mod_converse;
use crate::text::{all_digits, digit_value, digits_only, digits_value, find_char, index_of};

verus! {

/// `10` to the power `k`.
pub open spec fn pow10(k: nat) -> nat
    decreases k,
{
    if k == 0 {
        1
    } else {
        10 * pow10((k - 1) as nat)
    }
}

proof fn lemma_pow10_grows(a: nat, b: nat)
    requires
        a <= b,
    ensures
        1 <= pow10(a) <= pow10(b),
    decreases b,
{
    if b > 0 {
        if a < b {
            lemma_pow10_grows(a, (b - 1) as nat);
        } else {
            lemma_pow10_grows((a - 1) as nat, (b - 1) as nat);
        }
    }
}

proof fn lemma_pow10_twenty()
    ensures
        pow10(20) > u64::MAX,
{
    reveal_with_fuel(pow10, 21);
}

/// Splitting a run of digits at `i`: the digits before `i` count
/// `pow10(len - i)` times, and those after stay below that.
proof fn lemma_digits_split(d: Seq<char>, i: int)
    requires
        0 <= i <= d.len(),
        all_digits(d),
    ensures
        digits_value(d) == digits_value(d.take(i)) * pow10((d.len() - i) as nat) + digits_value(
            d.skip(i),
        ),
        digits_value(d.skip(i)) < pow10((d.len() - i) as nat),
    decreases d.len(),
{
    if i == d.len() {
        assert(d.take(i) =~= d);
        assert(d.skip(i) =~= Seq::<char>::empty());
        assert(pow10(0) == 1);
        assert(digits_value(d.skip(i)) == 0);
        assert(digits_value(d.take(i)) * pow10(0) == digits_value(d));
    } else {
        let dl = d.drop_last();
        assert(all_digits(dl)) by {
            assert forall|j: int| 0 <= j < dl.len() implies '0' <= #[trigger] dl[j] && dl[j]
                <= '9' by {
                assert(dl[j] == d[j]);
            }
        }
        lemma_digits_split(dl, i);
        assert(dl.take(i) =~= d.take(i));
        assert(d.skip(i).drop_last() =~= dl.skip(i));
        assert(d.skip(i).last() == d.last());
        let t = digits_value(d.take(i));
        let s = digits_value(dl.skip(i));
        let p = pow10((dl.len() - i) as nat);
        let c = digit_value(d.last());
        assert(d.last() <= '9');
        assert(c <= 9);
        assert(pow10((d.len() - i) as nat) == 10 * p);
        assert(digits_value(d) == digits_value(dl) * 10 + c);
        assert(digits_value(d.skip(i)) == s * 10 + c);
        assert(digits_value(dl) == t * p + s);
        assert((t * p + s) * 10 + c == t * (10 * p) + (s * 10 + c) && s * 10 + c < 10 * p)
            by (nonlinear_arith)
            requires
                s < p,
                c <= 9,
        ;
        assert(digits_value(d) == t * pow10((d.len() - i) as nat) + digits_value(d.skip(i)));
    }
}

/// The whole part of `digits_value(d) * 10^scale`.
pub open spec fn whole_part(d: Seq<char>, scale: int) -> nat {
    if scale >= 0 {
        digits_value(d) * pow10(scale as nat)
    } else {
        digits_value(d) / pow10((-scale) as nat)
    }
}

/// The digits `s@.subrange(lo, hi)` read as a number, where it is at most
/// `cap`.
pub fn digits_capped(s: &Vec<char>, lo: usize, hi: usize, cap: u128) -> (r: Option<u128>)
    requires
        lo <= hi <= s@.len(),
        all_digits(s@.subrange(lo as int, hi as int)),
    ensures
        r == (if digits_value(s@.subrange(lo as int, hi as int)) <= cap {
            Some(digits_value(s@.subrange(lo as int, hi as int)) as u128)
        } else {
            None
        }),
{
    let ghost t = s@.subrange(lo as int, hi as int);
    let mut v: u128 = 0;
    let mut i = lo;
    while i < hi
        invariant
            lo <= i <= hi <= s@.len(),
            t == s@.subrange(lo as int, hi as int),
            all_digits(t),
            v <= cap,
            v == digits_value(t.take(i - lo)),
        decreases hi - i,
    {
        let c = s[i];
        assert(t.take(i - lo + 1).drop_last() =~= t.take(i - lo));
        assert(t.take(i - lo + 1).last() == c);
        assert(t[i - lo] == c);
        let d = (c as u32 - '0' as u32) as u128;
        if d > cap || v > (cap - d) / 10 {
            proof {
                crate::text::lemma_digits_value_grows(t, i - lo + 1);
            }
            return None;
        }
        v = v * 10 + d;
        i = i + 1;
    }
    assert(t.take(i - lo) =~= t);
    Some(v)
}

/// `x` as a `u64`, where it fits.
pub open spec fn fit_u64(x: nat) -> Option<u64> {
    if x <= u64::MAX {
        Some(x as u64)
    } else {
        None
    }
}

fn shift_down(d: &Vec<char>, mag: u128) -> (r: Option<u64>)
    requires
        all_digits(d@),
    ensures
        r == fit_u64(digits_value(d@) / pow10(mag as nat)),
{
    let n = d.len();
    let ghost dv = digits_value(d@);
    proof {
        lemma_digits_split(d@, 0);
        assert(d@.take(0) =~= Seq::<char>::empty());
        assert(d@.skip(0) =~= d@);
        assert(digits_value(d@.take(0)) == 0);
    }
    if mag >= n as u128 {
        proof {
            lemma_pow10_grows(n as nat, mag as nat);
            lemma_fundamental_div_mod_converse(dv as int, pow10(mag as nat) as int, 0, dv as int);
        }
        return Some(0);
    }
    let p = n - mag as usize;
    proof {
        lemma_digits_split(d@, p as int);
        lemma_pow10_grows(0, mag as nat);
        lemma_fundamental_div_mod_converse(
            dv as int,
            pow10(mag as nat) as int,
            digits_value(d@.take(p as int)) as int,
            digits_value(d@.skip(p as int)) as int,
        );
        assert(d@.subrange(0, p as int) =~= d@.take(p as int));
        assert forall|j: int| 0 <= j < p implies '0' <= #[trigger] d@.subrange(0, p as int)[j]
            && d@.subrange(0, p as int)[j] <= '9' by {
            assert(d@.subrange(0, p as int)[j] == d@[j]);
        }
    }
    crate::text::digits_u64(d, 0, p)
}

fn shift_up(d: &Vec<char>, mag: u128) -> (r: Option<u64>)
    requires
        all_digits(d@),
    ensures
        r == fit_u64(digits_value(d@) * pow10(mag as nat)),
{
    let n = d.len();
    let ghost dv = digits_value(d@);
    assert(d@.subrange(0, n as int) =~= d@);
    assert(pow10(0) == 1);
    let v = match crate::text::digits_u64(d, 0, n) {
        Some(v) => v,
        None => {
            proof {
                lemma_pow10_grows(0, mag as nat);
                assert(dv * pow10(mag as nat) >= dv) by (nonlinear_arith)
                    requires
                        pow10(mag as nat) >= 1,
                ;
            }
            return None;
        },
    };
    if v == 0 {
        assert(dv == 0);
        assert(dv * pow10(mag as nat) == 0) by (nonlinear_arith)
            requires
                dv == 0,
        ;
        return Some(0);
    }
    let mut acc: u64 = v;
    let mut i: u128 = 0;
    while i < mag
        invariant
            i <= mag,
            v == dv,
            dv == digits_value(d@),
            v >= 1,
            acc == v * pow10(i as nat),
        decreases mag - i,
    {
        proof {
            assert(pow10((i + 1) as nat) == 10 * pow10(i as nat));
            assert(v * (10 * pow10(i as nat)) == (v * pow10(i as nat)) * 10) by (nonlinear_arith);
        }
        if acc > u64::MAX / 10 {
            proof {
                lemma_pow10_grows((i + 1) as nat, mag as nat);
                let big = v * pow10((i + 1) as nat);
                assert(big == acc * 10);
                assert(acc * 10 > u64::MAX);
                assert(v * pow10(mag as nat) >= big) by (nonlinear_arith)
                    requires
                        pow10(mag as nat) >= pow10((i + 1) as nat),
                        big == v * pow10((i + 1) as nat),
                ;
                assert(dv * pow10(mag as nat) > u64::MAX);
            }
            return None;
        }
        acc = acc * 10;
        i = i + 1;
    }
    Some(acc)
}

/// `whole_part(d@, scale)` where it fits in a `u64`; `scale` is `-mag` when
/// `neg` holds, else `mag`.
pub fn whole_of(d: &Vec<char>, neg: bool, mag: u128) -> (r: Option<u64>)
    requires
        all_digits(d@),
    ensures
        r == fit_u64(whole_part(d@, if neg { -(mag as int) } else { mag as int })),
{
    if neg && mag > 0 {
        shift_down(d, mag)
    } else {
        shift_up(d, mag)
    }
}

/// Where the first `e` or `E` stands in `s`, or its length where there is none.
pub open spec fn exp_mark(s: Seq<char>) -> nat
    decreases s.len(),
{
    if s.len() == 0 {
        0
    } else if s[0] == 'e' || s[0] == 'E' {
        0
    } else {
        1 + exp_mark(s.drop_first())
    }
}

proof fn lemma_exp_mark(s: Seq<char>, j: int)
    requires
        0 <= j <= s.len(),
        forall|k: int| 0 <= k < j ==> s[k] != 'e' && s[k] != 'E',
        j == s.len() || s[j] == 'e' || s[j] == 'E',
    ensures
        exp_mark(s) == j,
    decreases j,
{
    if j > 0 {
        lemma_exp_mark(s.drop_first(), j - 1);
    }
}

fn find_exp_mark(s: &Vec<char>, from: usize, hi: usize) -> (r: usize)
    requires
        from <= hi <= s@.len(),
    ensures
        from <= r <= hi,
        exp_mark(s@.subrange(from as int, hi as int)) == r - from,
{
    let mut j = from;
    while j < hi && s[j] != 'e' && s[j] != 'E'
        invariant
            from <= j <= hi <= s@.len(),
            forall|k: int| from <= k < j ==> s@[k] != 'e' && s@[k] != 'E',
        decreases hi - j,
    {
        j = j + 1;
    }
    proof {
        lemma_exp_mark(s@.subrange(from as int, hi as int), j - from);
    }
    j
}

/// The value of an exponent: an optional sign, then one or more digits.
pub open spec fn exponent(x: Seq<char>) -> Option<int> {
    let signed = x.len() > 0 && (x[0] == '+' || x[0] == '-');
    let d = if signed {
        x.drop_first()
    } else {
        x
    };
    if d.len() > 0 && all_digits(d) {
        Some(
            if signed && x[0] == '-' {
                -(digits_value(d) as int)
            } else {
                digits_value(d) as int
            },
        )
    } else {
        None
    }
}

/// The whole seconds that a number with mantissa `mant` (digits with an
/// optional point, at least one digit in all) and exponent `e` writes, where
/// both are well formed and the whole part fits in a `u64`.
pub open spec fn mantissa_seconds(mant: Seq<char>, e: Option<int>) -> Option<u64> {
    let k = index_of(mant, '.') as int;
    let whole = mant.take(k);
    let frac = if k < mant.len() {
        mant.skip(k + 1)
    } else {
        Seq::<char>::empty()
    };
    if all_digits(whole) && all_digits(frac) && whole.len() + frac.len() > 0 && e is Some {
        fit_u64(whole_part(whole + frac, e->0 - frac.len()))
    } else {
        None
    }
}

/// The whole seconds that a token writes: an optional `+`; a mantissa of
/// digits with an optional point; then optionally `e` or `E` and an
/// exponent. `None` where the token is not of that form or the whole part of
/// its value does not fit in a `u64`.
pub open spec fn whole_seconds(t: Seq<char>) -> Option<u64> {
    let body = if t.len() > 0 && t[0] == '+' {
        t.drop_first()
    } else {
        t
    };
    let x = exp_mark(body) as int;
    mantissa_seconds(
        body.take(x),
        if x < body.len() {
            exponent(body.skip(x + 1))
        } else {
            Some(0int)
        },
    )
}

/// Exponents beyond this size are told apart only by their sign.
const EXP_CAP: u128 = 1000000000000000000000000000000;

/// The exponent `s@.subrange(lo, hi)`: its sign, and its size where that is
/// at most `EXP_CAP`.
fn exponent_of(s: &Vec<char>, lo: usize, hi: usize) -> (r: Option<(bool, Option<u128>)>)
    requires
        lo <= hi <= s@.len(),
    ensures
        match r {
            None => exponent(s@.subrange(lo as int, hi as int)) is None,
            Some((neg, m)) => {
                let e = exponent(s@.subrange(lo as int, hi as int));
                &&& e is Some
                &&& neg ==> e->0 <= 0
                &&& !neg ==> e->0 >= 0
                &&& match m {
                    Some(v) => v <= EXP_CAP && (if neg { -e->0 } else { e->0 }) == v,
                    None => (if neg { -e->0 } else { e->0 }) > EXP_CAP,
                }
            },
        },
{
    let ghost x = s@.subrange(lo as int, hi as int);
    let mut start = lo;
    let mut neg = false;
    if lo < hi && (s[lo] == '+' || s[lo] == '-') {
        neg = s[lo] == '-';
        start = lo + 1;
        assert(x.drop_first() =~= s@.subrange(start as int, hi as int));
    }
    if start == hi || !digits_only(s, start, hi) {
        return None;
    }
    Some((neg, digits_capped(s, start, hi, EXP_CAP)))
}

/// The run of digits `s@.subrange(a, b)` followed by `s@.subrange(c, d)`.
fn join_digits(s: &Vec<char>, a: usize, b: usize, c: usize, d: usize) -> (r: Vec<char>)
    requires
        a <= b <= s@.len(),
        c <= d <= s@.len(),
    ensures
        r@ == s@.subrange(a as int, b as int) + s@.subrange(c as int, d as int),
{
    let mut r: Vec<char> = Vec::new();
    let mut i = a;
    while i < b
        invariant
            a <= i <= b <= s@.len(),
            r@ == s@.subrange(a as int, i as int),
        decreases b - i,
    {
        r.push(s[i]);
        i = i + 1;
        assert(r@ =~= s@.subrange(a as int, i as int));
    }
    let mut j = c;
    while j < d
        invariant
            c <= j <= d <= s@.len(),
            r@ == s@.subrange(a as int, b as int) + s@.subrange(c as int, j as int),
        decreases d - j,
    {
        r.push(s[j]);
        j = j + 1;
        assert(r@ =~= s@.subrange(a as int, b as int) + s@.subrange(c as int, j as int));
    }
    r
}

/// `whole_part(digits@, e - f)`, where it fits in a `u64`, given the sign
/// of the exponent `e` and its size where that is at most `EXP_CAP`.
fn scaled_whole(digits: &Vec<char>, f: usize, neg: bool, mag: Option<u128>, Ghost(e): Ghost<int>) -> (r: Option<u64>)
    requires
        all_digits(digits@),
        f <= digits@.len(),
        neg ==> e <= 0,
        !neg ==> e >= 0,
        match mag {
            Some(v) => v <= EXP_CAP && (if neg { -e } else { e }) == v,
            None => (if neg { -e } else { e }) > EXP_CAP,
        },
    ensures
        r == fit_u64(whole_part(digits@, e - f)),
{
    let ghost dv = digits_value(digits@);
    match mag {
        Some(m) => {
            let scale: i128 = if neg {
                -(m as i128) - f as i128
            } else {
                m as i128 - f as i128
            };
            if scale < 0 {
                whole_of(digits, true, (-scale) as u128)
            } else {
                whole_of(digits, false, scale as u128)
            }
        },
        None => {
            let n = digits.len();
            proof {
                lemma_digits_split(digits@, 0);
                assert(digits@.take(0) =~= Seq::<char>::empty());
                assert(digits@.skip(0) =~= digits@);
                assert(digits_value(digits@.take(0)) == 0);
                assert(usize::MAX <= u64::MAX);
            }
            if neg {
                proof {
                    let big = (f - e) as nat;
                    lemma_pow10_grows(n as nat, big);
                    lemma_fundamental_div_mod_converse(dv as int, pow10(big) as int, 0, dv as int);
                }
                return Some(0);
            }
            assert(digits@.subrange(0, n as int) =~= digits@);
            match crate::text::digits_u64(digits, 0, n) {
                Some(0) => {
                    assert(dv * pow10((e - f) as nat) == 0) by (nonlinear_arith)
                        requires
                            dv == 0,
                    ;
                    Some(0)
                },
                _ => {
                    proof {
                        let big = (e - f) as nat;
                        lemma_pow10_grows(20, big);
                        lemma_pow10_twenty();
                        assert(dv * pow10(big) >= pow10(big)) by (nonlinear_arith)
                            requires
                                dv >= 1,
                        ;
                    }
                    None
                },
            }
        },
    }
}

/// `mantissa_seconds(s@.subrange(lo, hi), Some(e))`, given the sign of the
/// exponent `e` and its size where that is at most `EXP_CAP`.
fn mantissa_of(s: &Vec<char>, lo: usize, hi: usize, neg: bool, mag: Option<u128>, Ghost(e): Ghost<int>) -> (r: Option<u64>)
    requires
        lo <= hi <= s@.len(),
        neg ==> e <= 0,
        !neg ==> e >= 0,
        match mag {
            Some(v) => v <= EXP_CAP && (if neg { -e } else { e }) == v,
            None => (if neg { -e } else { e }) > EXP_CAP,
        },
    ensures
        r == mantissa_seconds(s@.subrange(lo as int, hi as int), Some(e)),
{
    let ghost mant = s@.subrange(lo as int, hi as int);
    let k = find_char(s, lo, hi, '.');
    assert(mant.take(k - lo) =~= s@.subrange(lo as int, k as int));
    let frac_lo = if k < hi {
        k + 1
    } else {
        hi
    };
    assert((if k - lo < mant.len() {
        mant.skip(k - lo + 1)
    } else {
        Seq::<char>::empty()
    }) =~= s@.subrange(frac_lo as int, hi as int));
    if !digits_only(s, lo, k) || !digits_only(s, frac_lo, hi) || (k - lo) + (hi - frac_lo) == 0 {
        return None;
    }
    let digits = join_digits(s, lo, k, frac_lo, hi);
    proof {
        assert forall|j: int| 0 <= j < digits@.len() implies '0' <= #[trigger] digits@[j]
            && digits@[j] <= '9' by {
            if j < k - lo {
                assert(digits@[j] == s@.subrange(lo as int, k as int)[j]);
            } else {
                assert(digits@[j] == s@.subrange(frac_lo as int, hi as int)[j - (k - lo)]);
            }
        }
    }
    scaled_whole(&digits, hi - frac_lo, neg, mag, Ghost(e))
}

/// `whole_seconds(s@.subrange(a, b))`.
pub fn token_seconds(s: &Vec<char>, a: usize, b: usize) -> (r: Option<u64>)
    requires
        a <= b <= s@.len(),
    ensures
        r == whole_seconds(s@.subrange(a as int, b as int)),
{
    let ghost t = s@.subrange(a as int, b as int);
    let s0 = if a < b && s[a] == '+' {
        a + 1
    } else {
        a
    };
    let ghost body = s@.subrange(s0 as int, b as int);
    assert(body =~= (if t.len() > 0 && t[0] == '+' {
        t.drop_first()
    } else {
        t
    }));
    let x = find_exp_mark(s, s0, b);
    assert(body.take(x - s0) =~= s@.subrange(s0 as int, x as int));
    if x < b {
        assert(body.skip(x - s0 + 1) =~= s@.subrange(x + 1, b as int));
        match exponent_of(s, x + 1, b) {
            Some((neg, mag)) => mantissa_of(
                s,
                s0,
                x,
                neg,
                mag,
                Ghost(exponent(s@.subrange(x + 1, b as int))->0),
            ),
            None => None,
        }
    } else {
        mantissa_of(s, s0, x, false, Some(0), Ghost(0int))
    }
}

} // verus!
