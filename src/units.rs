//! Decimal rendering of counters: whole numbers, and quantities shown with
//! one digit after the point.
//!
//! Two unit systems meet here on purpose. Memory comes from the kernel in
//! kibibytes and is shown in binary gibibytes (2^30 bytes); swap and storage
//! come in bytes and are shown in decimal gigabytes (10^9 bytes). Both are
//! labelled `GiB`, as users of those interfaces expect to read them, and the
//! two must not be merged.

use vstd::prelude::*;

verus! {

/// Kibibytes in one binary gibibyte.
pub const KIB_PER_GIB: u64 = 1048576;

/// Bytes in one decimal gigabyte.
pub const BYTES_PER_GB: u64 = 1000000000;

/// The character of the decimal digit `d`.
pub open spec fn digit_char(d: nat) -> char {
    "0123456789"@[d as int]
}

/// `n` written in decimal, without leading zeros.
pub open spec fn decimal(n: nat) -> Seq<char>
    decreases n,
{
    if n < 10 {
        seq![digit_char(n)]
    } else {
        decimal(n / 10) + seq![digit_char(n % 10)]
    }
}

/// Appends `n` in decimal to `out`.
pub fn push_decimal(out: &mut String, n: u128)
    ensures
        final(out)@ == old(out)@ + decimal(n as nat),
    decreases n,
{
    let digits = "0123456789";
    proof {
        reveal_strlit("0123456789");
    }
    if n >= 10 {
        push_decimal(out, n / 10);
    }
    let d = (n % 10) as usize;
    out.append(digits.substring_char(d, d + 1));
    assert(digits@.subrange(d as int, d + 1) =~= seq![digit_char(d as nat)]);
}

/// `num / den` in tenths, rounded to the nearest, a tie to the even one.
/// For memory (`den` a power of two) the quotient is exact as a float, and
/// this is what `{:.1}` prints for it. Swap and storage are rounded the same
/// way on the exact decimal quotient.
pub open spec fn tenths(num: nat, den: nat) -> nat {
    let q = num * 10 / den;
    let r = num * 10 % den;
    if 2 * r > den || (2 * r == den && q % 2 == 1) {
        q + 1
    } else {
        q
    }
}

fn tenths_of(num: u64, den: u64) -> (q: u128)
    requires
        den > 0,
    ensures
        q == tenths(num as nat, den as nat),
{
    let m = num as u128 * 10;
    let d = den as u128;
    let q = m / d;
    let r = m % d;
    assert(q <= m) by (nonlinear_arith)
        requires
            q == m / d,
            d > 0,
    ;
    if 2 * r > d || (2 * r == d && q % 2 == 1) {
        q + 1
    } else {
        q
    }
}

/// `x / den` with one digit after the point, and a leading `-` below zero.
pub open spec fn amount(x: int, den: nat) -> Seq<char> {
    let q = tenths(if x < 0 {
        (-x) as nat
    } else {
        x as nat
    }, den);
    (if x < 0 {
        "-"@
    } else {
        Seq::<char>::empty()
    }) + decimal(q / 10) + "."@ + decimal(q % 10)
}

/// The signed value that a sign and a magnitude stand for.
pub open spec fn signed(neg: bool, mag: u64) -> int {
    if neg {
        -(mag as int)
    } else {
        mag as int
    }
}

fn push_amount(out: &mut String, neg: bool, mag: u64, den: u64)
    requires
        den > 0,
    ensures
        final(out)@ == old(out)@ + amount(signed(neg, mag), den as nat),
{
    let ghost start = out@;
    let q = tenths_of(mag, den);
    if neg && mag > 0 {
        out.append("-");
    }
    push_decimal(out, q / 10);
    out.append(".");
    push_decimal(out, q % 10);
    assert(out@ =~= start + amount(signed(neg, mag), den as nat));
}

/// `used / total` as shown for a counter pair: `{used} GiB / {total} GiB`,
/// each in units of `den`.
pub open spec fn usage_text(used: int, total: int, den: nat) -> Seq<char> {
    amount(used, den) + " GiB / "@ + amount(total, den) + " GiB"@
}

/// Renders `usage_text` for `used` (given by sign and magnitude) and `total`.
pub fn usage(used_neg: bool, used_mag: u64, total: u64, den: u64) -> (r: String)
    requires
        den > 0,
    ensures
        r@ == usage_text(signed(used_neg, used_mag), total as int, den as nat),
{
    let mut out = String::new();
    push_amount(&mut out, used_neg, used_mag, den);
    out.append(" GiB / ");
    push_amount(&mut out, false, total, den);
    out.append(" GiB");
    assert(out@ =~= usage_text(signed(used_neg, used_mag), total as int, den as nat));
    out
}

/// The difference `a - b` as a sign and a magnitude.
pub fn difference(a: u64, b: u64) -> (r: (bool, u64))
    ensures
        signed(r.0, r.1) == a - b,
{
    if a >= b {
        (false, a - b)
    } else {
        (true, b - a)
    }
}

} // verus!
