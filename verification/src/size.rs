//! File sizes for people: IEC units with two decimals.
//!
//! The figure shown is that of double-precision arithmetic: the size is first taken to
//! 53 significant bits, then divided by the unit and rounded to hundredths, each time to
//! the nearest value and to the even one of two equally near. It is computed here in
//! integers.

use vstd::prelude::*;
use vstd::string::*;
use vstd::arithmetic::power2::{lemma2_to64, lemma_pow2_pos, lemma_pow2_unfold, pow2};

use crate::text::{
    all_digits, decimal, decimal_reads_back, number, push_decimal, push_two_digits, spells,
    two_digits, two_digits_read_back,
};

verus! {

/// The quotient `n / d` rounded to the nearest integer, to the even one on a tie.
pub open spec fn nearest_even(n: nat, d: nat) -> nat {
    let q = n / d;
    let r = n % d;
    if 2 * r > d || (2 * r == d && q % 2 == 1) {
        q + 1
    } else {
        q
    }
}

/// The distance between neighbouring double-precision numbers at `n`, at least one.
pub open spec fn float_spacing(n: nat) -> nat
    decreases n,
{
    if n < 0x20_0000_0000_0000 {
        1
    } else {
        2 * float_spacing(n / 2)
    }
}

/// The double-precision number nearest to `n`.
pub open spec fn as_float(n: nat) -> nat {
    nearest_even(n, float_spacing(n)) * float_spacing(n)
}

/// How many bytes the unit chosen for a size holds: the largest of the units from byte to
/// pebibyte that is not larger than the size.
pub open spec fn unit_bytes(bytes: nat) -> nat {
    if bytes < 0x400 {
        1
    } else if bytes < 0x10_0000 {
        0x400
    } else if bytes < 0x4000_0000 {
        0x10_0000
    } else if bytes < 0x100_0000_0000 {
        0x4000_0000
    } else if bytes < 0x4_0000_0000_0000 {
        0x100_0000_0000
    } else {
        0x4_0000_0000_0000
    }
}

/// The name of the unit chosen for a size.
pub open spec fn unit_name(bytes: nat) -> Seq<char> {
    if bytes < 0x400 {
        "B"@
    } else if bytes < 0x10_0000 {
        "KiB"@
    } else if bytes < 0x4000_0000 {
        "MiB"@
    } else if bytes < 0x100_0000_0000 {
        "GiB"@
    } else if bytes < 0x4_0000_0000_0000 {
        "TiB"@
    } else {
        "PiB"@
    }
}

/// The size in hundredths of its unit, rounded.
pub open spec fn size_hundredths(bytes: nat) -> nat {
    nearest_even(100 * as_float(bytes), unit_bytes(bytes))
}

/// The text that shows a size.
pub open spec fn size_text(bytes: nat) -> Seq<char> {
    if bytes < 0x400 {
        decimal(bytes) + " B"@
    } else {
        let h = size_hundredths(bytes);
        decimal(h / 100) + "."@ + two_digits(h % 100) + " "@ + unit_name(bytes)
    }
}

/// `n / d` rounded to the nearest integer, ties to even.
fn round_half_even(n: u128, d: u128) -> (q: u128)
    requires
        0 < d <= 0x4_0000_0000_0000,
    ensures
        q == nearest_even(n as nat, d as nat),
        q <= n / d + 1,
{
    let q: u128 = n / d;
    let r: u128 = n % d;
    if 2 * r > d || (2 * r == d && q % 2 == 1) {
        assert(q < u128::MAX) by (nonlinear_arith)
            requires
                q == n / d,
                2 * r >= d,
                r == n % d,
                d > 0,
                n <= u128::MAX,
        {
            assert(n == d * (n / d) + n % d);
            assert(r > 0);
        }
        q + 1
    } else {
        q
    }
}

/// The spacing of double-precision numbers at `n`.
fn spacing(n: u64) -> (s: u64)
    ensures
        s == float_spacing(n as nat),
        1 <= s,
        s * 0x10_0000_0000_0000 <= n || s == 1,
        n < s * 0x20_0000_0000_0000,
    decreases n,
{
    if n < 0x20_0000_0000_0000 {
        1
    } else {
        let half: u64 = spacing(n / 2);
        2 * half
    }
}

/// Formats a size in bytes with the largest fitting unit of B, KiB, MiB, GiB, TiB and PiB:
/// whole bytes below 1024, two decimals from there on.
pub fn human_size(bytes: u64) -> (out: String)
    ensures
        out@ == size_text(bytes as nat),
{
    let mut out = String::new();
    if bytes < 0x400 {
        push_decimal(&mut out, bytes);
        out.append(" B");
        return out;
    }
    let step: u64 = spacing(bytes);
    let steps: u128 = round_half_even(bytes as u128, step as u128);
    assert(steps <= 0x20_0000_0000_0000) by {
        assert(bytes / step < 0x20_0000_0000_0000) by (nonlinear_arith)
            requires
                bytes < step * 0x20_0000_0000_0000,
                step > 0,
        ;
    }
    assert(steps * step <= 0x20_0000_0000_0000 * 0x1000) by (nonlinear_arith)
        requires
            steps <= 0x20_0000_0000_0000,
            step <= 0x1000,
    ;
    let value: u128 = steps * (step as u128);
    let (unit, name): (u128, &str) = if bytes < 0x10_0000 {
        (0x400, "KiB")
    } else if bytes < 0x4000_0000 {
        (0x10_0000, "MiB")
    } else if bytes < 0x100_0000_0000 {
        (0x4000_0000, "GiB")
    } else if bytes < 0x4_0000_0000_0000 {
        (0x100_0000_0000, "TiB")
    } else {
        (0x4_0000_0000_0000, "PiB")
    };
    let scaled: u128 = 100 * value;
    let h: u128 = round_half_even(scaled, unit);
    assert(h / 100 <= u64::MAX) by {
        assert(scaled / unit <= scaled / 0x400) by (nonlinear_arith)
            requires
                unit >= 0x400,
        ;
    }
    push_decimal(&mut out, (h / 100) as u64);
    out.append(".");
    push_two_digits(&mut out, (h % 100) as u8);
    out.append(" ");
    out.append(name);
    out
}

/// Rounding moves a quotient by at most half of its divisor's worth.
proof fn nearest_even_close(n: nat, d: nat)
    requires
        d > 0,
    ensures
        2 * (nearest_even(n, d) * d) <= 2 * n + d,
        2 * n <= 2 * (nearest_even(n, d) * d) + d,
        n / d <= nearest_even(n, d) <= n / d + 1,
        n % d == 0 ==> nearest_even(n, d) == n / d,
{
    assert(n == d * (n / d) + n % d) by (nonlinear_arith)
        requires
            d > 0,
    ;
    assert((n / d) * d == d * (n / d)) by (nonlinear_arith);
    assert((n / d + 1) * d == d * (n / d) + d) by (nonlinear_arith);
}

/// Sizes below nine petabytes, that is with at most 53 bits, are taken exactly.
pub proof fn small_sizes_are_exact(bytes: u64)
    requires
        bytes < 0x20_0000_0000_0000,
    ensures
        as_float(bytes as nat) == bytes,
{
    nearest_even_close(bytes as nat, 1);
}

/// The figure shown is as near to the size as two decimals allow: off by at most half a
/// hundredth of the unit from the double-precision size.
pub proof fn size_is_nearest(bytes: u64)
    requires
        bytes >= 0x400,
    ensures
        2 * (size_hundredths(bytes as nat) * unit_bytes(bytes as nat)) <= 2 * (100 * as_float(
            bytes as nat,
        )) + unit_bytes(bytes as nat),
        2 * (100 * as_float(bytes as nat)) <= 2 * (size_hundredths(bytes as nat) * unit_bytes(
            bytes as nat,
        )) + unit_bytes(bytes as nat),
{
    nearest_even_close(100 * as_float(bytes as nat), unit_bytes(bytes as nat));
}

/// The unit fits the size: from 1024 bytes up to a pebibyte the figure shown lies between
/// 1.00 and 1024.00.
pub proof fn size_figure_range(bytes: u64)
    requires
        0x400 <= bytes < 0x4_0000_0000_0000,
    ensures
        100 <= size_hundredths(bytes as nat) <= 102400,
{
    let n = bytes as nat;
    let u = unit_bytes(n);
    small_sizes_are_exact(bytes);
    nearest_even_close(100 * n, u);
    assert(100 <= (100 * n) / u) by (nonlinear_arith)
        requires
            0 < u <= n,
    ;
    assert((100 * n) / u < 102400) by (nonlinear_arith)
        requires
            0 < u,
            n < 1024 * u,
    ;
}

/// The powers of 1024.
pub open spec fn power_of_1024(k: nat) -> nat
    decreases k,
{
    if k == 0 {
        1
    } else {
        1024 * power_of_1024((k - 1) as nat)
    }
}

/// Whether `f` is the double-precision number nearest to `n`, the even one of two: a multiple
/// `m * s` of a power of two `s` such that `n` has at most 53 bits above `s`.
pub open spec fn is_double_of(n: int, f: int, m: int, e: nat) -> bool {
    let s = pow2(e);
    &&& e == 0 || 0x10_0000_0000_0000 * s <= n
    &&& n < 0x20_0000_0000_0000 * s
    &&& f == m * s
    &&& -s <= 2 * (f - n) <= s
    &&& 2 * (f - n) == s || 2 * (f - n) == -s ==> m % 2 == 0
}

/// Whether `q` is the quotient `n / d` rounded to the nearest integer, to the even one of two.
pub open spec fn is_nearest(n: int, d: int, q: int) -> bool {
    &&& -d <= 2 * (q * d - n) <= d
    &&& 2 * (q * d - n) == d || 2 * (q * d - n) == -d ==> q % 2 == 0
}

/// The name of the unit of `1024^k` bytes.
pub open spec fn iec_name(k: nat) -> Seq<char> {
    seq!["B"@, "KiB"@, "MiB"@, "GiB"@, "TiB"@, "PiB"@][k as int]
}

/// Rounding ends at the nearest integer, the even one of two.
proof fn nearest_even_is_nearest(n: nat, d: nat)
    requires
        d > 0,
    ensures
        is_nearest(n as int, d as int, nearest_even(n, d) as int),
{
    assert(n == d * (n / d) + n % d) by (nonlinear_arith)
        requires
            d > 0,
    ;
    assert((n / d) * d == d * (n / d)) by (nonlinear_arith);
    assert((n / d + 1) * d == d * (n / d) + d) by (nonlinear_arith);
}

/// The spacing is the power of two that leaves 53 bits.
proof fn float_spacing_power(n: nat) -> (e: nat)
    ensures
        float_spacing(n) == pow2(e),
        e == 0 || 0x10_0000_0000_0000 * pow2(e) <= n,
        n < 0x20_0000_0000_0000 * pow2(e),
    decreases n,
{
    if n < 0x20_0000_0000_0000 {
        lemma2_to64();
        0
    } else {
        let h = float_spacing_power(n / 2);
        lemma_pow2_unfold(h + 1);
        if h == 0 {
            lemma2_to64();
        }
        h + 1
    }
}

/// A size below 1024 is shown as its number of bytes.
pub proof fn small_sizes_are_counted(bytes: nat)
    requires
        bytes < 1024,
    ensures
        exists|count: Seq<char>| #[trigger]
            spells(count, bytes as int) && size_text(bytes) == count + " B"@,
{
    decimal_reads_back(bytes);
}

/// A larger size is shown in the largest unit that it reaches, of KiB to PiB, with the figure
/// that double-precision arithmetic gives, rounded to hundredths.
pub proof fn sizes_are_shown_in_units(bytes: nat) -> (shown: (nat, Seq<char>, Seq<char>, int, int, nat))
    requires
        bytes >= 1024,
    ensures
        ({
            let (k, whole, cents, f, m, e) = shown;
            &&& 1 <= k <= 5
            &&& power_of_1024(k) <= bytes
            &&& k < 5 ==> bytes < power_of_1024(k + 1)
            &&& size_text(bytes) == whole + "."@ + cents + " "@ + iec_name(k)
            &&& spells(whole, number(whole))
            &&& cents.len() == 2 && all_digits(cents)
            &&& is_double_of(bytes as int, f, m, e)
            &&& is_nearest(100 * f, power_of_1024(k) as int, 100 * number(whole) + number(cents))
        }),
{
    reveal_with_fuel(power_of_1024, 7);
    let k: nat = if bytes < 0x10_0000 {
        1
    } else if bytes < 0x4000_0000 {
        2
    } else if bytes < 0x100_0000_0000 {
        3
    } else if bytes < 0x4_0000_0000_0000 {
        4
    } else {
        5
    };
    let e = float_spacing_power(bytes);
    let s = float_spacing(bytes);
    lemma_pow2_pos(e);
    nearest_even_is_nearest(bytes, s);
    let m = nearest_even(bytes, s);
    let f = as_float(bytes);
    let h = size_hundredths(bytes);
    nearest_even_is_nearest(100 * f, unit_bytes(bytes));
    decimal_reads_back(h / 100);
    two_digits_read_back(h % 100);
    assert(unit_bytes(bytes) == power_of_1024(k));
    (k, decimal(h / 100), two_digits(h % 100), f as int, m as int, e)
}

} // verus!
