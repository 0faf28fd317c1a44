//! Sizes for display: a byte count as a short text in B, KB, MB or GB.

use vstd::prelude::*;
use vstd::string::*;
use crate::text::{append_chars, from_chars, to_chars};

verus! {

pub const KB: u64 = 1024;

pub const MB: u64 = 1048576;

pub const GB: u64 = 1073741824;

/// The first number that not every double-precision number below it and
/// above it can tell apart: 2 to the 53.
pub const EXACT_LIMIT: u64 = 9007199254740992;

/// The decimal digit `d` as a character.
pub open spec fn digit_char(d: nat) -> char {
    if d == 0 {
        '0'
    } else if d == 1 {
        '1'
    } else if d == 2 {
        '2'
    } else if d == 3 {
        '3'
    } else if d == 4 {
        '4'
    } else if d == 5 {
        '5'
    } else if d == 6 {
        '6'
    } else if d == 7 {
        '7'
    } else if d == 8 {
        '8'
    } else {
        '9'
    }
}

/// `n` in decimal, without leading zeros.
pub open spec fn decimal(n: nat) -> Seq<char>
    decreases n,
{
    if n < 10 {
        seq![digit_char(n)]
    } else {
        decimal(n / 10).push(digit_char(n % 10))
    }
}

/// The quotient of `num` by `den`, rounded to the nearest whole number, a
/// tie going to the even one.
pub open spec fn round_half_even(num: nat, den: nat) -> nat {
    let q = num / den;
    let r = num % den;
    if 2 * r > den || (2 * r == den && q % 2 == 1) {
        q + 1
    } else {
        q
    }
}

/// The distance between neighbouring double-precision numbers around `n`:
/// 1 below 2 to the 53, and twice as much each time `n` doubles.
pub open spec fn spacing(n: nat) -> nat
    decreases n,
{
    if n < EXACT_LIMIT {
        1
    } else {
        2 * spacing(n / 2)
    }
}

/// The double-precision number nearest to `n`, a tie going to the one whose
/// last bit is zero.
pub open spec fn nearest_double(n: nat) -> nat {
    round_half_even(n, spacing(n)) * spacing(n)
}

/// A size in a unit, with two decimals: the nearest double to the byte
/// count, divided by the unit and rounded to hundredths, half to even.
pub open spec fn scaled_text(bytes: nat, unit: nat, suffix: Seq<char>) -> Seq<char> {
    let h = round_half_even(nearest_double(bytes) * 100, unit);
    decimal(h / 100) + seq!['.', digit_char(h % 100 / 10), digit_char(h % 10), ' '] + suffix
}

/// The text for a byte count: whole bytes below 1024, else two decimals in
/// the largest of KB, MB and GB that the count reaches.
pub open spec fn size_text(bytes: nat) -> Seq<char> {
    if bytes >= GB {
        scaled_text(bytes, GB as nat, "GB"@)
    } else if bytes >= MB {
        scaled_text(bytes, MB as nat, "MB"@)
    } else if bytes >= KB {
        scaled_text(bytes, KB as nat, "KB"@)
    } else {
        decimal(bytes) + " B"@
    }
}

fn digit(d: u64) -> (c: char)
    requires
        d < 10,
    ensures
        c == digit_char(d as nat),
{
    if d == 0 {
        '0'
    } else if d == 1 {
        '1'
    } else if d == 2 {
        '2'
    } else if d == 3 {
        '3'
    } else if d == 4 {
        '4'
    } else if d == 5 {
        '5'
    } else if d == 6 {
        '6'
    } else if d == 7 {
        '7'
    } else if d == 8 {
        '8'
    } else {
        '9'
    }
}

/// The decimal digits of `n`.
pub fn decimal_chars(n: u64) -> (r: Vec<char>)
    ensures
        r@ == decimal(n as nat),
{
    let mut low_first: Vec<char> = Vec::new();
    let mut m: u64 = n;
    while m >= 10
        invariant
            decimal(n as nat) == decimal(m as nat) + low_first@.reverse(),
        decreases m,
    {
        let d = digit(m % 10);
        proof {
            let ghost before = low_first@;
            assert(before.push(d).reverse() =~= seq![d] + before.reverse());
            assert(decimal(m as nat) + before.reverse() =~= decimal((m / 10) as nat) + (seq![d]
                + before.reverse()));
        }
        low_first.push(d);
        m = m / 10;
    }
    let d = digit(m);
    proof {
        let ghost before = low_first@;
        assert(before.push(d).reverse() =~= seq![d] + before.reverse());
    }
    low_first.push(d);
    let mut r: Vec<char> = Vec::new();
    let mut k: usize = low_first.len();
    while k > 0
        invariant
            k <= low_first@.len(),
            r@.len() == low_first@.len() - k,
            forall|j: int| 0 <= j < r@.len() ==> r@[j] == low_first@[low_first@.len() - 1 - j],
        decreases k,
    {
        k -= 1;
        r.push(low_first[k]);
    }
    assert(r@ =~= low_first@.reverse());
    r
}

/// The quotient of `num` by `den`, rounded half to even.
fn rounded_quotient(num: u128, den: u128) -> (q: u128)
    requires
        den > 0,
        num / den < u128::MAX,
    ensures
        q == round_half_even(num as nat, den as nat),
        q * den <= num + den,
{
    let q = num / den;
    let r = num % den;
    let rest = den - r;
    assert(q * den <= num && (q + 1) * den <= num + den) by (nonlinear_arith)
        requires
            den > 0,
            q == num / den,
    ;
    if r > rest || (r == rest && q % 2 == 1) {
        q + 1
    } else {
        q
    }
}

/// The spacing of double-precision numbers around `n`.
fn spacing_of(n: u64) -> (s: u64)
    ensures
        s == spacing(n as nat),
        1 <= s <= 4094,
{
    let mut s: u64 = 1;
    let mut m: u64 = n;
    while m >= EXACT_LIMIT
        invariant
            spacing(n as nat) == s * spacing(m as nat),
            1 <= s <= 4094,
            s * m <= n,
        decreases m,
    {
        proof {
            let mm = m as int;
            let ss = s as int;
            assert(ss * mm <= 0xffff_ffff_ffff_ffff);
            assert(ss < 2048) by (nonlinear_arith)
                requires
                    ss * mm <= 0xffff_ffff_ffff_ffff,
                    mm >= 9007199254740992,
                    ss >= 1,
            ;
            assert((2 * ss) * (mm / 2) <= ss * mm) by (nonlinear_arith)
                requires
                    ss >= 1,
                    mm >= 0,
            ;
            assert(ss * (2 * spacing((mm / 2) as nat)) == (2 * ss) * spacing((mm / 2) as nat))
                by (nonlinear_arith);
        }
        s = s * 2;
        m = m / 2;
    }
    assert(spacing(m as nat) == 1);
    assert(s * 1 == s);
    s
}

/// The text of a size in a unit, with two decimals.
fn scaled(bytes: u64, unit: u64, suffix: &str) -> (r: Vec<char>)
    requires
        unit >= 1024,
    ensures
        r@ == scaled_text(bytes as nat, unit as nat, suffix@),
{
    let step = spacing_of(bytes);
    let steps = rounded_quotient(bytes as u128, step as u128);
    assert(steps * step <= 0x1_0000_0000_0000_1000);
    let nearest: u128 = steps * (step as u128);
    let scaled_up: u128 = nearest * 100;
    let unit_wide: u128 = unit as u128;
    assert(scaled_up / unit_wide <= 0xffff_ffff_ffff_fffe) by (nonlinear_arith)
        requires
            scaled_up <= 0x64_0000_0000_0006_4000,
            unit_wide >= 1024,
    ;
    let h128 = rounded_quotient(scaled_up, unit_wide);
    let h: u64 = h128 as u64;
    let mut r = decimal_chars(h / 100);
    r.push('.');
    r.push(digit(h % 100 / 10));
    r.push(digit(h % 10));
    r.push(' ');
    append_chars(&mut r, &to_chars(suffix));
    assert(r@ =~= scaled_text(bytes as nat, unit as nat, suffix@));
    r
}

/// A byte count as a short text: `512 B`, `1.50 KB`, `2.00 MB`, `3.25 GB`.
pub fn format_bytes(bytes: u64) -> (r: String)
    ensures
        r@ == size_text(bytes as nat),
{
    if bytes >= GB {
        from_chars(&scaled(bytes, GB, "GB"))
    } else if bytes >= MB {
        from_chars(&scaled(bytes, MB, "MB"))
    } else if bytes >= KB {
        from_chars(&scaled(bytes, KB, "KB"))
    } else {
        let mut r = decimal_chars(bytes);
        append_chars(&mut r, &to_chars(" B"));
        from_chars(&r)
    }
}

} // verus!
