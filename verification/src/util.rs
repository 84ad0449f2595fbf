//! Byte counts for people.

use vstd::prelude::*;
use vstd::string::StringExecFns;

verus! {

/// The decimal digit for `d`.
pub open spec fn digit(d: nat) -> char {
    if d == 0 {
        '0'
    } else if d == 1 {
        '1'
    } else if d == 2 {
        '2'
    } else if d == 3 {
        '3'
    } else if d == 4 {
        '4'
    } else if d == 5 {
        '5'
    } else if d == 6 {
        '6'
    } else if d == 7 {
        '7'
    } else if d == 8 {
        '8'
    } else {
        '9'
    }
}

/// `n` in decimal digits.
pub open spec fn decimal_text(n: nat) -> Seq<char>
    decreases n,
{
    if n < 10 {
        seq![digit(n)]
    } else {
        decimal_text(n / 10).push(digit(n % 10))
    }
}

/// The last `width` decimal digits of `n`, with zeros before them where `n`
/// has fewer.
pub open spec fn padded(n: nat, width: nat) -> Seq<char>
    decreases width,
{
    if width == 0 {
        Seq::empty()
    } else {
        padded(n / 10, (width - 1) as nat).push(digit(n % 10))
    }
}

/// `n / d`, rounded to the nearest whole number, and to the even one of two
/// that are equally near.
pub open spec fn rounded(n: nat, d: nat) -> nat {
    let q = n / d;
    let r = n % d;
    if 2 * r > d || (2 * r == d && q % 2 == 1) {
        q + 1
    } else {
        q
    }
}

/// Which unit a byte count below 1024 TiB is given in: the largest of B,
/// KiB, MiB, GiB and TiB that it reaches.
pub open spec fn unit_of(bytes: u64) -> nat {
    if bytes < 0x400 {
        0
    } else if bytes < 0x10_0000 {
        1
    } else if bytes < 0x4000_0000 {
        2
    } else if bytes < 0x100_0000_0000 {
        3
    } else {
        4
    }
}

/// The number of bytes in the unit `unit`.
pub open spec fn unit_size(unit: nat) -> nat {
    if unit == 0 {
        1
    } else if unit == 1 {
        0x400
    } else if unit == 2 {
        0x10_0000
    } else if unit == 3 {
        0x4000_0000
    } else {
        0x100_0000_0000
    }
}

/// The name of the unit `unit`.
pub open spec fn unit_name(unit: nat) -> Seq<char> {
    if unit == 0 {
        "B"@
    } else if unit == 1 {
        "KiB"@
    } else if unit == 2 {
        "MiB"@
    } else if unit == 3 {
        "GiB"@
    } else {
        "TiB"@
    }
}

/// The least byte count that is not given in one of the units up to TiB:
/// 1024 TiB.
pub const LARGE: u64 = 0x4_0000_0000_0000;

/// A byte count below 1024 TiB in its unit, with two decimals.
pub open spec fn in_unit(bytes: u64) -> Seq<char> {
    let unit = unit_of(bytes);
    let hundredths = rounded(bytes as nat * 100, unit_size(unit));
    decimal_text(hundredths / 100) + seq!['.'] + padded(hundredths % 100, 2) + seq![' ']
        + unit_name(unit)
}

fn digit_text(d: u8) -> (text: &'static str)
    requires
        d < 10,
    ensures
        text@ == seq![digit(d as nat)],
{
    proof {
        reveal_strlit("0");
        reveal_strlit("1");
        reveal_strlit("2");
        reveal_strlit("3");
        reveal_strlit("4");
        reveal_strlit("5");
        reveal_strlit("6");
        reveal_strlit("7");
        reveal_strlit("8");
        reveal_strlit("9");
    }
    let text = if d == 0 {
        "0"
    } else if d == 1 {
        "1"
    } else if d == 2 {
        "2"
    } else if d == 3 {
        "3"
    } else if d == 4 {
        "4"
    } else if d == 5 {
        "5"
    } else if d == 6 {
        "6"
    } else if d == 7 {
        "7"
    } else if d == 8 {
        "8"
    } else {
        "9"
    };
    proof {
        assert(text@ =~= seq![digit(d as nat)]);
    }
    text
}

/// Appends `n` in decimal digits.
fn append_decimal(out: &mut String, n: u128)
    ensures
        final(out)@ == old(out)@ + decimal_text(n as nat),
    decreases n,
{
    if n >= 10 {
        append_decimal(out, n / 10);
    }
    let ghost before = out@;
    out.append(digit_text((n % 10) as u8));
    proof {
        if n >= 10 {
            assert(out@ =~= old(out)@ + decimal_text((n / 10) as nat).push(digit((n % 10) as nat)));
        } else {
            assert(out@ =~= old(out)@ + seq![digit(n as nat)]);
        }
    }
}

/// Appends the last `width` decimal digits of `n`.
fn append_padded(out: &mut String, n: u128, width: u32)
    ensures
        final(out)@ == old(out)@ + padded(n as nat, width as nat),
    decreases width,
{
    if width == 0 {
        proof {
            assert(out@ =~= old(out)@ + padded(n as nat, 0));
        }
        return ;
    }
    append_padded(out, n / 10, width - 1);
    out.append(digit_text((n % 10) as u8));
    proof {
        assert(out@ =~= old(out)@ + padded((n / 10) as nat, (width - 1) as nat).push(
            digit((n % 10) as nat),
        ));
    }
}

/// `n / d`, rounded to the nearest whole number, and to the even one of two
/// that are equally near.
fn divide_rounded(n: u128, d: u128) -> (q: u128)
    requires
        d > 0,
        n < u128::MAX,
        d <= u128::MAX / 4,
    ensures
        q == rounded(n as nat, d as nat),
{
    let q = n / d;
    let r = n % d;
    if 2 * r > d || (2 * r == d && q % 2 == 1) {
        q + 1
    } else {
        q
    }
}

/// Formats a byte count below 1024 TiB in the largest unit that it reaches,
/// with two decimals.
fn format_in_unit(bytes: u64) -> (text: String)
    requires
        bytes < LARGE,
    ensures
        text@ == in_unit(bytes),
{
    let (unit, size): (&str, u64) = if bytes < 0x400 {
        ("B", 1)
    } else if bytes < 0x10_0000 {
        ("KiB", 0x400)
    } else if bytes < 0x4000_0000 {
        ("MiB", 0x10_0000)
    } else if bytes < 0x100_0000_0000 {
        ("GiB", 0x4000_0000)
    } else {
        ("TiB", 0x100_0000_0000)
    };
    assert(unit@ == unit_name(unit_of(bytes)) && size == unit_size(unit_of(bytes)));
    let hundredths = divide_rounded(bytes as u128 * 100, size as u128);
    let mut text = String::new();
    proof {
        reveal_strlit(".");
        reveal_strlit(" ");
        assert(".".view() =~= seq!['.']);
        assert(" ".view() =~= seq![' ']);
    }
    append_decimal(&mut text, hundredths / 100);
    text.append(".");
    append_padded(&mut text, hundredths % 100, 2);
    text.append(" ");
    text.append(unit);
    proof {
        assert(text@ =~= in_unit(bytes));
    }
    text
}

/// The first number that takes more than 53 bits.
pub const WIDE: u128 = 0x20_0000_0000_0000;

/// The scale of the numbers that the search for the shortest decimal works
/// on: a double `m / 2^50` is held as `16 * m` over `2^54`.
pub const SCALE: u128 = 0x40_0000_0000_0000;

/// The largest number of decimals that is tried.
pub const MOST_PLACES: u32 = 17;

/// The least power of two by which `n` has to be divided to take no more
/// than 53 bits.
pub open spec fn spare(n: nat) -> nat
    decreases n,
{
    if n < WIDE {
        1
    } else {
        2 * spare(n / 2)
    }
}

/// The number with 53 bits at most that is nearest to `bytes`: what `bytes`
/// is as a double.
pub open spec fn as_double(bytes: u64) -> nat {
    rounded(bytes as nat, spare(bytes as nat)) * spare(bytes as nat)
}

/// Sixteen times half the distance from the double `m`, which is 2^50 at
/// least, to the next double above.
pub open spec fn half_gap(m: nat) -> nat
    decreases m,
{
    if m < 0x8_0000_0000_0000 {
        2
    } else {
        2 * half_gap(m / 2)
    }
}

/// Sixteen times half the distance from the double `m` to the next double
/// below: half of `half_gap` where `m` is a power of two.
pub open spec fn half_gap_below(m: nat) -> nat {
    if m == half_gap(m) * 0x2_0000_0000_0000 {
        half_gap(m) / 2
    } else {
        half_gap(m)
    }
}

/// Whether a decimal that lies exactly between the double `m` and one of its
/// neighbours still reads as `m`: it does where the last bit of `m` is 0.
pub open spec fn takes_bounds(m: nat) -> bool {
    (8 * m / half_gap(m)) % 2 == 0
}

/// The power of ten with the exponent `d`.
pub open spec fn pow10(d: nat) -> nat
    decreases d,
{
    if d == 0 {
        1
    } else {
        10 * pow10((d - 1) as nat)
    }
}

/// The multiple of `10^-d` below `m / 2^50` reads as the double `m`.
pub open spec fn reads_below(m: nat, d: nat) -> bool {
    let rest = (16 * m * pow10(d)) % (SCALE as nat);
    let gap = half_gap_below(m) * pow10(d);
    rest < gap || (takes_bounds(m) && rest == gap)
}

/// The multiple of `10^-d` above `m / 2^50` reads as the double `m`.
pub open spec fn reads_above(m: nat, d: nat) -> bool {
    let rest = (16 * m * pow10(d)) % (SCALE as nat);
    let gap = half_gap(m) * pow10(d);
    SCALE - rest < gap || (takes_bounds(m) && SCALE - rest == gap)
}

/// Of the multiples of `10^-d` below and above `m / 2^50`, in units of
/// `10^-d`: the one that reads as the double `m`; of two that do, the
/// nearer one, and the upper one where they are equally near.
pub open spec fn nearest_multiple(m: nat, d: nat) -> nat {
    let whole = (16 * m * pow10(d)) / (SCALE as nat);
    let rest = (16 * m * pow10(d)) % (SCALE as nat);
    if reads_above(m, d) && (!reads_below(m, d) || 2 * rest >= SCALE) {
        whole + 1
    } else {
        whole
    }
}

/// The least number of decimals, from `d` on, with which a decimal reads as
/// the double `m`.
pub open spec fn places(m: nat, d: nat) -> nat
    decreases MOST_PLACES - d,
{
    if d >= MOST_PLACES || reads_below(m, d) || reads_above(m, d) {
        d
    } else {
        places(m, d + 1)
    }
}

/// The shortest decimal that reads as the double `m / 2^50`.
pub open spec fn shortest(m: nat) -> Seq<char> {
    let d = places(m, 0);
    let value = nearest_multiple(m, d);
    if d == 0 {
        decimal_text(value)
    } else {
        decimal_text(value / pow10(d)) + seq!['.'] + padded(value % pow10(d), d)
    }
}

/// A byte count in the largest of the units B, KiB, MiB, GiB and TiB that it
/// reaches, with two decimals. From 1024 TiB on it is the count as a double,
/// divided by 2^50, in the shortest decimal that reads as that double, and
/// the unit TiB.
pub open spec fn formatted(bytes: u64) -> Seq<char> {
    if bytes < LARGE {
        in_unit(bytes)
    } else {
        shortest(as_double(bytes)) + seq![' '] + "TiB"@
    }
}

/// A byte count as `formatted` gives it, and 0 as `nothing`.
pub open spec fn formatted_or_nothing(bytes: u64) -> Seq<char> {
    if bytes == 0 {
        "nothing"@
    } else {
        formatted(bytes)
    }
}

/// `bytes` as a double.
fn to_double(bytes: u64) -> (m: u128)
    ensures
        m == as_double(bytes),
        bytes >= LARGE ==> LARGE <= m <= 0x2_0000_0000_0000_0000,
{
    let mut top: u64 = bytes;
    let mut unit: u64 = 1;
    while top >= 0x20_0000_0000_0000
        invariant
            unit >= 1,
            top == bytes / unit,
            unit * top <= bytes,
            unit == 1 || top >= 0x10_0000_0000_0000,
            spare(bytes as nat) == unit * spare(top as nat),
        decreases top,
    {
        proof {
            vstd::arithmetic::div_mod::lemma_div_denominator(bytes as int, unit as int, 2);
            assert(unit * 2 * (top / 2) <= unit * top) by (nonlinear_arith)
                requires
                    unit >= 1,
                    top >= 0,
            ;
            assert(unit * (2 * spare((top / 2) as nat)) == unit * 2 * spare((top / 2) as nat))
                by (nonlinear_arith);
            assert(unit * 2 <= 0x1000) by (nonlinear_arith)
                requires
                    unit * top <= bytes,
                    top >= 0x20_0000_0000_0000,
                    bytes <= 0xffff_ffff_ffff_ffff,
                    unit >= 1,
            ;
        }
        top = top / 2;
        unit = unit * 2;
    }
    assert(unit <= 0x1000) by (nonlinear_arith)
        requires
            unit * top <= bytes,
            unit >= 1,
            bytes <= 0xffff_ffff_ffff_ffff,
            unit == 1 || top >= 0x10_0000_0000_0000,
    ;
    proof {
        assert(spare(top as nat) == 1);
        assert(spare(bytes as nat) == unit) by (nonlinear_arith)
            requires
                spare(bytes as nat) == unit * spare(top as nat),
                spare(top as nat) == 1,
        ;
    }
    let nearest = divide_rounded(bytes as u128, unit as u128);
    assert(nearest * unit <= 0x2_0000_0000_0000_0000) by (nonlinear_arith)
        requires
            nearest <= top + 1,
            top < 0x20_0000_0000_0000,
            1 <= unit <= 0x1000,
    ;
    let m = nearest * (unit as u128);
    proof {
        if bytes >= LARGE {
            assert(m >= LARGE) by (nonlinear_arith)
                requires
                    m == nearest * unit,
                    nearest >= top,
                    top == bytes / unit,
                    unit >= 1,
                    bytes >= LARGE,
                    unit == 1 || top >= 0x10_0000_0000_0000,
            ;
        }
    }
    m
}

/// A power of ten is no smaller than one with a smaller exponent, and 1 at
/// least.
pub proof fn lemma_pow10_grows(d: nat, e: nat)
    requires
        d <= e,
    ensures
        1 <= pow10(d) <= pow10(e),
    decreases e,
{
    if e > 0 {
        if d < e {
            lemma_pow10_grows(d, (e - 1) as nat);
        } else {
            lemma_pow10_grows((d - 1) as nat, (e - 1) as nat);
        }
    }
}

/// The largest power of ten that is tried.
pub proof fn lemma_pow10_most()
    ensures
        pow10(MOST_PLACES as nat) == 100_000_000_000_000_000,
{
    reveal_with_fuel(pow10, 18);
}

/// Sixteen times half the distance from the double `m` to the next double
/// above.
fn gap_above(m: u128) -> (gap: u128)
    requires
        LARGE <= m <= 0x2_0000_0000_0000_0000,
    ensures
        gap == half_gap(m as nat),
        2 <= gap <= 0x2_0000,
{
    let mut top: u128 = m;
    let mut gap: u128 = 2;
    while top >= 0x8_0000_0000_0000
        invariant
            gap >= 2,
            gap * top <= 2 * m,
            m <= 0x2_0000_0000_0000_0000,
            top >= 0x4_0000_0000_0000,
            half_gap(m as nat) * 2 == gap * half_gap(top as nat),
        decreases top,
    {
        proof {
            assert(gap * 2 * (top / 2) <= gap * top) by (nonlinear_arith)
                requires
                    gap >= 1,
                    top >= 0,
            ;
            assert(gap * (2 * half_gap((top / 2) as nat)) == gap * 2 * half_gap(
                (top / 2) as nat,
            )) by (nonlinear_arith);
            assert(gap * 2 <= 0x2_0000) by (nonlinear_arith)
                requires
                    gap * top <= 2 * m,
                    top >= 0x8_0000_0000_0000,
                    m <= 0x2_0000_0000_0000_0000,
            ;
        }
        top = top / 2;
        gap = gap * 2;
    }
    proof {
        assert(half_gap(top as nat) == 2);
        assert(half_gap(m as nat) == gap) by (nonlinear_arith)
            requires
                half_gap(m as nat) * 2 == gap * half_gap(top as nat),
                half_gap(top as nat) == 2,
        ;
        assert(gap <= 0x2_0000) by (nonlinear_arith)
            requires
                gap * top <= 2 * m,
                top >= 0x4_0000_0000_0000,
                m <= 0x2_0000_0000_0000_0000,
        ;
    }
    gap
}

/// Formats a byte count of 1024 TiB or more: as a double, divided by 2^50,
/// in the shortest decimal that reads as that double, with the unit TiB.
fn format_large(bytes: u64) -> (text: String)
    requires
        bytes >= LARGE,
    ensures
        text@ == shortest(as_double(bytes)) + seq![' '] + "TiB"@,
{
    let m = to_double(bytes);
    let above = gap_above(m);
    let below = if m == above * 0x2_0000_0000_0000 {
        above / 2
    } else {
        above
    };
    let bounds = (8 * m / above) % 2 == 0;
    let mut d: u32 = 0;
    let mut pow: u128 = 1;
    let mut value: u128 = 0;
    proof {
        lemma_pow10_most();
    }
    loop
        invariant_except_break
            d <= MOST_PLACES,
            pow == pow10(d as nat),
            places(m as nat, 0) == places(m as nat, d as nat),
        invariant
            LARGE <= m <= 0x2_0000_0000_0000_0000,
            above == half_gap(m as nat),
            below == half_gap_below(m as nat),
            bounds == takes_bounds(m as nat),
            2 <= above <= 0x2_0000,
            pow10(MOST_PLACES as nat) == 100_000_000_000_000_000,
        ensures
            d == places(m as nat, 0),
            pow == pow10(d as nat),
            1 <= pow,
            value == nearest_multiple(m as nat, d as nat),
        decreases MOST_PLACES - d,
    {
        proof {
            lemma_pow10_grows(d as nat, MOST_PLACES as nat);
            assert(16 * m * pow <= 0x20_0000_0000_0000_0000 * 100_000_000_000_000_000)
                by (nonlinear_arith)
                requires
                    m <= 0x2_0000_0000_0000_0000,
                    0 <= pow <= 100_000_000_000_000_000,
            ;
            assert(above * pow <= 0x2_0000 * 100_000_000_000_000_000) by (nonlinear_arith)
                requires
                    above <= 0x2_0000,
                    0 <= pow <= 100_000_000_000_000_000,
            ;
            assert(below * pow <= above * pow) by (nonlinear_arith)
                requires
                    below <= above,
                    pow >= 0,
            ;
        }
        let scaled = 16 * m * pow;
        let whole = scaled / SCALE;
        let rest = scaled % SCALE;
        let low = below * pow;
        let high = above * pow;
        let reads_low = rest < low || (bounds && rest == low);
        let reads_high = SCALE - rest < high || (bounds && SCALE - rest == high);
        if d >= MOST_PLACES || reads_low || reads_high {
            value = if reads_high && (!reads_low || 2 * rest >= SCALE) {
                whole + 1
            } else {
                whole
            };
            break ;
        }
        d += 1;
        pow = pow * 10;
    }
    let mut text = String::new();
    proof {
        reveal_strlit(".");
        reveal_strlit(" ");
        assert(".".view() =~= seq!['.']);
        assert(" ".view() =~= seq![' ']);
    }
    if d == 0 {
        append_decimal(&mut text, value);
    } else {
        append_decimal(&mut text, value / pow);
        text.append(".");
        append_padded(&mut text, value % pow, d);
    }
    text.append(" ");
    text.append("TiB");
    proof {
        assert(text@ =~= shortest(m as nat) + seq![' '] + "TiB"@);
    }
    text
}

/// Formats a number of bytes in the closest binary unit: B, KiB, MiB, GiB or
/// TiB.
pub fn format_bytes(bytes: u64) -> (text: String)
    ensures
        text@ == formatted(bytes),
{
    if bytes < LARGE {
        format_in_unit(bytes)
    } else {
        format_large(bytes)
    }
}

/// Like `format_bytes`, but 0 is `nothing`.
pub fn format_bytes_or_nothing(bytes: u64) -> (text: String)
    ensures
        text@ == formatted_or_nothing(bytes),
{
    if bytes == 0 {
        String::from_str("nothing")
    } else {
        format_bytes(bytes)
    }
}

} // verus!
