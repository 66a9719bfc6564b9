//! Sizes and durations as the user reads them.

use crate::text::{concat, concat3, decimal, decimal_text, digit, push_numeral};
use vstd::prelude::*;

verus! {

// ── Division as binary64 does it ─────────────────────────────────────────────
/// The integer nearest to `num / den`, the even one of two.
pub open spec fn half_even(num: nat, den: nat) -> nat {
    let q = num / den;
    let r = num % den;
    if 2 * r > den || (2 * r == den && q % 2 == 1) {
        q + 1
    } else {
        q
    }
}

/// The distance between neighbouring binary64 numbers around the integer `b`, but at least one.
pub open spec fn spacing(b: nat) -> nat
    decreases b,
{
    if b < 0x20_0000_0000_0000 {
        1
    } else {
        2 * spacing(b / 2)
    }
}

/// The integer `b` rounded to binary64.
pub open spec fn as_double(b: nat) -> nat {
    half_even(b, spacing(b)) * spacing(b)
}

/// Two to the power `k`.
pub open spec fn two_to(k: nat) -> nat
    decreases k,
{
    if k == 0 {
        1
    } else {
        2 * two_to((k - 1) as nat)
    }
}

/// The least `k` from `from` on at which `m * 2^k / unit` has 53 bits before the point.
pub open spec fn mantissa_shift(m: nat, unit: nat, from: nat) -> nat
    decreases 52 - from,
{
    if from >= 52 || m * two_to(from) >= unit * 0x10_0000_0000_0000 {
        from
    } else {
        mantissa_shift(m, unit, from + 1)
    }
}

/// How many tenths `b / unit` shows with one digit after the point, the quotient being the
/// binary64 number nearest to it.
pub open spec fn tenths(b: nat, unit: nat) -> nat {
    let m = as_double(b);
    let k = mantissa_shift(m, unit, 0);
    half_even(10 * half_even(m * two_to(k), unit), two_to(k))
}

fn round_half_even(num: u128, den: u128) -> (q: u128)
    requires
        0 < den <= 0x1_0000_0000_0000_0000,
        num < 0x1000_0000_0000_0000_0000_0000_0000_0000,
    ensures
        q as nat == half_even(num as nat, den as nat),
{
    let q: u128 = num / den;
    let r: u128 = num % den;
    proof {
        assert(q <= num) by (nonlinear_arith)
            requires
                q == num / den,
                den >= 1,
        ;
    }
    if 2 * r > den || (2 * r == den && q % 2 == 1) {
        q + 1
    } else {
        q
    }
}

proof fn lemma_spacing(b: nat)
    requires
        b < 0x1_0000_0000_0000_0000,
    ensures
        1 <= spacing(b) <= 0x800,
        as_double(b) <= 0x1_0000_0000_0000_0000,
        b >= 1000 ==> as_double(b) >= 1000,
{
    reveal_with_fuel(spacing, 13);
    let u = spacing(b);
    assert(u == 1 || u == 2 || u == 4 || u == 8 || u == 16 || u == 32 || u == 64 || u == 128 || u
        == 256 || u == 512 || u == 1024 || u == 2048);
    let q = b / u;
    assert(b < 0x20_0000_0000_0000 ==> u == 1);
    assert(u > 1 ==> b >= 0x20_0000_0000_0000);
    assert(q * u <= b && (q + 1) * u > b) by (nonlinear_arith)
        requires
            q == b / u,
            u >= 1,
    ;
    assert(q * u >= b - 0x800) by (nonlinear_arith)
        requires
            (q + 1) * u > b,
            u <= 0x800,
    ;
    assert(0x1_0000_0000_0000_0000nat % u == 0);
    assert((q + 1) * u <= 0x1_0000_0000_0000_0000) by (nonlinear_arith)
        requires
            q * u <= b,
            b < 0x1_0000_0000_0000_0000,
            0x1_0000_0000_0000_0000nat % u == 0,
            u >= 1,
    {
        let t: int = 0x1_0000_0000_0000_0000int / u as int;
        assert(t * u == 0x1_0000_0000_0000_0000);
        assert(q < t);
        assert((q + 1) * u <= t * u);
    }
    let h = half_even(b, u);
    assert(h == q || h == q + 1);
    if u == 1 {
        assert(b / 1 == b && b % 1 == 0) by (nonlinear_arith);
        assert(q == b);
        assert(h * u == b);
    }
}

/// The tenths that `b / unit` shows.
fn count_tenths(b: u64, unit: u64) -> (n: u128)
    requires
        1000 <= unit <= 0x100_0000_0000,
        unit <= b,
    ensures
        n as nat == tenths(b as nat, unit as nat),
{
    let mut u: u128 = 1;
    let mut c: u64 = b;
    proof {
        lemma_spacing(b as nat);
    }
    while c >= 0x20_0000_0000_0000
        invariant
            u * spacing(c as nat) == spacing(b as nat),
            1 <= spacing(b as nat) <= 0x800,
            1 <= u,
        decreases c,
    {
        assert(u * 2 * spacing((c / 2) as nat) == spacing(b as nat)) by (nonlinear_arith)
            requires
                u * spacing(c as nat) == spacing(b as nat),
                spacing(c as nat) == 2 * spacing((c / 2) as nat),
        ;
        assert(spacing((c / 2) as nat) >= 1) by {
            lemma_spacing((c / 2) as nat);
        }
        assert(u * 2 <= 0x800) by (nonlinear_arith)
            requires
                u * 2 * spacing((c / 2) as nat) <= 0x800,
                spacing((c / 2) as nat) >= 1,
                u >= 1,
        ;
        u = u * 2;
        c = c / 2;
    }
    assert(u == spacing(b as nat)) by (nonlinear_arith)
        requires
            u * spacing(c as nat) == spacing(b as nat),
            spacing(c as nat) == 1,
    ;
    let h: u128 = round_half_even(b as u128, u);
    assert(h * u <= 0x1_0000_0000_0000_0000);
    let m: u128 = h * u;
    let d: u128 = unit as u128;
    assert(m == as_double(b as nat));
    let mut k: u128 = 0;
    let mut p: u128 = 1;
    let mut scaled: u128 = m;
    proof {
        lemma_double_at_least(b as nat, unit as nat);
    }
    while k < 52 && scaled < d * 0x10_0000_0000_0000
        invariant
            k <= 52,
            m <= 0x1_0000_0000_0000_0000,
            1000 <= d <= 0x100_0000_0000,
            d <= m,
            p == two_to(k as nat),
            1 <= p <= 0x10_0000_0000_0000,
            scaled == m * p,
            scaled < 0x1000_0000_0000_0000_0000_0000_0000,
            k > 0 ==> scaled < d * 0x20_0000_0000_0000,
            mantissa_shift(m as nat, d as nat, k as nat) == mantissa_shift(m as nat, d as nat, 0),
        decreases 52 - k,
    {
        proof {
            assert(m * (2 * p) == 2 * (m * p)) by (nonlinear_arith);
            lemma_two_to_52(k as nat + 1);
        }
        p = p * 2;
        scaled = scaled * 2;
        k = k + 1;
    }
    proof {
        assert(k as nat >= 52 || scaled >= d * 0x10_0000_0000_0000);
        assert(m as nat * two_to(k as nat) == scaled as nat);
    }
    let n: u128 = round_half_even(scaled, d);
    proof {
        assert(n <= scaled) by {
            lemma_half_even_le(scaled as nat, d as nat);
        }
    }
    round_half_even(10 * n, p)
}

proof fn lemma_two_to_grows(i: nat, j: nat)
    requires
        i <= j,
    ensures
        1 <= two_to(i) <= two_to(j),
    decreases j,
{
    if i < j {
        lemma_two_to_grows(i, (j - 1) as nat);
    } else if j > 0 {
        lemma_two_to_grows((j - 1) as nat, (j - 1) as nat);
    }
}

proof fn lemma_two_to_52(k: nat)
    requires
        k <= 52,
    ensures
        1 <= two_to(k) <= 0x10_0000_0000_0000,
{
    lemma_two_to_grows(k, 52);
    reveal_with_fuel(two_to, 53);
}

proof fn lemma_half_even_le(num: nat, den: nat)
    requires
        den >= 2,
    ensures
        half_even(num, den) <= num,
{
    assert(num / den <= num / 2) by (nonlinear_arith)
        requires
            den >= 2,
    ;
    if num == 0 {
        assert(num % den == 0) by (nonlinear_arith)
            requires
                num == 0,
                den >= 2,
        ;
    } else if num == 1 {
        assert(num / den == 0 && num % den == 1) by (nonlinear_arith)
            requires
                num == 1,
                den >= 2,
        ;
    }
}

proof fn lemma_double_at_least(b: nat, unit: nat)
    requires
        unit <= b < 0x1_0000_0000_0000_0000,
        unit <= 0x100_0000_0000,
    ensures
        as_double(b) >= unit,
        b < 0x20_0000_0000_0000 ==> as_double(b) == b,
{
    lemma_spacing(b);
    let u = spacing(b);
    if b < 0x20_0000_0000_0000 {
        assert(u == 1);
        assert(b / 1 == b && b % 1 == 0) by (nonlinear_arith);
        assert(half_even(b, 1) == b);
        assert(as_double(b) == b * 1);
    } else {
        let q = b / u;
        assert(q * u > b - u) by (nonlinear_arith)
            requires
                q == b / u,
                u >= 1,
        ;
        assert(half_even(b, u) * u >= q * u) by (nonlinear_arith)
            requires
                half_even(b, u) >= q,
        ;
    }
}

// ── Sizes ────────────────────────────────────────────────────────────────────
/// `b / unit` with one digit after the point, then the name of the unit.
pub open spec fn scaled(b: nat, unit: nat, name: Seq<char>) -> Seq<char> {
    decimal(tenths(b, unit) / 10) + seq!['.', digit((tenths(b, unit) % 10) as int)] + name
}

fn scaled_text(b: u64, unit: u64, name: &str) -> (text: String)
    requires
        1000 <= unit <= 0x100_0000_0000,
        unit <= b,
    ensures
        text@ == scaled(b as nat, unit as nat, name@),
{
    let n: u128 = count_tenths(b, unit);
    let mut text = String::new();
    push_numeral(&mut text, n / 10, 10);
    text.push('.');
    let ghost head = text@;
    push_numeral(&mut text, n % 10, 10);
    assert(text@ =~= head + seq![digit((n % 10) as int)]);
    text.append(name);
    assert(text@ =~= scaled(b as nat, unit as nat, name@));
    text
}

/// A size in the units that the directory listings use: powers of 1024, one decimal.
pub open spec fn binary_size(b: nat) -> Seq<char> {
    if b >= 1_099_511_627_776 {
        scaled(b, 1_099_511_627_776, " TiB"@)
    } else if b >= 1_073_741_824 {
        scaled(b, 1_073_741_824, " GiB"@)
    } else if b >= 1_048_576 {
        scaled(b, 1_048_576, " MiB"@)
    } else if b >= 1_024 {
        scaled(b, 1_024, " KiB"@)
    } else {
        decimal(b) + " B"@
    }
}

/// A size in powers of 1000 with one decimal; `gap` stands between number and unit.
pub open spec fn decimal_size(b: nat, gap: Seq<char>) -> Seq<char> {
    if b >= 1_000_000_000 {
        scaled(b, 1_000_000_000, gap + "GB"@)
    } else if b >= 1_000_000 {
        scaled(b, 1_000_000, gap + "MB"@)
    } else if b >= 1_000 {
        scaled(b, 1_000, gap + "KB"@)
    } else {
        decimal(b) + gap + "B"@
    }
}

/// The size as a folder of the index shows it.
pub fn fmt_binary_size(b: u64) -> (text: String)
    ensures
        text@ == binary_size(b as nat),
{
    if b >= 1_099_511_627_776 {
        scaled_text(b, 1_099_511_627_776, " TiB")
    } else if b >= 1_073_741_824 {
        scaled_text(b, 1_073_741_824, " GiB")
    } else if b >= 1_048_576 {
        scaled_text(b, 1_048_576, " MiB")
    } else if b >= 1_024 {
        scaled_text(b, 1_024, " KiB")
    } else {
        concat(decimal_text(b).as_str(), " B")
    }
}

/// The size with the given gap between number and unit.
fn fmt_decimal_size(b: u64, gap: &str) -> (text: String)
    ensures
        text@ == decimal_size(b as nat, gap@),
{
    if b >= 1_000_000_000 {
        scaled_text(b, 1_000_000_000, concat(gap, "GB").as_str())
    } else if b >= 1_000_000 {
        scaled_text(b, 1_000_000, concat(gap, "MB").as_str())
    } else if b >= 1_000 {
        scaled_text(b, 1_000, concat(gap, "KB").as_str())
    } else {
        concat3(decimal_text(b).as_str(), gap, "B")
    }
}

/// The size as the windows show it: `1.5 GB`.
pub fn fmt_size(bytes: u64) -> (text: String)
    ensures
        text@ == decimal_size(bytes as nat, " "@),
{
    fmt_decimal_size(bytes, " ")
}

/// The size as the terminal shows it: `1.5GB`.
pub fn fmt_size_tight(bytes: u64) -> (text: String)
    ensures
        text@ == decimal_size(bytes as nat, ""@),
{
    fmt_decimal_size(bytes, "")
}

// ── Durations ────────────────────────────────────────────────────────────────
/// A remaining time: hours and minutes, minutes and seconds, or seconds.
pub open spec fn eta(secs: nat) -> Seq<char> {
    if secs >= 3600 {
        decimal(secs / 3600) + "h"@ + decimal((secs % 3600) / 60) + "m"@
    } else if secs >= 60 {
        decimal(secs / 60) + "m"@ + decimal(secs % 60) + "s"@
    } else {
        decimal(secs) + "s"@
    }
}

/// The remaining time as it is shown beside a download.
pub fn fmt_eta(secs: u64) -> (text: String)
    ensures
        text@ == eta(secs as nat),
{
    if secs >= 3600 {
        let hours = concat(decimal_text(secs / 3600).as_str(), "h");
        concat3(hours.as_str(), decimal_text((secs % 3600) / 60).as_str(), "m")
    } else if secs >= 60 {
        let minutes = concat(decimal_text(secs / 60).as_str(), "m");
        concat3(minutes.as_str(), decimal_text(secs % 60).as_str(), "s")
    } else {
        concat(decimal_text(secs).as_str(), "s")
    }
}

/// `n` things, with the plural's letters where `n` is not one.
pub open spec fn counted(n: nat, noun: Seq<char>, plural: Seq<char>) -> Seq<char> {
    decimal(n) + " "@ + noun + (if n == 1 {
        Seq::<char>::empty()
    } else {
        plural
    })
}

/// `1 file`, `2 files`.
pub fn count_of(n: usize, noun: &str, plural: &str) -> (text: String)
    ensures
        text@ == counted(n as nat, noun@, plural@),
{
    let mut text = concat3(decimal_text(n as u64).as_str(), " ", noun);
    if n != 1 {
        text.append(plural);
    }
    assert(text@ =~= counted(n as nat, noun@, plural@));
    text
}

// ── What is shown of a number ────────────────────────────────────────────────
proof fn lemma_half_even_near(num: nat, den: nat)
    requires
        den > 0,
    ensures
        2 * (half_even(num, den) * den) <= 2 * num + den,
        2 * num <= 2 * (half_even(num, den) * den) + den,
{
    let q = num / den;
    let r = num % den;
    assert(q * den + r == num && r < den) by (nonlinear_arith)
        requires
            q == num / den,
            r == num % den,
            den > 0,
    ;
    assert((q + 1) * den == q * den + den) by (nonlinear_arith);
}

proof fn lemma_shift_reached(m: nat, unit: nat, from: nat)
    requires
        m >= unit,
        from <= 52,
    ensures
        mantissa_shift(m, unit, from) <= 52,
        m * two_to(mantissa_shift(m, unit, from)) >= unit * 0x10_0000_0000_0000,
    decreases 52 - from,
{
    if from >= 52 {
        reveal_with_fuel(two_to, 53);
        assert(two_to(52) == 0x10_0000_0000_0000);
        assert(m * 0x10_0000_0000_0000 >= unit * 0x10_0000_0000_0000) by (nonlinear_arith)
            requires
                m >= unit,
        ;
    } else if m * two_to(from) < unit * 0x10_0000_0000_0000 {
        lemma_shift_reached(m, unit, from + 1);
    }
}

/// What is shown of a size is the nearest tenth of its unit: it is off by half a tenth, but for what
/// the division itself rounds.
pub proof fn law_tenths(b: nat, unit: nat)
    requires
        1000 <= unit <= 0x100_0000_0000,
        unit <= b < 0x20_0000_0000_0000,
    ensures
        1000 * (tenths(b, unit) * unit) <= 1000 * (10 * b) + 511 * unit,
        1000 * (10 * b) <= 1000 * (tenths(b, unit) * unit) + 511 * unit,
{
    lemma_double_at_least(b, unit);
    let k = mantissa_shift(b, unit, 0);
    lemma_shift_reached(b, unit, 0);
    let p = two_to(k);
    lemma_two_to_52(k);
    let q = half_even(b * p, unit);
    lemma_half_even_near(b * p, unit);
    let t = half_even(10 * q, p);
    lemma_half_even_near(10 * q, p);
    assert(t == tenths(b, unit));
    assert(p > 500) by (nonlinear_arith)
        requires
            b * p >= unit * 0x10_0000_0000_0000,
            unit >= 1000,
            b < 0x20_0000_0000_0000,
            p >= 1,
    ;
    let x = t * unit;
    assert((t * p) * unit == x * p) by (nonlinear_arith)
        requires
            x == t * unit,
    ;
    assert(2 * ((t * p) * unit) <= 2 * (10 * (q * unit)) + p * unit) by (nonlinear_arith)
        requires
            2 * (t * p) <= 2 * (10 * q) + p,
    ;
    assert(2 * (10 * (q * unit)) <= 2 * ((t * p) * unit) + p * unit) by (nonlinear_arith)
        requires
            2 * (10 * q) <= 2 * (t * p) + p,
    ;
    assert(2 * (x * p) <= 20 * (b * p) + 10 * unit + p * unit);
    assert(20 * (b * p) <= 2 * (x * p) + 10 * unit + p * unit);
    assert(1000 * x <= 1000 * (10 * b) + 511 * unit) by (nonlinear_arith)
        requires
            2 * (x * p) <= 20 * (b * p) + 10 * unit + p * unit,
            p > 500,
            unit >= 1000,
    ;
    assert(1000 * (10 * b) <= 1000 * x + 511 * unit) by (nonlinear_arith)
        requires
            20 * (b * p) <= 2 * (x * p) + 10 * unit + p * unit,
            p > 500,
            unit >= 1000,
    ;
}

/// A size in a unit: the whole part, a point, the tenth, and the unit's name.
pub proof fn law_scaled(b: nat, unit: nat, name: Seq<char>)
    ensures
        ({
            let whole = decimal(tenths(b, unit) / 10);
            let text = scaled(b, unit, name);
            &&& text.len() == whole.len() + 2 + name.len()
            &&& text.take(whole.len() as int) == whole
            &&& text[whole.len() as int] == '.'
            &&& text[whole.len() as int + 1] == "0123456789"@[tenths(b, unit) as int % 10]
            &&& text.skip(whole.len() as int + 2) == name
        }),
{
    reveal_strlit("0123456789");
    let whole = decimal(tenths(b, unit) / 10);
    let text = scaled(b, unit, name);
    assert(text.take(whole.len() as int) =~= whole);
    assert(text.skip(whole.len() as int + 2) =~= name);
}

/// Which unit a size is shown in: the largest that it reaches, by powers of 1024 or of 1000.
pub proof fn law_size_units(b: nat, gap: Seq<char>)
    ensures
        b < 1024 ==> binary_size(b) == decimal(b) + " B"@,
        1024 <= b < 1024 * 1024 ==> binary_size(b) == scaled(b, 1024, " KiB"@),
        1024 * 1024 <= b < 1024 * 1024 * 1024 ==> binary_size(b) == scaled(b, 1024 * 1024, " MiB"@),
        1024 * 1024 * 1024 <= b < 1024 * 1024 * 1024 * 1024 ==> binary_size(b) == scaled(
            b,
            1024 * 1024 * 1024,
            " GiB"@,
        ),
        1024 * 1024 * 1024 * 1024 <= b ==> binary_size(b) == scaled(
            b,
            1024 * 1024 * 1024 * 1024,
            " TiB"@,
        ),
        b < 1000 ==> decimal_size(b, gap) == decimal(b) + gap + "B"@,
        1000 <= b < 1000 * 1000 ==> decimal_size(b, gap) == scaled(b, 1000, gap + "KB"@),
        1000 * 1000 <= b < 1000 * 1000 * 1000 ==> decimal_size(b, gap) == scaled(
            b,
            1000 * 1000,
            gap + "MB"@,
        ),
        1000 * 1000 * 1000 <= b ==> decimal_size(b, gap) == scaled(
            b,
            1000 * 1000 * 1000,
            gap + "GB"@,
        ),
{
}

/// A time is shown in its two largest units: hours and minutes, minutes and seconds, or seconds.
pub proof fn law_eta(hours: nat, minutes: nat, seconds: nat)
    requires
        minutes < 60,
        seconds < 60,
    ensures
        hours > 0 ==> eta(3600 * hours + 60 * minutes + seconds) == decimal(hours) + "h"@ + decimal(
            minutes,
        ) + "m"@,
        minutes > 0 ==> eta(60 * minutes + seconds) == decimal(minutes) + "m"@ + decimal(seconds)
            + "s"@,
        eta(seconds) == decimal(seconds) + "s"@,
{
    let all = 3600 * hours + 60 * minutes + seconds;
    assert(all / 3600 == hours && all % 3600 == 60 * minutes + seconds);
    assert((60 * minutes + seconds) / 60 == minutes && (60 * minutes + seconds) % 60 == seconds);
}

/// One thing is named in the singular, any other number in the plural.
pub proof fn law_counted(n: nat, noun: Seq<char>, plural: Seq<char>)
    ensures
        counted(1, noun, plural) == decimal(1) + " "@ + noun,
        n != 1 ==> counted(n, noun, plural) == decimal(n) + " "@ + noun + plural,
{
    assert(counted(1, noun, plural) =~= decimal(1) + " "@ + noun);
}

/// The powers of two.
pub proof fn law_two_to(k: nat)
    ensures
        two_to(0) == 1,
        two_to(k + 1) == 2 * two_to(k),
{
}

} // verus!
