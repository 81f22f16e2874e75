//! What figures promise when they are written out for reading.

use crate::display::{
    clock, csv_seconds, footage_parts, format_bitrate, format_codec, format_duration,
    format_frame_rate, format_quality, format_shared, format_size, hundredths, is_footage_parts,
    is_thousandths, nearest, nearest_up, padded, rate_thousandths, rounded, rounded_up, tenths,
    thousandths, FIGURE_LIMIT,
};
use crate::overlap::Footage;
use crate::quantity::{lemma_scaled, scaled, Rate, Seconds};
use crate::text::{decimal, number};
use vstd::prelude::*;

verus! {

/// Whether a whole number is a nearest one to a fraction: twice their difference is no
/// more than the denominator.
pub open spec fn is_nearest(out: int, n: int, d: int) -> bool {
    (2 * out - 1) * d <= 2 * n <= (2 * out + 1) * d
}

proof fn lemma_rounded(n: nat, d: nat)
    requires
        d > 0,
    ensures
        is_nearest(rounded(n, d) as int, n as int, d as int),
        2 * n == (2 * rounded(n, d) + 1) * d || 2 * n == (2 * rounded(n, d) - 1) * d ==> rounded(
            n,
            d,
        ) % 2 == 0,
        is_nearest(rounded_up(n, d) as int, n as int, d as int),
        2 * n != (2 * rounded_up(n, d) + 1) * d,
{
    let (q, r) = ((n / d) as int, (n % d) as int);
    let (m, e) = (n as int, d as int);
    vstd::arithmetic::div_mod::lemma_fundamental_div_mod(m, e);
    vstd::arithmetic::div_mod::lemma_mod_bound(m, e);
    assert((2 * q + 1) * e == 2 * (e * q) + e) by (nonlinear_arith);
    assert((2 * q - 1) * e == 2 * (e * q) - e) by (nonlinear_arith);
    assert((2 * (q + 1) + 1) * e == 2 * (e * q) + 3 * e) by (nonlinear_arith);
    assert((2 * (q + 1) - 1) * e == 2 * (e * q) + e) by (nonlinear_arith);
}

/// Rounding gives the nearest whole number, and the even one of two as near.
pub proof fn lemma_rounding_is_to_the_nearest(a: u64, b: u128, c: u128, out: u64)
    requires
        call_ensures(nearest, (a, b, c), out),
        c > 0,
        out < 0x8000_0000_0000_0000,
    ensures
        is_nearest(out as int, a * b, c as int),
        2 * (a * b) == (2 * out + 1) * c || 2 * (a * b) == (2 * out - 1) * c ==> out % 2 == 0,
{
    assert(a as nat * b as nat == a * b);
    lemma_rounded(a as nat * b as nat, c as nat);
}

/// Rounding halves up gives the nearest whole number, and the larger one of two as near.
pub proof fn lemma_rounding_halves_goes_up(a: u64, b: u128, c: u128, out: u64)
    requires
        call_ensures(nearest_up, (a, b, c), out),
        c > 0,
        out < 0x8000_0000_0000_0000,
    ensures
        is_nearest(out as int, a * b, c as int),
        2 * (a * b) < (2 * out + 1) * c,
{
    assert(a as nat * b as nat == a * b);
    lemma_rounded(a as nat * b as nat, c as nat);
}

/// A number of tenths is its whole part, a point, and the digit that is left.
pub proof fn lemma_tenths_are_one_place(t: u64, s: String, whole: String, digit: String)
    requires
        call_ensures(tenths, (t,), s),
        call_ensures(number, ((t / 10) as u64,), whole),
        call_ensures(number, ((t % 10) as u64,), digit),
    ensures
        s@ == whole@ + "."@ + digit@,
{
}

/// A number in two digits has a zero before it where it has but one.
pub proof fn lemma_padding_is_to_two_digits(n: u64, s: String, tens: String, ones: String)
    requires
        call_ensures(padded, (n,), s),
        call_ensures(number, ((n / 10) as u64,), tens),
        call_ensures(number, ((n % 10) as u64,), ones),
    ensures
        s@ == tens@ + ones@,
{
    lemma_two_digits(n as nat);
    assert(tens@ == decimal(n as nat / 10));
    assert(ones@ == decimal(n as nat % 10));
}

proof fn lemma_two_digits(n: nat)
    ensures
        crate::display::two_digits(n) == decimal(n / 10) + decimal(n % 10),
{
    reveal_strlit("0");
    if n < 10 {
        assert(n / 10 == 0 && n % 10 == n);
        assert("0"@ =~= decimal(0));
    } else {
        assert(decimal(n) == decimal(n / 10).push(crate::text::digit(n % 10)));
        assert(decimal(n % 10) =~= seq![crate::text::digit(n % 10)]);
        assert(decimal(n) =~= decimal(n / 10) + decimal(n % 10));
    }
}

/// A number of hundredths is its whole part, a point, and the two digits that are left.
pub proof fn lemma_hundredths_are_two_places(
    t: u64,
    s: String,
    whole: String,
    first: String,
    second: String,
)
    requires
        call_ensures(hundredths, (t,), s),
        call_ensures(number, ((t / 100) as u64,), whole),
        call_ensures(number, (((t % 100) / 10) as u64,), first),
        call_ensures(number, ((t % 10) as u64,), second),
    ensures
        s@ == whole@ + "."@ + first@ + second@,
{
    let n = t as nat;
    lemma_two_digits(n % 100);
    assert((n % 100) % 10 == n % 10);
    assert(s@ =~= whole@ + "."@ + first@ + second@);
}

/// A number of thousandths is its whole part, and behind a point the three digits that are
/// left, but for the zeros they end in. Where all are zeros there is no point.
pub proof fn lemma_thousandths_drop_their_last_zeros(
    t: u64,
    s: String,
    whole: String,
    first: String,
    second: String,
    third: String,
)
    requires
        call_ensures(thousandths, (t,), s),
        call_ensures(number, ((t / 1000) as u64,), whole),
        call_ensures(number, (((t % 1000) / 100) as u64,), first),
        call_ensures(number, (((t % 100) / 10) as u64,), second),
        call_ensures(number, ((t % 10) as u64,), third),
    ensures
        t % 1000 == 0 ==> s@ == whole@,
        t % 1000 != 0 && t % 100 == 0 ==> s@ == whole@ + "."@ + first@,
        t % 100 != 0 && t % 10 == 0 ==> s@ == whole@ + "."@ + first@ + second@,
        t % 10 != 0 ==> s@ == whole@ + "."@ + first@ + second@ + third@,
{
    let n = t as nat;
    let part = n % 1000;
    lemma_three_digits(n, part);
    if t % 1000 == 0 {
    } else if t % 100 == 0 {
    } else if t % 10 == 0 {
        lemma_two_digits(part / 10);
        assert(s@ =~= whole@ + "."@ + first@ + second@);
    } else if part < 100 {
        lemma_two_digits(part);
        lemma_point_zero();
        assert(s@ =~= whole@ + "."@ + first@ + second@ + third@);
    } else {
        assert(s@ =~= whole@ + "."@ + first@ + second@ + third@);
    }
}

proof fn lemma_point_zero()
    ensures
        ".0"@ == "."@ + decimal(0),
{
    reveal_strlit(".0");
    reveal_strlit(".");
    assert(decimal(0) =~= seq!['0']);
    assert(".0"@ =~= "."@ + decimal(0));
}

proof fn lemma_three_digits(n: nat, part: nat)
    requires
        part == n % 1000,
    ensures
        (part / 10) / 10 == part / 100,
        (part / 10) % 10 == (n % 100) / 10,
        part % 10 == n % 10,
        part < 100 ==> part / 100 == 0 && part / 10 == (n % 100) / 10,
        part >= 100 ==> decimal(part) == decimal(part / 100) + decimal((n % 100) / 10) + decimal(
            n % 10,
        ),
{
    assert(part % 10 == n % 10);
    assert(part % 100 == n % 100);
    assert((part / 10) / 10 == part / 100);
    assert((part / 10) % 10 == (part % 100) / 10);
    if part >= 100 {
        assert(decimal(part) == decimal(part / 10).push(crate::text::digit(part % 10)));
        assert(decimal(part / 10) == decimal(part / 10 / 10).push(
            crate::text::digit(part / 10 % 10),
        ));
        let (b, c) = ((n % 100) / 10, n % 10);
        assert(b < 10 && c < 10);
        assert(decimal(b) == seq![crate::text::digit(b)]);
        assert(decimal(c) == seq![crate::text::digit(c)]);
        assert(decimal(part) =~= decimal(part / 100) + decimal(b) + decimal(c));
    }
}

/// A time of day, or a length of time, is its hours, minutes and seconds, in two digits at
/// least.
pub proof fn lemma_a_clock_shows_hours_minutes_and_seconds(
    hours: u64,
    minutes: u64,
    seconds: u64,
    s: String,
    h: String,
    m: String,
    rest: String,
)
    requires
        minutes < 60,
        seconds < 60,
        hours * 3600 + minutes * 60 + seconds <= u64::MAX,
        call_ensures(clock, ((hours * 3600 + minutes * 60 + seconds) as u64,), s),
        call_ensures(padded, (hours,), h),
        call_ensures(padded, (minutes,), m),
        call_ensures(padded, (seconds,), rest),
    ensures
        s@ == h@ + ":"@ + m@ + ":"@ + rest@,
{
    let n = (hours * 3600 + minutes * 60 + seconds) as nat;
    assert(n / 3600 == hours && n % 3600 == minutes * 60 + seconds);
    assert(n % 3600 / 60 == minutes);
    assert(n % 60 == seconds);
}

/// A length of time shows its whole seconds.
pub proof fn lemma_a_length_shows_its_whole_seconds(
    length: Seconds,
    n: u64,
    s: String,
    shown: String,
)
    requires
        call_ensures(format_duration, (length,), s),
        call_ensures(clock, (n,), shown),
        n * length.den() <= length.num() < (n + 1) * length.den(),
    ensures
        s@ == shown@,
{
    let (m, d, q) = (length.num() as int, length.den() as int, n as int);
    assert(d > 0) by (nonlinear_arith)
        requires
            q * d <= m < (q + 1) * d,
            d >= 0,
    ;
    assert(q * d == d * q && (q + 1) * d == q * d + d) by (nonlinear_arith);
    vstd::arithmetic::div_mod::lemma_fundamental_div_mod_converse(m, d, q, m - d * q);
}

/// The name of a unit of so many bytes.
pub open spec fn is_unit(unit: u64, name: Seq<char>) -> bool {
    ||| unit == 1024 && name == "KB"@
    ||| unit == 1024 * 1024 && name == "MB"@
    ||| unit == 1024 * 1024 * 1024 && name == "GB"@
    ||| unit == 1024 * 1024 * 1024 * 1024 && name == "TB"@
}

/// A size is shown in the largest unit there is one of, each a thousand and twenty-four
/// of the one before, to the nearest tenth. Below the first unit it is shown in bytes.
pub proof fn lemma_a_size_is_shown_in_its_largest_unit(
    bytes: u64,
    s: String,
    plain: String,
    unit: u64,
    name: Seq<char>,
    t: u64,
    shown: String,
)
    requires
        call_ensures(format_size, (bytes,), s),
        call_ensures(number, (bytes,), plain),
        is_unit(unit, name),
        call_ensures(nearest, (10, bytes as u128, unit as u128), t),
        call_ensures(tenths, (t,), shown),
    ensures
        bytes < 1024 ==> s@ == plain@ + "B"@,
        unit <= bytes && (bytes < 1024 * unit || unit == 1024 * 1024 * 1024 * 1024) ==> s@ == shown@
            + name,
{
    if unit <= bytes {
        lemma_below(10, bytes as nat, unit as nat);
    }
}

proof fn lemma_below(a: nat, b: nat, c: nat)
    requires
        a * b < FIGURE_LIMIT * c,
        c > 0,
    ensures
        scaled(a, b, c) < FIGURE_LIMIT,
{
    lemma_scaled(a, b, c);
    let q = scaled(a, b, c);
    assert(q < FIGURE_LIMIT) by (nonlinear_arith)
        requires
            q * c <= a * b,
            a * b < FIGURE_LIMIT * c,
            c > 0,
    ;
}

/// A bitrate is shown in bits, in thousands of them, or in millions to the nearest tenth.
pub proof fn lemma_a_bitrate_is_shown_in_thousands(
    bps: u64,
    s: String,
    plain: String,
    k: u64,
    thousands: String,
    t: u64,
    millions: String,
)
    requires
        call_ensures(format_bitrate, (bps,), s),
        call_ensures(number, (bps,), plain),
        call_ensures(nearest, (1, bps as u128, 1000), k),
        call_ensures(number, (k,), thousands),
        call_ensures(nearest, (10, bps as u128, 1_000_000), t),
        call_ensures(tenths, (t,), millions),
    ensures
        bps < 1000 ==> s@ == plain@ + "bps"@,
        1000 <= bps < 1_000_000 ==> s@ == thousands@ + "kbps"@,
        bps >= 1_000_000 ==> s@ == millions@ + "Mbps"@,
{
    lemma_below(1, bps as nat, 1000);
    lemma_below(10, bps as nat, 1_000_000);
}

/// A quality is shown in bits of a frame, or in thousands or millions of them to the
/// nearest tenth. Where it is not known there is a dash.
pub proof fn lemma_a_quality_is_shown_in_thousands(
    bits: u64,
    s: String,
    plain: String,
    k: u64,
    thousands: String,
    t: u64,
    millions: String,
)
    requires
        call_ensures(format_quality, (bits,), s),
        call_ensures(number, (bits,), plain),
        call_ensures(nearest, (10, bits as u128, 1000), k),
        call_ensures(tenths, (k,), thousands),
        call_ensures(nearest, (10, bits as u128, 1_000_000), t),
        call_ensures(tenths, (t,), millions),
    ensures
        bits == 0 ==> s@ == "-"@,
        0 < bits < 1000 ==> s@ == plain@ + "b/f"@,
        1000 <= bits < 1_000_000 ==> s@ == thousands@ + "kb/f"@,
        bits >= 1_000_000 ==> s@ == millions@ + "Mb/f"@,
{
    if bits < 1_000_000 {
        lemma_below(10, bits as nat, 1000);
    }
    lemma_below(10, bits as nat, 1_000_000);
}

/// A frame rate is shown to the nearest thousandth, and a half goes up. Where it is not
/// known there is a dash.
pub proof fn lemma_a_frame_rate_is_shown_in_thousandths(
    rate: Rate,
    s: String,
    t: u64,
    shown: String,
)
    requires
        call_ensures(format_frame_rate, (rate,), s),
        call_ensures(rate_thousandths, (rate,), t),
        call_ensures(thousandths, (t,), shown),
        rate.den() > 0,
        t < 0x8000_0000_0000_0000,
    ensures
        rate.num() == 0 ==> s@ == "-"@,
        rate.num() > 0 ==> s@ == shown@ + "fps"@,
        is_nearest(t as int, (1000 * rate.num()) as int, rate.den() as int),
        2 * (1000 * rate.num()) < (2 * t + 1) * rate.den(),
{
    lemma_rounded(1000 * rate.num(), rate.den());
    if rate.num() > 0 {
        let u = choose|u: nat| #[trigger]
            is_thousandths(rate, u) && s@ == crate::display::thousandths_text(u) + "fps"@;
        assert(u == t);
    }
}

/// A codec is shown by its name, and one without a name by a dash.
pub proof fn lemma_a_codec_is_shown_by_name(codec: &str, s: String)
    requires
        call_ensures(format_codec, (codec,), s),
    ensures
        codec@.len() == 0 ==> s@ == "-"@,
        codec@.len() > 0 ==> s@ == codec@,
{
}

/// How long some footage is comes to the nearest part of a second, the even one of two as
/// near: its share of the runtime.
pub proof fn lemma_footage_is_its_share_of_the_runtime(f: Footage, parts: u64, t: u64)
    requires
        call_ensures(footage_parts, (f, parts), t),
        f.share.whole() > 0,
        f.runtime.den() > 0,
        t < 0x8000_0000_0000_0000,
    ensures
        is_nearest(
            t as int,
            parts * (f.share.part() * f.runtime.num()),
            (f.share.whole() * f.runtime.den()) as int,
        ),
        ({
            let n = parts * (f.share.part() * f.runtime.num());
            let d = f.share.whole() * f.runtime.den();
            2 * n == (2 * t + 1) * d || 2 * n == (2 * t - 1) * d ==> t % 2 == 0
        }),
{
    let d = f.share.whole() * f.runtime.den();
    assert(d > 0) by (nonlinear_arith)
        requires
            d == f.share.whole() * f.runtime.den(),
            f.share.whole() > 0,
            f.runtime.den() > 0,
    ;
    lemma_rounded(parts as nat * (f.share.part() * f.runtime.num()), d);
}

/// Footage is shown in seconds: to a tenth for reading, with a dash where it is unknown,
/// and to a hundredth for a table, where it is then left empty.
pub proof fn lemma_footage_is_shown_in_seconds(
    f: Option<Footage>,
    s: String,
    cell: String,
    t: u64,
    shown: String,
    h: u64,
    told: String,
)
    requires
        call_ensures(format_shared, (f,), s),
        call_ensures(csv_seconds, (f,), cell),
        f is Some ==> call_ensures(footage_parts, (f->0, 10), t) && t < 0x8000_0000_0000_0000,
        call_ensures(tenths, (t,), shown),
        f is Some ==> call_ensures(footage_parts, (f->0, 100), h) && h < 0x8000_0000_0000_0000,
        call_ensures(hundredths, (h,), told),
    ensures
        f is None ==> s@ == "-"@ && cell@.len() == 0,
        f is Some ==> s@ == shown@ + "s"@ && cell@ == told@,
{
    if f is Some {
        let u = choose|u: nat| #[trigger]
            is_footage_parts(f->0, 10, u) && s@ == crate::display::tenths_text(u) + "s"@;
        assert(u == t);
        let v = choose|v: nat| #[trigger]
            is_footage_parts(f->0, 100, v) && cell@ == crate::display::hundredths_text(v);
        assert(v == h);
    }
}

} // verus!
