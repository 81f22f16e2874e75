//! Figures as a reader sees them.

use crate::big::{at_least, small, times, value};
use crate::overlap::{footage_den, footage_num, Footage};
use crate::quantity::{scale, scaled, Rate, Seconds};
use crate::text::{decimal, number};
use vstd::prelude::*;

verus! {

/// The whole number nearest to `n / d`, the even one of two equally near.
pub open spec fn rounded(n: nat, d: nat) -> nat {
    let q = n / d;
    let r = n % d;
    if 2 * r < d || (2 * r == d && q % 2 == 0) {
        q
    } else {
        q + 1
    }
}

/// The whole number nearest to `n / d`, the larger one of two equally near.
pub open spec fn rounded_up(n: nat, d: nat) -> nat {
    let q = n / d;
    if 2 * (n % d) < d {
        q
    } else {
        q + 1
    }
}

/// What fits a figure: past this, it is cut off rather than rounded.
pub const FIGURE_LIMIT: u64 = 0x8000_0000_0000_0000;

proof fn lemma_halves(n: nat, d: nat)
    requires
        d > 0,
    ensures
        2 * n >= (2 * (n / d) + 1) * d <==> 2 * (n % d) >= d,
        2 * n <= (2 * (n / d) + 1) * d <==> 2 * (n % d) <= d,
{
    vstd::arithmetic::div_mod::lemma_fundamental_div_mod(n as int, d as int);
    let q = n / d;
    assert((2 * q + 1) * d == 2 * (d * q) + d) by (nonlinear_arith);
}

/// `a * b / c`, to the nearest whole number, where that is a figure that fits.
pub fn nearest(a: u64, b: u128, c: u128) -> (out: u64)
    requires
        c > 0,
        a < FIGURE_LIMIT,
    ensures
        scaled(a as nat, b as nat, c as nat) < FIGURE_LIMIT ==> out == rounded(
            a as nat * b as nat,
            c as nat,
        ),
        scaled(a as nat, b as nat, c as nat) >= FIGURE_LIMIT ==> out >= FIGURE_LIMIT,
{
    let q = scale(a, b, c);
    if q >= FIGURE_LIMIT {
        return q;
    }
    let doubled = times(&small(b), a as u128 * 2);
    let middle = times(&small(c), q as u128 * 2 + 1);
    let ghost n = a as nat * b as nat;
    proof {
        lemma_halves(n, c as nat);
        assert(value(doubled@) == 2 * n) by (nonlinear_arith)
            requires
                value(doubled@) == b * (a * 2),
                n == a * b,
        ;
        assert(value(middle@) == (2 * q + 1) * c) by (nonlinear_arith)
            requires
                value(middle@) == c * (q * 2 + 1),
        ;
    }
    let past = at_least(&doubled, &middle);
    let short = at_least(&middle, &doubled);
    if !past || (short && q % 2 == 0) {
        q
    } else {
        q + 1
    }
}

/// `a * b / c`, to the nearest whole number, halves up, where that is a figure that
/// fits.
pub fn nearest_up(a: u64, b: u128, c: u128) -> (out: u64)
    requires
        c > 0,
        a < FIGURE_LIMIT,
    ensures
        scaled(a as nat, b as nat, c as nat) < FIGURE_LIMIT ==> out == rounded_up(
            a as nat * b as nat,
            c as nat,
        ),
        scaled(a as nat, b as nat, c as nat) >= FIGURE_LIMIT ==> out >= FIGURE_LIMIT,
{
    let q = scale(a, b, c);
    if q >= FIGURE_LIMIT {
        return q;
    }
    let doubled = times(&small(b), a as u128 * 2);
    let middle = times(&small(c), q as u128 * 2 + 1);
    let ghost n = a as nat * b as nat;
    proof {
        lemma_halves(n, c as nat);
        assert(value(doubled@) == 2 * n) by (nonlinear_arith)
            requires
                value(doubled@) == b * (a * 2),
                n == a * b,
        ;
        assert(value(middle@) == (2 * q + 1) * c) by (nonlinear_arith)
            requires
                value(middle@) == c * (q * 2 + 1),
        ;
    }
    if at_least(&doubled, &middle) {
        q + 1
    } else {
        q
    }
}

/// A number of tenths.
pub open spec fn tenths_text(t: nat) -> Seq<char> {
    decimal(t / 10) + "."@ + decimal(t % 10)
}

/// Two digits at least.
pub open spec fn two_digits(n: nat) -> Seq<char> {
    if n < 10 {
        "0"@ + decimal(n)
    } else {
        decimal(n)
    }
}

/// A number of hundredths.
pub open spec fn hundredths_text(t: nat) -> Seq<char> {
    decimal(t / 100) + "."@ + two_digits(t % 100)
}

/// A number of tenths, with the point.
pub fn tenths(t: u64) -> (s: String)
    ensures
        s@ == tenths_text(t as nat),
{
    let mut s = number(t / 10);
    s.append(".");
    s.append(number(t % 10).as_str());
    s
}

/// A number in two digits at least.
pub fn padded(n: u64) -> (s: String)
    ensures
        s@ == two_digits(n as nat),
{
    if n < 10 {
        let mut s = "0".to_owned();
        s.append(number(n).as_str());
        s
    } else {
        number(n)
    }
}

/// A number of hundredths, with the point.
pub fn hundredths(t: u64) -> (s: String)
    ensures
        s@ == hundredths_text(t as nat),
{
    let mut s = number(t / 100);
    s.append(".");
    s.append(padded(t % 100).as_str());
    s
}

/// A size in bytes, in the largest binary unit that leaves at least one of it, to a
/// tenth.
pub open spec fn size_text(bytes: nat) -> Seq<char> {
    if bytes < 1024 {
        decimal(bytes) + "B"@
    } else if bytes < 0x10_0000 {
        tenths_text(rounded(10 * bytes, 1024)) + "KB"@
    } else if bytes < 0x4000_0000 {
        tenths_text(rounded(10 * bytes, 0x10_0000)) + "MB"@
    } else if bytes < 0x100_0000_0000 {
        tenths_text(rounded(10 * bytes, 0x4000_0000)) + "GB"@
    } else {
        tenths_text(rounded(10 * bytes, 0x100_0000_0000)) + "TB"@
    }
}

/// A size for reading.
pub fn format_size(bytes: u64) -> (s: String)
    ensures
        s@ == size_text(bytes as nat),
{
    let (unit, name): (u64, &str) = if bytes < 1024 {
        let mut s = number(bytes);
        s.append("B");
        return s;
    } else if bytes < 0x10_0000 {
        (1024, "KB")
    } else if bytes < 0x4000_0000 {
        (0x10_0000, "MB")
    } else if bytes < 0x100_0000_0000 {
        (0x4000_0000, "GB")
    } else {
        (0x100_0000_0000, "TB")
    };
    proof {
        lemma_fits(10, bytes as nat, unit as nat);
    }
    let mut s = tenths(nearest(10, bytes as u128, unit as u128));
    s.append(name);
    s
}

proof fn lemma_fits(a: nat, b: nat, c: nat)
    requires
        a * b < FIGURE_LIMIT * c,
        c > 0,
    ensures
        scaled(a, b, c) < FIGURE_LIMIT,
{
    let x = (a * b) as int;
    assert(x / (c as int) < FIGURE_LIMIT) by (nonlinear_arith)
        requires
            0 <= x < FIGURE_LIMIT * c,
            c > 0,
    ;
}

/// Bits per second, in thousands or millions where there are that many.
pub open spec fn bitrate_text(bps: nat) -> Seq<char> {
    if bps < 1000 {
        decimal(bps) + "bps"@
    } else if bps < 1_000_000 {
        decimal(rounded(bps, 1000)) + "kbps"@
    } else {
        tenths_text(rounded(10 * bps, 1_000_000)) + "Mbps"@
    }
}

/// A bitrate for reading.
pub fn format_bitrate(bps: u64) -> (s: String)
    ensures
        s@ == bitrate_text(bps as nat),
{
    if bps < 1000 {
        let mut s = number(bps);
        s.append("bps");
        s
    } else if bps < 1_000_000 {
        proof {
            lemma_fits(1, bps as nat, 1000);
        }
        let mut s = number(nearest(1, bps as u128, 1000));
        s.append("kbps");
        s
    } else {
        proof {
            lemma_fits(10, bps as nat, 1_000_000);
        }
        let mut s = tenths(nearest(10, bps as u128, 1_000_000));
        s.append("Mbps");
        s
    }
}

/// Bits per frame, in thousands or millions where there are that many. Nothing is
/// known of a file whose figure is zero.
pub open spec fn quality_text(bits: nat) -> Seq<char> {
    if bits == 0 {
        "-"@
    } else if bits < 1000 {
        decimal(bits) + "b/f"@
    } else if bits < 1_000_000 {
        tenths_text(rounded(10 * bits, 1000)) + "kb/f"@
    } else {
        tenths_text(rounded(10 * bits, 1_000_000)) + "Mb/f"@
    }
}

/// A quality for reading.
pub fn format_quality(bits: u64) -> (s: String)
    ensures
        s@ == quality_text(bits as nat),
{
    if bits == 0 {
        "-".to_owned()
    } else if bits < 1000 {
        let mut s = number(bits);
        s.append("b/f");
        s
    } else if bits < 1_000_000 {
        proof {
            lemma_fits(10, bits as nat, 1000);
        }
        let mut s = tenths(nearest(10, bits as u128, 1000));
        s.append("kb/f");
        s
    } else {
        proof {
            lemma_fits(10, bits as nat, 1_000_000);
        }
        let mut s = tenths(nearest(10, bits as u128, 1_000_000));
        s.append("Mb/f");
        s
    }
}

/// Hours, minutes and seconds.
pub open spec fn clock_text(seconds: nat) -> Seq<char> {
    two_digits(seconds / 3600) + ":"@ + two_digits(seconds % 3600 / 60) + ":"@ + two_digits(
        seconds % 60,
    )
}

/// A number of whole seconds as hours, minutes and seconds.
pub fn clock(seconds: u64) -> (s: String)
    ensures
        s@ == clock_text(seconds as nat),
{
    let mut s = padded(seconds / 3600);
    s.append(":");
    s.append(padded(seconds % 3600 / 60).as_str());
    s.append(":");
    s.append(padded(seconds % 60).as_str());
    s
}

/// The whole seconds of a length of time, as far as they fit a `u64`.
pub open spec fn whole_seconds(length: Seconds) -> nat {
    let n = length.num() / length.den();
    if n <= u64::MAX {
        n
    } else {
        u64::MAX as nat
    }
}

/// A length of time as hours, minutes and whole seconds.
pub fn format_duration(length: Seconds) -> (s: String)
    ensures
        s@ == clock_text(whole_seconds(length)),
{
    let (num, den) = length.parts();
    let whole: u128 = num / den as u128;
    clock(
        if whole <= u64::MAX as u128 {
            whole as u64
        } else {
            u64::MAX
        },
    )
}

/// Frames per second to three places, without trailing zeros.
pub open spec fn thousandths_text(t: nat) -> Seq<char> {
    if t % 1000 == 0 {
        decimal(t / 1000)
    } else if t % 100 == 0 {
        decimal(t / 1000) + "."@ + decimal(t % 1000 / 100)
    } else if t % 10 == 0 {
        decimal(t / 1000) + "."@ + two_digits(t % 1000 / 10)
    } else if t % 1000 < 100 {
        decimal(t / 1000) + ".0"@ + two_digits(t % 1000)
    } else {
        decimal(t / 1000) + "."@ + decimal(t % 1000)
    }
}

/// A number of thousandths, with the point, without trailing zeros.
pub fn thousandths(t: u64) -> (s: String)
    ensures
        s@ == thousandths_text(t as nat),
{
    let mut s = number(t / 1000);
    let part: u64 = t % 1000;
    if part == 0 {
        s
    } else if t % 100 == 0 {
        s.append(".");
        s.append(number(part / 100).as_str());
        s
    } else if t % 10 == 0 {
        s.append(".");
        s.append(padded(part / 10).as_str());
        s
    } else if part < 100 {
        s.append(".0");
        s.append(padded(part).as_str());
        s
    } else {
        s.append(".");
        s.append(number(part).as_str());
        s
    }
}

/// Whether this is a rate in thousandths of a frame per second, where it fits.
pub open spec fn is_thousandths(rate: Rate, t: nat) -> bool {
    if scaled(1000, rate.num(), rate.den()) < FIGURE_LIMIT {
        t == rounded_up(1000 * rate.num(), rate.den())
    } else {
        t >= FIGURE_LIMIT
    }
}

/// A frame rate in thousandths of a frame per second.
pub fn rate_thousandths(rate: Rate) -> (t: u64)
    ensures
        is_thousandths(rate, t as nat),
{
    let (num, den) = rate.parts();
    nearest_up(1000, num, den)
}

/// Whether this is a rate's text: a dash where nothing is known of it.
pub open spec fn is_rate_text(rate: Rate, s: Seq<char>) -> bool {
    if rate.num() == 0 {
        s == "-"@
    } else {
        exists|t: nat| #[trigger] is_thousandths(rate, t) && s == thousandths_text(t) + "fps"@
    }
}

/// A frame rate for reading.
pub fn format_frame_rate(rate: Rate) -> (s: String)
    ensures
        is_rate_text(rate, s@),
{
    let (num, _) = rate.parts();
    if num == 0 {
        return "-".to_owned();
    }
    let t = rate_thousandths(rate);
    assert(is_thousandths(rate, t as nat));
    let mut s = thousandths(t);
    s.append("fps");
    s
}

/// A codec's name, or a dash where nothing is known of it.
pub open spec fn codec_text(codec: Seq<char>) -> Seq<char> {
    if codec.len() == 0 {
        "-"@
    } else {
        codec
    }
}

/// A codec for reading.
pub fn format_codec(codec: &str) -> (s: String)
    ensures
        s@ == codec_text(codec@),
{
    let s = codec.to_owned();
    if crate::text::characters(codec).len() == 0 {
        "-".to_owned()
    } else {
        s
    }
}

/// Whether this is how long some footage is, in the given parts of a second, where
/// that fits.
pub open spec fn is_footage_parts(f: Footage, parts: nat, t: nat) -> bool {
    if scaled(f.share.part() * parts, f.runtime.num(), footage_den(f)) < FIGURE_LIMIT {
        t == rounded(parts * footage_num(f), footage_den(f))
    } else {
        t >= FIGURE_LIMIT
    }
}

/// How long some footage is, in the given parts of a second.
pub fn footage_parts(f: Footage, parts: u64) -> (t: u64)
    requires
        parts <= 1000,
    ensures
        is_footage_parts(f, parts as nat, t as nat),
{
    let (part, whole) = f.share.parts();
    let (num, den) = f.runtime.parts();
    let ghost p = part as nat;
    assert(part * parts <= 0xffff_ffff * 1000) by (nonlinear_arith)
        requires
            part <= 0xffff_ffff,
            parts <= 1000,
    ;
    assert(0 < whole * den <= 0xffff_ffff * 0xffff_ffff) by (nonlinear_arith)
        requires
            0 < whole <= 0xffff_ffff,
            0 < den <= 0xffff_ffff,
    ;
    assert((part * parts) * num == parts * (part * num)) by (nonlinear_arith);
    nearest(part as u64 * parts, num, whole as u128 * den as u128)
}

/// Whether this is how much footage is shared, for reading: a dash where nothing is
/// known of it.
pub open spec fn is_shared_text(f: Option<Footage>, s: Seq<char>) -> bool {
    match f {
        None => s == "-"@,
        Some(f) => exists|t: nat| #[trigger]
            is_footage_parts(f, 10, t) && s == tenths_text(t) + "s"@,
    }
}

/// How much footage is shared, for reading.
pub fn format_shared(f: Option<Footage>) -> (s: String)
    ensures
        is_shared_text(f, s@),
{
    match f {
        None => "-".to_owned(),
        Some(f) => {
            let t = footage_parts(f, 10);
            assert(is_footage_parts(f, 10, t as nat));
            let mut s = tenths(t);
            s.append("s");
            s
        },
    }
}

/// Whether this is how long some footage is, in seconds to two places: empty where
/// nothing is known of it.
pub open spec fn is_seconds_text(f: Option<Footage>, s: Seq<char>) -> bool {
    match f {
        None => s.len() == 0,
        Some(f) => exists|t: nat| #[trigger]
            is_footage_parts(f, 100, t) && s == hundredths_text(t),
    }
}

/// A length of footage in seconds, or nothing when it was never measured.
pub fn csv_seconds(f: Option<Footage>) -> (s: String)
    ensures
        is_seconds_text(f, s@),
{
    match f {
        None => String::new(),
        Some(f) => {
            let t = footage_parts(f, 100);
            assert(is_footage_parts(f, 100, t as nat));
            hundredths(t)
        },
    }
}

} // verus!
