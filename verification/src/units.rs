//! Human-readable quantities, one style everywhere: `512 B`, `8.0 KiB`, `1.3 GiB`. Every display
//! formats through here, so the program never shows the same number two ways.
//!
//! Byte counts are shown with one decimal. The number shown is the count as a double-precision
//! number (fifty-three significant bits) divided by the unit, rounded to the nearest tenth, ties to
//! even.
use vstd::prelude::*;

use crate::text::{dec, push_dec};

verus! {

pub const KIB: u128 = 1024;

pub const MIB: u128 = 1048576;

pub const GIB: u128 = 1073741824;

pub const TIB: u128 = 1099511627776;

pub const PIB: u128 = 1125899906842624;

/// Two to the fifty-third: up to here every whole number is a double.
pub const EXACT: u64 = 9007199254740992;

/// `a / b`, rounded to the nearest whole number, ties to even.
pub open spec fn rounded(a: nat, b: nat) -> nat {
    let (q, r) = (a / b, a % b);
    if 2 * r > b || (2 * r == b && q % 2 == 1) {
        q + 1
    } else {
        q
    }
}

/// The distance of neighbouring doubles around `n`.
pub open spec fn spacing(n: nat) -> nat
    decreases n,
{
    if n < EXACT {
        1
    } else {
        2 * spacing(n / 2)
    }
}

/// The double closest to `n`.
pub open spec fn as_double(n: nat) -> nat {
    rounded(n, spacing(n)) * spacing(n)
}

/// `v / unit` with one decimal.
pub open spec fn tenths_text(v: nat, unit: nat) -> Seq<char> {
    let t = rounded(v * 10, unit);
    dec(t / 10) + "."@ + dec(t % 10)
}

/// `n` bytes as shown.
pub open spec fn bytes_text(n: nat) -> Seq<char> {
    let v = as_double(n);
    if n < KIB {
        dec(n) + " B"@
    } else if v < MIB {
        tenths_text(v, KIB as nat) + " KiB"@
    } else if v < GIB {
        tenths_text(v, MIB as nat) + " MiB"@
    } else if v < TIB {
        tenths_text(v, GIB as nat) + " GiB"@
    } else if v < PIB {
        tenths_text(v, TIB as nat) + " TiB"@
    } else {
        tenths_text(v, PIB as nat) + " PiB"@
    }
}

/// A byte difference as shown, with its sign.
pub open spec fn signed_bytes_text(n: int) -> Seq<char> {
    if n < 0 {
        "-"@ + bytes_text((-n) as nat)
    } else {
        "+"@ + bytes_text(n as nat)
    }
}

/// Elapsed seconds as shown.
pub open spec fn elapsed_text(s: nat) -> Seq<char> {
    if s >= 3600 {
        dec(s / 3600) + "h"@ + dec((s % 3600) / 60) + "m"@
    } else if s >= 60 {
        dec(s / 60) + "m"@ + dec(s % 60) + "s"@
    } else {
        dec(s) + "s"@
    }
}

fn round_div(a: u128, b: u128) -> (r: u128)
    requires
        0 < b <= u64::MAX,
        a <= u64::MAX * 100,
    ensures
        r == rounded(a as nat, b as nat),
        r <= a / b + 1,
{
    let q: u128 = a / b;
    let r: u128 = a % b;
    assert(q <= a) by (nonlinear_arith)
        requires
            q == a / b,
            b > 0,
    ;
    assert(r < b) by (nonlinear_arith)
        requires
            r == a % b,
            b > 0,
    ;
    if 2 * r > b || (2 * r == b && q % 2 == 1) {
        q + 1
    } else {
        q
    }
}

fn spacing_of(n: u64) -> (r: u64)
    ensures
        r == spacing(n as nat),
        r == 1 || r * 4503599627370496 <= n,
        r >= 1,
    decreases n,
{
    if n < EXACT {
        1
    } else {
        let half: u64 = spacing_of(n / 2);
        2 * half
    }
}

/// The double closest to `n`, as a whole number.
pub fn double_of(n: u64) -> (r: u128)
    ensures
        r == as_double(n as nat),
        r <= n + 4096,
{
    let unit: u128 = spacing_of(n) as u128;
    assert(unit <= 4096);
    let q: u128 = round_div(n as u128, unit);
    assert(q * unit <= n + unit) by (nonlinear_arith)
        requires
            q <= n as u128 / unit + 1,
            unit > 0,
    ;
    q * unit
}

/// Appends `v / unit` with one decimal.
pub fn push_tenths(out: &mut String, v: u128, unit: u128)
    requires
        0 < unit <= u64::MAX,
        v <= u64::MAX + 4096,
        v * 10 / unit as int <= u64::MAX - 1,
    ensures
        final(out)@ == old(out)@ + tenths_text(v as nat, unit as nat),
{
    let ghost start = out@;
    let t: u128 = round_div(v * 10, unit);
    push_dec(out, (t / 10) as u64);
    out.append(".");
    push_dec(out, (t % 10) as u64);
    assert(out@ =~= start + tenths_text(v as nat, unit as nat));
}

fn push_scaled(out: &mut String, v: u128, unit: u128, name: &str)
    requires
        KIB <= unit <= u64::MAX,
        v <= u64::MAX + 4096,
    ensures
        final(out)@ == old(out)@ + (tenths_text(v as nat, unit as nat) + name@),
{
    let ghost start = out@;
    assert(v * 10 / unit as int <= u64::MAX - 1) by (nonlinear_arith)
        requires
            v <= u64::MAX + 4096,
            unit >= 1024,
    ;
    push_tenths(out, v, unit);
    out.append(name);
    assert(out@ =~= start + (tenths_text(v as nat, unit as nat) + name@));
}

/// Appends `n` bytes as shown.
pub fn push_bytes(out: &mut String, n: u64)
    ensures
        final(out)@ == old(out)@ + bytes_text(n as nat),
{
    let ghost start = out@;
    if (n as u128) < KIB {
        push_dec(out, n);
        out.append(" B");
        assert(out@ =~= start + bytes_text(n as nat));
        return;
    }
    let v: u128 = double_of(n);
    if v < MIB {
        push_scaled(out, v, KIB, " KiB");
    } else if v < GIB {
        push_scaled(out, v, MIB, " MiB");
    } else if v < TIB {
        push_scaled(out, v, GIB, " GiB");
    } else if v < PIB {
        push_scaled(out, v, TIB, " TiB");
    } else {
        push_scaled(out, v, PIB, " PiB");
    }
}

/// Bytes as `512 B` / `8.0 KiB` / `5.0 MiB` … (binary units, one decimal above bytes).
pub fn human_bytes(n: u64) -> (r: String)
    ensures
        r@ == bytes_text(n as nat),
{
    let mut s = String::new();
    push_bytes(&mut s, n);
    assert(s@ =~= bytes_text(n as nat));
    s
}

/// Signed byte delta: `+4.0 MiB` / `-8.3 GiB` (for net-change tables).
pub fn signed_bytes(n: i64) -> (r: String)
    ensures
        r@ == signed_bytes_text(n as int),
{
    if n < 0 {
        let mut s = String::from_str("-");
        let m: u64 = (-(n as i128)) as u64;
        push_bytes(&mut s, m);
        s
    } else {
        let mut s = String::from_str("+");
        push_bytes(&mut s, n as u64);
        s
    }
}

/// Elapsed seconds as `45s` / `2m5s` / `1h1m`.
pub fn human_elapsed(s: u64) -> (r: String)
    ensures
        r@ == elapsed_text(s as nat),
{
    let mut t = String::new();
    if s >= 3600 {
        push_dec(&mut t, s / 3600);
        t.append("h");
        push_dec(&mut t, (s % 3600) / 60);
        t.append("m");
    } else if s >= 60 {
        push_dec(&mut t, s / 60);
        t.append("m");
        push_dec(&mut t, s % 60);
        t.append("s");
    } else {
        push_dec(&mut t, s);
        t.append("s");
    }
    assert(t@ =~= elapsed_text(s as nat));
    t
}

// ── laws ─────────────────────────────────────────────────────────────────────

/// Rounding goes to a nearest whole number, and to the even one where two are equally near.
pub proof fn rounding_goes_to_the_nearest(a: nat, b: nat)
    requires
        b > 0,
    ensures
        2 * a <= (2 * rounded(a, b) + 1) * b,
        2 * a >= (2 * rounded(a, b) - 1) * b,
        2 * a == (2 * rounded(a, b) + 1) * b || 2 * a == (2 * rounded(a, b) - 1) * b ==> rounded(a, b) % 2 == 0,
{
    let (q, r) = (a / b, a % b);
    assert(a == q * b + r && 0 <= r < b) by (nonlinear_arith)
        requires
            q == a / b,
            r == a % b,
            b > 0,
    ;
    assert((2 * q + 1) * b == 2 * (q * b) + b) by (nonlinear_arith);
    assert((2 * q - 1) * b == 2 * (q * b) - b) by (nonlinear_arith);
    assert((2 * (q + 1) + 1) * b == 2 * (q * b) + 3 * b) by (nonlinear_arith);
    assert((2 * (q + 1) - 1) * b == 2 * (q * b) + b) by (nonlinear_arith);
}

/// Numbers up to 2 to the 53rd are doubles. Above that the distance of doubles is such that 53 bits tell
/// them apart.
pub proof fn doubles_have_53_bits(n: nat)
    ensures
        n < 9007199254740992 ==> spacing(n) == 1 && as_double(n) == n,
        n >= 9007199254740992 ==> 4503599627370496 * spacing(n) <= n < 9007199254740992 * spacing(n),
    decreases n,
{
    if n >= 9007199254740992 {
        doubles_have_53_bits(n / 2);
    } else {
        assert(n / 1 == n && n % 1 == 0);
    }
}

/// A size is shown in the largest unit of which it has at least one.
pub proof fn a_size_is_shown_in_its_unit(n: nat)
    ensures
        n < 1024 ==> bytes_text(n) == dec(n) + " B"@,
        1024 <= n < 1048576 ==> bytes_text(n) == tenths_text(n, 1024) + " KiB"@,
        1048576 <= n < 1073741824 ==> bytes_text(n) == tenths_text(n, 1048576) + " MiB"@,
        1073741824 <= n < 1099511627776 ==> bytes_text(n) == tenths_text(n, 1073741824) + " GiB"@,
        1099511627776 <= n < 1125899906842624 ==> bytes_text(n) == tenths_text(n, 1099511627776) + " TiB"@,
        1125899906842624 <= n < 9007199254740992 ==> bytes_text(n) == tenths_text(n, 1125899906842624) + " PiB"@,
{
    doubles_have_53_bits(n);
}

/// A size with one decimal is the nearest tenth of its unit.
pub proof fn a_tenth_is_the_nearest(v: nat, unit: nat)
    requires
        unit > 0,
    ensures
        exists|whole: nat, tenth: nat|
            tenth < 10 && tenths_text(v, unit) == #[trigger] dec(whole) + "."@ + #[trigger] dec(tenth) && 20 * v <= (2 * (10
                * whole + tenth) + 1) * unit && 20 * v >= (2 * (10 * whole + tenth) - 1) * unit,
{
    let t = rounded(v * 10, unit);
    rounding_goes_to_the_nearest(v * 10, unit);
    let (whole, tenth) = (t / 10, t % 10);
    assert(10 * whole + tenth == t);
    assert(2 * (v * 10) == 20 * v);
    assert(tenths_text(v, unit) == dec(whole) + "."@ + dec(tenth));
}

/// A difference is shown as its amount, with the sign that tells a gain from a loss.
pub proof fn a_difference_shows_its_sign(n: nat)
    ensures
        signed_bytes_text(n as int) == "+"@ + bytes_text(n),
        n > 0 ==> signed_bytes_text(-(n as int)) == "-"@ + bytes_text(n),
{
}

/// Hours, minutes and seconds are shown as they are; seconds are left out beside hours.
pub proof fn an_elapsed_time_is_split(h: nat, m: nat, s: nat)
    requires
        m < 60,
        s < 60,
    ensures
        h > 0 ==> elapsed_text(3600 * h + 60 * m + s) == dec(h) + "h"@ + dec(m) + "m"@,
        h == 0 && m > 0 ==> elapsed_text(60 * m + s) == dec(m) + "m"@ + dec(s) + "s"@,
        h == 0 && m == 0 ==> elapsed_text(s) == dec(s) + "s"@,
{
    let t = 3600 * h + 60 * m + s;
    assert(t / 3600 == h && t % 3600 == 60 * m + s);
    assert((60 * m + s) / 60 == m && (60 * m + s) % 60 == s);
}

} // verus!
