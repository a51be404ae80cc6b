use vstd::prelude::*;
use vstd::string::*;
use crate::text::{decimal, digit_char, push_decimal, digit_text};

verus! {

/// Seconds from `timestamp` to `now`, or 0 when `timestamp` is later.
pub open spec fn elapsed_since(now: nat, timestamp: nat) -> nat {
    if now >= timestamp {
        (now - timestamp) as nat
    } else {
        0
    }
}

/// The short relative text for `elapsed` seconds: under a minute "just
/// now", then whole minutes, hours or days, e.g. "12m ago".
pub open spec fn relative_text(elapsed: nat) -> Seq<char> {
    if elapsed < 60 {
        "just now"@
    } else if elapsed < 3600 {
        decimal(elapsed / 60) + "m ago"@
    } else if elapsed < 86400 {
        decimal(elapsed / 3600) + "h ago"@
    } else {
        decimal(elapsed / 86400) + "d ago"@
    }
}

/// Current time as a Unix timestamp (seconds), or 0 if the clock is somehow
/// set before the epoch.
///
/// Reads the system clock (`SystemTime::now`, then `duration_since` the Unix
/// epoch in whole seconds); nothing is claimed of the value it returns.
#[verifier::external_body]
pub fn now_unix() -> u64 {
    std::time::SystemTime::now().duration_since(std::time::UNIX_EPOCH).map(|d| d.as_secs()).unwrap_or(
        0,
    )
}

/// Formats the time from `timestamp` to `now` as a short relative string.
pub fn relative_time_text(now: u64, timestamp: u64) -> (r: String)
    ensures
        r@ == relative_text(elapsed_since(now as nat, timestamp as nat)),
{
    let elapsed = now.saturating_sub(timestamp);
    proof {
        reveal_strlit("just now");
        reveal_strlit("m ago");
        reveal_strlit("h ago");
        reveal_strlit("d ago");
        assert(elapsed == elapsed_since(now as nat, timestamp as nat));
    }
    let mut out = String::new();
    if elapsed < 60 {
        out.append("just now");
    } else if elapsed < 3600 {
        push_decimal(&mut out, elapsed / 60);
        out.append("m ago");
    } else if elapsed < 86400 {
        push_decimal(&mut out, elapsed / 3600);
        out.append("h ago");
    } else {
        push_decimal(&mut out, elapsed / 86400);
        out.append("d ago");
    }
    proof {
        assert(out@ =~= relative_text(elapsed as nat));
    }
    out
}

/// Formats a Unix timestamp as a short relative string, e.g. `"12m ago"`,
/// measured from the current time.
pub fn format_relative_time(timestamp: u64) -> (r: String)
    ensures
        exists|now: u64| r@ == relative_text(elapsed_since(now as nat, timestamp as nat)),
{
    let now = now_unix();
    relative_time_text(now, timestamp)
}

pub open spec fn two_pow_53() -> nat {
    9007199254740992
}

/// How many times `b` is halved before it drops below 2^53.
pub open spec fn halvings(b: nat) -> nat
    decreases b,
{
    if b < two_pow_53() {
        0
    } else {
        1 + halvings(b / 2)
    }
}

pub open spec fn pow2n(e: nat) -> nat
    decreases e,
{
    if e == 0 {
        1
    } else {
        2 * pow2n((e - 1) as nat)
    }
}

proof fn lemma_pow2n_monotone(a: nat, b: nat)
    requires
        a <= b,
    ensures
        pow2n(a) <= pow2n(b),
        pow2n(a) >= 1,
    decreases b,
{
    if b > a {
        lemma_pow2n_monotone(a, (b - 1) as nat);
    } else if a > 0 {
        lemma_pow2n_monotone((a - 1) as nat, (a - 1) as nat);
    }
}

/// `n / d` rounded to the nearest integer, ties to the even one.
pub open spec fn round_half_even(n: nat, d: nat) -> nat {
    let q = n / d;
    let r = n % d;
    if 2 * r > d || (2 * r == d && q % 2 == 1) {
        q + 1
    } else {
        q
    }
}

/// The value of `b as f64`: `b` rounded to 53 significant bits, ties to even.
pub open spec fn f64_value(b: nat) -> nat {
    let d = pow2n(halvings(b));
    round_half_even(b, d) * d
}

/// Index into B, KB, MB, GB, TB, PB of the unit a value is shown in: the
/// largest whose scale it reaches.
pub open spec fn unit_index(v: nat) -> nat {
    if v >= 1125899906842624 {
        5
    } else if v >= 1099511627776 {
        4
    } else if v >= 1073741824 {
        3
    } else if v >= 1048576 {
        2
    } else if v >= 1024 {
        1
    } else {
        0
    }
}

pub open spec fn unit_scale(u: nat) -> nat {
    if u == 5 {
        1125899906842624
    } else if u == 4 {
        1099511627776
    } else if u == 3 {
        1073741824
    } else if u == 2 {
        1048576
    } else if u == 1 {
        1024
    } else {
        1
    }
}

pub open spec fn unit_name(u: nat) -> Seq<char> {
    if u == 5 {
        "PB"@
    } else if u == 4 {
        "TB"@
    } else if u == 3 {
        "GB"@
    } else if u == 2 {
        "MB"@
    } else if u == 1 {
        "KB"@
    } else {
        "B"@
    }
}

/// The human-readable size text: a byte count below 1 KB is shown whole
/// ("512 B"); anything larger is divided by the largest unit it reaches
/// (up to PB) and shown with one decimal, rounded half to even
/// ("1.5 KB"). The division works on the count as it converts to `f64`.
pub open spec fn human_size_text(bytes: nat) -> Seq<char> {
    let v = f64_value(bytes);
    let u = unit_index(v);
    if u == 0 {
        decimal(bytes) + " B"@
    } else {
        let t = round_half_even(10 * v, unit_scale(u));
        decimal(t / 10) + "."@ + seq![digit_char((t % 10) as int)] + " "@ + unit_name(u)
    }
}

/// `n / d` rounded to the nearest integer, ties to even.
fn round_div(n: u128, d: u128) -> (r: u128)
    requires
        d > 0,
        d <= 0x1_0000_0000_0000_0000,
        n < 0x1_0000_0000_0000_0000_0000,
    ensures
        r == round_half_even(n as nat, d as nat),
{
    let q = n / d;
    let rem = n % d;
    proof {
        assert(q <= n) by (nonlinear_arith)
            requires
                d > 0,
                q == n / d,
        ;
    }
    if 2 * rem > d || (2 * rem == d && q % 2 == 1) {
        q + 1
    } else {
        q
    }
}

/// The value `bytes as f64` takes, as an exact integer.
fn f64_magnitude(bytes: u64) -> (v: u128)
    ensures
        v == f64_value(bytes as nat),
        v <= 0x1_0000_0000_0000_0000,
{
    let mut x: u64 = bytes;
    let mut d: u64 = 1;
    let ghost mut s: nat = 0;
    while x >= 9007199254740992
        invariant
            d >= 1,
            s <= 11,
            d <= 2048,
            x == bytes as nat / d as nat,
            d == pow2n(s),
            halvings(bytes as nat) == s + halvings(x as nat),
        decreases x,
    {
        proof {
            vstd::arithmetic::div_mod::lemma_div_denominator(bytes as int, d as int, 2);
            vstd::arithmetic::div_mod::lemma_fundamental_div_mod(bytes as int, d as int);
            assert(d * 9007199254740992 <= d * x) by (nonlinear_arith)
                requires
                    x >= 9007199254740992,
            ;
            assert(d * x <= bytes) by (nonlinear_arith)
                requires
                    bytes as int == d * x + bytes as int % d as int,
                    bytes as int % d as int >= 0,
            ;
            if s >= 11 {
                lemma_pow2n_monotone(11, s);
                assert(pow2n(11) == 2048) by { reveal_with_fuel(pow2n, 12); }
                assert(false) by (nonlinear_arith)
                    requires
                        d >= 2048,
                        d * 9007199254740992 <= bytes,
                        bytes < 0x1_0000_0000_0000_0000,
                ;
            }
            lemma_pow2n_monotone(s + 1, 11);
            assert(pow2n(11) == 2048) by { reveal_with_fuel(pow2n, 12); }
        }
        x = x / 2;
        d = d * 2;
        proof {
            s = s + 1;
        }
    }
    proof {
        vstd::arithmetic::div_mod::lemma_fundamental_div_mod(bytes as int, d as int);
        assert(d * x <= bytes) by (nonlinear_arith)
            requires
                bytes as int == d * x + bytes as int % d as int,
                bytes as int % d as int >= 0,
        ;
    }
    let rem = bytes - x * d;
    proof {
        assert(rem == bytes as nat % d as nat);
    }
    let q = if 2 * (rem as u128) > d as u128 || (2 * (rem as u128) == d as u128 && x % 2 == 1) {
        x as u128 + 1
    } else {
        x as u128
    };
    proof {
        assert(q == round_half_even(bytes as nat, d as nat));
        assert(q * d <= 0x1_0000_0000_0000_0000) by (nonlinear_arith)
            requires
                q <= x + 1,
                d * x <= bytes,
                bytes < 0x1_0000_0000_0000_0000,
                x < 9007199254740992,
                d <= 2048,
                d >= 1,
                rem < d,
                bytes == d * x + rem,
                q == x + 1 ==> 2 * rem >= d,
        ;
    }
    q * (d as u128)
}

/// Formats a byte count as a human-readable string, e.g. `4.2 GB`.
pub fn human_size(bytes: u64) -> (r: String)
    ensures
        r@ == human_size_text(bytes as nat),
{
    let v = f64_magnitude(bytes);
    let u: u64 = if v >= 1125899906842624 {
        5
    } else if v >= 1099511627776 {
        4
    } else if v >= 1073741824 {
        3
    } else if v >= 1048576 {
        2
    } else if v >= 1024 {
        1
    } else {
        0
    };
    proof {
        reveal_strlit(" B");
        reveal_strlit(".");
        reveal_strlit(" ");
        reveal_strlit("B");
        reveal_strlit("KB");
        reveal_strlit("MB");
        reveal_strlit("GB");
        reveal_strlit("TB");
        reveal_strlit("PB");
        assert(u == unit_index(v as nat));
    }
    let mut out = String::new();
    if u == 0 {
        push_decimal(&mut out, bytes);
        out.append(" B");
        proof {
            assert(out@ =~= human_size_text(bytes as nat));
        }
        return out;
    }
    let scale: u128 = if u == 5 {
        1125899906842624
    } else if u == 4 {
        1099511627776
    } else if u == 3 {
        1073741824
    } else if u == 2 {
        1048576
    } else {
        1024
    };
    let t = round_div(10 * v, scale);
    proof {
        assert((10 * v as int) / (scale as int) <= 10 * v as int / 1024) by (nonlinear_arith)
            requires
                scale >= 1024,
                v >= 0,
        ;
        assert(t <= 10 * v) by (nonlinear_arith)
            requires
                t <= (10 * v as int) / (scale as int) + 1,
                (10 * v as int) / (scale as int) <= 10 * v as int / 1024,
                v >= 1024,
        ;
        assert(t / 10 <= v);
    }
    let whole = (t / 10) as u64;
    let frac = (t % 10) as u64;
    push_decimal(&mut out, whole);
    out.append(".");
    out.append(digit_text(frac));
    out.append(" ");
    let name = if u == 5 {
        "PB"
    } else if u == 4 {
        "TB"
    } else if u == 3 {
        "GB"
    } else if u == 2 {
        "MB"
    } else {
        "KB"
    };
    out.append(name);
    proof {
        assert(unit_scale(u as nat) == scale);
        assert(out@ =~= human_size_text(bytes as nat));
    }
    out
}

} // verus!
