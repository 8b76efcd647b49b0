//! Fixed-width `HH:MM:SS,mmm` timestamps from millisecond counts, as the
//! SubRip format wants them.

use vstd::prelude::*;
use vstd::string::StrSliceExecFns;
use vstd::string::StringExecFns;
use vstd::arithmetic::div_mod::lemma_div_is_strictly_smaller;
use vstd::arithmetic::div_mod::lemma_fundamental_div_mod;
use vstd::arithmetic::div_mod::lemma_fundamental_div_mod_converse;

verus! {

/// The decimal digit `d` as a character.
pub open spec fn digit_char(d: nat) -> char {
    if d == 0 {
        '0'
    } else if d == 1 {
        '1'
    } else if d == 2 {
        '2'
    } else if d == 3 {
        '3'
    } else if d == 4 {
        '4'
    } else if d == 5 {
        '5'
    } else if d == 6 {
        '6'
    } else if d == 7 {
        '7'
    } else if d == 8 {
        '8'
    } else {
        '9'
    }
}

/// Decimal representation of `n`: most significant digit first, no leading
/// zeros (a single `'0'` for zero).
pub open spec fn dec_rep(n: nat) -> Seq<char>
    decreases n,
{
    if n < 10 {
        seq![digit_char(n)]
    } else {
        dec_rep(n / 10) + seq![digit_char(n % 10)]
    }
}

fn digit_str(d: u64) -> (r: &'static str)
    requires
        d < 10,
    ensures
        r@ == seq![digit_char(d as nat)],
{
    let r: &'static str = if d == 0 {
        "0"
    } else if d == 1 {
        "1"
    } else if d == 2 {
        "2"
    } else if d == 3 {
        "3"
    } else if d == 4 {
        "4"
    } else if d == 5 {
        "5"
    } else if d == 6 {
        "6"
    } else if d == 7 {
        "7"
    } else if d == 8 {
        "8"
    } else {
        "9"
    };
    proof {
        reveal_strlit("0");
        reveal_strlit("1");
        reveal_strlit("2");
        reveal_strlit("3");
        reveal_strlit("4");
        reveal_strlit("5");
        reveal_strlit("6");
        reveal_strlit("7");
        reveal_strlit("8");
        reveal_strlit("9");
        assert(r@ =~= seq![digit_char(d as nat)]);
    }
    r
}

/// `n` written in decimal.
pub fn dec_string(n: u64) -> (r: String)
    ensures
        r@ == dec_rep(n as nat),
    decreases n,
{
    if n < 10 {
        String::from_str(digit_str(n))
    } else {
        proof {
            lemma_div_is_strictly_smaller(n as int, 10);
        }
        let mut s = dec_string(n / 10);
        s.append(digit_str(n % 10));
        s
    }
}

/// Decimal representation of `n` zero-padded on the left to at least two
/// digits, as `{:02}` formatting gives it.
pub open spec fn padded2(n: nat) -> Seq<char> {
    if n < 10 {
        seq!['0'] + dec_rep(n)
    } else {
        dec_rep(n)
    }
}

/// Decimal representation of `n` zero-padded on the left to at least three
/// digits, as `{:03}` formatting gives it.
pub open spec fn padded3(n: nat) -> Seq<char> {
    if n < 10 {
        seq!['0', '0'] + dec_rep(n)
    } else if n < 100 {
        seq!['0'] + dec_rep(n)
    } else {
        dec_rep(n)
    }
}

fn pad2_string(n: u64) -> (r: String)
    ensures
        r@ == padded2(n as nat),
{
    if n < 10 {
        let mut s = String::from_str("0");
        s.append(digit_str(n));
        proof {
            reveal_strlit("0");
            assert(s@ =~= padded2(n as nat));
        }
        s
    } else {
        dec_string(n)
    }
}

fn pad3_string(n: u64) -> (r: String)
    ensures
        r@ == padded3(n as nat),
{
    if n < 10 {
        let mut s = String::from_str("00");
        s.append(digit_str(n));
        proof {
            reveal_strlit("00");
            assert(s@ =~= padded3(n as nat));
        }
        s
    } else if n < 100 {
        let mut s = String::from_str("0");
        let rest = dec_string(n);
        s.append(rest.as_str());
        proof {
            reveal_strlit("0");
            assert(s@ =~= padded3(n as nat));
        }
        s
    } else {
        dec_string(n)
    }
}

/// Whole hours in `ms` milliseconds (unbounded: a duration past 99 hours
/// simply widens the hour field).
pub open spec fn spec_hours(ms: nat) -> nat {
    ms / 3600000
}

/// Minutes within the hour.
pub open spec fn spec_minutes(ms: nat) -> nat {
    (ms / 60000) % 60
}

/// Seconds within the minute.
pub open spec fn spec_seconds(ms: nat) -> nat {
    (ms / 1000) % 60
}

/// Milliseconds within the second.
pub open spec fn spec_millis(ms: nat) -> nat {
    ms % 1000
}

/// The timestamp `HH:MM:SS,mmm` for a duration of `ms` milliseconds.
pub open spec fn spec_format_time(ms: nat) -> Seq<char> {
    padded2(spec_hours(ms)) + ":"@ + padded2(spec_minutes(ms)) + ":"@ + padded2(spec_seconds(ms))
        + ","@ + padded3(spec_millis(ms))
}

/// The timestamp fields recombine to the duration they were computed from:
/// hours, minutes, seconds and milliseconds as `spec_format_time` renders
/// them always satisfy `HH * 3600000 + MM * 60000 + SS * 1000 + mmm == ms`,
/// so a timestamp read back field by field recovers the millisecond count
/// exactly, with any excess beyond 99 hours carried by the hour field.
pub proof fn lemma_time_components_round_trip(ms: nat)
    ensures
        spec_hours(ms) * 3600000 + spec_minutes(ms) * 60000 + spec_seconds(ms) * 1000 + spec_millis(
            ms,
        ) == ms,
        spec_minutes(ms) < 60,
        spec_seconds(ms) < 60,
        spec_millis(ms) < 1000,
{
    let x = ms as int;
    let h = x / 3600000;
    let r1 = x % 3600000;
    lemma_fundamental_div_mod(x, 3600000);
    lemma_fundamental_div_mod(r1, 60000);
    let m = r1 / 60000;
    let r2 = r1 % 60000;
    assert(m < 60) by (nonlinear_arith)
        requires
            r1 < 3600000,
            m == r1 / 60000,
            r1 >= 0,
    ;
    assert(x == 60000 * (60 * h + m) + r2) by (nonlinear_arith)
        requires
            x == 3600000 * h + r1,
            r1 == 60000 * m + r2,
    ;
    lemma_fundamental_div_mod_converse(x, 60000, 60 * h + m, r2);
    lemma_fundamental_div_mod_converse(x / 60000, 60, h, m);
    lemma_fundamental_div_mod(r2, 1000);
    let s = r2 / 1000;
    let r3 = r2 % 1000;
    assert(s < 60) by (nonlinear_arith)
        requires
            r2 < 60000,
            s == r2 / 1000,
            r2 >= 0,
    ;
    assert(x == 1000 * (60 * (60 * h + m) + s) + r3) by (nonlinear_arith)
        requires
            x == 60000 * (60 * h + m) + r2,
            r2 == 1000 * s + r3,
    ;
    lemma_fundamental_div_mod_converse(x, 1000, 60 * (60 * h + m) + s, r3);
    lemma_fundamental_div_mod_converse(x / 1000, 60, 60 * h + m, s);
    assert(h * 3600000 + m * 60000 + s * 1000 + r3 == x) by (nonlinear_arith)
        requires
            x == 3600000 * h + r1,
            r1 == 60000 * m + r2,
            r2 == 1000 * s + r3,
    ;
}

proof fn lemma_dec_rep_len_small(n: nat)
    requires
        n < 100,
    ensures
        dec_rep(n).len() == if n < 10 {
            1int
        } else {
            2int
        },
{
    if n >= 10 {
        assert(dec_rep(n / 10).len() == 1);
    }
}

proof fn lemma_padded2_len(n: nat)
    requires
        n < 100,
    ensures
        padded2(n).len() == 2,
{
    lemma_dec_rep_len_small(n);
}

proof fn lemma_padded3_len(n: nat)
    requires
        n < 1000,
    ensures
        padded3(n).len() == 3,
{
    if n < 100 {
        lemma_dec_rep_len_small(n);
    } else {
        assert(dec_rep(n / 10 / 10).len() == 1) by {
            assert(n / 10 / 10 < 10) by (nonlinear_arith)
                requires
                    n < 1000,
            ;
        }
        assert(dec_rep(n / 10).len() == 2);
    }
}

/// Below 100 hours the timestamp is fixed-width: twelve characters shaped
/// `HH:MM:SS,mmm`, with the separators at their conventional places.
pub proof fn lemma_format_time_fixed_width(ms: nat)
    requires
        ms < 360000000,
    ensures
        spec_format_time(ms).len() == 12,
        spec_format_time(ms)[2] == ':',
        spec_format_time(ms)[5] == ':',
        spec_format_time(ms)[8] == ',',
{
    reveal_strlit(":");
    reveal_strlit(",");
    assert(spec_hours(ms) < 100) by (nonlinear_arith)
        requires
            ms < 360000000,
            spec_hours(ms) == ms / 3600000,
            ms >= 0,
    ;
    lemma_padded2_len(spec_hours(ms));
    lemma_padded2_len(spec_minutes(ms));
    lemma_padded2_len(spec_seconds(ms));
    lemma_padded3_len(spec_millis(ms));
    assert(":"@[0] == ':');
    assert(","@[0] == ',');
}

/// Renders a duration of `ms` milliseconds as an SRT timestamp: zero-padded
/// hours, minutes and seconds separated by `:`, then a comma and zero-padded
/// milliseconds.
pub fn format_time(ms: u64) -> (r: String)
    ensures
        r@ == spec_format_time(ms as nat),
{
    let hours: u64 = ms / 3600000;
    let minutes: u64 = (ms / 60000) % 60;
    let seconds: u64 = (ms / 1000) % 60;
    let millis: u64 = ms % 1000;
    let mut r = pad2_string(hours);
    r.append(":");
    let m = pad2_string(minutes);
    r.append(m.as_str());
    r.append(":");
    let s = pad2_string(seconds);
    r.append(s.as_str());
    r.append(",");
    let mm = pad3_string(millis);
    r.append(mm.as_str());
    proof {
        assert(r@ =~= spec_format_time(ms as nat));
    }
    r
}

} // verus!
