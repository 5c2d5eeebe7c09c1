//! Formatting of elapsed wall-clock time.
//!
//! Durations are measured in whole milliseconds.  Below one minute the
//! formatter prints seconds with two decimals; below one hour, whole minutes
//! and rounded seconds; above, whole hours and rounded minutes.

use vstd::prelude::*;

verus! {

pub const MILLIS_PER_SEC: u64 = 1000;
pub const MILLIS_PER_MIN: u64 = 60000;
pub const MILLIS_PER_HOUR: u64 = 3600000;

/// The decimal digit character for a value below ten.
pub open spec fn spec_digit(n: nat) -> char {
    if n == 0 {
        '0'
    } else if n == 1 {
        '1'
    } else if n == 2 {
        '2'
    } else if n == 3 {
        '3'
    } else if n == 4 {
        '4'
    } else if n == 5 {
        '5'
    } else if n == 6 {
        '6'
    } else if n == 7 {
        '7'
    } else if n == 8 {
        '8'
    } else {
        '9'
    }
}

/// The usual decimal rendering of a natural number: no sign, no leading
/// zeros (except for zero itself).
pub open spec fn dec_str(n: nat) -> Seq<char>
    decreases n,
{
    if n < 10 {
        seq![spec_digit(n)]
    } else {
        dec_str(n / 10).push(spec_digit(n % 10))
    }
}

/// What `format_duration` returns for a duration of `ms` milliseconds:
/// over an hour `"<h>h <m>m"` with minutes rounded to the nearest whole
/// minute; from one minute up `"<m>m <s>s"` with seconds rounded likewise;
/// below one minute `"<s>.<cc>s"` with centiseconds rounded to the nearest.
pub open spec fn spec_format_duration(ms: u64) -> Seq<char> {
    if ms > MILLIS_PER_HOUR {
        let h = (ms as int / MILLIS_PER_HOUR as int) as nat;
        let m = (((ms as int % MILLIS_PER_HOUR as int) + 30000) / MILLIS_PER_MIN as int) as nat;
        dec_str(h) + seq!['h', ' '] + dec_str(m) + seq!['m']
    } else if ms >= MILLIS_PER_MIN {
        let m = (ms as int / MILLIS_PER_MIN as int) as nat;
        let s = (((ms as int % MILLIS_PER_MIN as int) + 500) / MILLIS_PER_SEC as int) as nat;
        dec_str(m) + seq!['m', ' '] + dec_str(s) + seq!['s']
    } else {
        let cs = ((ms as int + 5) / 10) as nat;
        dec_str(cs / 100) + seq!['.'] + seq![spec_digit((cs % 100) / 10), spec_digit(cs % 10)]
            + seq!['s']
    }
}

/// The one-character string for a decimal digit.
pub fn digit_str(d: u64) -> (s: &'static str)
    requires
        d < 10,
    ensures
        s@ =~= seq![spec_digit(d as nat)],
{
    proof {
        reveal_strlit("0");
        reveal_strlit("1");
        reveal_strlit("2");
        reveal_strlit("3");
        reveal_strlit("4");
        reveal_strlit("5");
        reveal_strlit("6");
        reveal_strlit("7");
        reveal_strlit("8");
        reveal_strlit("9");
    }
    if d == 0 {
        "0"
    } else if d == 1 {
        "1"
    } else if d == 2 {
        "2"
    } else if d == 3 {
        "3"
    } else if d == 4 {
        "4"
    } else if d == 5 {
        "5"
    } else if d == 6 {
        "6"
    } else if d == 7 {
        "7"
    } else if d == 8 {
        "8"
    } else {
        "9"
    }
}

/// Renders a number in decimal, without sign or leading zeros.
pub fn u64_to_string(n: u64) -> (s: String)
    ensures
        s@ == dec_str(n as nat),
    decreases n,
{
    if n < 10 {
        let s = String::from_str(digit_str(n));
        s
    } else {
        let mut s = u64_to_string(n / 10);
        s.append(digit_str(n % 10));
        proof {
            assert(dec_str(n as nat) =~= dec_str((n / 10) as nat).push(
                spec_digit((n % 10) as nat),
            ));
            assert(dec_str((n / 10) as nat).push(spec_digit((n % 10) as nat)) =~= dec_str(
                (n / 10) as nat,
            ) + seq![spec_digit((n % 10) as nat)]);
        }
        s
    }
}

/// Formats a duration of `ms` milliseconds for the task report: seconds to
/// two decimals strictly below one minute, whole minutes with rounded
/// seconds up to an hour, whole hours with rounded minutes above.
pub fn format_duration(ms: u64) -> (s: String)
    ensures
        s@ == spec_format_duration(ms),
{
    proof {
        reveal_strlit("h ");
        reveal_strlit("m ");
        reveal_strlit("m");
        reveal_strlit("s");
        reveal_strlit(".");
    }
    if ms > MILLIS_PER_HOUR {
        let h = ms / MILLIS_PER_HOUR;
        let m = ((ms % MILLIS_PER_HOUR) + 30000) / MILLIS_PER_MIN;
        let mut s = u64_to_string(h);
        s.append("h ");
        let ms_part = u64_to_string(m);
        s.append(ms_part.as_str());
        s.append("m");
        assert(s@ =~= spec_format_duration(ms));
        s
    } else if ms >= MILLIS_PER_MIN {
        let m = ms / MILLIS_PER_MIN;
        let sec = ((ms % MILLIS_PER_MIN) + 500) / MILLIS_PER_SEC;
        let mut s = u64_to_string(m);
        s.append("m ");
        let sec_part = u64_to_string(sec);
        s.append(sec_part.as_str());
        s.append("s");
        assert(s@ =~= spec_format_duration(ms));
        s
    } else {
        let cs = (ms + 5) / 10;
        let mut s = u64_to_string(cs / 100);
        s.append(".");
        s.append(digit_str((cs % 100) / 10));
        s.append(digit_str(cs % 10));
        s.append("s");
        assert(s@ =~= spec_format_duration(ms));
        s
    }
}

} // verus!
