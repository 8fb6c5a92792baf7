//! Decimal rendering, fixed-width padding, and the uptime label.
//!
//! The uptime label shows the elapsed time in its largest fitting
//! unit: seconds below a minute, then minutes below an hour, hours
//! below a day, days below a week, weeks below a year (52 weeks), and
//! years beyond that.

use vstd::prelude::*;

verus! {

/// The decimal digit character for a value below ten.
pub open spec fn spec_digit(d: int) -> char {
    if d == 0 {
        '0'
    } else if d == 1 {
        '1'
    } else if d == 2 {
        '2'
    } else if d == 3 {
        '3'
    } else if d == 4 {
        '4'
    } else if d == 5 {
        '5'
    } else if d == 6 {
        '6'
    } else if d == 7 {
        '7'
    } else if d == 8 {
        '8'
    } else {
        '9'
    }
}

/// The decimal rendering of a number, most significant digit first.
pub open spec fn spec_dec(n: nat) -> Seq<char>
    decreases n,
{
    if n < 10 {
        seq![spec_digit(n as int)]
    } else {
        spec_dec(n / 10) + seq![spec_digit(n as int % 10)]
    }
}

/// `s` preceded by enough `fill` characters to reach width `w`.
pub open spec fn spec_pad_left(s: Seq<char>, w: int, fill: char) -> Seq<char> {
    if s.len() >= w {
        s
    } else {
        Seq::new((w - s.len()) as nat, |k: int| fill) + s
    }
}

/// `s` followed by enough `fill` characters to reach width `w`.
pub open spec fn spec_pad_right(s: Seq<char>, w: int, fill: char) -> Seq<char> {
    if s.len() >= w {
        s
    } else {
        s + Seq::new((w - s.len()) as nat, |k: int| fill)
    }
}

/// The uptime label: value in the largest fitting unit, then the
/// unit's letter.
pub open spec fn spec_uptime_label(secs: nat) -> Seq<char> {
    let minutes = secs / 60;
    let hours = minutes / 60;
    let days = hours / 24;
    let weeks = days / 7;
    let years = weeks / 52;
    if secs < 60 {
        spec_dec(secs) + seq!['s']
    } else if minutes < 60 {
        spec_dec(minutes) + seq!['m']
    } else if hours < 24 {
        spec_dec(hours) + seq!['h']
    } else if days < 7 {
        spec_dec(days) + seq!['d']
    } else if weeks < 52 {
        spec_dec(weeks) + seq!['w']
    } else {
        spec_dec(years) + seq!['y']
    }
}

/// The character of one decimal digit, as a one-character string.
fn digit_str(d: u64) -> (r: &'static str)
    requires
        d < 10,
    ensures
        r@ == seq![spec_digit(d as int)],
{
    proof {
        reveal_strlit("0");
        reveal_strlit("1");
        reveal_strlit("2");
        reveal_strlit("3");
        reveal_strlit("4");
        reveal_strlit("5");
        reveal_strlit("6");
        reveal_strlit("7");
        reveal_strlit("8");
        reveal_strlit("9");
    }
    if d == 0 {
        "0"
    } else if d == 1 {
        "1"
    } else if d == 2 {
        "2"
    } else if d == 3 {
        "3"
    } else if d == 4 {
        "4"
    } else if d == 5 {
        "5"
    } else if d == 6 {
        "6"
    } else if d == 7 {
        "7"
    } else if d == 8 {
        "8"
    } else {
        "9"
    }
}

/// The decimal rendering of `n`.
pub fn u64_to_dec(n: u64) -> (s: String)
    ensures
        s@ == spec_dec(n as nat),
{
    let mut digits: Vec<u64> = Vec::new();
    let mut cur: u64 = n;
    while cur >= 10
        invariant
            forall|j: int| 0 <= j < digits@.len() ==> #[trigger] digits@[j] < 10,
            spec_dec(n as nat) == spec_dec(cur as nat) + Seq::new(
                digits@.len(),
                |j: int| spec_digit(digits@[digits@.len() - 1 - j] as int),
            ),
        decreases cur,
    {
        let ghost digits0 = digits@;
        digits.push(cur % 10);
        proof {
            let tail = Seq::new(
                digits@.len(),
                |j: int| spec_digit(digits@[digits@.len() - 1 - j] as int),
            );
            let tail0 = Seq::new(
                digits0.len(),
                |j: int| spec_digit(digits0[digits0.len() - 1 - j] as int),
            );
            assert(tail =~= seq![spec_digit(cur as int % 10)] + tail0);
            assert(spec_dec(cur as nat) + tail0 =~= spec_dec((cur / 10) as nat) + tail);
        }
        cur = cur / 10;
    }
    let mut s = String::new();
    s.append(digit_str(cur));
    let mut k: usize = digits.len();
    while k > 0
        invariant
            k <= digits@.len(),
            forall|j: int| 0 <= j < digits@.len() ==> #[trigger] digits@[j] < 10,
            s@ == seq![spec_digit(cur as int)] + Seq::new(
                (digits@.len() - k) as nat,
                |j: int| spec_digit(digits@[digits@.len() - 1 - j] as int),
            ),
        decreases k,
    {
        let ghost s0 = s@;
        k = k - 1;
        s.append(digit_str(digits[k]));
        proof {
            assert(s@ =~= seq![spec_digit(cur as int)] + Seq::new(
                (digits@.len() - k) as nat,
                |j: int| spec_digit(digits@[digits@.len() - 1 - j] as int),
            ));
        }
    }
    proof {
        assert(s@ =~= spec_dec(cur as nat) + Seq::new(
            digits@.len(),
            |j: int| spec_digit(digits@[digits@.len() - 1 - j] as int),
        ));
    }
    s
}

/// Pad on the left with spaces up to width `w`.
pub fn pad_left_spaces(s: String, w: usize) -> (r: String)
    ensures
        r@ == spec_pad_left(s@, w as int, ' '),
{
    let n = s.as_str().unicode_len();
    if n >= w {
        return s;
    }
    proof {
        reveal_strlit(" ");
    }
    let mut r = String::new();
    let mut k: usize = 0;
    while k < w - n
        invariant
            n == s@.len(),
            n < w,
            k <= w - n,
            r@ == Seq::new(k as nat, |j: int| ' '),
        decreases w - n - k,
    {
        let ghost r0 = r@;
        r.append(" ");
        proof {
            reveal_strlit(" ");
            assert(r@ =~= Seq::new((k + 1) as nat, |j: int| ' '));
        }
        k = k + 1;
    }
    r.append(s.as_str());
    r
}

/// Pad on the right with spaces up to width `w`.
pub fn pad_right_spaces(s: String, w: usize) -> (r: String)
    ensures
        r@ == spec_pad_right(s@, w as int, ' '),
{
    let n = s.as_str().unicode_len();
    if n >= w {
        return s;
    }
    proof {
        reveal_strlit(" ");
    }
    let mut r = s;
    let ghost base = r@;
    let mut k: usize = 0;
    while k < w - n
        invariant
            n == base.len(),
            n < w,
            k <= w - n,
            r@ == base + Seq::new(k as nat, |j: int| ' '),
        decreases w - n - k,
    {
        r.append(" ");
        proof {
            reveal_strlit(" ");
            assert(r@ =~= base + Seq::new((k + 1) as nat, |j: int| ' '));
        }
        k = k + 1;
    }
    r
}

/// The uptime label for a number of elapsed seconds: the elapsed time
/// in its largest fitting unit, with the unit's letter appended.
pub fn format_uptime_secs(secs: u64) -> (r: String)
    ensures
        r@ == spec_uptime_label(secs as nat),
{
    proof {
        reveal_strlit("s");
        reveal_strlit("m");
        reveal_strlit("h");
        reveal_strlit("d");
        reveal_strlit("w");
        reveal_strlit("y");
    }
    let minutes = secs / 60;
    let hours = minutes / 60;
    let days = hours / 24;
    let weeks = days / 7;
    let years = weeks / 52;
    if secs < 60 {
        u64_to_dec(secs).concat("s")
    } else if minutes < 60 {
        u64_to_dec(minutes).concat("m")
    } else if hours < 24 {
        u64_to_dec(hours).concat("h")
    } else if days < 7 {
        u64_to_dec(days).concat("d")
    } else if weeks < 52 {
        u64_to_dec(weeks).concat("w")
    } else {
        u64_to_dec(years).concat("y")
    }
}

} // verus!
