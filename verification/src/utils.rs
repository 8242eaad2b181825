//! Small text and time helpers: cleaning a field, abbreviating a path,
//! elapsed time and its human-readable form.

use vstd::prelude::*;
use crate::text::{
    contains_spec, is_space, lemma_trim_fixed, lemma_trim_shape, blank_controls, chars_of, decimal, decimal_text, end_of_text, join, join_spec,
    lemma_trim_end_take, lemma_trim_start_skip, replace, replace_spec, skip_spaces, string_of,
    trim_end_spec, trim_spec, trim_start_spec,
};

verus! {

/// A field cleaned for a tab-separated row: tabs and newlines become
/// spaces, then leading and trailing white space goes.
pub open spec fn clean_spec(s: Seq<char>) -> Seq<char> {
    trim_spec(blank_controls(s))
}

/// `input` with tabs and newlines turned into spaces, then without
/// leading and trailing white space.
pub fn clean(input: &str) -> (r: String)
    ensures
        r@ == clean_spec(input@),
{
    let v = chars_of(input);
    let mut w: Vec<char> = Vec::new();
    let mut i: usize = 0;
    while i < v.len()
        invariant
            v@ == input@,
            i <= v.len(),
            w@ == blank_controls(v@.take(i as int)),
        decreases v.len() - i,
    {
        let c = v[i];
        if c == '\t' || c == '\n' {
            w.push(' ');
        } else {
            w.push(c);
        }
        proof {
            assert(blank_controls(v@.take(i + 1)) == blank_controls(v@.take(i as int)).push(w@.last()));
        }
        i = i + 1;
    }
    proof {
        assert(v@.take(v@.len() as int) == v@);
    }
    let i0 = skip_spaces(&w, 0);
    let j0 = end_of_text(&w, i0, w.len());
    proof {
        lemma_trim_start_skip(w@, i0 as int);
        let t = w@.subrange(i0 as int, w@.len() as int);
        if i0 < w.len() {
            assert(t[0] == w@[i0 as int]);
        }
        assert(trim_start_spec(t) == t);
        lemma_trim_end_take(t, j0 - i0);
        assert(t.subrange(0, j0 - i0) == w@.subrange(i0 as int, j0 as int));
        let u = w@.subrange(i0 as int, j0 as int);
        if u.len() > 0 {
            assert(u.last() == w@[j0 - 1]);
        }
        assert(trim_end_spec(u) == u);
    }
    string_of(&w, i0, j0)
}

/// A cleaned field holds no tab and no newline, neither begins nor ends
/// with white space, and cleaning it again leaves it as it is.
pub proof fn lemma_clean_is_clean(s: Seq<char>)
    ensures
        forall|k: int|
            0 <= k < clean_spec(s).len() ==> #[trigger] clean_spec(s)[k] != '\t' && clean_spec(s)[k]
                != '\n',
        clean_spec(s).len() > 0 ==> !is_space(clean_spec(s)[0]) && !is_space(clean_spec(s).last()),
        clean_spec(clean_spec(s)) == clean_spec(s),
{
    let b = blank_controls(s);
    let r = clean_spec(s);
    let (i, j) = lemma_trim_shape(b);
    assert forall|k: int| 0 <= k < r.len() implies #[trigger] r[k] != '\t' && r[k] != '\n' by {
        assert(r[k] == b[i + k]);
    }
    assert(blank_controls(r) == r);
    lemma_trim_fixed(r);
}


/// `path` with every occurrence of the home directory replaced by `~`;
/// the empty path stays empty, and without a home directory the path is
/// kept as it is.
pub open spec fn abbreviate_path_spec(path: Seq<char>, home: Option<Seq<char>>) -> Seq<char> {
    if path.len() == 0 {
        Seq::empty()
    } else {
        match home {
            Some(h) => replace_spec(path, h, "~"@),
            None => path,
        }
    }
}

/// Abbreviates `path` by replacing the home directory `home` (the value of
/// `HOME`, when it is set) with `~`.
pub fn abbreviate_path(path: &str, home: Option<&str>) -> (r: String)
    ensures
        r@ == abbreviate_path_spec(path@, match home {
            Some(h) => Some(h@),
            None => None,
        }),
{
    if path.is_empty() {
        return String::new();
    }
    match home {
        Some(h) => replace(path, h, "~"),
        None => path.to_owned(),
    }
}

/// A path in which the home directory does not occur is shown as it is.
pub proof fn lemma_abbreviate_keeps_other_paths(path: Seq<char>, home: Seq<char>)
    requires
        home.len() > 0,
        !contains_spec(path, home),
    ensures
        abbreviate_path_spec(path, Some(home)) == path,
{
    crate::text::lemma_replace_absent(path, home, "~"@);
}

/// Quotient of `a` by `b > 0`, rounded toward zero as Rust's `/` rounds.
pub open spec fn tdiv(a: int, b: int) -> int {
    if a >= 0 {
        a / b
    } else {
        -((-a) / b)
    }
}

/// Remainder of `a` by `b > 0` with the sign of `a`, as Rust's `%` gives it.
pub open spec fn trem(a: int, b: int) -> int {
    a - b * tdiv(a, b)
}

/// A count followed by its unit letter, such as `3h`.
pub open spec fn unit_text(n: int, unit: char) -> Seq<char> {
    decimal(n).push(unit)
}

/// The parts of a duration: days, hours and minutes where they are
/// positive, then the seconds, always.
pub open spec fn duration_parts(sec: int) -> Seq<Seq<char>> {
    let days = tdiv(sec, 86_400);
    let r1 = trem(sec, 86_400);
    let hours = tdiv(r1, 3_600);
    let r2 = trem(r1, 3_600);
    let minutes = tdiv(r2, 60);
    let seconds = trem(r2, 60);
    (if days > 0 { seq![unit_text(days, 'd')] } else { Seq::empty() })
        + (if hours > 0 { seq![unit_text(hours, 'h')] } else { Seq::empty() })
        + (if minutes > 0 { seq![unit_text(minutes, 'm')] } else { Seq::empty() })
        + seq![unit_text(seconds, 's')]
}

/// A duration in seconds as text, such as `1d 2h 3m 4s`; `n/a` for none.
pub open spec fn human_time_spec(seconds: Option<i128>) -> Seq<char> {
    match seconds {
        None => "n/a"@,
        Some(s) => join_spec(duration_parts(s as int), " "@),
    }
}

/// A duration of `s >= 0` seconds is written as whole days, hours below a
/// day, minutes below an hour and seconds below a minute, which add up to
/// `s`; days, hours and minutes appear only when positive.
pub proof fn lemma_human_time_adds_up(s: i128)
    requires
        s >= 0,
    ensures
        ({
            let d = s / 86_400;
            let h = (s % 86_400) / 3_600;
            let m = (s % 3_600) / 60;
            let sec = s % 60;
            &&& d * 86_400 + h * 3_600 + m * 60 + sec == s
            &&& 0 <= h < 24
            &&& 0 <= m < 60
            &&& 0 <= sec < 60
            &&& human_time_spec(Some(s)) == join_spec(
                (if d > 0 { seq![unit_text(d as int, 'd')] } else { Seq::empty() }) + (if h > 0 {
                    seq![unit_text(h as int, 'h')]
                } else {
                    Seq::empty()
                }) + (if m > 0 { seq![unit_text(m as int, 'm')] } else { Seq::empty() }) + seq![
                    unit_text(sec as int, 's'),
                ],
                " "@,
            )
        }),
{
    let si = s as int;
    vstd::arithmetic::div_mod::lemma_mod_mod(si, 3_600, 24);
    vstd::arithmetic::div_mod::lemma_mod_mod(si, 60, 60);
    vstd::arithmetic::div_mod::lemma_fundamental_div_mod(si, 86_400);
    vstd::arithmetic::div_mod::lemma_fundamental_div_mod(si % 86_400, 3_600);
    vstd::arithmetic::div_mod::lemma_fundamental_div_mod(si % 3_600, 60);
    assert(3_600 * 24 == 86_400);
    assert(60 * 60 == 3_600);
    assert(trem(si, 86_400) == si % 86_400);
    assert(trem(si % 86_400, 3_600) == si % 3_600);
    assert(trem(si % 3_600, 60) == si % 60);
}

fn unit_string(n: i128, unit: char) -> (r: String)
    ensures
        r@ == unit_text(n as int, unit),
{
    let mut r = decimal_text(n);
    crate::text::push_char(&mut r, unit);
    r
}

/// Formats a duration in seconds, such as `1d 2h 3m 4s`; units before the
/// seconds appear only when they are positive, and no duration gives `n/a`.
pub fn human_time(seconds: Option<i128>) -> (r: String)
    ensures
        r@ == human_time_spec(seconds),
{
    let sec = match seconds {
        Some(s) => s,
        None => {
            return "n/a".to_owned();
        },
    };
    let mut parts: Vec<String> = Vec::new();
    if sec >= 0 {
        let days = sec / 86_400;
        let rem1 = sec % 86_400;
        let hours = rem1 / 3_600;
        let rem2 = rem1 % 3_600;
        let minutes = rem2 / 60;
        let secs = rem2 % 60;
        proof {
            assert(tdiv(sec as int, 86_400) == days);
            assert(trem(sec as int, 86_400) == rem1);
            assert(tdiv(rem1 as int, 3_600) == hours);
            assert(trem(rem1 as int, 3_600) == rem2);
            assert(tdiv(rem2 as int, 60) == minutes);
            assert(trem(rem2 as int, 60) == secs);
        }
        if days > 0 {
            parts.push(unit_string(days, 'd'));
        }
        if hours > 0 {
            parts.push(unit_string(hours, 'h'));
        }
        if minutes > 0 {
            parts.push(unit_string(minutes, 'm'));
        }
        parts.push(unit_string(secs, 's'));
        proof {
            assert(parts@.map_values(|p: String| p@) == duration_parts(sec as int));
        }
    } else {
        // Below zero every unit but the seconds is at most zero, and the
        // seconds are the remainder of the whole by a minute.
        let m: u128 = ((-(sec + 1)) as u128) + 1;
        let secs: i128 = -((m % 60) as i128);
        proof {
            let mi = m as int;
            assert(mi == -(sec as int));
            vstd::arithmetic::div_mod::lemma_mod_mod(mi, 3_600, 24);
            vstd::arithmetic::div_mod::lemma_mod_mod(mi, 60, 60);
            assert(3_600 * 24 == 86_400);
            assert(60 * 60 == 3_600);
            let r1 = trem(sec as int, 86_400);
            assert(r1 == -(mi % 86_400));
            let r2 = trem(r1, 3_600);
            assert(tdiv(r1, 3_600) <= 0);
            assert(r2 == -((mi % 86_400) % 3_600));
            assert(tdiv(r2, 60) <= 0);
            assert(trem(r2, 60) == -(((mi % 86_400) % 3_600) % 60));
            assert(trem(r2, 60) == secs);
        }
        parts.push(unit_string(secs, 's'));
        proof {
            assert(parts@.map_values(|p: String| p@) == duration_parts(sec as int));
        }
    }
    join(&parts, " ")
}

/// The start of a window in nanoseconds since the epoch, read from a stamp
/// in nanoseconds (above two trillion), milliseconds (above two billion)
/// or seconds.
pub open spec fn start_nanos(start: int) -> int {
    if start > 2_000_000_000_000 {
        start
    } else if start > 2_000_000_000 {
        start * 1_000_000
    } else {
        start * 1_000_000_000
    }
}

/// Whole seconds from the stamp `start` to the time `now_nanos`
/// (nanoseconds since the epoch), never below zero; no value for a stamp
/// that is not positive.
pub open spec fn elapsed_spec(start: int, now_nanos: int) -> Option<int> {
    if start <= 0 {
        None
    } else if now_nanos > start_nanos(start) {
        Some((now_nanos - start_nanos(start)) / 1_000_000_000)
    } else {
        Some(0)
    }
}

/// `elapsed_spec` on machine integers.
pub open spec fn elapsed_at(start_ns: i128, now_nanos: u128) -> Option<i128> {
    match elapsed_spec(start_ns as int, now_nanos as int) {
        Some(x) => Some(x as i128),
        None => None,
    }
}

/// Whole seconds elapsed from the stamp `start_ns` to `now_nanos`.
pub fn elapsed_seconds(start_ns: i128, now_nanos: u128) -> (r: Option<i128>)
    ensures
        r == elapsed_at(start_ns, now_nanos),
        r matches Some(x) ==> x >= 0,
{
    if start_ns <= 0 {
        return None;
    }
    let start: u128 = if start_ns > 2_000_000_000_000 {
        start_ns as u128
    } else if start_ns > 2_000_000_000 {
        (start_ns as u128) * 1_000_000
    } else {
        (start_ns as u128) * 1_000_000_000
    };
    proof {
        assert(start as int == start_nanos(start_ns as int));
    }
    if now_nanos > start {
        let d = (now_nanos - start) / 1_000_000_000;
        Some(d as i128)
    } else {
        Some(0)
    }
}

/// The current time in nanoseconds since the epoch
/// (`SystemTime::UNIX_EPOCH.elapsed()`), none when the clock is set before
/// the epoch.  Nothing is stated of its value: it is the clock's.
#[verifier::external_body]
fn unix_now_nanos() -> (r: Option<u128>) {
    match std::time::SystemTime::UNIX_EPOCH.elapsed() {
        Ok(d) => Some(d.as_nanos()),
        Err(_) => None,
    }
}

/// Seconds elapsed since the stamp `start_ns` (nanoseconds, milliseconds or
/// seconds since the epoch), by the clock; no value for a stamp that is not
/// positive.
pub fn compute_elapsed(start_ns: i128) -> (r: Option<i128>)
    ensures
        exists|now: u128| r == #[trigger] elapsed_at(start_ns, now),
        start_ns <= 0 <==> r is None,
        r matches Some(x) ==> x >= 0,
{
    // A clock set before the epoch reads as the epoch itself.
    let now = match unix_now_nanos() {
        Some(n) => n,
        None => 0,
    };
    elapsed_seconds(start_ns, now)
}

} // verus!
