//! The text of a schedule: clock times, talk lines and event lines.
use vstd::prelude::*;

use crate::knapsack::total;
use crate::talk::{Talk, LIGHTNING};

verus! {

/// Seconds in an hour.
pub const HOURS: u64 = 3600;

pub open spec fn digit_chars() -> Seq<char> {
    seq!['0', '1', '2', '3', '4', '5', '6', '7', '8', '9']
}

/// `n` in decimal, without leading zeros.
pub open spec fn decimal(n: nat) -> Seq<char>
    decreases n,
{
    if n < 10 {
        seq![digit_chars()[n as int]]
    } else {
        decimal(n / 10).push(digit_chars()[(n % 10) as int])
    }
}

/// `n` in decimal, padded with a zero to at least two digits.
pub open spec fn two_digits(n: nat) -> Seq<char> {
    if n < 10 {
        seq!['0', digit_chars()[n as int]]
    } else {
        decimal(n)
    }
}

/// The hour as a 12-hour clock shows it: 12, then 1 to 11.
pub open spec fn twelve_hour(hour: nat) -> nat {
    if hour % 12 == 0 {
        12
    } else {
        hour % 12
    }
}

/// A time of day given in seconds since midnight, as `HH:MM` on a 12-hour
/// clock and `AM` or `PM`.
pub open spec fn clock(secs: nat) -> Seq<char> {
    let hour = secs / (HOURS as nat);
    let minute = (secs % (HOURS as nat)) / 60;
    two_digits(twelve_hour(hour)) + seq![':'] + two_digits(minute) + if hour >= 12 {
        seq!['P', 'M']
    } else {
        seq!['A', 'M']
    }
}

/// How a talk's length is printed.
pub open spec fn duration_label(secs: nat) -> Seq<char> {
    if secs == LIGHTNING {
        seq!['l', 'i', 'g', 'h', 't', 'n', 'i', 'n', 'g']
    } else {
        decimal(secs / 60) + seq!['m', 'i', 'n']
    }
}

pub open spec fn talk_line(at: nat, t: Talk) -> Seq<char> {
    clock(at) + seq![' '] + t.name@ + seq![' '] + duration_label(t.duration as nat)
}

pub open spec fn event_line(at: nat, event: Seq<char>) -> Seq<char> {
    clock(at) + seq![' '] + event
}

/// When the talk at index `k` of a session that opens at `at` starts.
pub open spec fn start_of(at: nat, ts: Seq<Talk>, k: int) -> nat {
    (at + total(ts.take(k))) as nat
}

/// The lines of a session that opens at `at`: one per talk, then the event.
pub open spec fn session_lines(at: nat, ts: Seq<Talk>, event: Seq<char>) -> Seq<Seq<char>> {
    Seq::new(ts.len(), |k: int| talk_line(start_of(at, ts, k), ts[k])).push(
        event_line((at + total(ts)) as nat, event),
    )
}

/// The text of each line.
pub open spec fn text(lines: Seq<String>) -> Seq<Seq<char>> {
    lines.map_values(|l: String| l@)
}

pub proof fn lemma_total_nonneg(ts: Seq<Talk>)
    ensures
        total(ts) >= 0,
    decreases ts.len(),
{
    if ts.len() > 0 {
        lemma_total_nonneg(ts.drop_first());
    }
}

pub proof fn lemma_total_push(ts: Seq<Talk>, t: Talk)
    ensures
        total(ts.push(t)) == total(ts) + t.duration,
    decreases ts.len(),
{
    if ts.len() > 0 {
        lemma_total_push(ts.drop_first(), t);
        assert(ts.push(t).drop_first() =~= ts.drop_first().push(t));
        assert(ts.push(t)[0] == ts[0]);
    } else {
        assert(ts.push(t).drop_first() =~= Seq::<Talk>::empty());
        assert(total(Seq::<Talk>::empty()) == 0);
        assert(ts.push(t)[0] == t);
    }
}

fn digit_str(d: u64) -> (r: &'static str)
    requires
        d < 10,
    ensures
        r@ == seq![digit_chars()[d as int]],
{
    proof {
        reveal_strlit("0");
        reveal_strlit("1");
        reveal_strlit("2");
        reveal_strlit("3");
        reveal_strlit("4");
        reveal_strlit("5");
        reveal_strlit("6");
        reveal_strlit("7");
        reveal_strlit("8");
        reveal_strlit("9");
    }
    let r = match d {
        0 => "0",
        1 => "1",
        2 => "2",
        3 => "3",
        4 => "4",
        5 => "5",
        6 => "6",
        7 => "7",
        8 => "8",
        _ => "9",
    };
    assert(r@ =~= seq![digit_chars()[d as int]]);
    r
}

/// `n` written in decimal.
pub fn decimal_string(n: u64) -> (r: String)
    ensures
        r@ == decimal(n as nat),
    decreases n,
{
    if n < 10 {
        String::from_str(digit_str(n))
    } else {
        let mut s = decimal_string(n / 10);
        s.append(digit_str(n % 10));
        s
    }
}

fn two_digit_string(n: u64) -> (r: String)
    ensures
        r@ == two_digits(n as nat),
{
    if n < 10 {
        let zero = "0";
        proof {
            reveal_strlit("0");
        }
        let mut s = String::from_str(zero);
        s.append(digit_str(n));
        assert(s@ =~= two_digits(n as nat));
        s
    } else {
        decimal_string(n)
    }
}

/// The time of day `time_of_day` (seconds since midnight) as `HH:MM` on a
/// 12-hour clock, with `AM` or `PM`.
pub fn format_time(time_of_day: u64) -> (r: String)
    ensures
        r@ == clock(time_of_day as nat),
{
    let hour_of_day = time_of_day / HOURS;
    let minutes_of_hour = (time_of_day % HOURS) / 60;
    let hour_on_clock = if hour_of_day % 12 == 0 {
        12
    } else {
        hour_of_day % 12
    };
    let mut s = two_digit_string(hour_on_clock);
    let colon = ":";
    let pm = "PM";
    let am = "AM";
    proof {
        reveal_strlit(":");
        reveal_strlit("PM");
        reveal_strlit("AM");
    }
    s.append(colon);
    s.append(two_digit_string(minutes_of_hour).as_str());
    if hour_of_day >= 12 {
        s.append(pm);
    } else {
        s.append(am);
    }
    assert(s@ =~= clock(time_of_day as nat));
    s
}

fn talk_text(at: u64, talk: &Talk) -> (r: String)
    ensures
        r@ == talk_line(at as nat, *talk),
{
    let space = " ";
    let lightning = "lightning";
    let min = "min";
    proof {
        reveal_strlit(" ");
        reveal_strlit("lightning");
        reveal_strlit("min");
    }
    let mut s = format_time(at);
    s.append(space);
    s.append(talk.name.as_str());
    s.append(space);
    if talk.duration == LIGHTNING {
        s.append(lightning);
    } else {
        s.append(decimal_string(talk.duration / 60).as_str());
        s.append(min);
    }
    assert(s@ =~= talk_line(at as nat, *talk));
    s
}

fn event_text(at: u64, event: &str) -> (r: String)
    ensures
        r@ == event_line(at as nat, event@),
{
    let space = " ";
    proof {
        reveal_strlit(" ");
    }
    let mut s = format_time(at);
    s.append(space);
    s.append(event);
    assert(s@ =~= event_line(at as nat, event@));
    s
}

/// Writes the lines of a session that opens at `start_at` (seconds since
/// midnight) and ends with `special_event`; returns when the event starts.
pub fn format(start_at: u64, talks: &Vec<Talk>, special_event: &str, output: &mut Vec<String>) -> (end: u64)
    requires
        start_at + total(talks@) <= u64::MAX,
    ensures
        end == start_at + total(talks@),
        text(final(output)@) == text(old(output)@) + session_lines(
            start_at as nat,
            talks@,
            special_event@,
        ),
{
    let ghost ts = talks@;
    let ghost before = text(output@);
    let mut current_time: u64 = start_at;
    let mut i: usize = 0;
    while i < talks.len()
        invariant
            ts == talks@,
            start_at + total(ts) <= u64::MAX,
            i <= ts.len(),
            current_time == start_at + total(ts.take(i as int)),
            text(output@) == before + Seq::new(
                i as nat,
                |k: int| talk_line(start_of(start_at as nat, ts, k), ts[k]),
            ),
        decreases ts.len() - i,
    {
        let talk = &talks[i];
        let line = talk_text(current_time, talk);
        let ghost prev = output@;
        output.push(line);
        proof {
            assert(text(output@) =~= text(prev).push(line@));
            assert(ts.take(i + 1) =~= ts.take(i as int).push(ts[i as int]));
            lemma_total_push(ts.take(i as int), ts[i as int]);
            assert(ts =~= ts.take(i + 1) + ts.skip(i + 1));
            lemma_total_concat(ts.take(i + 1), ts.skip(i + 1));
            lemma_total_nonneg(ts.skip(i + 1));
            assert(text(output@) =~= before + Seq::new(
                (i + 1) as nat,
                |k: int| talk_line(start_of(start_at as nat, ts, k), ts[k]),
            ));
        }
        current_time = current_time + talk.duration;
        i = i + 1;
    }
    assert(ts.take(ts.len() as int) =~= ts);
    let ghost prev = output@;
    let last = event_text(current_time, special_event);
    output.push(last);
    assert(text(output@) =~= text(prev).push(last@));
    assert(text(output@) =~= before + session_lines(start_at as nat, ts, special_event@));
    current_time
}

pub proof fn lemma_total_concat(a: Seq<Talk>, b: Seq<Talk>)
    ensures
        total(a + b) == total(a) + total(b),
    decreases a.len(),
{
    if a.len() > 0 {
        lemma_total_concat(a.drop_first(), b);
        assert((a + b).drop_first() =~= a.drop_first() + b);
    } else {
        assert(a + b =~= b);
    }
}

} // verus!
