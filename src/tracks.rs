//! Whole runs: every line read, the talks ordered by length, and tracks built
//! until no talk is left.
use vstd::prelude::*;

use crate::format::{decimal, decimal_string, lemma_total_nonneg, session_lines, text};
use crate::knapsack::lemma_best_bounds;
use crate::pool::{pool_after, schedule, session_of};
use crate::talk::{parse_line, Talk};
use crate::ConferenceError;

verus! {

/// Room in a morning session, in seconds.
pub const MORNING_SESSION_DURATION: usize = 10800;

/// When mornings open, in seconds since midnight.
pub const MORNING_SESSION_START: u64 = 32400;

/// Most room in an evening session, in seconds.
pub const EVENING_SESSION_MAX_DURATION: usize = 14400;

/// When evenings open, in seconds since midnight.
pub const EVENING_SESSION_START: u64 = 46800;

pub open spec fn morning_event() -> Seq<char> {
    seq!['L', 'u', 'n', 'c', 'h']
}

pub open spec fn evening_event() -> Seq<char> {
    seq!['N', 'e', 't', 'w', 'o', 'r', 'k', 'i', 'n', 'g', ' ', 'E', 'v', 'e', 'n', 't']
}

/// The lines that carry a talk, in order: every line but the empty ones.
pub open spec fn talk_lines_of(lines: Seq<Seq<char>>) -> Seq<Seq<char>>
    decreases lines.len(),
{
    if lines.len() == 0 {
        Seq::empty()
    } else if lines.last().len() == 0 {
        talk_lines_of(lines.drop_last())
    } else {
        talk_lines_of(lines.drop_last()).push(lines.last())
    }
}

/// `ts` holds, in order, the talks that the lines describe.
pub open spec fn parses_as(lines: Seq<Seq<char>>, ts: Seq<Talk>) -> bool {
    let ls = talk_lines_of(lines);
    &&& ts.len() == ls.len()
    &&& forall|k: int|
        0 <= k < ls.len() ==> parse_line(#[trigger] ls[k]) == Some(
            (ts[k].name@, ts[k].duration as nat),
        )
}

/// Every line that carries a talk describes one.
pub open spec fn all_parse(lines: Seq<Seq<char>>) -> bool {
    forall|k: int|
        0 <= k < talk_lines_of(lines).len() ==> parse_line(#[trigger] talk_lines_of(lines)[k])
            is Some
}

/// `l` is the first line that describes no talk.
pub open spec fn first_bad_line(lines: Seq<Seq<char>>, l: Seq<char>) -> bool {
    let ls = talk_lines_of(lines);
    exists|k: int|
        0 <= k < ls.len() && #[trigger] ls[k] == l && parse_line(l) is None && forall|j: int|
            0 <= j < k ==> parse_line(#[trigger] ls[j]) is Some
}

/// Reads one talk from each line that is not empty.
pub fn parse_talks(input: &Vec<String>) -> (r: Result<Vec<Talk>, ConferenceError>)
    ensures
        r is Ok <==> all_parse(text(input@)),
        match r {
            Ok(v) => parses_as(text(input@), v@),
            Err(e) => e matches ConferenceError::Parse(l) && first_bad_line(text(input@), l@),
        },
{
    let ghost lines = text(input@);
    let mut talks: Vec<Talk> = Vec::new();
    let mut i: usize = 0;
    while i < input.len()
        invariant
            lines == text(input@),
            i <= input@.len(),
            parses_as(lines.take(i as int), talks@),
        decreases input@.len() - i,
    {
        let line = input[i].as_str();
        let ghost prefix = lines.take(i as int);
        proof {
            assert(lines.take(i + 1) =~= prefix.push(line@));
            assert(lines.take(i + 1).drop_last() =~= prefix);
        }
        if line.unicode_len() > 0 {
            match Talk::from_str(line) {
                Ok(t) => {
                    let ghost before = talks@;
                    talks.push(t);
                    proof {
                        let ls = talk_lines_of(lines.take(i + 1));
                        assert(ls == talk_lines_of(prefix).push(line@));
                        assert forall|k: int| 0 <= k < ls.len() implies parse_line(
                            #[trigger] ls[k],
                        ) == Some((talks@[k].name@, talks@[k].duration as nat)) by {
                            if k < ls.len() - 1 {
                                assert(ls[k] == talk_lines_of(prefix)[k]);
                            }
                        }
                    }
                },
                Err(e) => {
                    proof {
                        lemma_talk_lines_grow(lines, i as int + 1);
                        let ls = talk_lines_of(lines.take(i + 1));
                        let k = ls.len() - 1;
                        assert(ls[k] == line@);
                        assert(talk_lines_of(lines)[k] == line@);
                        assert forall|j: int| 0 <= j < k implies parse_line(
                            #[trigger] talk_lines_of(lines)[j],
                        ) is Some by {
                            assert(talk_lines_of(lines)[j] == ls[j]);
                            assert(ls[j] == talk_lines_of(prefix)[j]);
                        }
                        assert(talk_lines_of(lines)[k] == line@);
                    }
                    return Err(e);
                },
            }
        }
        i = i + 1;
    }
    assert(lines.take(input@.len() as int) =~= lines);
    Ok(talks)
}

/// The talk lines of a prefix of `lines` start the talk lines of all of them.
proof fn lemma_talk_lines_grow(lines: Seq<Seq<char>>, i: int)
    requires
        0 <= i <= lines.len(),
    ensures
        talk_lines_of(lines.take(i)).len() <= talk_lines_of(lines).len(),
        forall|k: int|
            0 <= k < talk_lines_of(lines.take(i)).len() ==> talk_lines_of(lines)[k]
                == #[trigger] talk_lines_of(lines.take(i))[k],
    decreases lines.len(),
{
    if i == lines.len() {
        assert(lines.take(i) =~= lines);
    } else {
        assert(lines.drop_last().take(i) =~= lines.take(i));
        lemma_talk_lines_grow(lines.drop_last(), i);
    }
}

/// `s` with `t` placed after every talk that is not longer than it.
pub open spec fn insert_by_duration(s: Seq<Talk>, t: Talk) -> Seq<Talk>
    decreases s.len(),
{
    if s.len() == 0 || s.last().duration <= t.duration {
        s.push(t)
    } else {
        insert_by_duration(s.drop_last(), t).push(s.last())
    }
}

/// The talks ordered by duration; talks of equal duration keep their order.
pub open spec fn sort_by_duration(s: Seq<Talk>) -> Seq<Talk>
    decreases s.len(),
{
    if s.len() == 0 {
        s
    } else {
        insert_by_duration(sort_by_duration(s.drop_last()), s.last())
    }
}

proof fn lemma_insert_at(s: Seq<Talk>, t: Talk, pos: int)
    requires
        0 <= pos <= s.len(),
        forall|j: int| pos <= j < s.len() ==> (#[trigger] s[j]).duration > t.duration,
        pos == 0 || s[pos - 1].duration <= t.duration,
    ensures
        insert_by_duration(s, t) == s.insert(pos, t),
    decreases s.len(),
{
    if pos == s.len() {
        assert(s.insert(pos, t) =~= s.push(t));
    } else {
        lemma_insert_at(s.drop_last(), t, pos);
        assert(s.drop_last().insert(pos, t).push(s.last()) =~= s.insert(pos, t));
    }
}

/// No talk of `s` is longer than one after it.
pub open spec fn ordered_by_duration(s: Seq<Talk>) -> bool {
    forall|i: int, j: int| 0 <= i < j < s.len() ==> s[i].duration <= s[j].duration
}

proof fn lemma_insert_ordered(s: Seq<Talk>, t: Talk, bound: int)
    requires
        ordered_by_duration(s),
        forall|k: int| 0 <= k < s.len() ==> (#[trigger] s[k]).duration <= bound,
        t.duration <= bound,
    ensures
        ordered_by_duration(insert_by_duration(s, t)),
        forall|k: int|
            0 <= k < insert_by_duration(s, t).len() ==> (#[trigger] insert_by_duration(
                s,
                t,
            )[k]).duration <= bound,
        insert_by_duration(s, t).len() == s.len() + 1,
    decreases s.len(),
{
    if !(s.len() == 0 || s.last().duration <= t.duration) {
        let last = s.last();
        lemma_insert_ordered(s.drop_last(), t, last.duration as int);
    }
}

/// Ordering by duration gives talks that are in order of duration.
pub proof fn lemma_sort_ordered(s: Seq<Talk>)
    ensures
        ordered_by_duration(sort_by_duration(s)),
        sort_by_duration(s).len() == s.len(),
    decreases s.len(),
{
    if s.len() > 0 {
        lemma_sort_ordered(s.drop_last());
        lemma_insert_ordered(sort_by_duration(s.drop_last()), s.last(), u64::MAX as int);
    }
}

/// The talks ordered by duration, keeping the order of talks of equal duration.
pub fn sort_talks(talks: &Vec<Talk>) -> (r: Vec<Talk>)
    ensures
        r@ == sort_by_duration(talks@),
        ordered_by_duration(r@),
{
    proof {
        lemma_sort_ordered(talks@);
    }
    let mut out: Vec<Talk> = Vec::new();
    let mut i: usize = 0;
    while i < talks.len()
        invariant
            i <= talks@.len(),
            out@ == sort_by_duration(talks@.take(i as int)),
        decreases talks@.len() - i,
    {
        let t = talks[i].copy();
        let mut pos: usize = out.len();
        while pos > 0 && out[pos - 1].duration > t.duration
            invariant
                pos <= out@.len(),
                forall|j: int| pos <= j < out@.len() ==> (#[trigger] out@[j]).duration > t.duration,
            decreases pos,
        {
            pos = pos - 1;
        }
        proof {
            lemma_insert_at(out@, t, pos as int);
            assert(talks@.take(i + 1).drop_last() =~= talks@.take(i as int));
        }
        out.insert(pos, t);
        i = i + 1;
    }
    assert(talks@.take(talks@.len() as int) =~= talks@);
    out
}

/// The heading of track `n`.
pub open spec fn track_heading(n: nat) -> Seq<char> {
    seq!['T', 'r', 'a', 'c', 'k', ' '] + decimal(n)
}

/// The lines of a track numbered `n` that starts from the pool `pool`.
pub open spec fn track_lines(pool: Seq<Talk>, n: nat) -> Seq<Seq<char>> {
    let morning = session_of(pool, MORNING_SESSION_DURATION as int);
    let rest = pool_after(pool, MORNING_SESSION_DURATION as int);
    let evening = session_of(rest, EVENING_SESSION_MAX_DURATION as int);
    seq![track_heading(n)] + session_lines(MORNING_SESSION_START as nat, morning, morning_event())
        + session_lines(EVENING_SESSION_START as nat, evening, evening_event())
}

/// The pool once a track is built from `pool`.
pub open spec fn pool_after_track(pool: Seq<Talk>) -> Seq<Talk> {
    pool_after(
        pool_after(pool, MORNING_SESSION_DURATION as int),
        EVENING_SESSION_MAX_DURATION as int,
    )
}

/// What scheduling `pool` from track `n` on writes, and how it ends: `None`
/// once every talk has a place, `Some(k)` when a track placed nothing and `k`
/// talks were left.
pub open spec fn run(pool: Seq<Talk>, n: nat) -> (Seq<Seq<char>>, Option<nat>)
    decreases pool.len(),
{
    if pool.len() == 0 {
        (Seq::empty(), None)
    } else {
        let lines = track_lines(pool, n);
        let left = pool_after_track(pool);
        if left.len() >= pool.len() {
            (lines, Some(left.len()))
        } else if left.len() == 0 {
            (lines, None)
        } else {
            let more = run(left, n + 1);
            (lines + seq![Seq::empty()] + more.0, more.1)
        }
    }
}

/// What a run over the talks ends with.
pub open spec fn outcome(r: Result<(), ConferenceError>, end: Option<nat>) -> bool {
    match end {
        None => r is Ok,
        Some(k) => r matches Err(e) && e matches ConferenceError::Unschedulable(c) && c == k,
    }
}

/// Builds tracks from `talks`, in the order given, until every talk has a
/// place or a track places none; writes their lines to `output`.
pub fn schedule_tracks(pool: Vec<Talk>, output: &mut Vec<String>) -> (r: Result<(), ConferenceError>)
    ensures
        text(final(output)@) == text(old(output)@) + run(pool@, 1).0,
        outcome(r, run(pool@, 1).1),
{
    let ghost all = pool@;
    let ghost before = text(output@);
    let mut talks = pool;
    if talks.len() == 0 {
        assert(text(output@) =~= before + run(all, 1).0);
        return Ok(());
    }
    let mut track_number: u64 = 1;
    let ghost n0 = all.len();
    loop
        invariant
            talks@.len() > 0,
            track_number + talks@.len() <= n0 + 1,
            n0 == all.len(),
            n0 <= usize::MAX,
            all == pool@,
            before == text(old(output)@),
            before + run(all, 1).0 == text(output@) + run(talks@, track_number as nat).0,
            run(all, 1).1 == run(talks@, track_number as nat).1,
        decreases talks@.len(),
    {
        let ghost pool = talks@;
        let ghost at_start = text(output@);
        let num_talks_before_schedule = talks.len();
        let heading = track_heading_text(track_number);
        output.push(heading);
        let morning = schedule(MORNING_SESSION_DURATION, &mut talks);
        proof {
            lemma_best_bounds(pool, pool.len(), MORNING_SESSION_DURATION as int);
            lemma_total_nonneg(morning@);
        }
        crate::format::format(MORNING_SESSION_START, &morning, "Lunch", output);
        let ghost mid = talks@;
        let evening = schedule(EVENING_SESSION_MAX_DURATION, &mut talks);
        proof {
            lemma_best_bounds(mid, mid.len(), EVENING_SESSION_MAX_DURATION as int);
            lemma_total_nonneg(evening@);
        }
        crate::format::format(EVENING_SESSION_START, &evening, "Networking Event", output);
        proof {
            reveal_strlit("Lunch");
            reveal_strlit("Networking Event");
            assert("Lunch"@ =~= morning_event());
            assert("Networking Event"@ =~= evening_event());
            assert(text(output@) =~= at_start + track_lines(pool, track_number as nat));
            assert(talks@ == pool_after_track(pool));
            assert(talks@.len() <= pool.len()) by {
                broadcast use vstd::seq_lib::group_to_multiset_ensures;
                broadcast use vstd::multiset::group_multiset_axioms;

                assert(pool.to_multiset().len() == pool.len());
                assert(mid.to_multiset().len() == mid.len());
                assert(talks@.to_multiset().len() == talks@.len());
            }
        }
        if num_talks_before_schedule == talks.len() {
            proof {
                assert(run(pool, track_number as nat) == (
                    track_lines(pool, track_number as nat),
                    Some(talks@.len()),
                ));
                assert(before + run(all, 1).0 =~= text(output@));
            }
            return Err(ConferenceError::Unschedulable(talks.len()));
        }
        if talks.len() == 0 {
            proof {
                assert(run(pool, track_number as nat) == (
                    track_lines(pool, track_number as nat),
                    None::<nat>,
                ));
                assert(before + run(all, 1).0 =~= text(output@));
            }
            return Ok(());
        }
        assert(track_number + 1 <= n0);
        assert(n0 <= usize::MAX);
        let ghost after_track = text(output@);
        output.push(String::new());
        proof {
            assert(text(output@) =~= after_track.push(Seq::empty()));
            let more = run(talks@, (track_number + 1) as nat);
            assert(run(pool, track_number as nat).0 == track_lines(pool, track_number as nat)
                + seq![Seq::<char>::empty()] + more.0);
            assert(at_start + (track_lines(pool, track_number as nat) + seq![Seq::<char>::empty()]
                + more.0) =~= text(output@) + more.0);
        }
        track_number = track_number + 1;
    }
}

fn track_heading_text(n: u64) -> (r: String)
    ensures
        r@ == track_heading(n as nat),
{
    let track = "Track ";
    proof {
        reveal_strlit("Track ");
    }
    let mut s = String::from_str(track);
    s.append(decimal_string(n).as_str());
    assert(s@ =~= track_heading(n as nat));
    s
}

/// Reads a talk from each non-empty line of `input`, orders the talks by
/// duration and writes the tracks that hold them to `output`. A line that
/// describes no talk stops the run before anything is written.
pub fn answers(input: &Vec<String>, output: &mut Vec<String>) -> (r: Result<(), ConferenceError>)
    ensures
        !all_parse(text(input@)) ==> {
            &&& final(output)@ == old(output)@
            &&& r matches Err(e) && e matches ConferenceError::Parse(l) && first_bad_line(
                text(input@),
                l@,
            )
        },
        all_parse(text(input@)) ==> exists|ts: Seq<Talk>|
            {
                &&& parses_as(text(input@), ts)
                &&& text(final(output)@) == text(old(output)@) + run(sort_by_duration(ts), 1).0
                &&& outcome(r, run(sort_by_duration(ts), 1).1)
            },
{
    match parse_talks(input) {
        Ok(talks) => {
            let sorted = sort_talks(&talks);
            let r = schedule_tracks(sorted, output);
            assert(parses_as(text(input@), talks@));
            r
        },
        Err(e) => Err(e),
    }
}

} // verus!
