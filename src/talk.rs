//! Talks and the grammar of the lines that describe them.
use vstd::prelude::*;

use crate::ConferenceError;

verus! {

/// Seconds in a lightning talk.
pub const LIGHTNING: u64 = 300;

/// The most minutes whose count of seconds still fits a `u64`.
pub const MAX_MINUTES: u64 = 307445734561825860;

/// Fewest characters that a talk line can have.
pub const MIN_LINE_LEN: usize = 7;

/// A talk: its name and how long it runs, in seconds.
#[derive(Debug, Clone, PartialEq, Eq)]
pub struct Talk {
    pub name: String,
    pub duration: u64,
}

pub open spec fn is_digit(c: char) -> bool {
    '0' <= c && c <= '9'
}

pub open spec fn all_digits(s: Seq<char>) -> bool {
    forall|i: int| 0 <= i < s.len() ==> is_digit(#[trigger] s[i])
}

pub open spec fn digit_value(c: char) -> nat {
    ((c as u32) - ('0' as u32)) as nat
}

/// The number that a run of decimal digits spells.
pub open spec fn digits_value(s: Seq<char>) -> nat
    decreases s.len(),
{
    if s.len() == 0 {
        0
    } else {
        digits_value(s.drop_last()) * 10 + digit_value(s.last())
    }
}

/// Index of the last occurrence of `c` in `s`, or -1.
pub open spec fn last_index_of(s: Seq<char>, c: char) -> int
    decreases s.len(),
{
    if s.len() == 0 {
        -1
    } else if s.last() == c {
        s.len() - 1
    } else {
        last_index_of(s.drop_last(), c)
    }
}

pub open spec fn ends_with_min(s: Seq<char>) -> bool {
    s.len() >= 3 && s[s.len() - 3] == 'm' && s[s.len() - 2] == 'i' && s[s.len() - 1] == 'n'
}

pub open spec fn lightning_suffix() -> Seq<char> {
    seq![' ', 'l', 'i', 'g', 'h', 't', 'n', 'i', 'n', 'g']
}

pub open spec fn ends_with_lightning(s: Seq<char>) -> bool {
    s.len() >= 10 && s.subrange(s.len() - 10, s.len() as int) == lightning_suffix()
}

/// The line without its trailing `min`.
pub open spec fn min_body(s: Seq<char>) -> Seq<char> {
    s.subrange(0, s.len() - 3)
}

/// Position of the space that ends the name of a `<name> <M>min` line.
pub open spec fn min_split(s: Seq<char>) -> int {
    last_index_of(min_body(s), ' ')
}

pub open spec fn min_digits(s: Seq<char>) -> Seq<char> {
    min_body(s).subrange(min_split(s) + 1, min_body(s).len() as int)
}

/// What a line describes: `Some((name, seconds))`, or `None` where it is no talk.
pub open spec fn parse_line(s: Seq<char>) -> Option<(Seq<char>, nat)> {
    if s.len() < MIN_LINE_LEN {
        None
    } else if ends_with_min(s) {
        let digits = min_digits(s);
        if min_split(s) >= 0 && digits.len() > 0 && all_digits(digits) && digits_value(digits)
            <= MAX_MINUTES {
            Some((min_body(s).subrange(0, min_split(s)), digits_value(digits) * 60))
        } else {
            None
        }
    } else if ends_with_lightning(s) {
        Some((s.subrange(0, s.len() - 10), LIGHTNING as nat))
    } else {
        None
    }
}

proof fn lemma_last_index_of(s: Seq<char>, c: char)
    ensures
        -1 <= last_index_of(s, c) < s.len(),
        last_index_of(s, c) >= 0 ==> s[last_index_of(s, c)] == c,
        forall|j: int| last_index_of(s, c) < j < s.len() ==> s[j] != c,
    decreases s.len(),
{
    if s.len() > 0 && s.last() != c {
        lemma_last_index_of(s.drop_last(), c);
        assert forall|j: int| last_index_of(s, c) < j < s.len() implies s[j] != c by {
            if j < s.len() - 1 {
                assert(s[j] == s.drop_last()[j]);
            }
        }
    }
}

proof fn lemma_digits_prefix(s: Seq<char>, i: int)
    requires
        0 <= i <= s.len(),
    ensures
        digits_value(s.subrange(0, i)) <= digits_value(s),
    decreases s.len(),
{
    if i < s.len() {
        lemma_digits_prefix(s.drop_last(), i);
        assert(s.drop_last().subrange(0, i) =~= s.subrange(0, i));
    } else {
        assert(s.subrange(0, i) =~= s);
    }
}

/// Index of the last `c` in `s`, or `None`.
fn find_last(s: &str, end: usize, c: char) -> (r: Option<usize>)
    requires
        end <= s@.len(),
    ensures
        match r {
            Some(k) => k as int == last_index_of(s@.subrange(0, end as int), c),
            None => last_index_of(s@.subrange(0, end as int), c) == -1,
        },
{
    let mut k: usize = end;
    while k > 0
        invariant
            k <= end <= s@.len(),
            last_index_of(s@.subrange(0, end as int), c) == last_index_of(
                s@.subrange(0, k as int),
                c,
            ),
        decreases k,
    {
        if s.get_char(k - 1) == c {
            return Some(k - 1);
        }
        assert(s@.subrange(0, k as int).drop_last() =~= s@.subrange(0, k - 1));
        k = k - 1;
    }
    None
}

/// Reads the decimal number written in `s[from..to]`, as minutes.
fn parse_minutes(s: &str, from: usize, to: usize) -> (r: Option<u64>)
    requires
        from <= to <= s@.len(),
    ensures
        match r {
            Some(m) => {
                &&& from < to
                &&& all_digits(s@.subrange(from as int, to as int))
                &&& m == digits_value(s@.subrange(from as int, to as int))
                &&& m <= MAX_MINUTES
            },
            None => !(from < to && all_digits(s@.subrange(from as int, to as int)) && digits_value(
                s@.subrange(from as int, to as int),
            ) <= MAX_MINUTES),
        },
{
    if from == to {
        return None;
    }
    let ghost d = s@.subrange(from as int, to as int);
    let mut acc: u64 = 0;
    let mut i: usize = from;
    while i < to
        invariant
            from <= i <= to <= s@.len(),
            d == s@.subrange(from as int, to as int),
            all_digits(d.subrange(0, i - from)),
            acc == digits_value(d.subrange(0, i - from)),
            acc <= MAX_MINUTES,
        decreases to - i,
    {
        let c = s.get_char(i);
        if !('0' <= c && c <= '9') {
            assert(d[i - from] == c);
            return None;
        }
        let v: u64 = (c as u32 - '0' as u32) as u64;
        proof {
            assert(d.subrange(0, i + 1 - from).drop_last() =~= d.subrange(0, i - from));
            assert(d.subrange(0, i + 1 - from).last() == c);
        }
        if acc > (MAX_MINUTES - v) / 10 {
            proof {
                assert(acc * 10 + v > MAX_MINUTES) by (nonlinear_arith)
                    requires
                        acc > (MAX_MINUTES - v) / 10,
                        v <= 9,
                ;
                lemma_digits_prefix(d, i + 1 - from);
            }
            return None;
        }
        proof {
            assert(acc * 10 + v <= MAX_MINUTES) by (nonlinear_arith)
                requires
                    acc <= (MAX_MINUTES - v) / 10,
                    v <= 9,
            ;
        }
        acc = acc * 10 + v;
        i = i + 1;
    }
    assert(d.subrange(0, to - from) =~= d);
    Some(acc)
}

impl Talk {
    /// The room the talk takes in a session.
    pub fn weight(&self) -> (r: u64)
        ensures
            r == self.duration,
    {
        self.duration
    }

    /// What the talk is worth to a session: the time it fills.
    pub fn value(&self) -> (r: u64)
        ensures
            r == self.duration,
    {
        self.weight()
    }

    /// An equal talk held apart from this one.
    pub fn copy(&self) -> (r: Talk)
        ensures
            r == *self,
    {
        Talk { name: self.name.clone(), duration: self.duration }
    }

    /// Reads a talk from a line `<name> <M>min` or `<name> lightning`.
    pub fn from_str(s: &str) -> (r: Result<Talk, ConferenceError>)
        ensures
            match parse_line(s@) {
                Some((name, secs)) => r matches Ok(t) && t.name@ == name && t.duration == secs,
                None => r matches Err(e) && e matches ConferenceError::Parse(l) && l@ == s@,
            },
    {
        let n = s.unicode_len();
        if n < MIN_LINE_LEN {
            return Err(ConferenceError::Parse(s.to_string()));
        }
        if s.get_char(n - 3) == 'm' && s.get_char(n - 2) == 'i' && s.get_char(n - 1) == 'n' {
            let body_end = n - 3;
            proof {
                lemma_last_index_of(min_body(s@), ' ');
                assert(min_body(s@) =~= s@.subrange(0, body_end as int));
            }
            match find_last(s, body_end, ' ') {
                Some(k) => {
                    match parse_minutes(s, k + 1, body_end) {
                        Some(m) => {
                            proof {
                                assert(min_digits(s@) =~= s@.subrange(k + 1, body_end as int));
                                assert(min_body(s@).subrange(0, k as int) =~= s@.subrange(0, k as int));
                            }
                            let name = s.substring_char(0, k).to_string();
                            Ok(Talk { name, duration: m * 60 })
                        },
                        None => {
                            assert(min_digits(s@) =~= s@.subrange(k + 1, body_end as int));
                            Err(ConferenceError::Parse(s.to_string()))
                        },
                    }
                },
                None => Err(ConferenceError::Parse(s.to_string())),
            }
        } else if ends_with_lightning_exec(s, n) {
            let name = s.substring_char(0, n - 10).to_string();
            Ok(Talk { name, duration: LIGHTNING })
        } else {
            Err(ConferenceError::Parse(s.to_string()))
        }
    }
}

fn ends_with_lightning_exec(s: &str, n: usize) -> (r: bool)
    requires
        n == s@.len(),
    ensures
        r == ends_with_lightning(s@),
{
    if n < 10 {
        return false;
    }
    let suffix = " lightning";
    proof {
        reveal_strlit(" lightning");
        assert(suffix@ =~= lightning_suffix());
    }
    let mut i: usize = 0;
    while i < 10
        invariant
            n == s@.len() >= 10,
            suffix@ == lightning_suffix(),
            i <= 10,
            forall|j: int| 0 <= j < i ==> s@[n - 10 + j] == lightning_suffix()[j],
        decreases 10 - i,
    {
        if s.get_char(n - 10 + i) != suffix.get_char(i) {
            assert(s@.subrange(n - 10, n as int)[i as int] != lightning_suffix()[i as int]);
            return false;
        }
        i = i + 1;
    }
    assert(s@.subrange(n - 10, n as int) =~= lightning_suffix());
    true
}

} // verus!
