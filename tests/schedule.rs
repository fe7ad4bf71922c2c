use conference_tracks::format::{decimal_string, format_time};
use conference_tracks::knapsack::knapsack01_dyn;
use conference_tracks::pool::schedule;
use conference_tracks::talk::{Talk, LIGHTNING};
use conference_tracks::tracks::{answers, parse_talks, schedule_tracks, sort_talks};
use conference_tracks::ConferenceError;

fn talk(name: &str, minutes: u64) -> Talk {
    Talk { name: name.to_string(), duration: minutes * 60 }
}

fn lines(input: &[&str]) -> Vec<String> {
    input.iter().map(|l| l.to_string()).collect()
}

fn run(input: &[&str]) -> (Result<(), ConferenceError>, Vec<String>) {
    let mut output = Vec::new();
    let r = answers(&lines(input), &mut output);
    (r, output)
}

#[test]
fn parses_minutes_form() {
    let t = Talk::from_str("Overdoing it in Python 45min").unwrap();
    assert_eq!(t.name, "Overdoing it in Python");
    assert_eq!(t.duration, 45 * 60);
}

#[test]
fn parses_lightning_form() {
    let t = Talk::from_str("Lua for the Masses lightning").unwrap();
    assert_eq!(t.name, "Lua for the Masses");
    assert_eq!(t.duration, LIGHTNING);
}

#[test]
fn parses_long_minute_counts() {
    let t = Talk::from_str("Marathon 300min").unwrap();
    assert_eq!(t.name, "Marathon");
    assert_eq!(t.duration, 18000);
}

#[test]
fn rejects_short_line() {
    assert_eq!(Talk::from_str("A 5min"), Err(ConferenceError::Parse("A 5min".to_string())));
}

#[test]
fn rejects_unknown_suffix() {
    assert_eq!(
        Talk::from_str("Some talk 45 minutes"),
        Err(ConferenceError::Parse("Some talk 45 minutes".to_string()))
    );
}

#[test]
fn rejects_non_numeric_minutes() {
    assert_eq!(
        Talk::from_str("Some talk xxmin"),
        Err(ConferenceError::Parse("Some talk xxmin".to_string()))
    );
    assert_eq!(
        Talk::from_str("Sometalk45min"),
        Err(ConferenceError::Parse("Sometalk45min".to_string()))
    );
    assert_eq!(
        Talk::from_str("Some talk min"),
        Err(ConferenceError::Parse("Some talk min".to_string()))
    );
}

#[test]
fn rejects_minutes_that_overflow() {
    let line = "Forever 99999999999999999999min";
    assert_eq!(Talk::from_str(line), Err(ConferenceError::Parse(line.to_string())));
}

#[test]
fn parse_talks_skips_empty_lines_and_keeps_order() {
    let talks = parse_talks(&lines(&["B talk 30min", "", "A talk lightning"])).unwrap();
    assert_eq!(talks, vec![talk("B talk", 30), Talk { name: "A talk".to_string(), duration: 300 }]);
}

#[test]
fn parse_talks_reports_first_bad_line() {
    let r = parse_talks(&lines(&["Good talk 30min", "Bad one", "Worse"]));
    assert_eq!(r, Err(ConferenceError::Parse("Bad one".to_string())));
}

#[test]
fn weight_and_value_are_the_duration() {
    let t = talk("T", 45);
    assert_eq!(t.weight(), 2700);
    assert_eq!(t.value(), 2700);
}

#[test]
fn format_time_values() {
    assert_eq!(format_time(9 * 3600), "09:00AM");
    assert_eq!(format_time(10 * 3600 + 45 * 60), "10:45AM");
    assert_eq!(format_time(12 * 3600), "12:00PM");
    assert_eq!(format_time(13 * 3600 + 5 * 60), "01:05PM");
    assert_eq!(format_time(0), "12:00AM");
    assert_eq!(format_time(17 * 3600), "05:00PM");
}

#[test]
fn decimal_string_values() {
    assert_eq!(decimal_string(0), "0");
    assert_eq!(decimal_string(7), "7");
    assert_eq!(decimal_string(120), "120");
    assert_eq!(decimal_string(u64::MAX), u64::MAX.to_string());
}

#[test]
fn knapsack_finds_the_exact_optimum() {
    // Greedy by size would take 50 and stop at 50; the optimum is 30 + 30.
    let items = vec![talk("a", 30), talk("b", 30), talk("c", 50)];
    let chosen = knapsack01_dyn(&items, 60 * 60);
    assert_eq!(chosen, vec![1, 0]);
}

#[test]
fn knapsack_nothing_fits() {
    let items = vec![talk("a", 200), talk("b", 250)];
    assert_eq!(knapsack01_dyn(&items, 180 * 60), Vec::<usize>::new());
}

#[test]
fn knapsack_fills_exactly() {
    let items = vec![talk("a", 60), talk("b", 45), talk("c", 75), talk("d", 90)];
    let chosen = knapsack01_dyn(&items, 180 * 60);
    let sum: u64 = chosen.iter().map(|&i| items[i].duration).sum();
    assert_eq!(sum, 180 * 60);
}

#[test]
fn schedule_removes_exactly_the_chosen_talks() {
    let mut pool = vec![talk("a", 30), talk("b", 30), talk("c", 50), talk("d", 200)];
    let session = schedule(60 * 60, &mut pool);
    assert_eq!(session, vec![talk("b", 30), talk("a", 30)]);
    assert_eq!(pool, vec![talk("c", 50), talk("d", 200)]);
}

#[test]
fn schedule_keeps_talks_with_equal_names_apart() {
    let mut pool = vec![talk("same", 30), talk("same", 30), talk("same", 30)];
    let session = schedule(60 * 60, &mut pool);
    assert_eq!(session.len(), 2);
    assert_eq!(pool.len(), 1);
}

#[test]
fn schedule_with_nothing_fitting_leaves_pool() {
    let mut pool = vec![talk("x", 300)];
    let session = schedule(180 * 60, &mut pool);
    assert!(session.is_empty());
    assert_eq!(pool, vec![talk("x", 300)]);
}

#[test]
fn format_writes_times_and_event() {
    let mut out = Vec::new();
    let session = vec![talk("A", 60), Talk { name: "B".to_string(), duration: LIGHTNING }];
    let end = conference_tracks::format::format(9 * 3600, &session, "Lunch", &mut out);
    assert_eq!(end, 9 * 3600 + 65 * 60);
    assert_eq!(out, vec!["09:00AM A 60min", "10:00AM B lightning", "10:05AM Lunch"]);
}

#[test]
fn formatting_twice_gives_the_same_text() {
    let session = vec![talk("A", 30), talk("B", 45)];
    let mut first = Vec::new();
    let mut second = Vec::new();
    conference_tracks::format::format(13 * 3600, &session, "Networking Event", &mut first);
    conference_tracks::format::format(13 * 3600, &session, "Networking Event", &mut second);
    assert_eq!(first, second);
}

#[test]
fn successive_start_times_add_durations() {
    let session = vec![talk("A", 45), talk("B", 30), talk("C", 60)];
    let mut out = Vec::new();
    conference_tracks::format::format(9 * 3600, &session, "Lunch", &mut out);
    let times: Vec<&str> = out.iter().map(|l| &l[..7]).collect();
    assert_eq!(times, vec!["09:00AM", "09:45AM", "10:15AM", "11:15AM"]);
}

#[test]
fn sort_is_stable_by_duration() {
    let talks = vec![talk("x", 60), talk("y", 30), talk("z", 60), talk("w", 30)];
    let sorted = sort_talks(&talks);
    assert_eq!(sorted, vec![talk("y", 30), talk("w", 30), talk("x", 60), talk("z", 60)]);
}

#[test]
fn scenario_three_talks_fill_one_morning() {
    let (r, out) = run(&[
        "Writing Fast Tests Against Enterprise Java 60min",
        "Overdoing it in Python 45min",
        "Lua for the Masses lightning",
    ]);
    assert_eq!(r, Ok(()));
    assert_eq!(
        out,
        vec![
            "Track 1",
            "09:00AM Writing Fast Tests Against Enterprise Java 60min",
            "10:00AM Overdoing it in Python 45min",
            "10:45AM Lua for the Masses lightning",
            "10:50AM Lunch",
            "01:00PM Networking Event",
        ]
    );
}

#[test]
fn scenario_oversized_talk_is_stranded() {
    let (r, out) = run(&["Endless Keynote 300min", "Short Intro 30min"]);
    assert_eq!(r, Err(ConferenceError::Unschedulable(1)));
    assert_eq!(out[0], "Track 1");
    assert_eq!(out[1], "09:00AM Short Intro 30min");
    assert!(out.iter().all(|l| !l.contains("Endless Keynote")));
}

#[test]
fn scenario_bad_line_fails_before_output() {
    let (r, out) = run(&["BadLine"]);
    assert_eq!(r, Err(ConferenceError::Parse("BadLine".to_string())));
    assert!(out.is_empty());
}

#[test]
fn scenario_empty_input_writes_nothing() {
    let (r, out) = run(&[]);
    assert_eq!(r, Ok(()));
    assert!(out.is_empty());
}

#[test]
fn every_talk_appears_once_and_sessions_fit() {
    let input = [
        "Writing Fast Tests Against Enterprise Java 60min",
        "Overdoing it in Python 45min",
        "Lua for the Masses lightning",
        "Ruby Errors from Mismatched Gem Versions 45min",
        "Common Ruby Errors 45min",
        "Rails for Python Developers lightning",
        "Communicating Over Distance 60min",
        "Accounting-Driven Development 45min",
        "Woah 30min",
        "Sit Down and Write 30min",
        "Pair Programming vs Noise 45min",
        "Rails Magic 60min",
        "Ruby on Rails: Why We Should Move On 60min",
        "Clojure Ate Scala (on my project) 45min",
        "Programming in the Boondocks of Seattle 30min",
        "Ruby vs. Clojure for Back-End Development 30min",
        "Ruby on Rails Legacy App Maintenance 60min",
        "A World Without HackerNews 30min",
        "User Interface CSS in Rails Apps 30min",
    ];
    let (r, out) = run(&input);
    assert_eq!(r, Ok(()));
    let mut expected: Vec<String> = input.iter().map(|l| l.to_string()).collect();
    let mut printed: Vec<String> = out
        .iter()
        .filter(|l| l.len() > 8 && !l.ends_with("Lunch") && !l.ends_with("Networking Event"))
        .map(|l| l[8..].to_string())
        .collect();
    expected.sort();
    printed.sort();
    assert_eq!(printed, expected);
    assert_eq!(out.iter().filter(|l| l.starts_with("Track ")).count(), 2);
    assert_eq!(out.iter().filter(|l| l.is_empty()).count(), 1);
    for l in &out {
        if l.ends_with("Lunch") {
            assert!(l.as_str() <= "12:00PM Lunch");
        }
        if l.ends_with("Networking Event") {
            assert!(l.as_str() <= "05:00PM Networking Event");
        }
    }
}

#[test]
fn schedule_tracks_numbers_tracks_and_separates_them() {
    let pool = vec![talk("a", 180), talk("b", 180), talk("c", 240)];
    let mut out = Vec::new();
    assert_eq!(schedule_tracks(pool, &mut out), Ok(()));
    assert_eq!(
        out,
        vec![
            "Track 1",
            "09:00AM a 180min",
            "12:00PM Lunch",
            "01:00PM c 240min",
            "05:00PM Networking Event",
            "",
            "Track 2",
            "09:00AM b 180min",
            "12:00PM Lunch",
            "01:00PM Networking Event",
        ]
    );
}

#[test]
fn zero_length_talk_is_never_picked() {
    let (r, out) = run(&["Silence 00min"]);
    assert_eq!(r, Err(ConferenceError::Unschedulable(1)));
    assert_eq!(out, vec!["Track 1", "09:00AM Lunch", "01:00PM Networking Event"]);
}

#[test]
fn sessions_respect_their_room() {
    let input = ["Long A 170min", "Long B 170min", "Long C 230min", "Mid D 20min", "Mid E 15min"];
    let (r, out) = run(&input);
    assert_eq!(r, Ok(()));
    let lunch: Vec<&String> = out.iter().filter(|l| l.ends_with("Lunch")).collect();
    for l in lunch {
        assert!(l.ends_with("AM Lunch") || l.as_str() == "12:00PM Lunch");
    }
}
