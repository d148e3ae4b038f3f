use chrono::{Datelike, NaiveDate};
use habit_tracker::habit::Habit;
use habit_tracker::streak::streak_of_days;
use habit_tracker::tracker::{AddOutcome, DoneOutcome, HabitTracker, LoadError};

fn day(y: i32, m: u32, d: u32) -> i32 {
    NaiveDate::from_ymd_opt(y, m, d).unwrap().num_days_from_ce()
}

fn s(text: &str) -> String {
    text.to_string()
}

fn habit_with(name: &str, dates: &[&str]) -> Habit {
    let mut h = Habit::new(s(name));
    for d in dates {
        h.completions.push(s(d));
    }
    h
}

#[test]
fn new_habit_has_no_completions() {
    let h = Habit::new(s("reading"));
    assert_eq!(h.name, "reading");
    assert!(h.completions.is_empty());
}

#[test]
fn added_habit_is_found_with_no_completions() {
    let mut t = HabitTracker::new();
    assert_eq!(t.add_habit(s("workout")), AddOutcome::Added);
    let h = t.habit(&s("workout")).unwrap();
    assert_eq!(h.name, "workout");
    assert_eq!(h.completions.len(), 0);
    assert!(t.habit(&s("Workout")).is_none());
}

#[test]
fn adding_twice_keeps_the_first_habit() {
    let mut t = HabitTracker::new();
    t.add_habit(s("workout"));
    t.mark_done(s("workout"), s("2024-01-10"));
    assert_eq!(t.add_habit(s("workout")), AddOutcome::AlreadyExists);
    assert_eq!(t.habits.len(), 1);
    assert_eq!(t.habit(&s("workout")).unwrap().completions, vec![s("2024-01-10")]);
}

#[test]
fn marking_a_missing_habit_changes_nothing() {
    let mut t = HabitTracker::new();
    t.add_habit(s("reading"));
    t.mark_done(s("reading"), s("2024-01-09"));
    assert_eq!(t.mark_done(s("running"), s("2024-01-10")), DoneOutcome::NotFound);
    assert_eq!(t.habits.len(), 1);
    assert_eq!(t.habits[0].name, "reading");
    assert_eq!(t.habits[0].completions, vec![s("2024-01-09")]);
}

#[test]
fn marking_twice_on_one_date_records_it_once() {
    let mut t = HabitTracker::new();
    t.add_habit(s("workout"));
    assert_eq!(t.mark_done(s("workout"), s("2024-01-10")), DoneOutcome::Marked);
    assert_eq!(t.mark_done(s("workout"), s("2024-01-10")), DoneOutcome::AlreadyDone);
    let h = t.habit(&s("workout")).unwrap();
    assert_eq!(h.completions.iter().filter(|c| c.as_str() == "2024-01-10").count(), 1);
    assert_eq!(t.mark_done(s("workout"), s("2024-01-11")), DoneOutcome::Marked);
    assert_eq!(t.habit(&s("workout")).unwrap().completions.len(), 2);
}

#[test]
fn three_consecutive_days_give_streak_three() {
    let h = habit_with("workout", &["2024-01-08", "2024-01-10", "2024-01-09"]);
    assert_eq!(h.calculate_streak(day(2024, 1, 10)), 3);
}

#[test]
fn streak_is_zero_without_today() {
    let h = habit_with("workout", &["2024-01-09", "2024-01-08"]);
    assert_eq!(h.calculate_streak(day(2024, 1, 10)), 0);
}

#[test]
fn gap_ends_the_streak() {
    let h = habit_with("workout", &["2024-01-07", "2024-01-10"]);
    assert_eq!(h.calculate_streak(day(2024, 1, 10)), 1);
}

#[test]
fn completion_after_today_gives_streak_zero() {
    let h = habit_with("workout", &["2024-01-11", "2024-01-10", "2024-01-09"]);
    assert_eq!(h.calculate_streak(day(2024, 1, 10)), 0);
    assert_eq!(h.calculate_streak(day(2024, 1, 11)), 3);
    assert_eq!(streak_of_days(&vec![738896, 738895], 738895), 0);
    let mut t = HabitTracker::new();
    t.add_habit(s("workout"));
    t.mark_done(s("workout"), s("2024-01-10"));
    t.mark_done(s("workout"), s("2024-02-01"));
    assert_eq!(t.stats(day(2024, 1, 10))[0].streak, 0);
}

#[test]
fn empty_habit_has_streak_zero() {
    let h = Habit::new(s("workout"));
    assert_eq!(h.calculate_streak(day(2024, 1, 10)), 0);
}

#[test]
fn streak_crosses_month_and_year_ends() {
    let h = habit_with("workout", &["2023-12-31", "2024-01-01", "2023-12-30", "2023-12-28"]);
    assert_eq!(h.calculate_streak(day(2024, 1, 1)), 3);
    let leap = habit_with("workout", &["2024-02-28", "2024-02-29", "2024-03-01"]);
    assert_eq!(leap.calculate_streak(day(2024, 3, 1)), 3);
}

#[test]
fn unreadable_dates_are_passed_over() {
    let h = habit_with("workout", &["2024-01-10", "not a date", "2024-02-30", "2024-01-09"]);
    assert_eq!(h.calculate_streak(day(2024, 1, 10)), 2);
}

#[test]
fn completion_days_read_the_dates() {
    let h = habit_with("workout", &["2024-01-10", "garbage"]);
    assert_eq!(h.completion_days(), vec![day(2024, 1, 10)]);
    assert_eq!(day(2024, 1, 10), 738895);
}

#[test]
fn streak_of_day_numbers() {
    assert_eq!(streak_of_days(&vec![], 10), 0);
    assert_eq!(streak_of_days(&vec![10, 9, 8, 6], 10), 3);
    assert_eq!(streak_of_days(&vec![8, 10, 9, 10], 10), 3);
    assert_eq!(streak_of_days(&vec![9, 8], 10), 0);
    assert_eq!(streak_of_days(&vec![i32::MIN], i32::MIN), 1);
}

#[test]
fn list_gives_every_name_once() {
    let mut t = HabitTracker::new();
    assert!(t.list_habits().is_empty());
    t.add_habit(s("reading"));
    t.add_habit(s("workout"));
    t.add_habit(s("reading"));
    assert_eq!(t.list_habits(), vec![s("reading"), s("workout")]);
}

#[test]
fn stats_give_totals_and_streaks() {
    let mut t = HabitTracker::new();
    t.add_habit(s("reading"));
    t.add_habit(s("workout"));
    t.mark_done(s("workout"), s("2024-01-09"));
    t.mark_done(s("workout"), s("2024-01-10"));
    t.mark_done(s("reading"), s("2024-01-08"));
    let rows = t.stats(day(2024, 1, 10));
    assert_eq!(rows.len(), 2);
    assert_eq!((rows[0].name.as_str(), rows[0].total, rows[0].streak), ("reading", 1, 0));
    assert_eq!((rows[1].name.as_str(), rows[1].total, rows[1].streak), ("workout", 2, 2));
}

#[test]
fn save_then_load_gives_the_same_store() {
    let mut t = HabitTracker::new();
    t.add_habit(s("reading"));
    t.add_habit(s("workout"));
    t.mark_done(s("workout"), s("2024-01-09"));
    t.mark_done(s("workout"), s("2024-01-10"));
    let entries = t.save();
    assert_eq!(entries.len(), 2);
    assert_eq!(entries[1].0, "workout");
    let back = HabitTracker::load(Some(entries)).unwrap();
    assert_eq!(back.list_habits(), vec![s("reading"), s("workout")]);
    assert!(back.habit(&s("reading")).unwrap().completions.is_empty());
    assert_eq!(
        back.habit(&s("workout")).unwrap().completions,
        vec![s("2024-01-09"), s("2024-01-10")]
    );
}

#[test]
fn load_without_stored_state_is_empty() {
    let t = HabitTracker::load(None).unwrap();
    assert!(t.habits.is_empty());
    assert!(t.list_habits().is_empty());
}

#[test]
fn load_refuses_a_key_that_is_not_the_name() {
    let entries = vec![(s("run"), habit_with("walk", &[]))];
    assert_eq!(HabitTracker::load(Some(entries)).err(), Some(LoadError::DataCorruption));
}

#[test]
fn load_refuses_a_repeated_name() {
    let entries = vec![(s("run"), habit_with("run", &[])), (s("run"), habit_with("run", &["2024-01-01"]))];
    assert_eq!(HabitTracker::load(Some(entries)).err(), Some(LoadError::DataCorruption));
}

#[test]
fn load_refuses_a_repeated_date() {
    let entries = vec![(s("run"), habit_with("run", &["2024-01-01", "2024-01-01"]))];
    assert_eq!(HabitTracker::load(Some(entries)).err(), Some(LoadError::DataCorruption));
}

#[test]
fn add_done_done_stats_scenario() {
    let mut t = HabitTracker::load(None).unwrap();
    assert_eq!(t.add_habit(s("workout")), AddOutcome::Added);
    assert_eq!(t.mark_done(s("workout"), s("2024-01-10")), DoneOutcome::Marked);
    assert_eq!(t.mark_done(s("workout"), s("2024-01-10")), DoneOutcome::AlreadyDone);
    let rows = t.stats(day(2024, 1, 10));
    assert_eq!(rows.len(), 1);
    assert_eq!(rows[0].name, "workout");
    assert_eq!(rows[0].total, 1);
    assert_eq!(rows[0].streak, 1);
}
