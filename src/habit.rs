//! One habit: its name and the dates, as `YYYY-MM-DD` text, on which it was
//! done.
use chrono::Datelike;
use vstd::prelude::*;

use crate::streak::{day_set, streak_of_days, walk_streak};

verus! {

/// The day number (days from the start of the Common Era, the first of
/// January of year 1 being day 1) of a `YYYY-MM-DD` text, or `None` where
/// the text is no valid calendar date in that form.
pub uninterp spec fn day_number_of(text: Seq<char>) -> Option<int>;

/// Relies on chrono's `NaiveDate::parse_from_str` with the format
/// `%Y-%m-%d`, read back through `Datelike::num_days_from_ce`: the result
/// depends on the text alone.
#[verifier::external_body]
fn parse_day(text: &str) -> (r: Option<i32>)
    ensures
        match r {
            Some(d) => day_number_of(text@) == Some(d as int),
            None => day_number_of(text@) == None::<int>,
        },
{
    match chrono::NaiveDate::parse_from_str(text, "%Y-%m-%d") {
        Ok(date) => Some(date.num_days_from_ce()),
        Err(_) => None,
    }
}

/// The day numbers of those completion texts that read as dates.
pub open spec fn completed_days(texts: Seq<Seq<char>>) -> Set<int> {
    Set::new(|d: int| exists|j: int| 0 <= j < texts.len() && day_number_of(#[trigger] texts[j]) == Some(d))
}

/// A tracked habit.
pub struct Habit {
    pub name: String,
    pub completions: Vec<String>,
}

impl Habit {
    /// The completion dates as text.
    pub open spec fn completion_texts(&self) -> Seq<Seq<char>> {
        self.completions@.map_values(|s: String| s@)
    }

    /// A habit named `name` that has not been done yet.
    pub fn new(name: String) -> (r: Habit)
        ensures
            r.name@ == name@,
            r.completions@.len() == 0,
    {
        Habit { name, completions: Vec::new() }
    }

    /// An equal copy.
    pub fn copy(&self) -> (r: Habit)
        ensures
            r.name@ == self.name@,
            r.completions@ == self.completions@,
    {
        let completions = self.completions.clone();
        assert(completions@ =~= self.completions@);
        Habit { name: self.name.clone(), completions }
    }

    /// The day numbers of the completions that read as dates; those that do
    /// not are left out.
    pub fn completion_days(&self) -> (r: Vec<i32>)
        ensures
            day_set(r@) == completed_days(self.completion_texts()),
    {
        let ghost texts = self.completion_texts();
        let mut days: Vec<i32> = Vec::new();
        let mut i: usize = 0;
        while i < self.completions.len()
            invariant
                i <= self.completions.len(),
                texts == self.completion_texts(),
                forall|d: int| #[trigger] day_set(days@).contains(d) <==>
                    exists|j: int| 0 <= j < i && day_number_of(#[trigger] texts[j]) == Some(d),
            decreases self.completions.len() - i,
        {
            let parsed = parse_day(self.completions[i].as_str());
            let ghost before = days@;
            match parsed {
                Some(d) => {
                    days.push(d);
                    proof {
                        assert forall|e: int| #[trigger] day_set(days@).contains(e) <==>
                            exists|j: int| 0 <= j < i + 1 && day_number_of(#[trigger] texts[j]) == Some(e) by {
                            let m = days@.map_values(|x: i32| x as int);
                            let mb = before.map_values(|x: i32| x as int);
                            if day_set(days@).contains(e) {
                                let k = choose|k: int| 0 <= k < m.len() && m[k] == e;
                                if k < before.len() {
                                    assert(mb[k] == e);
                                    assert(day_set(before).contains(e));
                                } else {
                                    assert(day_number_of(texts[i as int]) == Some(e));
                                }
                            }
                            if exists|j: int| 0 <= j < i + 1 && day_number_of(#[trigger] texts[j]) == Some(e) {
                                let j = choose|j: int| 0 <= j < i + 1 && day_number_of(#[trigger] texts[j]) == Some(e);
                                if j < i {
                                    assert(day_set(before).contains(e));
                                    let k = choose|k: int| 0 <= k < mb.len() && mb[k] == e;
                                    assert(m[k] == e);
                                } else {
                                    assert(m[before.len() as int] == e);
                                }
                            }
                        }
                    }
                },
                None => {
                    proof {
                        assert forall|e: int| #[trigger] day_set(days@).contains(e) <==>
                            exists|j: int| 0 <= j < i + 1 && day_number_of(#[trigger] texts[j]) == Some(e) by {
                            if exists|j: int| 0 <= j < i + 1 && day_number_of(#[trigger] texts[j]) == Some(e) {
                                let j = choose|j: int| 0 <= j < i + 1 && day_number_of(#[trigger] texts[j]) == Some(e);
                                assert(j != i);
                            }
                        }
                    }
                },
            }
            i += 1;
        }
        assert(day_set(days@) =~= completed_days(texts));
        days
    }

    /// The current streak on the day numbered `today`: how many consecutive
    /// days, counting back from `today`, the habit was done, or 0 where a
    /// completion is dated after `today`. Completions that do not read as
    /// dates are passed over.
    pub fn calculate_streak(&self, today: i32) -> (r: usize)
        ensures
            walk_streak(completed_days(self.completion_texts()), today as int, r as int),
    {
        let days = self.completion_days();
        streak_of_days(&days, today)
    }
}

} // verus!
