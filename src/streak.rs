//! Calendar days as day numbers, and the run of consecutive days ending at a
//! reference day.
use vstd::prelude::*;
use vstd::seq_lib::seq_to_set_is_finite;
use vstd::set_lib::*;

verus! {

/// The set of day numbers held in `days`.
pub open spec fn day_set(days: Seq<i32>) -> Set<int> {
    days.map_values(|d: i32| d as int).to_set()
}

/// `n` is the length of the run of consecutive days that ends at `today` and
/// lies wholly in `days`: the `n` days up to `today` are all there, the one
/// before them is not.
pub open spec fn is_streak(days: Set<int>, today: int, n: int) -> bool {
    &&& 0 <= n
    &&& forall|i: int| 0 <= i < n ==> #[trigger] days.contains(today - i)
    &&& !days.contains(today - n)
}

/// `days` holds a day after `today`.
pub open spec fn has_later_day(days: Set<int>, today: int) -> bool {
    exists|d: int| days.contains(d) && d > today
}

/// `n` is the streak on `today`: the walk over the days, newest first,
/// expects `today`, then each day before it, and stops at the first day that
/// is not the one expected. A day after `today` comes first and stops the
/// walk at once, so the streak is then 0; otherwise it is the run of
/// consecutive days that ends at `today`.
pub open spec fn walk_streak(days: Set<int>, today: int, n: int) -> bool {
    if has_later_day(days, today) {
        n == 0
    } else {
        is_streak(days, today, n)
    }
}

/// A streak is determined by the set of days and the reference day.
pub proof fn lemma_walk_streak_unique(days: Set<int>, today: int, n: int, m: int)
    requires
        walk_streak(days, today, n),
        walk_streak(days, today, m),
    ensures
        n == m,
{
    if !has_later_day(days, today) {
        lemma_streak_unique(days, today, n, m);
    }
}

/// A run length is determined by the set of days and the reference day.
pub proof fn lemma_streak_unique(days: Set<int>, today: int, n: int, m: int)
    requires
        is_streak(days, today, n),
        is_streak(days, today, m),
    ensures
        n == m,
{
    if n < m {
        assert(days.contains(today - n));
    } else if m < n {
        assert(days.contains(today - m));
    }
}

/// Done today, yesterday and the day before, but not the day before that,
/// and on no day after today: the streak is three.
pub proof fn lemma_three_day_streak(days: Set<int>, today: int, n: int)
    requires
        !has_later_day(days, today),
        days.contains(today),
        days.contains(today - 1),
        days.contains(today - 2),
        !days.contains(today - 3),
        walk_streak(days, today, n),
    ensures
        n == 3,
{
    assert(is_streak(days, today, 3)) by {
        assert forall|i: int| 0 <= i < 3 implies #[trigger] days.contains(today - i) by {
            if i == 1 {
                assert(days.contains(today - 1));
            } else if i == 2 {
                assert(days.contains(today - 2));
            }
        }
    }
    lemma_streak_unique(days, today, n, 3);
}

/// Not done today: the streak is zero, whatever came before.
pub proof fn lemma_no_streak_without_today(days: Set<int>, today: int, n: int)
    requires
        !days.contains(today),
        walk_streak(days, today, n),
    ensures
        n == 0,
{
    if !has_later_day(days, today) && n > 0 {
        assert(days.contains(today - 0));
    }
}

/// Done today and three days ago, but on neither day between, and on no day
/// after today: the streak is one.
pub proof fn lemma_gap_ends_streak(days: Set<int>, today: int, n: int)
    requires
        !has_later_day(days, today),
        days.contains(today),
        !days.contains(today - 1),
        !days.contains(today - 2),
        days.contains(today - 3),
        walk_streak(days, today, n),
    ensures
        n == 1,
{
    assert(is_streak(days, today, 1)) by {
        assert forall|i: int| 0 <= i < 1 implies #[trigger] days.contains(today - i) by {
            assert(i == 0);
        }
    }
    lemma_streak_unique(days, today, n, 1);
}

/// Whether the day numbered `day` is among `days`.
pub fn contains_day(days: &Vec<i32>, day: i64) -> (r: bool)
    ensures
        r == day_set(days@).contains(day as int),
{
    let ghost mapped = days@.map_values(|d: i32| d as int);
    let mut i: usize = 0;
    while i < days.len()
        invariant
            i <= days.len(),
            mapped == days@.map_values(|d: i32| d as int),
            forall|j: int| 0 <= j < i ==> mapped[j] != day as int,
        decreases days.len() - i,
    {
        if days[i] as i64 == day {
            assert(mapped[i as int] == day as int);
            return true;
        }
        i += 1;
    }
    proof {
        assert(!mapped.contains(day as int));
    }
    false
}

/// Whether `days` holds a day after `today`.
pub fn has_day_after(days: &Vec<i32>, today: i32) -> (r: bool)
    ensures
        r == has_later_day(day_set(days@), today as int),
{
    let ghost mapped = days@.map_values(|d: i32| d as int);
    let mut i: usize = 0;
    while i < days.len()
        invariant
            i <= days.len(),
            mapped == days@.map_values(|d: i32| d as int),
            forall|j: int| 0 <= j < i ==> mapped[j] <= today,
        decreases days.len() - i,
    {
        if days[i] > today {
            assert(mapped[i as int] > today);
            assert(day_set(days@).contains(mapped[i as int]));
            return true;
        }
        i += 1;
    }
    proof {
        assert forall|d: int| day_set(days@).contains(d) implies d <= today by {
            let j = choose|j: int| 0 <= j < mapped.len() && mapped[j] == d;
        }
    }
    false
}

/// The streak on `today`: the days are walked newest first, expecting
/// `today` and then each day before it, and the walk stops at the first day
/// that is not the one expected. So a day after `today` gives 0, as does a
/// missing `today`; otherwise the result is the number of consecutive days,
/// counting back from `today`, that are all among `days`.
pub fn streak_of_days(days: &Vec<i32>, today: i32) -> (r: usize)
    ensures
        walk_streak(day_set(days@), today as int, r as int),
{
    if has_day_after(days, today) {
        return 0;
    }
    let ghost set = day_set(days@);
    let ghost mapped = days@.map_values(|d: i32| d as int);
    let mut count: usize = 0;
    let mut expected: i64 = today as i64;
    loop
        invariant
            set == day_set(days@),
            mapped == days@.map_values(|d: i32| d as int),
            set == mapped.to_set(),
            !has_later_day(set, today as int),
            expected == today - count,
            count <= days.len(),
            forall|i: int| 0 <= i < count ==> #[trigger] set.contains(today - i),
        decreases days.len() - count,
    {
        if !contains_day(days, expected) {
            return count;
        }
        proof {
            let range = set_int_range(today - count, today + 1);
            lemma_int_range(today - count, today + 1);
            assert forall|d: int| range.contains(d) implies set.contains(d) by {
                if d != expected {
                    assert(set.contains(today - (today - d)));
                }
            }
            seq_to_set_is_finite(mapped);
            lemma_len_subset(range, set);
            mapped.lemma_cardinality_of_set();
            let j = choose|j: int| 0 <= j < mapped.len() && mapped[j] == expected;
            assert(mapped[j] == days@[j] as int);
        }
        count += 1;
        expected -= 1;
    }
}

} // verus!
