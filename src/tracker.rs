//! The habit store: habits keyed by their unique names, and the operations
//! that read and change it.
use vstd::prelude::*;

use crate::habit::{completed_days, Habit};
use crate::streak::walk_streak;

verus! {

/// What adding a habit came to.
#[derive(Debug, Clone, Copy, PartialEq, Eq, Structural)]
pub enum AddOutcome {
    Added,
    AlreadyExists,
}

/// What marking a habit done came to.
#[derive(Debug, Clone, Copy, PartialEq, Eq, Structural)]
pub enum DoneOutcome {
    Marked,
    AlreadyDone,
    NotFound,
}

/// The store as a map from habit name to its completion texts.
pub open spec fn store_of(hs: Seq<Habit>) -> Map<Seq<char>, Seq<Seq<char>>> {
    Map::new(
        |k: Seq<char>| exists|i: int| 0 <= i < hs.len() && hs[i].name@ == k,
        |k: Seq<char>| hs[choose|i: int| 0 <= i < hs.len() && hs[i].name@ == k].completion_texts(),
    )
}

/// No two habits share a name.
pub open spec fn names_distinct(hs: Seq<Habit>) -> bool {
    forall|i: int, j: int| 0 <= i < j < hs.len() ==> hs[i].name@ != hs[j].name@
}

/// No habit holds a date twice.
pub open spec fn completions_distinct(hs: Seq<Habit>) -> bool {
    forall|i: int| 0 <= i < hs.len() ==> (#[trigger] hs[i]).completion_texts().no_duplicates()
}

/// Every completion collection of a store model holds each date at most once.
pub open spec fn store_wf(m: Map<Seq<char>, Seq<Seq<char>>>) -> bool {
    forall|k: Seq<char>| m.contains_key(k) ==> (#[trigger] m[k]).no_duplicates()
}

/// The store after adding `name`: unchanged where it is there already, else
/// with a new habit that has no completions.
pub open spec fn added(m: Map<Seq<char>, Seq<Seq<char>>>, name: Seq<char>) -> Map<Seq<char>, Seq<Seq<char>>> {
    if m.contains_key(name) {
        m
    } else {
        m.insert(name, Seq::empty())
    }
}

/// The store after marking `name` done on `date`: unchanged where there is
/// no such habit or the date is there already, else with the date appended.
pub open spec fn marked(m: Map<Seq<char>, Seq<Seq<char>>>, name: Seq<char>, date: Seq<char>) -> Map<Seq<char>, Seq<Seq<char>>> {
    if m.contains_key(name) && !m[name].contains(date) {
        m.insert(name, m[name].push(date))
    } else {
        m
    }
}

/// A name that was not there is, after adding it, there with no
/// completions.
pub proof fn lemma_add_then_lookup(m: Map<Seq<char>, Seq<Seq<char>>>, name: Seq<char>)
    requires
        !m.contains_key(name),
    ensures
        added(m, name).contains_key(name),
        added(m, name)[name].len() == 0,
{
}

/// Adding the same name twice changes nothing the second time: the habit
/// the first call left keeps its completions.
pub proof fn lemma_add_twice(m: Map<Seq<char>, Seq<Seq<char>>>, name: Seq<char>)
    ensures
        added(added(m, name), name) == added(m, name),
        added(added(m, name), name)[name] == added(m, name)[name],
        m.contains_key(name) ==> added(m, name)[name] == m[name],
{
}

/// Marking a name that is not there leaves the store as it was: the same
/// names, each with the same completions.
pub proof fn lemma_mark_missing(m: Map<Seq<char>, Seq<Seq<char>>>, name: Seq<char>, date: Seq<char>)
    requires
        !m.contains_key(name),
    ensures
        marked(m, name, date) == m,
        marked(m, name, date).dom().len() == m.dom().len(),
{
}

/// Marking a habit done twice on one date records that date exactly once,
/// and the store stays free of repeated dates.
pub proof fn lemma_mark_twice(m: Map<Seq<char>, Seq<Seq<char>>>, name: Seq<char>, date: Seq<char>)
    requires
        store_wf(m),
        m.contains_key(name),
    ensures
        store_wf(marked(marked(m, name, date), name, date)),
        marked(marked(m, name, date), name, date) == marked(m, name, date),
        ({
            let c = marked(marked(m, name, date), name, date)[name];
            exists|i: int| 0 <= i < c.len() && c[i] == date && forall|j: int| 0 <= j < c.len() && c[j] == date ==> j == i
        }),
{
    let once = marked(m, name, date);
    let c = once[name];
    if m[name].contains(date) {
        assert(c == m[name]);
    } else {
        assert(c == m[name].push(date));
        assert(c[c.len() - 1] == date);
        assert(c.no_duplicates()) by {
            assert forall|a: int, b: int| 0 <= a < b < c.len() implies c[a] != c[b] by {
                if b == c.len() - 1 {
                    assert(m[name][a] == c[a]);
                } else {
                    assert(m[name][a] == c[a] && m[name][b] == c[b]);
                }
            }
        }
        assert(store_wf(once)) by {
            assert forall|k: Seq<char>| once.contains_key(k) implies (#[trigger] once[k]).no_duplicates() by {
                if k != name {
                    assert(once[k] == m[k]);
                }
            }
        }
    }
    assert(c.contains(date));
    let i = choose|i: int| 0 <= i < c.len() && c[i] == date;
    assert(forall|j: int| 0 <= j < c.len() && c[j] == date ==> j == i) by {
        assert(c.no_duplicates());
    }
}

/// Entries that hold a well-formed tracker's habits, as saving gives them,
/// load back as the same store.
pub proof fn lemma_save_load(t: HabitTracker, e: Seq<(String, Habit)>)
    requires
        t.wf(),
        saved_as(t.habits@, e),
    ensures
        loaded(e) == Some(t@),
{
    let hs = t.habits@;
    let es = entry_habits(e);
    assert forall|i: int| 0 <= i < es.len() implies (#[trigger] es[i]).name@ == hs[i].name@
        && es[i].completion_texts() == hs[i].completion_texts() by {
        assert(es[i] == e[i].1);
        assert(es[i].completion_texts() =~= hs[i].completion_texts());
    }
    assert(names_distinct(es)) by {
        assert forall|i: int, j: int| 0 <= i < j < es.len() implies es[i].name@ != es[j].name@ by {
            assert(es[i].name@ == hs[i].name@ && es[j].name@ == hs[j].name@);
        }
    }
    assert(completions_distinct(es)) by {
        assert forall|i: int| 0 <= i < es.len() implies (#[trigger] es[i]).completion_texts().no_duplicates() by {
            assert(es[i].completion_texts() == hs[i].completion_texts());
            assert(hs[i].completion_texts().no_duplicates());
        }
    }
    assert(entries_valid(e)) by {
        assert forall|i: int| 0 <= i < e.len() implies (#[trigger] e[i]).0@ == e[i].1.name@ by {
            assert(es[i] == e[i].1);
        }
    }
    let m1 = store_of(es);
    let m2 = store_of(hs);
    assert forall|k: Seq<char>| m1.contains_key(k) <==> m2.contains_key(k) by {
        if m1.contains_key(k) {
            let i = choose|i: int| 0 <= i < es.len() && es[i].name@ == k;
            assert(hs[i].name@ == k);
        }
        if m2.contains_key(k) {
            let i = choose|i: int| 0 <= i < hs.len() && hs[i].name@ == k;
            assert(es[i].name@ == k);
        }
    }
    assert forall|k: Seq<char>| m1.contains_key(k) implies m1[k] == m2[k] by {
        let i = choose|i: int| 0 <= i < es.len() && es[i].name@ == k;
        lemma_store_at(es, i);
        lemma_store_at(hs, i);
    }
    assert(m1 =~= m2);
}

/// With distinct names, the habit at `i` is what the store holds under its name.
pub proof fn lemma_store_at(hs: Seq<Habit>, i: int)
    requires
        names_distinct(hs),
        0 <= i < hs.len(),
    ensures
        store_of(hs).contains_key(hs[i].name@),
        store_of(hs)[hs[i].name@] == hs[i].completion_texts(),
{
    let k = hs[i].name@;
    assert(exists|j: int| 0 <= j < hs.len() && hs[j].name@ == k) by {
        assert(hs[i].name@ == k);
    }
    let j = choose|j: int| 0 <= j < hs.len() && hs[j].name@ == k;
    assert(j == i);
}

/// Appending a habit under a new name adds that name to the store.
proof fn lemma_store_push(hs: Seq<Habit>, h: Habit)
    requires
        names_distinct(hs),
        !store_of(hs).contains_key(h.name@),
    ensures
        names_distinct(hs.push(h)),
        store_of(hs.push(h)) == store_of(hs).insert(h.name@, h.completion_texts()),
{
    let hs2 = hs.push(h);
    assert forall|i: int, j: int| 0 <= i < j < hs2.len() implies hs2[i].name@ != hs2[j].name@ by {
        if j == hs.len() {
            assert(hs[i].name@ == hs2[i].name@);
        }
    }
    let m1 = store_of(hs2);
    let m2 = store_of(hs).insert(h.name@, h.completion_texts());
    assert forall|k: Seq<char>| m1.contains_key(k) <==> m2.contains_key(k) by {
        if m1.contains_key(k) && k != h.name@ {
            let i = choose|i: int| 0 <= i < hs2.len() && hs2[i].name@ == k;
            assert(hs[i].name@ == k);
        }
        if store_of(hs).contains_key(k) {
            let i = choose|i: int| 0 <= i < hs.len() && hs[i].name@ == k;
            assert(hs2[i].name@ == k);
        }
        if k == h.name@ {
            assert(hs2[hs.len() as int].name@ == k);
        }
    }
    assert forall|k: Seq<char>| m1.contains_key(k) implies m1[k] == m2[k] by {
        let i = choose|i: int| 0 <= i < hs2.len() && hs2[i].name@ == k;
        lemma_store_at(hs2, i);
        if i < hs.len() {
            lemma_store_at(hs, i);
        }
    }
    assert(m1 =~= m2);
}

/// Replacing the habit at `i` by one of the same name replaces what the
/// store holds under that name.
proof fn lemma_store_update(hs: Seq<Habit>, i: int, h: Habit)
    requires
        names_distinct(hs),
        0 <= i < hs.len(),
        h.name@ == hs[i].name@,
    ensures
        names_distinct(hs.update(i, h)),
        store_of(hs.update(i, h)) == store_of(hs).insert(h.name@, h.completion_texts()),
{
    let hs2 = hs.update(i, h);
    assert forall|a: int, b: int| 0 <= a < b < hs2.len() implies hs2[a].name@ != hs2[b].name@ by {
        assert(hs2[a].name@ == hs[a].name@ && hs2[b].name@ == hs[b].name@);
    }
    let m1 = store_of(hs2);
    let m2 = store_of(hs).insert(h.name@, h.completion_texts());
    lemma_store_at(hs, i);
    assert forall|k: Seq<char>| m1.contains_key(k) <==> m2.contains_key(k) by {
        if m1.contains_key(k) {
            let j = choose|j: int| 0 <= j < hs2.len() && hs2[j].name@ == k;
            assert(hs[j].name@ == k);
        }
        if store_of(hs).contains_key(k) {
            let j = choose|j: int| 0 <= j < hs.len() && hs[j].name@ == k;
            assert(hs2[j].name@ == k);
        }
    }
    assert forall|k: Seq<char>| m1.contains_key(k) implies m1[k] == m2[k] by {
        let j = choose|j: int| 0 <= j < hs2.len() && hs2[j].name@ == k;
        lemma_store_at(hs2, j);
        if j != i {
            lemma_store_at(hs, j);
        }
    }
    assert(m1 =~= m2);
}

/// Whether `text` is among `texts`.
fn contains_text(texts: &Vec<String>, text: &String) -> (r: bool)
    ensures
        r == texts@.map_values(|s: String| s@).contains(text@),
{
    let ghost seen = texts@.map_values(|s: String| s@);
    let mut i: usize = 0;
    while i < texts.len()
        invariant
            i <= texts.len(),
            seen == texts@.map_values(|s: String| s@),
            forall|j: int| 0 <= j < i ==> seen[j] != text@,
        decreases texts.len() - i,
    {
        if texts[i] == *text {
            assert(seen[i as int] == text@);
            return true;
        }
        i += 1;
    }
    false
}

/// One line of the statistics: a habit's name, how often it was done, and
/// its current streak.
pub struct HabitStats {
    pub name: String,
    pub total: usize,
    pub streak: usize,
}

/// Why persisted habits could not be taken in.
#[derive(Debug, Clone, Copy, PartialEq, Eq, Structural)]
pub enum LoadError {
    /// A key differs from its habit's name, two habits share a name, or a
    /// habit holds a date twice.
    DataCorruption,
}

/// The habits of persisted entries, each under its key.
pub open spec fn entry_habits(e: Seq<(String, Habit)>) -> Seq<Habit> {
    e.map_values(|p: (String, Habit)| p.1)
}

/// Persisted entries are consistent: each key is its habit's name, names
/// are unique and no habit holds a date twice.
pub open spec fn entries_valid(e: Seq<(String, Habit)>) -> bool {
    &&& forall|i: int| 0 <= i < e.len() ==> (#[trigger] e[i]).0@ == e[i].1.name@
    &&& names_distinct(entry_habits(e))
    &&& completions_distinct(entry_habits(e))
}

/// The store that persisted entries hold, where they are consistent.
pub open spec fn loaded(e: Seq<(String, Habit)>) -> Option<Map<Seq<char>, Seq<Seq<char>>>> {
    if entries_valid(e) {
        Some(store_of(entry_habits(e)))
    } else {
        None
    }
}

/// `e` holds, in order, each of `hs` under its name, with the same name and
/// completions.
pub open spec fn saved_as(hs: Seq<Habit>, e: Seq<(String, Habit)>) -> bool {
    &&& e.len() == hs.len()
    &&& forall|i: int| 0 <= i < e.len() ==> {
        &&& (#[trigger] e[i]).0@ == hs[i].name@
        &&& e[i].1.name@ == hs[i].name@
        &&& e[i].1.completions@ == hs[i].completions@
    }
}

/// Whether no text occurs twice in `texts`.
fn no_repeated_text(texts: &Vec<String>) -> (r: bool)
    ensures
        r == texts@.map_values(|s: String| s@).no_duplicates(),
{
    let ghost seen = texts@.map_values(|s: String| s@);
    let mut i: usize = 0;
    while i < texts.len()
        invariant
            i <= texts.len(),
            seen == texts@.map_values(|s: String| s@),
            forall|a: int, b: int| 0 <= a < b < i ==> seen[a] != seen[b],
        decreases texts.len() - i,
    {
        let mut j: usize = 0;
        while j < i
            invariant
                j <= i < texts.len(),
                seen == texts@.map_values(|s: String| s@),
                forall|a: int, b: int| 0 <= a < b < i ==> seen[a] != seen[b],
                forall|a: int| 0 <= a < j ==> seen[a] != seen[i as int],
            decreases i - j,
        {
            if texts[j] == texts[i] {
                assert(seen[j as int] == seen[i as int]);
                return false;
            }
            j += 1;
        }
        i += 1;
    }
    true
}

/// All tracked habits.
pub struct HabitTracker {
    pub habits: Vec<Habit>,
}

impl View for HabitTracker {
    type V = Map<Seq<char>, Seq<Seq<char>>>;

    open spec fn view(&self) -> Map<Seq<char>, Seq<Seq<char>>> {
        store_of(self.habits@)
    }
}

impl HabitTracker {
    /// Names are unique and no habit holds a date twice.
    pub open spec fn wf(&self) -> bool {
        names_distinct(self.habits@) && completions_distinct(self.habits@)
    }

    /// A well-formed tracker's model holds each date at most once per habit.
    pub proof fn lemma_wf_store(&self)
        requires
            self.wf(),
        ensures
            store_wf(self@),
    {
        assert forall|k: Seq<char>| self@.contains_key(k) implies (#[trigger] self@[k]).no_duplicates() by {
            let i = choose|i: int| 0 <= i < self.habits@.len() && self.habits@[i].name@ == k;
            lemma_store_at(self.habits@, i);
        }
    }

    /// An empty tracker.
    pub fn new() -> (r: HabitTracker)
        ensures
            r.wf(),
            r@ == Map::<Seq<char>, Seq<Seq<char>>>::empty(),
    {
        let r = HabitTracker { habits: Vec::new() };
        assert(r@ =~= Map::<Seq<char>, Seq<Seq<char>>>::empty());
        r
    }

    /// Where the habit named `name` stands.
    fn position(&self, name: &String) -> (r: Option<usize>)
        requires
            self.wf(),
        ensures
            match r {
                Some(i) => i < self.habits.len() && self.habits@[i as int].name@ == name@,
                None => !self@.contains_key(name@),
            },
    {
        let mut i: usize = 0;
        while i < self.habits.len()
            invariant
                i <= self.habits.len(),
                forall|j: int| 0 <= j < i ==> self.habits@[j].name@ != name@,
            decreases self.habits.len() - i,
        {
            if self.habits[i].name == *name {
                return Some(i);
            }
            i += 1;
        }
        None
    }

    /// The habit named `name`, if it is tracked.
    pub fn habit(&self, name: &String) -> (r: Option<&Habit>)
        requires
            self.wf(),
        ensures
            r is Some == self@.contains_key(name@),
            r matches Some(h) ==> h.name@ == name@ && h.completion_texts() == self@[name@],
    {
        match self.position(name) {
            Some(i) => {
                proof {
                    lemma_store_at(self.habits@, i as int);
                }
                Some(&self.habits[i])
            },
            None => None,
        }
    }

    /// Starts tracking a habit named `name`, with no completions; where one
    /// of that name is tracked already, nothing changes.
    pub fn add_habit(&mut self, name: String) -> (r: AddOutcome)
        requires
            old(self).wf(),
        ensures
            final(self).wf(),
            final(self)@ == added(old(self)@, name@),
            r == (if old(self)@.contains_key(name@) {
                AddOutcome::AlreadyExists
            } else {
                AddOutcome::Added
            }),
    {
        match self.position(&name) {
            Some(i) => {
                proof {
                    lemma_store_at(self.habits@, i as int);
                }
                AddOutcome::AlreadyExists
            },
            None => {
                let habit = Habit::new(name);
                proof {
                    lemma_store_push(self.habits@, habit);
                    assert(habit.completion_texts() =~= Seq::<Seq<char>>::empty());
                }
                self.habits.push(habit);
                proof {
                    assert forall|i: int| 0 <= i < self.habits@.len() implies (#[trigger] self.habits@[i]).completion_texts().no_duplicates() by {
                        if i < old(self).habits@.len() {
                            assert(self.habits@[i] == old(self).habits@[i]);
                        }
                    }
                }
                AddOutcome::Added
            },
        }
    }

    /// The names of all tracked habits, in the order they were added.
    pub fn list_habits(&self) -> (r: Vec<String>)
        requires
            self.wf(),
        ensures
            r@.len() == self.habits@.len(),
            forall|i: int| 0 <= i < r@.len() ==> (#[trigger] r@[i])@ == self.habits@[i].name@,
            r@.map_values(|s: String| s@).no_duplicates(),
            r@.map_values(|s: String| s@).to_set() == self@.dom(),
    {
        let mut names: Vec<String> = Vec::new();
        let mut i: usize = 0;
        while i < self.habits.len()
            invariant
                i <= self.habits.len(),
                names@.len() == i,
                forall|j: int| 0 <= j < i ==> (#[trigger] names@[j])@ == self.habits@[j].name@,
            decreases self.habits.len() - i,
        {
            names.push(self.habits[i].name.clone());
            i += 1;
        }
        let ghost seen = names@.map_values(|s: String| s@);
        assert forall|k: Seq<char>| seen.to_set().contains(k) <==> self@.dom().contains(k) by {
            if seen.to_set().contains(k) {
                let j = choose|j: int| 0 <= j < seen.len() && seen[j] == k;
                assert(self.habits@[j].name@ == k);
            }
            if self@.dom().contains(k) {
                let j = choose|j: int| 0 <= j < self.habits@.len() && self.habits@[j].name@ == k;
                assert(seen[j] == k);
            }
        }
        assert(seen.to_set() =~= self@.dom());
        names
    }

    /// For each habit, in the order they were added: its name, how many
    /// dates it was done on, and its streak on the day numbered `today`.
    pub fn stats(&self, today: i32) -> (r: Vec<HabitStats>)
        requires
            self.wf(),
        ensures
            r@.len() == self.habits@.len(),
            forall|i: int| 0 <= i < r@.len() ==> {
                &&& (#[trigger] r@[i]).name@ == self.habits@[i].name@
                &&& r@[i].total == self.habits@[i].completions@.len()
                &&& walk_streak(completed_days(self.habits@[i].completion_texts()), today as int, r@[i].streak as int)
            },
    {
        let mut rows: Vec<HabitStats> = Vec::new();
        let mut i: usize = 0;
        while i < self.habits.len()
            invariant
                i <= self.habits.len(),
                rows@.len() == i,
                forall|j: int| 0 <= j < i ==> {
                    &&& (#[trigger] rows@[j]).name@ == self.habits@[j].name@
                    &&& rows@[j].total == self.habits@[j].completions@.len()
                    &&& walk_streak(completed_days(self.habits@[j].completion_texts()), today as int, rows@[j].streak as int)
                },
            decreases self.habits.len() - i,
        {
            let habit = &self.habits[i];
            let row = HabitStats {
                name: habit.name.clone(),
                total: habit.completions.len(),
                streak: habit.calculate_streak(today),
            };
            rows.push(row);
            i += 1;
        }
        rows
    }

    /// The entries to persist: each habit under its name, in the order they
    /// were added.
    pub fn save(&self) -> (r: Vec<(String, Habit)>)
        requires
            self.wf(),
        ensures
            saved_as(self.habits@, r@),
    {
        let mut entries: Vec<(String, Habit)> = Vec::new();
        let mut i: usize = 0;
        while i < self.habits.len()
            invariant
                i <= self.habits.len(),
                saved_as(self.habits@.subrange(0, i as int), entries@),
            decreases self.habits.len() - i,
        {
            let habit = self.habits[i].copy();
            entries.push((self.habits[i].name.clone(), habit));
            i += 1;
        }
        assert(self.habits@.subrange(0, self.habits@.len() as int) =~= self.habits@);
        entries
    }

    /// A tracker from persisted entries, or an empty one where nothing was
    /// persisted. Inconsistent entries are refused.
    pub fn load(stored: Option<Vec<(String, Habit)>>) -> (r: Result<HabitTracker, LoadError>)
        ensures
            r matches Ok(t) ==> t.wf(),
            stored is None ==> (r matches Ok(t) && t@ == Map::<Seq<char>, Seq<Seq<char>>>::empty()),
            stored matches Some(e) ==> match r {
                Ok(t) => loaded(e@) == Some(t@),
                Err(err) => loaded(e@) is None && err == LoadError::DataCorruption,
            },
    {
        match stored {
            None => Ok(HabitTracker::new()),
            Some(entries) => {
                let ghost e = entries@;
                let n: usize = entries.len();
                let mut tracker = HabitTracker { habits: Vec::new() };
                let mut rest = entries;
                let mut k: usize = 0;
                while rest.len() > 0
                    invariant
                        stored matches Some(v) && v@ == e,
                        k + rest@.len() == e.len(),
                        e.len() == n,
                        rest@ == e.subrange(k as int, e.len() as int),
                        tracker.habits@ == entry_habits(e).subrange(0, k as int),
                        tracker.wf(),
                        forall|i: int| 0 <= i < k ==> (#[trigger] e[i]).0@ == e[i].1.name@,
                    decreases rest@.len(),
                {
                    let (key, habit) = rest.remove(0);
                    assert(e[k as int] == (key, habit));
                    if !(key == habit.name) {
                        assert(!entries_valid(e));
                        return Err(LoadError::DataCorruption);
                    }
                    if !no_repeated_text(&habit.completions) {
                        assert(!completions_distinct(entry_habits(e))) by {
                            assert(entry_habits(e)[k as int] == habit);
                        }
                        return Err(LoadError::DataCorruption);
                    }
                    match tracker.position(&habit.name) {
                        Some(j) => {
                            assert(!names_distinct(entry_habits(e))) by {
                                assert(entry_habits(e)[j as int] == tracker.habits@[j as int]);
                                assert(entry_habits(e)[k as int] == habit);
                            }
                            return Err(LoadError::DataCorruption);
                        },
                        None => {
                            proof {
                                lemma_store_push(tracker.habits@, habit);
                            }
                            let ghost before = tracker.habits@;
                            tracker.habits.push(habit);
                            proof {
                                assert(tracker.habits@ =~= entry_habits(e).subrange(0, k + 1));
                                assert forall|i: int| 0 <= i < tracker.habits@.len() implies (#[trigger] tracker.habits@[i]).completion_texts().no_duplicates() by {
                                    if i < k {
                                        assert(tracker.habits@[i] == before[i]);
                                    }
                                }
                            }
                        },
                    }
                    k += 1;
                }
                assert(entry_habits(e).subrange(0, k as int) =~= entry_habits(e));
                Ok(tracker)
            },
        }
    }

    /// Records that the habit named `name` was done on `date`. Nothing
    /// changes where no such habit is tracked or the date is recorded
    /// already.
    pub fn mark_done(&mut self, name: String, date: String) -> (r: DoneOutcome)
        requires
            old(self).wf(),
        ensures
            final(self).wf(),
            final(self)@ == marked(old(self)@, name@, date@),
            r == (if !old(self)@.contains_key(name@) {
                DoneOutcome::NotFound
            } else if old(self)@[name@].contains(date@) {
                DoneOutcome::AlreadyDone
            } else {
                DoneOutcome::Marked
            }),
    {
        match self.position(&name) {
            None => DoneOutcome::NotFound,
            Some(i) => {
                proof {
                    lemma_store_at(self.habits@, i as int);
                }
                if contains_text(&self.habits[i].completions, &date) {
                    DoneOutcome::AlreadyDone
                } else {
                    self.habits[i].completions.push(date);
                    proof {
                        let old_h = old(self).habits@[i as int];
                        let h = self.habits@[i as int];
                        assert(self.habits@ == old(self).habits@.update(i as int, h));
                        assert(h.completion_texts() =~= old_h.completion_texts().push(date@));
                        lemma_store_update(old(self).habits@, i as int, h);
                        assert forall|j: int| 0 <= j < self.habits@.len() implies (#[trigger] self.habits@[j]).completion_texts().no_duplicates() by {
                            if j == i {
                                assert(old_h.completion_texts().no_duplicates());
                            } else {
                                assert(self.habits@[j] == old(self).habits@[j]);
                            }
                        }
                    }
                    DoneOutcome::Marked
                }
            },
        }
    }
}

} // verus!
