//! Counting the results that meet the standard of their own age group.
//!
//! This count is strict: a result counts only where the age group of its
//! file has a standard of its own for the event. No age is resolved to a
//! neighbouring group here.

use vstd::prelude::*;
use vstd::string::*;
use crate::lookup::{
    lemma_position,
    lemma_position_is_first,
    lemma_position_push,
    lemma_push_distinct,
    position,
    views,
};
use crate::meet::{MeetResult, ResultModel};
use crate::standards::{StandardsTable, TableModel};
use crate::text::same_text;

verus! {

/// How many results met the standard of one sex, age group and event.
#[derive(Clone, Debug, PartialEq, Eq)]
pub struct QualifierCount {
    pub sex: String,
    pub age: String,
    pub event: String,
    pub count: usize,
}

/// The counts of qualifying results, one for each sex, age group and
/// event with at least one qualifying result.
#[derive(Clone, Debug, PartialEq, Eq)]
pub struct QualifierCounts {
    pub entries: Vec<QualifierCount>,
}

/// The model of a `QualifierCount`.
pub ghost struct CountEntry {
    pub sex: Seq<char>,
    pub age: Seq<char>,
    pub event: Seq<char>,
    pub count: nat,
}

impl View for QualifierCount {
    type V = CountEntry;

    open spec fn view(&self) -> CountEntry {
        CountEntry { sex: self.sex@, age: self.age@, event: self.event@, count: self.count as nat }
    }
}

impl View for QualifierCounts {
    type V = Seq<CountEntry>;

    open spec fn view(&self) -> Seq<CountEntry> {
        views(self.entries@)
    }
}

/// The sex, age group and event of each entry, in order.
pub open spec fn count_keys(entries: Seq<CountEntry>) -> Seq<(Seq<char>, Seq<char>, Seq<char>)> {
    Seq::new(entries.len(), |i: int| (entries[i].sex, entries[i].age, entries[i].event))
}

/// The count that `entries` hold for a sex, age group and event; 0 where
/// they hold none.
pub open spec fn count_of(
    entries: Seq<CountEntry>,
    sex: Seq<char>,
    age: Seq<char>,
    event: Seq<char>,
) -> nat {
    match position(count_keys(entries), (sex, age, event)) {
        Some(i) => entries[i].count,
        None => 0,
    }
}

/// `entries` with one more result counted for a sex, age group and event.
pub open spec fn incremented(
    entries: Seq<CountEntry>,
    sex: Seq<char>,
    age: Seq<char>,
    event: Seq<char>,
) -> Seq<CountEntry> {
    match position(count_keys(entries), (sex, age, event)) {
        Some(i) => entries.update(i, CountEntry { sex, age, event, count: entries[i].count + 1 }),
        None => entries.push(CountEntry { sex, age, event, count: 1 }),
    }
}

/// Whether a result meets the standard of its own sex, event and age
/// group: the table has that standard, and the time is at most it.
pub open spec fn meets_standard(result: ResultModel, table: TableModel) -> bool {
    match table.standard(result.sex, result.event, result.age) {
        Some(standard) => result.time.at_most(standard),
        None => false,
    }
}

/// How many of `results` are of the given sex, age group and event and
/// meet their standard.
pub open spec fn qualifier_count(
    results: Seq<ResultModel>,
    table: TableModel,
    sex: Seq<char>,
    age: Seq<char>,
    event: Seq<char>,
) -> nat
    decreases results.len(),
{
    if results.len() == 0 {
        0
    } else {
        let result = results.last();
        let before = qualifier_count(results.drop_last(), table, sex, age, event);
        if result.sex == sex && result.age == age && result.event == event && meets_standard(
            result,
            table,
        ) {
            before + 1
        } else {
            before
        }
    }
}

/// The entries that counting `results` one after the other leaves.
pub open spec fn counted(results: Seq<ResultModel>, table: TableModel) -> Seq<CountEntry>
    decreases results.len(),
{
    if results.len() == 0 {
        Seq::empty()
    } else {
        let result = results.last();
        let before = counted(results.drop_last(), table);
        if meets_standard(result, table) {
            incremented(before, result.sex, result.age, result.event)
        } else {
            before
        }
    }
}

/// Counting one more result raises the count of its own sex, age group
/// and event by one and leaves every other count as it was.
pub proof fn lemma_incremented(
    entries: Seq<CountEntry>,
    sex: Seq<char>,
    age: Seq<char>,
    event: Seq<char>,
    other_sex: Seq<char>,
    other_age: Seq<char>,
    other_event: Seq<char>,
)
    ensures
        count_of(incremented(entries, sex, age, event), other_sex, other_age, other_event)
            == count_of(entries, other_sex, other_age, other_event) + if (sex, age, event) == (
            other_sex,
            other_age,
            other_event,
        ) {
            1nat
        } else {
            0nat
        },
{
    let key = (sex, age, event);
    let other = (other_sex, other_age, other_event);
    let keys = count_keys(entries);
    let after = incremented(entries, sex, age, event);
    lemma_position_is_first(keys, key);
    lemma_position_is_first(keys, other);
    match position(keys, key) {
        Some(i) => {
            assert(count_keys(after) =~= keys);
            assert(keys[i] == key);
            match position(keys, other) {
                Some(j) => {
                    assert(keys[j] == other);
                    if j != i {
                        assert(after[j] == entries[j]);
                    }
                },
                None => {},
            }
        },
        None => {
            assert(count_keys(after) =~= keys.push(key));
            lemma_position_push(keys, key, other);
            match position(keys, other) {
                Some(j) => {
                    assert(after[j] == entries[j]);
                },
                None => {},
            }
        },
    }
}

/// Counting leaves one entry for each sex, age group and event, and none
/// with a count of zero.
pub proof fn lemma_counted_entries(results: Seq<ResultModel>, table: TableModel)
    ensures
        count_keys(counted(results, table)).no_duplicates(),
        forall|i: int|
            0 <= i < counted(results, table).len() ==> (#[trigger] counted(results, table)[i]).count
                > 0,
    decreases results.len(),
{
    if results.len() > 0 {
        let result = results.last();
        let before = counted(results.drop_last(), table);
        lemma_counted_entries(results.drop_last(), table);
        if meets_standard(result, table) {
            let keys = count_keys(before);
            let key = (result.sex, result.age, result.event);
            let after = incremented(before, result.sex, result.age, result.event);
            match position(keys, key) {
                Some(at) => {
                    lemma_position_is_first(keys, key);
                    assert(count_keys(after) =~= keys);
                    assert forall|i: int| 0 <= i < after.len() implies (#[trigger] after[i]).count
                        > 0 by {
                        if i != at {
                            assert(after[i] == before[i]);
                        }
                    }
                },
                None => {
                    assert(count_keys(after) =~= keys.push(key));
                    lemma_push_distinct(keys, key);
                    assert forall|i: int| 0 <= i < after.len() implies (#[trigger] after[i]).count
                        > 0 by {
                        if i < before.len() {
                            assert(after[i] == before[i]);
                        }
                    }
                },
            }
        }
    } else {
        assert(count_keys(Seq::<CountEntry>::empty()) =~= Seq::empty());
    }
}

/// The entries that counting leaves hold, for every sex, age group and
/// event, the number of results that meet their standard there.
pub proof fn lemma_counted(
    results: Seq<ResultModel>,
    table: TableModel,
    sex: Seq<char>,
    age: Seq<char>,
    event: Seq<char>,
)
    ensures
        count_of(counted(results, table), sex, age, event) == qualifier_count(
            results,
            table,
            sex,
            age,
            event,
        ),
    decreases results.len(),
{
    if results.len() > 0 {
        let result = results.last();
        lemma_counted(results.drop_last(), table, sex, age, event);
        if meets_standard(result, table) {
            lemma_incremented(
                counted(results.drop_last(), table),
                result.sex,
                result.age,
                result.event,
                sex,
                age,
                event,
            );
        }
    }
}

/// A result whose age group has a standard of its own for its sex and
/// event adds one to the count of that sex, age group and event exactly
/// when its time is at most the standard. It adds nothing to any other
/// count.
pub proof fn lemma_result_counts_iff_within_standard(
    results: Seq<ResultModel>,
    result: ResultModel,
    table: TableModel,
    sex: Seq<char>,
    age: Seq<char>,
    event: Seq<char>,
)
    requires
        table.standard(result.sex, result.event, result.age) is Some,
    ensures
        qualifier_count(results.push(result), table, sex, age, event) == qualifier_count(
            results,
            table,
            sex,
            age,
            event,
        ) + if (sex, age, event) == (result.sex, result.age, result.event) && result.time.at_most(
            table.standard(result.sex, result.event, result.age)->0,
        ) {
            1nat
        } else {
            0nat
        },
{
    assert(results.push(result).drop_last() =~= results);
}

/// No count is larger than the number of results.
pub proof fn lemma_count_bounded(
    results: Seq<ResultModel>,
    table: TableModel,
    sex: Seq<char>,
    age: Seq<char>,
    event: Seq<char>,
)
    ensures
        qualifier_count(results, table, sex, age, event) <= results.len(),
    decreases results.len(),
{
    if results.len() > 0 {
        lemma_count_bounded(results.drop_last(), table, sex, age, event);
    }
}

impl QualifierCounts {
    /// How many results were counted for a sex, age group and event.
    pub fn count(&self, sex: &str, age: &str, event: &str) -> (r: usize)
        ensures
            r == count_of(self@, sex@, age@, event@),
    {
        match find_entry(&self.entries, sex, age, event) {
            Some(i) => self.entries[i].count,
            None => 0,
        }
    }
}

/// The place of the entry for a sex, age group and event.
pub fn find_entry(entries: &Vec<QualifierCount>, sex: &str, age: &str, event: &str) -> (r: Option<
    usize,
>)
    ensures
        match r {
            Some(i) => i < entries.len() && position(
                count_keys(views(entries@)),
                (sex@, age@, event@),
            ) == Some(i as int),
            None => position(count_keys(views(entries@)), (sex@, age@, event@)) is None,
        },
{
    let ghost keys = count_keys(views(entries@));
    let ghost key = (sex@, age@, event@);
    let mut i: usize = 0;
    while i < entries.len()
        invariant
            i <= entries.len(),
            keys == count_keys(views(entries@)),
            key == (sex@, age@, event@),
            forall|j: int| 0 <= j < i ==> #[trigger] keys[j] != key,
        decreases entries.len() - i,
    {
        let entry = &entries[i];
        if same_text(entry.sex.as_str(), sex) && same_text(entry.age.as_str(), age) && same_text(
            entry.event.as_str(),
            event,
        ) {
            proof {
                lemma_position(keys, key, i as int);
            }
            return Some(i);
        }
        i += 1;
    }
    proof {
        lemma_position(keys, key, i as int);
    }
    None
}

/// Counts one more result for a sex, age group and event.
pub fn increment(entries: &mut Vec<QualifierCount>, sex: &str, age: &str, event: &str)
    requires
        count_of(views(old(entries)@), sex@, age@, event@) < usize::MAX,
    ensures
        views(final(entries)@) == incremented(views(old(entries)@), sex@, age@, event@),
{
    let ghost before = views(entries@);
    match find_entry(entries, sex, age, event) {
        Some(i) => {
            let entry = QualifierCount {
                sex: String::from_str(sex),
                age: String::from_str(age),
                event: String::from_str(event),
                count: entries[i].count + 1,
            };
            entries.set(i, entry);
            assert(views(entries@) =~= before.update(i as int, entry@));
        },
        None => {
            let entry = QualifierCount {
                sex: String::from_str(sex),
                age: String::from_str(age),
                event: String::from_str(event),
                count: 1,
            };
            entries.push(entry);
            assert(views(entries@) =~= before.push(entry@));
        },
    }
}

/// Whether a result meets the standard of its own sex, event and age
/// group.
pub fn qualifies(result: &MeetResult, table: &StandardsTable) -> (r: bool)
    ensures
        r == meets_standard(result@, table@),
{
    match table.standard(result.sex.as_str(), result.event.as_str(), result.age.as_str()) {
        Some(standard) => result.time.le(&standard),
        None => false,
    }
}

/// Counts, for every sex, age group and event, the results that meet the
/// standard of their own age group. A result whose sex, event or age
/// group has no standard counts nowhere.
pub fn count_qualifiers(meet_results: &Vec<MeetResult>, table: &StandardsTable) -> (counts:
    QualifierCounts)
    ensures
        counts@ == counted(views(meet_results@), table@),
        count_keys(counts@).no_duplicates(),
        forall|i: int| 0 <= i < counts@.len() ==> (#[trigger] counts@[i]).count > 0,
        forall|sex: Seq<char>, age: Seq<char>, event: Seq<char>| #[trigger]
            count_of(counts@, sex, age, event) == qualifier_count(
                views(meet_results@),
                table@,
                sex,
                age,
                event,
            ),
{
    let ghost results = views(meet_results@);
    let mut entries: Vec<QualifierCount> = Vec::new();
    let mut n: usize = 0;
    assert(views(entries@) =~= counted(results.take(0), table@));
    while n < meet_results.len()
        invariant
            n <= meet_results.len(),
            results == views(meet_results@),
            views(entries@) == counted(results.take(n as int), table@),
        decreases meet_results.len() - n,
    {
        let result = &meet_results[n];
        proof {
            assert(results.take(n + 1).drop_last() =~= results.take(n as int));
            assert(results.take(n + 1).last() == result@);
        }
        if qualifies(result, table) {
            proof {
                lemma_counted(results.take(n as int), table@, result@.sex, result@.age, result@.event);
                lemma_count_bounded(
                    results.take(n as int),
                    table@,
                    result@.sex,
                    result@.age,
                    result@.event,
                );
            }
            increment(
                &mut entries,
                result.sex.as_str(),
                result.age.as_str(),
                result.event.as_str(),
            );
        }
        n += 1;
    }
    let counts = QualifierCounts { entries };
    proof {
        assert(results.take(n as int) =~= results);
        lemma_counted_entries(results, table@);
        assert forall|sex: Seq<char>, age: Seq<char>, event: Seq<char>| #[trigger]
            count_of(counts@, sex, age, event) == qualifier_count(
                results,
                table@,
                sex,
                age,
                event,
            ) by {
            lemma_counted(results, table@, sex, age, event);
        }
    }
    counts
}

} // verus!
