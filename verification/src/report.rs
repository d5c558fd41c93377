//! The layout of the report: one table for each sex, with the events as
//! rows and the age groups as columns.

use vstd::prelude::*;
use vstd::string::*;
use crate::ages::age_number;
use crate::athletes::{names_of, AthleteGroups, GroupModel};
use crate::lookup::{find_text, lemma_position_contains, views};
use crate::qualifiers::{count_of, CountEntry, QualifierCounts};
use crate::standards::{AgeEntry, EventEntry, EventStandards, StandardsTable, TableModel};
use crate::text::{parse_i32, texts};

verus! {

/// The rank of an age group that writes no number: such groups come
/// where the age 999 would.
pub const UNNUMBERED_RANK: i32 = 999;

/// One cell of the report.
#[derive(Clone, Debug, PartialEq, Eq)]
pub enum ReportCell {
    Text(String),
    Count(usize),
}

/// The model of a `ReportCell`.
pub ghost enum ReportEntry {
    Text(Seq<char>),
    Count(nat),
}

impl View for ReportCell {
    type V = ReportEntry;

    open spec fn view(&self) -> ReportEntry {
        match *self {
            ReportCell::Text(text) => ReportEntry::Text(text@),
            ReportCell::Count(count) => ReportEntry::Count(count as nat),
        }
    }
}

/// The cells that rows of report cells hold, row by row.
pub open spec fn report_view(rows: Seq<Vec<ReportCell>>) -> Seq<Seq<ReportEntry>> {
    Seq::new(rows.len(), |i: int| views(rows[i]@))
}

/// `labels` with `label`, at the end, unless it is among them.
pub open spec fn with_label(labels: Seq<Seq<char>>, label: Seq<char>) -> Seq<Seq<char>> {
    if labels.contains(label) {
        labels
    } else {
        labels.push(label)
    }
}

/// `labels` with the age groups of the first `n` of `ages`.
pub open spec fn with_labels(labels: Seq<Seq<char>>, ages: Seq<AgeEntry>, n: int) -> Seq<Seq<char>>
    decreases n,
{
    if n <= 0 {
        labels
    } else {
        with_label(with_labels(labels, ages, n - 1), ages[n - 1].age)
    }
}

/// The age groups that the first `n` of `events` have standards for, each
/// once, in the order in which they are first met.
pub open spec fn age_groups(events: Seq<EventEntry>, n: int) -> Seq<Seq<char>>
    decreases n,
{
    if n <= 0 {
        Seq::empty()
    } else {
        with_labels(age_groups(events, n - 1), events[n - 1].ages, events[n - 1].ages.len() as int)
    }
}

/// The rank by which age groups are put in order: the number that the
/// label writes.
pub open spec fn age_rank(label: Seq<char>) -> int {
    match age_number(label) {
        Some(n) => n,
        None => UNNUMBERED_RANK as int,
    }
}

/// Whether the age groups stand in ascending order of rank.
pub open spec fn is_ascending(labels: Seq<Seq<char>>) -> bool {
    forall|i: int, j: int|
        0 <= i < j < labels.len() ==> age_rank(#[trigger] labels[i]) <= age_rank(
            #[trigger] labels[j],
        )
}

/// The place in `sorted` for a group of rank `rank`: behind every leading
/// group whose rank is at most `rank`.
pub open spec fn slot(sorted: Seq<Seq<char>>, rank: int) -> nat
    decreases sorted.len(),
{
    if sorted.len() == 0 || age_rank(sorted[0]) > rank {
        0
    } else {
        1 + slot(sorted.drop_first(), rank)
    }
}

/// The first `n` of `labels` in ascending order of rank. Groups of equal
/// rank keep the order in which they stand in `labels`.
pub open spec fn sorted_ages(labels: Seq<Seq<char>>, n: int) -> Seq<Seq<char>>
    decreases n,
{
    if n <= 0 {
        Seq::empty()
    } else {
        let before = sorted_ages(labels, n - 1);
        before.insert(slot(before, age_rank(labels[n - 1])) as int, labels[n - 1])
    }
}

/// The age groups that head the columns of the report of one sex.
pub open spec fn report_ages(events: Seq<EventEntry>) -> Seq<Seq<char>> {
    let groups = age_groups(events, events.len() as int);
    sorted_ages(groups, groups.len() as int)
}

/// The heading row: the word `Event`, then the age groups.
pub open spec fn heading_row(ages: Seq<Seq<char>>) -> Seq<ReportEntry> {
    Seq::new(
        ages.len() + 1,
        |j: int|
            if j == 0 {
                ReportEntry::Text("Event"@)
            } else {
                ReportEntry::Text(ages[j - 1])
            },
    )
}

/// The row of an event: its name, then for each age group the number of
/// results that met the standard of that group.
pub open spec fn event_row(
    sex: Seq<char>,
    event: Seq<char>,
    ages: Seq<Seq<char>>,
    counts: Seq<CountEntry>,
) -> Seq<ReportEntry> {
    Seq::new(
        ages.len() + 1,
        |j: int|
            if j == 0 {
                ReportEntry::Text(event)
            } else {
                ReportEntry::Count(count_of(counts, sex, ages[j - 1], event))
            },
    )
}

/// A summary row: its title, then for each age group the number of
/// athletes that `groups` hold for it.
pub open spec fn summary_row(
    title: Seq<char>,
    sex: Seq<char>,
    ages: Seq<Seq<char>>,
    groups: Seq<GroupModel>,
) -> Seq<ReportEntry> {
    Seq::new(
        ages.len() + 1,
        |j: int|
            if j == 0 {
                ReportEntry::Text(title)
            } else {
                ReportEntry::Count(names_of(groups, sex, ages[j - 1]).len())
            },
    )
}

/// The report of one sex.
///
/// The heading row comes first. Then one row for every row of the
/// standards that named an event, in their order. Then an empty row, the
/// row of all athletes and the row of the qualifiers. A sex without
/// standards has no report.
pub open spec fn report(
    sex: Seq<char>,
    table: TableModel,
    counts: Seq<CountEntry>,
    totals: Seq<GroupModel>,
    qualifiers: Seq<GroupModel>,
) -> Seq<Seq<ReportEntry>> {
    match table.sex(sex) {
        None => Seq::empty(),
        Some(standards) => {
            let ages = report_ages(standards.events);
            let events = standards.order;
            Seq::new(
                events.len() + 4,
                |i: int|
                    if i == 0 {
                        heading_row(ages)
                    } else if i <= events.len() {
                        event_row(sex, events[i - 1], ages, counts)
                    } else if i == events.len() + 1 {
                        Seq::empty()
                    } else if i == events.len() + 2 {
                        summary_row("Total Unique Athletes"@, sex, ages, totals)
                    } else {
                        summary_row("Unique Qualifiers"@, sex, ages, qualifiers)
                    },
            )
        },
    }
}

/// Adding the age groups of a list of standards leaves no label standing
/// twice, and leaves in the labels that were in and those of the list.
pub proof fn lemma_with_labels(labels: Seq<Seq<char>>, ages: Seq<AgeEntry>, n: int)
    requires
        labels.no_duplicates(),
        0 <= n <= ages.len(),
    ensures
        with_labels(labels, ages, n).no_duplicates(),
        forall|label: Seq<char>| #[trigger]
            with_labels(labels, ages, n).contains(label) <==> labels.contains(label) || exists|
                k: int,
            |
                0 <= k < n && (#[trigger] ages[k]).age == label,
    decreases n,
{
    if n > 0 {
        lemma_with_labels(labels, ages, n - 1);
        let before = with_labels(labels, ages, n - 1);
        let added = ages[n - 1].age;
        let after = with_labels(labels, ages, n);
        assert forall|label: Seq<char>| #[trigger]
            after.contains(label) <==> labels.contains(label) || exists|k: int|
                0 <= k < n && (#[trigger] ages[k]).age == label by {
            if after.contains(label) {
                let at = choose|at: int| 0 <= at < after.len() && after[at] == label;
                if at < before.len() {
                    assert(before[at] == label);
                    assert(before.contains(label));
                    if !labels.contains(label) {
                        let k = choose|k: int| 0 <= k < n - 1 && (#[trigger] ages[k]).age == label;
                        assert(0 <= k < n && ages[k].age == label);
                    }
                } else {
                    assert(ages[n - 1].age == label);
                }
            }
            if labels.contains(label) || exists|k: int|
                0 <= k < n && (#[trigger] ages[k]).age == label {
                if before.contains(label) {
                    let at = choose|at: int| 0 <= at < before.len() && before[at] == label;
                    assert(after[at] == label);
                } else {
                    if !labels.contains(label) {
                        let k = choose|k: int| 0 <= k < n && (#[trigger] ages[k]).age == label;
                        if k < n - 1 {
                            assert(0 <= k < n - 1 && ages[k].age == label);
                        }
                        assert(label == added);
                    }
                    assert(after[before.len() as int] == added);
                }
            }
        }
        if !before.contains(added) {
            assert forall|a: int, b: int|
                0 <= a < after.len() && 0 <= b < after.len() && a != b implies after[a]
                != after[b] by {
                if a < before.len() {
                    assert(before.contains(before[a]));
                }
                if b < before.len() {
                    assert(before.contains(before[b]));
                }
            }
        }
    }
}

/// The age groups of a list of events are the labels that have a
/// standard in at least one of the events, each once.
pub proof fn lemma_age_groups(events: Seq<EventEntry>, n: int)
    requires
        0 <= n <= events.len(),
    ensures
        age_groups(events, n).no_duplicates(),
        forall|label: Seq<char>| #[trigger]
            age_groups(events, n).contains(label) <==> exists|e: int, k: int|
                0 <= e < n && 0 <= k < events[e].ages.len() && (#[trigger] events[e].ages[k]).age
                    == label,
    decreases n,
{
    if n > 0 {
        lemma_age_groups(events, n - 1);
        let before = age_groups(events, n - 1);
        let ages = events[n - 1].ages;
        lemma_with_labels(before, ages, ages.len() as int);
        let after = age_groups(events, n);
        assert forall|label: Seq<char>| #[trigger]
            after.contains(label) <==> exists|e: int, k: int|
                0 <= e < n && 0 <= k < events[e].ages.len() && (#[trigger] events[e].ages[k]).age
                    == label by {
            if after.contains(label) {
                if before.contains(label) {
                    let (e, k) = choose|e: int, k: int|
                        0 <= e < n - 1 && 0 <= k < events[e].ages.len() && (
                        #[trigger] events[e].ages[k]).age == label;
                    assert(0 <= e < n && 0 <= k < events[e].ages.len() && events[e].ages[k].age
                        == label);
                } else {
                    let k = choose|k: int| 0 <= k < ages.len() && (#[trigger] ages[k]).age == label;
                    assert(0 <= n - 1 < n && 0 <= k < events[n - 1].ages.len() && events[n
                        - 1].ages[k].age == label);
                }
            }
            if exists|e: int, k: int|
                0 <= e < n && 0 <= k < events[e].ages.len() && (#[trigger] events[e].ages[k]).age
                    == label {
                let (e, k) = choose|e: int, k: int|
                    0 <= e < n && 0 <= k < events[e].ages.len() && (
                    #[trigger] events[e].ages[k]).age == label;
                if e < n - 1 {
                    assert(0 <= e < n - 1 && 0 <= k < events[e].ages.len() && events[e].ages[k].age
                        == label);
                    assert(before.contains(label));
                } else {
                    assert(0 <= k < ages.len() && ages[k].age == label);
                }
            }
        }
    } else {
        assert forall|label: Seq<char>| !(#[trigger] age_groups(events, n).contains(label)) by {}
    }
}

/// Everything before the slot has a rank of at most `rank`, and what
/// stands at the slot has a larger one.
pub proof fn lemma_slot(sorted: Seq<Seq<char>>, rank: int)
    ensures
        slot(sorted, rank) <= sorted.len(),
        forall|j: int| 0 <= j < slot(sorted, rank) ==> age_rank(#[trigger] sorted[j]) <= rank,
        slot(sorted, rank) < sorted.len() ==> age_rank(sorted[slot(sorted, rank) as int]) > rank,
    decreases sorted.len(),
{
    if !(sorted.len() == 0 || age_rank(sorted[0]) > rank) {
        let rest = sorted.drop_first();
        lemma_slot(rest, rank);
        assert forall|j: int| 0 <= j < slot(sorted, rank) implies age_rank(#[trigger] sorted[j])
            <= rank by {
            if j > 0 {
                assert(rest[j - 1] == sorted[j]);
            }
        }
    }
}

/// The slot is `at` where everything before `at` has a rank of at most
/// `rank` and what stands at `at` has a larger one.
pub proof fn lemma_slot_is(sorted: Seq<Seq<char>>, rank: int, at: int)
    requires
        0 <= at <= sorted.len(),
        forall|j: int| 0 <= j < at ==> age_rank(#[trigger] sorted[j]) <= rank,
        at < sorted.len() ==> age_rank(sorted[at]) > rank,
    ensures
        slot(sorted, rank) == at,
    decreases at,
{
    if at > 0 {
        lemma_slot_is(sorted.drop_first(), rank, at - 1);
    }
}

/// Sorting leaves the age groups in ascending order of rank, and leaves
/// every group in and no other.
pub proof fn lemma_sorted_ages(labels: Seq<Seq<char>>, n: int)
    requires
        0 <= n <= labels.len(),
    ensures
        is_ascending(sorted_ages(labels, n)),
        sorted_ages(labels, n).len() == n,
        sorted_ages(labels, n).to_multiset() == labels.take(n).to_multiset(),
    decreases n,
{
    broadcast use vstd::seq_lib::group_to_multiset_ensures;

    if n > 0 {
        let before = sorted_ages(labels, n - 1);
        let label = labels[n - 1];
        let at = slot(before, age_rank(label)) as int;
        let after = before.insert(at, label);
        lemma_sorted_ages(labels, n - 1);
        lemma_slot(before, age_rank(label));
        assert forall|i: int, j: int| 0 <= i < j < after.len() implies age_rank(
            #[trigger] after[i],
        ) <= age_rank(#[trigger] after[j]) by {
            if i < at && j > at {
                assert(after[i] == before[i]);
                assert(after[j] == before[j - 1]);
            } else if i < at && j < at {
                assert(after[i] == before[i]);
                assert(after[j] == before[j]);
            } else if i == at {
                assert(after[j] == before[j - 1]);
                assert(age_rank(before[at]) <= age_rank(before[j - 1]));
            } else if j == at {
                assert(after[i] == before[i]);
            } else {
                assert(after[i] == before[i - 1]);
                assert(after[j] == before[j - 1]);
            }
        }
        vstd::seq_lib::to_multiset_insert(before, at, label);
        vstd::seq_lib::to_multiset_build(labels.take(n - 1), label);
        assert(labels.take(n) =~= labels.take(n - 1).push(label));
    } else {
        assert(labels.take(0) =~= Seq::<Seq<char>>::empty());
    }
}

/// The columns of the report are the age groups that have a standard in
/// at least one event, each once, in ascending order of rank.
pub proof fn lemma_report_ages(events: Seq<EventEntry>)
    ensures
        is_ascending(report_ages(events)),
        report_ages(events).no_duplicates(),
        forall|label: Seq<char>| #[trigger]
            report_ages(events).contains(label) <==> exists|e: int, k: int|
                0 <= e < events.len() && 0 <= k < events[e].ages.len() && (
                #[trigger] events[e].ages[k]).age == label,
{
    let groups = age_groups(events, events.len() as int);
    let sorted = report_ages(events);
    lemma_age_groups(events, events.len() as int);
    lemma_sorted_ages(groups, groups.len() as int);
    assert(groups.take(groups.len() as int) =~= groups);
    groups.lemma_multiset_has_no_duplicates();
    sorted.lemma_multiset_has_no_duplicates_conv();
    assert forall|label: Seq<char>| #[trigger]
        sorted.contains(label) <==> groups.contains(label) by {
        vstd::seq_lib::to_multiset_contains(sorted, label);
        vstd::seq_lib::to_multiset_contains(groups, label);
    }
}

/// The rank by which an age group is put in order.
pub fn rank_of(label: &str) -> (r: i32)
    ensures
        r == age_rank(label@),
{
    match parse_i32(label) {
        Some(n) => n,
        None => UNNUMBERED_RANK,
    }
}

/// The age groups that `events` have standards for, each once, in the
/// order in which they are first met.
pub fn collect_age_groups(events: &Vec<EventStandards>) -> (r: Vec<String>)
    ensures
        texts(r@) == age_groups(views(events@), events.len() as int),
{
    let mut labels: Vec<String> = Vec::new();
    let mut n: usize = 0;
    assert(texts(labels@) =~= age_groups(views(events@), 0));
    while n < events.len()
        invariant
            n <= events.len(),
            texts(labels@) == age_groups(views(events@), n as int),
        decreases events.len() - n,
    {
        let event = &events[n];
        let ghost ages = views(events@)[n as int].ages;
        assert(ages == views(event.ages@));
        let ghost start = texts(labels@);
        let mut m: usize = 0;
        while m < event.ages.len()
            invariant
                m <= event.ages.len(),
                ages == views(event.ages@),
                texts(labels@) == with_labels(start, ages, m as int),
            decreases event.ages.len() - m,
        {
            let label = &event.ages[m].age;
            assert(ages[m as int].age == label@);
            let ghost before = texts(labels@);
            let known = find_text(&labels, label.as_str());
            proof {
                lemma_position_contains(before, label@);
            }
            if known.is_none() {
                labels.push(label.clone());
                assert(texts(labels@) =~= before.push(label@));
            }
            m += 1;
        }
        n += 1;
    }
    labels
}

/// The age groups `labels` in ascending order of rank. Groups of equal
/// rank keep their order.
pub fn sort_ages(labels: &Vec<String>) -> (r: Vec<String>)
    ensures
        texts(r@) == sorted_ages(texts(labels@), labels.len() as int),
        is_ascending(texts(r@)),
        texts(r@).to_multiset() == texts(labels@).to_multiset(),
{
    let mut sorted: Vec<String> = Vec::new();
    let mut ranks: Vec<i32> = Vec::new();
    let mut n: usize = 0;
    assert(texts(sorted@) =~= sorted_ages(texts(labels@), 0));
    while n < labels.len()
        invariant
            n <= labels.len(),
            texts(sorted@) == sorted_ages(texts(labels@), n as int),
            ranks.len() == sorted.len(),
            forall|j: int| 0 <= j < ranks.len() ==> #[trigger] ranks[j] == age_rank(sorted[j]@),
        decreases labels.len() - n,
    {
        let label = &labels[n];
        assert(texts(labels@)[n as int] == label@);
        let rank = rank_of(label.as_str());
        let ghost before = texts(sorted@);
        let mut at: usize = 0;
        while at < ranks.len() && ranks[at] <= rank
            invariant
                at <= ranks.len(),
                ranks.len() == sorted.len(),
                before == texts(sorted@),
                forall|j: int| 0 <= j < ranks.len() ==> #[trigger] ranks[j] == age_rank(sorted[j]@),
                forall|j: int| 0 <= j < at ==> age_rank(#[trigger] before[j]) <= rank,
            decreases ranks.len() - at,
        {
            assert(before[at as int] == sorted[at as int]@);
            at += 1;
        }
        proof {
            if at < ranks.len() {
                assert(before[at as int] == sorted[at as int]@);
            }
            lemma_slot_is(before, rank as int, at as int);
        }
        sorted.insert(at, label.clone());
        ranks.insert(at, rank);
        assert(texts(sorted@) =~= before.insert(at as int, label@));
        n += 1;
    }
    proof {
        lemma_sorted_ages(texts(labels@), labels.len() as int);
        assert(texts(labels@).take(labels.len() as int) =~= texts(labels@));
    }
    sorted
}

/// The heading row.
pub fn heading_cells(ages: &Vec<String>) -> (r: Vec<ReportCell>)
    ensures
        views(r@) == heading_row(texts(ages@)),
{
    let mut row: Vec<ReportCell> = Vec::new();
    row.push(ReportCell::Text(String::from_str("Event")));
    let mut j: usize = 0;
    while j < ages.len()
        invariant
            j <= ages.len(),
            row.len() == j + 1,
            forall|k: int| 0 <= k < row.len() ==> (#[trigger] row[k])@ == heading_row(texts(ages@))[k],
        decreases ages.len() - j,
    {
        row.push(ReportCell::Text(ages[j].clone()));
        j += 1;
    }
    assert(views(row@) =~= heading_row(texts(ages@)));
    row
}

/// The row of an event.
pub fn event_cells(sex: &str, event: &str, ages: &Vec<String>, counts: &QualifierCounts) -> (r: Vec<
    ReportCell,
>)
    ensures
        views(r@) == event_row(sex@, event@, texts(ages@), counts@),
{
    let mut row: Vec<ReportCell> = Vec::new();
    row.push(ReportCell::Text(String::from_str(event)));
    let mut j: usize = 0;
    while j < ages.len()
        invariant
            j <= ages.len(),
            row.len() == j + 1,
            forall|k: int|
                0 <= k < row.len() ==> (#[trigger] row[k])@ == event_row(
                    sex@,
                    event@,
                    texts(ages@),
                    counts@,
                )[k],
        decreases ages.len() - j,
    {
        row.push(ReportCell::Count(counts.count(sex, ages[j].as_str(), event)));
        j += 1;
    }
    assert(views(row@) =~= event_row(sex@, event@, texts(ages@), counts@));
    row
}

/// A summary row.
pub fn summary_cells(title: &str, sex: &str, ages: &Vec<String>, groups: &AthleteGroups) -> (r: Vec<
    ReportCell,
>)
    ensures
        views(r@) == summary_row(title@, sex@, texts(ages@), groups@),
{
    let mut row: Vec<ReportCell> = Vec::new();
    row.push(ReportCell::Text(String::from_str(title)));
    let mut j: usize = 0;
    while j < ages.len()
        invariant
            j <= ages.len(),
            row.len() == j + 1,
            forall|k: int|
                0 <= k < row.len() ==> (#[trigger] row[k])@ == summary_row(
                    title@,
                    sex@,
                    texts(ages@),
                    groups@,
                )[k],
        decreases ages.len() - j,
    {
        row.push(ReportCell::Count(groups.count(sex, ages[j].as_str())));
        j += 1;
    }
    assert(views(row@) =~= summary_row(title@, sex@, texts(ages@), groups@));
    row
}

/// Lays out the report of one sex, `Men` or `Women`, row by row.
pub fn report_rows(
    sex: &str,
    table: &StandardsTable,
    counts: &QualifierCounts,
    totals: &AthleteGroups,
    qualifiers: &AthleteGroups,
) -> (r: Vec<Vec<ReportCell>>)
    ensures
        report_view(r@) == report(sex@, table@, counts@, totals@, qualifiers@),
{
    let mut rows: Vec<Vec<ReportCell>> = Vec::new();
    let standards = match table.sex(sex) {
        Some(standards) => standards,
        None => {
            assert(report_view(rows@) =~= Seq::empty());
            return rows;
        },
    };
    let ages = sort_ages(&collect_age_groups(&standards.events));
    let ghost expected = report(sex@, table@, counts@, totals@, qualifiers@);
    assert(texts(ages@) == report_ages(standards@.events));
    rows.push(heading_cells(&ages));
    let mut n: usize = 0;
    while n < standards.order.len()
        invariant
            n <= standards.order.len(),
            rows.len() == n + 1,
            table@.sex(sex@) == Some(standards@),
            texts(ages@) == report_ages(standards@.events),
            expected == report(sex@, table@, counts@, totals@, qualifiers@),
            forall|i: int| 0 <= i < rows.len() ==> views((#[trigger] rows[i])@) == expected[i],
        decreases standards.order.len() - n,
    {
        assert(standards@.order[n as int] == standards.order@[n as int]@);
        rows.push(event_cells(sex, standards.order[n].as_str(), &ages, counts));
        n += 1;
    }
    rows.push(Vec::new());
    assert(views(rows[n + 1]@) =~= Seq::empty());
    rows.push(summary_cells("Total Unique Athletes", sex, &ages, totals));
    rows.push(summary_cells("Unique Qualifiers", sex, &ages, qualifiers));
    assert(report_view(rows@) =~= expected);
    rows
}

} // verus!
