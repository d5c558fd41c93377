//! The table of qualifying standards: for each sex and event, the time
//! that an athlete of each age group has to meet.

use vstd::prelude::*;
use vstd::string::*;
use crate::cells::{cell_label, cell_seconds, cell_text, label_of, text_of, time_to_seconds, Cell, Row};
use crate::lookup::{
    lemma_position,
    lemma_position_is_first,
    lemma_position_push,
    lemma_push_distinct,
    position,
    views,
};
use crate::names::{normalize_age, normalize_event_name, normalized_age, normalized_event};
use crate::seconds::Seconds;
use crate::text::{same_text, texts};

verus! {

/// The standard of one age group.
#[derive(Clone, Debug, PartialEq, Eq)]
pub struct AgeStandard {
    pub age: String,
    pub time: Seconds,
}

/// The standards of one event, one for each age group that has one, in the
/// order of the columns in which they were first met.
#[derive(Clone, Debug, PartialEq, Eq)]
pub struct EventStandards {
    pub event: String,
    pub ages: Vec<AgeStandard>,
}

/// The standards of one sex.
#[derive(Clone, Debug, PartialEq, Eq)]
pub struct SexStandards {
    /// The events, each once, in the order in which they were first met.
    pub events: Vec<EventStandards>,
    /// The event of every row that named one, in the order of the rows.
    pub order: Vec<String>,
}

/// The standards of both sexes.
#[derive(Clone, Debug, PartialEq, Eq)]
pub struct StandardsTable {
    pub men: SexStandards,
    pub women: SexStandards,
}

/// The model of an `AgeStandard`.
pub ghost struct AgeEntry {
    pub age: Seq<char>,
    pub time: Seconds,
}

/// The model of an `EventStandards`.
pub ghost struct EventEntry {
    pub event: Seq<char>,
    pub ages: Seq<AgeEntry>,
}

/// The model of a `SexStandards`.
pub ghost struct SexModel {
    pub events: Seq<EventEntry>,
    pub order: Seq<Seq<char>>,
}

/// The model of a `StandardsTable`.
pub ghost struct TableModel {
    pub men: SexModel,
    pub women: SexModel,
}

impl View for AgeStandard {
    type V = AgeEntry;

    open spec fn view(&self) -> AgeEntry {
        AgeEntry { age: self.age@, time: self.time }
    }
}

impl View for EventStandards {
    type V = EventEntry;

    open spec fn view(&self) -> EventEntry {
        EventEntry { event: self.event@, ages: views(self.ages@) }
    }
}

impl View for SexStandards {
    type V = SexModel;

    open spec fn view(&self) -> SexModel {
        SexModel { events: views(self.events@), order: texts(self.order@) }
    }
}

impl View for StandardsTable {
    type V = TableModel;

    open spec fn view(&self) -> TableModel {
        TableModel { men: self.men@, women: self.women@ }
    }
}

/// The age labels of a list of standards, in order.
pub open spec fn age_keys(ages: Seq<AgeEntry>) -> Seq<Seq<char>> {
    Seq::new(ages.len(), |i: int| ages[i].age)
}

/// The event names of a list of events, in order.
pub open spec fn event_keys(events: Seq<EventEntry>) -> Seq<Seq<char>> {
    Seq::new(events.len(), |i: int| events[i].event)
}

/// The standard that `ages` hold for the age group `age`.
pub open spec fn standard_in(ages: Seq<AgeEntry>, age: Seq<char>) -> Option<Seconds> {
    match position(age_keys(ages), age) {
        Some(i) => Some(ages[i].time),
        None => None,
    }
}

/// `ages` with the standard `time` for the age group `age`: in the place of
/// the standard that the group had, or at the end.
pub open spec fn with_age(ages: Seq<AgeEntry>, age: Seq<char>, time: Seconds) -> Seq<AgeEntry> {
    let entry = AgeEntry { age, time };
    match position(age_keys(ages), age) {
        Some(i) => ages.update(i, entry),
        None => ages.push(entry),
    }
}

/// `events` with the standards `ages` for `event`: in the place of those
/// that the event had, or at the end.
pub open spec fn with_event(events: Seq<EventEntry>, event: Seq<char>, ages: Seq<AgeEntry>) -> Seq<
    EventEntry,
> {
    let entry = EventEntry { event, ages };
    match position(event_keys(events), event) {
        Some(i) => events.update(i, entry),
        None => events.push(entry),
    }
}

impl EventEntry {
    /// Whether no age group stands twice.
    pub open spec fn wf(self) -> bool {
        self.labels().no_duplicates()
    }

    /// The age groups that have a standard, in order.
    pub open spec fn labels(self) -> Seq<Seq<char>> {
        age_keys(self.ages)
    }

    /// The standard of the age group `age`.
    pub open spec fn standard(self, age: Seq<char>) -> Option<Seconds> {
        standard_in(self.ages, age)
    }
}

/// The standards that `events` hold for `event`.
pub open spec fn event_in(events: Seq<EventEntry>, event: Seq<char>) -> Option<EventEntry> {
    match position(event_keys(events), event) {
        Some(i) => Some(events[i]),
        None => None,
    }
}

impl SexModel {
    /// Whether no event stands twice, and no age group twice in an event.
    pub open spec fn wf(self) -> bool {
        &&& event_keys(self.events).no_duplicates()
        &&& forall|i: int| 0 <= i < self.events.len() ==> (#[trigger] self.events[i]).wf()
    }

    /// The standards of `event`.
    pub open spec fn event(self, event: Seq<char>) -> Option<EventEntry> {
        event_in(self.events, event)
    }

    /// The qualifying time of `event` for the age group `age`.
    pub open spec fn standard(self, event: Seq<char>, age: Seq<char>) -> Option<Seconds> {
        match self.event(event) {
            Some(standards) => standards.standard(age),
            None => None,
        }
    }
}

impl TableModel {
    /// Whether both sexes hold each event and each age group once.
    pub open spec fn wf(self) -> bool {
        self.men.wf() && self.women.wf()
    }

    /// The standards of the sex with the key `sex`: `Men` or `Women`.
    pub open spec fn sex(self, sex: Seq<char>) -> Option<SexModel> {
        if sex == "Men"@ {
            Some(self.men)
        } else if sex == "Women"@ {
            Some(self.women)
        } else {
            None
        }
    }

    /// The standards of `event` for `sex`.
    pub open spec fn event(self, sex: Seq<char>, event: Seq<char>) -> Option<EventEntry> {
        match self.sex(sex) {
            Some(standards) => standards.event(event),
            None => None,
        }
    }

    /// The qualifying time of `event` for `sex` and the age group `age`.
    pub open spec fn standard(self, sex: Seq<char>, event: Seq<char>, age: Seq<char>) -> Option<
        Seconds,
    > {
        match self.sex(sex) {
            Some(standards) => standards.standard(event, age),
            None => None,
        }
    }
}

impl EventStandards {
    /// The standard of the age group `age`.
    pub fn standard(&self, age: &str) -> (r: Option<Seconds>)
        ensures
            r == self@.standard(age@),
    {
        let mut i: usize = 0;
        while i < self.ages.len()
            invariant
                i <= self.ages.len(),
                forall|j: int| 0 <= j < i ==> #[trigger] self@.labels()[j] != age@,
            decreases self.ages.len() - i,
        {
            if same_text(self.ages[i].age.as_str(), age) {
                proof {
                    lemma_position(self@.labels(), age@, i as int);
                }
                return Some(self.ages[i].time);
            }
            i += 1;
        }
        proof {
            lemma_position(self@.labels(), age@, i as int);
        }
        None
    }

    /// The age groups that have a standard, in order.
    pub fn labels(&self) -> (r: Vec<String>)
        ensures
            texts(r@) == self@.labels(),
    {
        let mut out: Vec<String> = Vec::new();
        let mut i: usize = 0;
        while i < self.ages.len()
            invariant
                i <= self.ages.len(),
                texts(out@) =~= self@.labels().take(i as int),
            decreases self.ages.len() - i,
        {
            let ghost before = out@;
            out.push(self.ages[i].age.clone());
            assert(self@.labels()[i as int] == self.ages@[i as int].age@);
            assert(texts(out@) =~= texts(before).push(self.ages@[i as int].age@));
            i += 1;
        }
        out
    }
}

impl SexStandards {
    /// The standards of no event at all.
    pub fn new() -> (r: SexStandards)
        ensures
            r@ == (SexModel { events: Seq::empty(), order: Seq::empty() }),
    {
        let r = SexStandards { events: Vec::new(), order: Vec::new() };
        assert(r@.events =~= Seq::empty());
        assert(r@.order =~= Seq::empty());
        r
    }

    /// The standards of `event`.
    pub fn event(&self, event: &str) -> (r: Option<&EventStandards>)
        ensures
            match r {
                Some(standards) => self@.event(event@) == Some(standards@),
                None => self@.event(event@) is None,
            },
    {
        let ghost keys = event_keys(self@.events);
        let mut i: usize = 0;
        while i < self.events.len()
            invariant
                i <= self.events.len(),
                keys == event_keys(self@.events),
                forall|j: int| 0 <= j < i ==> #[trigger] keys[j] != event@,
            decreases self.events.len() - i,
        {
            if same_text(self.events[i].event.as_str(), event) {
                proof {
                    lemma_position(keys, event@, i as int);
                }
                return Some(&self.events[i]);
            }
            i += 1;
        }
        proof {
            lemma_position(keys, event@, i as int);
        }
        None
    }
}

impl StandardsTable {
    /// The standards of the sex with the key `sex`: `Men` or `Women`.
    pub fn sex(&self, sex: &str) -> (r: Option<&SexStandards>)
        ensures
            match r {
                Some(standards) => self@.sex(sex@) == Some(standards@),
                None => self@.sex(sex@) is None,
            },
    {
        if same_text(sex, "Men") {
            Some(&self.men)
        } else if same_text(sex, "Women") {
            Some(&self.women)
        } else {
            None
        }
    }

    /// The standards of `event` for `sex`.
    pub fn event(&self, sex: &str, event: &str) -> (r: Option<&EventStandards>)
        ensures
            match r {
                Some(standards) => self@.event(sex@, event@) == Some(standards@),
                None => self@.event(sex@, event@) is None,
            },
    {
        match self.sex(sex) {
            Some(standards) => standards.event(event),
            None => None,
        }
    }

    /// The qualifying time of `event` for `sex` and the age group `age`.
    pub fn standard(&self, sex: &str, event: &str, age: &str) -> (r: Option<Seconds>)
        ensures
            r == self@.standard(sex@, event@, age@),
    {
        match self.event(sex, event) {
            Some(standards) => standards.standard(age),
            None => None,
        }
    }
}

/// The age group that a heading cell names: the canonical form of its
/// label. A cell without a label names none.
pub open spec fn heading_age(cell: Cell) -> Option<Seq<char>> {
    let label = cell_label(cell);
    if label.len() == 0 {
        None
    } else {
        Some(normalized_age(label))
    }
}

/// The age group of each column of a sheet whose first row is `header`.
/// The first column is that of the events and has no age group; nor has
/// a column whose heading cell is without a label.
pub open spec fn column_ages(header: Seq<Cell>) -> Seq<Option<Seq<char>>> {
    Seq::new(
        header.len(),
        |c: int|
            if c == 0 {
                None
            } else {
                heading_age(header[c])
            },
    )
}

/// What a vector of optional labels holds.
pub open spec fn optional_texts(labels: Seq<Option<String>>) -> Seq<Option<Seq<char>>> {
    Seq::new(
        labels.len(),
        |i: int|
            match labels[i] {
                Some(label) => Some(label@),
                None => None,
            },
    )
}

/// Whether column `c` of `row` gives the age group `label` a standard:
/// the column is that of the age group, and the cell of the row in that
/// column holds a time.
pub open spec fn gives(ages: Seq<Option<Seq<char>>>, row: Seq<Cell>, c: int, label: Seq<char>)
    -> bool {
    &&& 0 <= c < ages.len()
    &&& c < row.len()
    &&& ages[c] == Some(label)
    &&& cell_seconds(row[c]) is Some
}

/// Whether column `c` is the last one of `row` that gives the age group
/// `label` a standard.
pub open spec fn is_last_column(
    ages: Seq<Option<Seq<char>>>,
    row: Seq<Cell>,
    c: int,
    label: Seq<char>,
) -> bool {
    &&& gives(ages, row, c, label)
    &&& forall|d: int| c < d < ages.len() ==> !gives(ages, row, d, label)
}

/// Whether row `r` is the last one of `rows`, the heading apart, that is
/// about `event`.
pub open spec fn is_last_row(rows: Seq<Row>, r: int, event: Seq<char>) -> bool {
    &&& 1 <= r < rows.len()
    &&& row_event(rows[r]@) == Some(event)
    &&& forall|q: int| r < q < rows.len() ==> row_event(#[trigger] rows[q]@) != Some(event)
}

/// The event that a row of standards is about: the canonical form of the
/// text in its first cell. A row without such a text is about none.
pub open spec fn row_event(row: Seq<Cell>) -> Option<Seq<char>> {
    if row.len() == 0 {
        None
    } else {
        match cell_text(row[0]) {
            Some(name) => normalized_event(name),
            None => None,
        }
    }
}

/// The standards that the first `n` columns of `row` give. A column
/// that has an age group gives it the time in the cell of that column; a
/// cell that is missing or holds no time gives no standard.
pub open spec fn row_standards(ages: Seq<Option<Seq<char>>>, row: Seq<Cell>, n: int) -> Seq<
    AgeEntry,
>
    decreases n,
{
    if n <= 0 {
        Seq::empty()
    } else {
        let before = row_standards(ages, row, n - 1);
        let c = n - 1;
        if c < ages.len() && c < row.len() {
            match (ages[c], cell_seconds(row[c])) {
                (Some(label), Some(time)) => with_age(before, label, time),
                _ => before,
            }
        } else {
            before
        }
    }
}

/// The standards that the first `n` rows of a sheet give. The first row
/// is the heading; every later row that is about an event gives that
/// event its standards, in the place of any that an earlier row gave it.
pub open spec fn standards_of_rows(rows: Seq<Row>, n: int) -> SexModel
    decreases n,
{
    if n <= 1 {
        SexModel { events: Seq::empty(), order: Seq::empty() }
    } else {
        let before = standards_of_rows(rows, n - 1);
        let row = rows[n - 1]@;
        let ages = column_ages(rows[0]@);
        match row_event(row) {
            None => before,
            Some(event) => SexModel {
                events: with_event(
                    before.events,
                    event,
                    row_standards(ages, row, ages.len() as int),
                ),
                order: before.order.push(event),
            },
        }
    }
}

/// The standards that a sheet gives.
pub open spec fn sheet_standards(rows: Seq<Row>) -> SexModel {
    standards_of_rows(rows, rows.len() as int)
}

/// The table that the sheet of the men and the sheet of the women give.
pub open spec fn time_standards(mens: Seq<Row>, womens: Seq<Row>) -> TableModel {
    TableModel { men: sheet_standards(mens), women: sheet_standards(womens) }
}

/// Giving an age group a standard makes it the standard of that group
/// and leaves every other group its own. No group comes to stand twice.
pub proof fn lemma_with_age(ages: Seq<AgeEntry>, age: Seq<char>, time: Seconds, other: Seq<char>)
    ensures
        standard_in(with_age(ages, age, time), other) == if other == age {
            Some(time)
        } else {
            standard_in(ages, other)
        },
        age_keys(ages).no_duplicates() ==> age_keys(with_age(ages, age, time)).no_duplicates(),
{
    let keys = age_keys(ages);
    let after = with_age(ages, age, time);
    lemma_position_is_first(keys, age);
    lemma_position_is_first(keys, other);
    match position(keys, age) {
        Some(i) => {
            assert(age_keys(after) =~= keys);
            assert(keys[i] == age);
            match position(keys, other) {
                Some(j) => {
                    assert(keys[j] == other);
                    if j != i {
                        assert(after[j] == ages[j]);
                    }
                },
                None => {},
            }
        },
        None => {
            assert(age_keys(after) =~= keys.push(age));
            lemma_position_push(keys, age, other);
            match position(keys, other) {
                Some(j) => {
                    assert(after[j] == ages[j]);
                },
                None => {},
            }
            if keys.no_duplicates() {
                lemma_push_distinct(keys, age);
            }
        },
    }
}

/// Giving an event its standards leaves no event standing twice, and no
/// age group twice in an event, where the standards given hold none
/// twice.
pub proof fn lemma_with_event(events: Seq<EventEntry>, event: Seq<char>, ages: Seq<AgeEntry>)
    requires
        event_keys(events).no_duplicates(),
        forall|i: int| 0 <= i < events.len() ==> (#[trigger] events[i]).wf(),
        age_keys(ages).no_duplicates(),
    ensures
        event_keys(with_event(events, event, ages)).no_duplicates(),
        forall|i: int|
            0 <= i < with_event(events, event, ages).len() ==> (#[trigger] with_event(
                events,
                event,
                ages,
            )[i]).wf(),
{
    let keys = event_keys(events);
    let after = with_event(events, event, ages);
    lemma_position_is_first(keys, event);
    match position(keys, event) {
        Some(i) => {
            assert(event_keys(after) =~= keys);
            assert forall|k: int| 0 <= k < after.len() implies (#[trigger] after[k]).wf() by {
                if k != i {
                    assert(after[k] == events[k]);
                }
            }
        },
        None => {
            assert(event_keys(after) =~= keys.push(event));
            lemma_push_distinct(keys, event);
            assert forall|k: int| 0 <= k < after.len() implies (#[trigger] after[k]).wf() by {
                if k < events.len() {
                    assert(after[k] == events[k]);
                }
            }
        },
    }
}

/// Giving an event its standards makes them the standards of that event
/// and leaves every other event its own.
pub proof fn lemma_with_event_lookup(
    events: Seq<EventEntry>,
    event: Seq<char>,
    ages: Seq<AgeEntry>,
    other: Seq<char>,
)
    ensures
        event_in(with_event(events, event, ages), other) == if other == event {
            Some(EventEntry { event, ages })
        } else {
            event_in(events, other)
        },
{
    let keys = event_keys(events);
    let after = with_event(events, event, ages);
    lemma_position_is_first(keys, event);
    lemma_position_is_first(keys, other);
    match position(keys, event) {
        Some(i) => {
            assert(event_keys(after) =~= keys);
            assert(keys[i] == event);
            match position(keys, other) {
                Some(j) => {
                    assert(keys[j] == other);
                    if j != i {
                        assert(after[j] == events[j]);
                    }
                },
                None => {},
            }
        },
        None => {
            assert(event_keys(after) =~= keys.push(event));
            lemma_position_push(keys, event, other);
            match position(keys, other) {
                Some(j) => {
                    assert(after[j] == events[j]);
                },
                None => {},
            }
        },
    }
}

/// A row gives no age group two standards.
pub proof fn lemma_row_standards_distinct(ages: Seq<Option<Seq<char>>>, row: Seq<Cell>, n: int)
    ensures
        age_keys(row_standards(ages, row, n)).no_duplicates(),
    decreases n,
{
    if n > 0 {
        lemma_row_standards_distinct(ages, row, n - 1);
        let c = n - 1;
        if c < ages.len() && c < row.len() {
            match (ages[c], cell_seconds(row[c])) {
                (Some(label), Some(time)) => {
                    lemma_with_age(row_standards(ages, row, n - 1), label, time, label);
                },
                _ => {},
            }
        }
    } else {
        assert(age_keys(Seq::<AgeEntry>::empty()) =~= Seq::empty());
    }
}

/// The standard that the first `n` columns of a row give an age group is
/// the time in the last of those columns that gives it one.
pub proof fn lemma_row_standard(
    ages: Seq<Option<Seq<char>>>,
    row: Seq<Cell>,
    n: int,
    label: Seq<char>,
)
    ensures
        match standard_in(row_standards(ages, row, n), label) {
            Some(time) => exists|c: int|
                0 <= c < n && #[trigger] gives(ages, row, c, label) && cell_seconds(row[c]) == Some(
                    time,
                ) && forall|d: int| c < d < n ==> !gives(ages, row, d, label),
            None => forall|c: int| 0 <= c < n ==> !gives(ages, row, c, label),
        },
    decreases n,
{
    if n > 0 {
        lemma_row_standard(ages, row, n - 1, label);
        let before = row_standards(ages, row, n - 1);
        let last = n - 1;
        if last < ages.len() && last < row.len() {
            match (ages[last], cell_seconds(row[last])) {
                (Some(added), Some(time)) => {
                    lemma_with_age(before, added, time, label);
                    if added == label {
                        assert(gives(ages, row, last, label));
                    } else {
                        lemma_row_standard_kept(ages, row, n, label);
                    }
                },
                _ => {
                    lemma_row_standard_kept(ages, row, n, label);
                },
            }
        } else {
            lemma_row_standard_kept(ages, row, n, label);
        }
    } else {
        assert(age_keys(Seq::<AgeEntry>::empty()) =~= Seq::empty());
    }
}

/// A column that gives an age group nothing changes nothing of what the
/// columns before it say of that group.
proof fn lemma_row_standard_kept(
    ages: Seq<Option<Seq<char>>>,
    row: Seq<Cell>,
    n: int,
    label: Seq<char>,
)
    requires
        n > 0,
        !gives(ages, row, n - 1, label),
        match standard_in(row_standards(ages, row, n - 1), label) {
            Some(time) => exists|c: int|
                0 <= c < n - 1 && #[trigger] gives(ages, row, c, label) && cell_seconds(row[c])
                    == Some(time) && forall|d: int| c < d < n - 1 ==> !gives(ages, row, d, label),
            None => forall|c: int| 0 <= c < n - 1 ==> !gives(ages, row, c, label),
        },
    ensures
        match standard_in(row_standards(ages, row, n - 1), label) {
            Some(time) => exists|c: int|
                0 <= c < n && #[trigger] gives(ages, row, c, label) && cell_seconds(row[c]) == Some(
                    time,
                ) && forall|d: int| c < d < n ==> !gives(ages, row, d, label),
            None => forall|c: int| 0 <= c < n ==> !gives(ages, row, c, label),
        },
{
    match standard_in(row_standards(ages, row, n - 1), label) {
        Some(time) => {
            let c = choose|c: int|
                0 <= c < n - 1 && #[trigger] gives(ages, row, c, label) && cell_seconds(row[c])
                    == Some(time) && forall|d: int| c < d < n - 1 ==> !gives(ages, row, d, label);
            assert(0 <= c < n && gives(ages, row, c, label) && cell_seconds(row[c]) == Some(time)
                && forall|d: int| c < d < n ==> !gives(ages, row, d, label));
        },
        None => {},
    }
}

/// The standards that the first `n` rows give an event are those of the
/// last of these rows that is about the event.
pub proof fn lemma_sheet_event(rows: Seq<Row>, n: int, event: Seq<char>)
    requires
        0 <= n <= rows.len(),
    ensures
        match standards_of_rows(rows, n).event(event) {
            Some(standards) => exists|r: int|
                1 <= r < n && row_event(#[trigger] rows[r]@) == Some(event) && (forall|q: int|
                    r < q < n ==> row_event(#[trigger] rows[q]@) != Some(event)) && standards == (
                EventEntry {
                    event,
                    ages: row_standards(
                        column_ages(rows[0]@),
                        rows[r]@,
                        column_ages(rows[0]@).len() as int,
                    ),
                }),
            None => forall|r: int| 1 <= r < n ==> row_event(#[trigger] rows[r]@) != Some(event),
        },
    decreases n,
{
    if n > 1 {
        lemma_sheet_event(rows, n - 1, event);
        let before = standards_of_rows(rows, n - 1);
        let last = n - 1;
        let ages = column_ages(rows[0]@);
        let named = row_event(rows[last]@);
        if named == Some(event) {
            lemma_with_event_lookup(
                before.events,
                event,
                row_standards(ages, rows[last]@, ages.len() as int),
                event,
            );
            assert(1 <= last < n && row_event(rows[last]@) == Some(event));
        } else {
            match named {
                Some(other) => {
                    lemma_with_event_lookup(
                        before.events,
                        other,
                        row_standards(ages, rows[last]@, ages.len() as int),
                        event,
                    );
                },
                None => {},
            }
            match before.event(event) {
                Some(standards) => {
                    let r = choose|r: int|
                        1 <= r < n - 1 && row_event(#[trigger] rows[r]@) == Some(event) && (forall|
                            q: int,
                        |
                            r < q < n - 1 ==> row_event(#[trigger] rows[q]@) != Some(event))
                            && standards == (EventEntry {
                            event,
                            ages: row_standards(ages, rows[r]@, ages.len() as int),
                        });
                    assert(1 <= r < n && row_event(rows[r]@) == Some(event) && (forall|q: int|
                        r < q < n ==> row_event(#[trigger] rows[q]@) != Some(event)));
                },
                None => {},
            }
        }
    } else {
        assert(event_keys(Seq::<EventEntry>::empty()) =~= Seq::empty());
    }
}

/// A data cell belongs to the age group that heads its own column: the
/// standard of an event for an age group is the time in the last row
/// that is about the event, in the last column of the age group in which
/// that row holds a time. Where there is no such row or no such column,
/// there is no standard.
pub proof fn lemma_sheet_standard(
    rows: Seq<Row>,
    event: Seq<char>,
    label: Seq<char>,
    time: Seconds,
)
    ensures
        sheet_standards(rows).standard(event, label) == Some(time) <==> exists|r: int, c: int|
            #![trigger is_last_row(rows, r, event), is_last_column(column_ages(rows[0]@), rows[r]@, c, label)]
            is_last_row(rows, r, event) && is_last_column(
                column_ages(rows[0]@),
                rows[r]@,
                c,
                label,
            ) && cell_seconds(rows[r]@[c]) == Some(time),
{
    let n = rows.len() as int;
    let ages = column_ages(rows[0]@);
    let width = ages.len() as int;
    lemma_sheet_event(rows, n, event);
    if sheet_standards(rows).standard(event, label) == Some(time) {
        let standards = sheet_standards(rows).event(event)->0;
        let r = choose|r: int|
            1 <= r < n && row_event(#[trigger] rows[r]@) == Some(event) && (forall|q: int|
                r < q < n ==> row_event(#[trigger] rows[q]@) != Some(event)) && standards == (
            EventEntry { event, ages: row_standards(ages, rows[r]@, width) });
        lemma_row_standard(ages, rows[r]@, width, label);
        let c = choose|c: int|
            0 <= c < width && #[trigger] gives(ages, rows[r]@, c, label) && cell_seconds(
                rows[r]@[c],
            ) == Some(time) && forall|d: int| c < d < width ==> !gives(ages, rows[r]@, d, label);
        assert(is_last_row(rows, r, event));
        assert(is_last_column(ages, rows[r]@, c, label));
    }
    if exists|r: int, c: int|
        #![trigger is_last_row(rows, r, event), is_last_column(column_ages(rows[0]@), rows[r]@, c, label)]
        is_last_row(rows, r, event) && is_last_column(ages, rows[r]@, c, label) && cell_seconds(
            rows[r]@[c],
        ) == Some(time) {
        let (r, c) = choose|r: int, c: int|
            #![trigger is_last_row(rows, r, event), is_last_column(column_ages(rows[0]@), rows[r]@, c, label)]
            is_last_row(rows, r, event) && is_last_column(ages, rows[r]@, c, label) && cell_seconds(
                rows[r]@[c],
            ) == Some(time);
        assert(row_event(rows[r]@) == Some(event));
        let standards = sheet_standards(rows).event(event)->0;
        let r0 = choose|r0: int|
            1 <= r0 < n && row_event(#[trigger] rows[r0]@) == Some(event) && (forall|q: int|
                r0 < q < n ==> row_event(#[trigger] rows[q]@) != Some(event)) && standards == (
            EventEntry { event, ages: row_standards(ages, rows[r0]@, width) });
        assert(r0 == r);
        lemma_row_standard(ages, rows[r]@, width, label);
        assert(gives(ages, rows[r]@, c, label));
        let c0 = choose|c0: int|
            0 <= c0 < width && #[trigger] gives(ages, rows[r]@, c0, label) && forall|d: int|
                c0 < d < width ==> !gives(ages, rows[r]@, d, label);
        assert(c0 == c);
    }
}

/// The standards of a sheet hold each event once, and each age group
/// once in an event.
pub proof fn lemma_sheet_standards_wf(rows: Seq<Row>, n: int)
    ensures
        standards_of_rows(rows, n).wf(),
    decreases n,
{
    if n > 1 {
        lemma_sheet_standards_wf(rows, n - 1);
        let before = standards_of_rows(rows, n - 1);
        let row = rows[n - 1]@;
        let ages = column_ages(rows[0]@);
        match row_event(row) {
            Some(event) => {
                lemma_row_standards_distinct(ages, row, ages.len() as int);
                lemma_with_event(
                    before.events,
                    event,
                    row_standards(ages, row, ages.len() as int),
                );
            },
            None => {},
        }
    } else {
        assert(event_keys(Seq::<EventEntry>::empty()) =~= Seq::empty());
    }
}

/// The table has for the men what their sheet gives, and for the women
/// what theirs gives.
pub proof fn lemma_time_standards(
    mens: Seq<Row>,
    womens: Seq<Row>,
    event: Seq<char>,
    label: Seq<char>,
)
    ensures
        time_standards(mens, womens).standard("Men"@, event, label) == sheet_standards(
            mens,
        ).standard(event, label),
        time_standards(mens, womens).standard("Women"@, event, label) == sheet_standards(
            womens,
        ).standard(event, label),
{
    reveal_strlit("Men");
    reveal_strlit("Women");
    assert("Men"@.len() != "Women"@.len());
}

/// The age group of each column of a sheet whose first row is `header`.
pub fn header_ages(header: &Vec<Cell>) -> (r: Vec<Option<String>>)
    ensures
        optional_texts(r@) == column_ages(header@),
{
    let mut ages: Vec<Option<String>> = Vec::new();
    let mut c: usize = 0;
    while c < header.len()
        invariant
            c <= header.len(),
            ages.len() == c,
            forall|k: int| 0 <= k < c ==> optional_texts(ages@)[k] == column_ages(header@)[k],
        decreases header.len() - c,
    {
        let label = label_of(&header[c]);
        let age = if c == 0 || label.unicode_len() == 0 {
            None
        } else {
            Some(normalize_age(label.as_str()))
        };
        ages.push(age);
        c += 1;
    }
    assert(optional_texts(ages@) =~= column_ages(header@));
    ages
}

/// The event that a row of standards is about.
pub fn event_of_row(row: &Vec<Cell>) -> (r: Option<String>)
    ensures
        match r {
            Some(event) => row_event(row@) == Some(event@),
            None => row_event(row@) is None,
        },
{
    if row.len() == 0 {
        return None;
    }
    match text_of(&row[0]) {
        Some(name) => normalize_event_name(name),
        None => None,
    }
}

/// Gives the age group `age` the standard `time`.
pub fn insert_age(ages: &mut Vec<AgeStandard>, age: String, time: Seconds)
    ensures
        views(final(ages)@) == with_age(views(old(ages)@), age@, time),
{
    let ghost keys = age_keys(views(ages@));
    let mut i: usize = 0;
    while i < ages.len()
        invariant
            i <= ages.len(),
            *ages == *old(ages),
            keys == age_keys(views(ages@)),
            forall|j: int| 0 <= j < i ==> #[trigger] keys[j] != age@,
        decreases ages.len() - i,
    {
        if same_text(ages[i].age.as_str(), age.as_str()) {
            proof {
                lemma_position(keys, age@, i as int);
            }
            let ghost before = views(ages@);
            let entry = AgeStandard { age, time };
            ages.set(i, entry);
            assert(views(ages@) =~= before.update(i as int, entry@));
            return ;
        }
        i += 1;
    }
    proof {
        lemma_position(keys, age@, i as int);
    }
    let ghost before = views(ages@);
    let entry = AgeStandard { age, time };
    ages.push(entry);
    assert(views(ages@) =~= before.push(entry@));
}

/// Gives `event` the standards `ages`.
pub fn insert_event(events: &mut Vec<EventStandards>, event: String, ages: Vec<AgeStandard>)
    ensures
        views(final(events)@) == with_event(views(old(events)@), event@, views(ages@)),
{
    let ghost keys = event_keys(views(events@));
    let mut i: usize = 0;
    while i < events.len()
        invariant
            i <= events.len(),
            *events == *old(events),
            keys == event_keys(views(events@)),
            forall|j: int| 0 <= j < i ==> #[trigger] keys[j] != event@,
        decreases events.len() - i,
    {
        if same_text(events[i].event.as_str(), event.as_str()) {
            proof {
                lemma_position(keys, event@, i as int);
            }
            let ghost before = views(events@);
            let entry = EventStandards { event, ages };
            events.set(i, entry);
            assert(views(events@) =~= before.update(i as int, entry@));
            return ;
        }
        i += 1;
    }
    proof {
        lemma_position(keys, event@, i as int);
    }
    let ghost before = views(events@);
    let entry = EventStandards { event, ages };
    events.push(entry);
    assert(views(events@) =~= before.push(entry@));
}

/// The standards that `row` gives: each column that has an age group
/// gives it the time in the cell of that column.
pub fn standards_of_row(ages: &Vec<Option<String>>, row: &Vec<Cell>) -> (r: Vec<AgeStandard>)
    ensures
        views(r@) == row_standards(optional_texts(ages@), row@, ages.len() as int),
{
    let mut out: Vec<AgeStandard> = Vec::new();
    let mut c: usize = 0;
    assert(views(out@) =~= row_standards(optional_texts(ages@), row@, 0));
    while c < ages.len()
        invariant
            c <= ages.len(),
            views(out@) == row_standards(optional_texts(ages@), row@, c as int),
        decreases ages.len() - c,
    {
        if c < row.len() {
            match &ages[c] {
                Some(label) => {
                    assert(optional_texts(ages@)[c as int] == Some(label@));
                    match time_to_seconds(&row[c]) {
                        Some(time) => {
                            insert_age(&mut out, label.clone(), time);
                        },
                        None => {},
                    }
                },
                None => {
                    assert(optional_texts(ages@)[c as int] is None);
                },
            }
        }
        c += 1;
    }
    out
}

/// The standards that a sheet gives.
pub fn standards_of_sheet(rows: &Vec<Row>) -> (r: SexStandards)
    ensures
        r@ == sheet_standards(rows@),
{
    let mut standards = SexStandards::new();
    if rows.len() == 0 {
        return standards;
    }
    let ages = header_ages(&rows[0]);
    let mut n: usize = 1;
    while n < rows.len()
        invariant
            1 <= n <= rows.len(),
            optional_texts(ages@) == column_ages(rows@[0]@),
            standards@ == standards_of_rows(rows@, n as int),
        decreases rows.len() - n,
    {
        let row = &rows[n];
        match event_of_row(row) {
            Some(event) => {
                let ghost before = standards@;
                let times = standards_of_row(&ages, row);
                standards.order.push(event.clone());
                insert_event(&mut standards.events, event, times);
                assert(standards@.order =~= before.order.push(event@));
            },
            None => {},
        }
        n += 1;
    }
    standards
}

/// Builds the table of standards from the sheet of the men and the sheet
/// of the women. A sheet that could not be had is given as no rows.
pub fn load_time_standards(mens: &Vec<Row>, womens: &Vec<Row>) -> (table: StandardsTable)
    ensures
        table@ == time_standards(mens@, womens@),
        table@.wf(),
{
    proof {
        lemma_sheet_standards_wf(mens@, mens@.len() as int);
        lemma_sheet_standards_wf(womens@, womens@.len() as int);
    }
    StandardsTable { men: standards_of_sheet(mens), women: standards_of_sheet(womens) }
}

} // verus!
