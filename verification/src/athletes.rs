//! Counting athletes, each once, by the age group to which their age
//! resolves.
//!
//! This count is lenient: the age of a result is resolved to the nearest
//! age group that has a standard. Athletes are told apart by their names
//! alone, so two athletes of one name in one group are one.

use vstd::prelude::*;
use vstd::string::*;
use crate::ages::{best_age_match, find_best_age_match};
use crate::lookup::{
    find_text,
    lemma_position,
    lemma_position_contains,
    lemma_position_is_first,
    lemma_position_push,
    lemma_push_distinct,
    position,
    views,
};
use crate::meet::{MeetResult, ResultModel};
use crate::standards::{StandardsTable, TableModel};
use crate::text::{same_text, texts};

verus! {

/// The athletes of one sex and age group, by name, each once.
#[derive(Clone, Debug, PartialEq, Eq)]
pub struct AthleteGroup {
    pub sex: String,
    pub age: String,
    pub names: Vec<String>,
}

/// The athletes of every sex and age group that has any.
#[derive(Clone, Debug, PartialEq, Eq)]
pub struct AthleteGroups {
    pub groups: Vec<AthleteGroup>,
}

/// The model of an `AthleteGroup`.
pub ghost struct GroupModel {
    pub sex: Seq<char>,
    pub age: Seq<char>,
    pub names: Seq<Seq<char>>,
}

impl View for AthleteGroup {
    type V = GroupModel;

    open spec fn view(&self) -> GroupModel {
        GroupModel { sex: self.sex@, age: self.age@, names: texts(self.names@) }
    }
}

impl View for AthleteGroups {
    type V = Seq<GroupModel>;

    open spec fn view(&self) -> Seq<GroupModel> {
        views(self.groups@)
    }
}

/// The sex and age group of each group, in order.
pub open spec fn group_keys(groups: Seq<GroupModel>) -> Seq<(Seq<char>, Seq<char>)> {
    Seq::new(groups.len(), |i: int| (groups[i].sex, groups[i].age))
}

/// The names that `groups` hold for a sex and age group, in the order in
/// which they came.
pub open spec fn names_of(groups: Seq<GroupModel>, sex: Seq<char>, age: Seq<char>) -> Seq<
    Seq<char>,
> {
    match position(group_keys(groups), (sex, age)) {
        Some(i) => groups[i].names,
        None => Seq::empty(),
    }
}

/// `groups` with `name` among the athletes of a sex and age group. A name
/// that the group holds already changes nothing.
pub open spec fn with_name(
    groups: Seq<GroupModel>,
    sex: Seq<char>,
    age: Seq<char>,
    name: Seq<char>,
) -> Seq<GroupModel> {
    match position(group_keys(groups), (sex, age)) {
        Some(i) => if groups[i].names.contains(name) {
            groups
        } else {
            groups.update(i, GroupModel { sex, age, names: groups[i].names.push(name) })
        },
        None => groups.push(GroupModel { sex, age, names: seq![name] }),
    }
}

/// The age group in which a result qualifies its athlete.
///
/// The result names its athlete; its sex and event have standards; its
/// age resolves to one of their age groups; and its time is at most the
/// standard of that group.
pub open spec fn qualifying_age(result: ResultModel, table: TableModel) -> Option<Seq<char>> {
    if result.name.len() == 0 {
        None
    } else {
        match table.event(result.sex, result.event) {
            None => None,
            Some(standards) => match best_age_match(result.age, standards.labels()) {
                None => None,
                Some(age) => match standards.standard(age) {
                    Some(standard) => if result.time.at_most(standard) {
                        Some(age)
                    } else {
                        None
                    },
                    None => None,
                },
            },
        }
    }
}

/// The age group among which the athlete of a result is counted, whether
/// the result qualifies or not.
///
/// The result names its athlete, and its age resolves to one of the age
/// groups of the first event that its sex has standards for. That event
/// stands for all: it lends its age groups and nothing else.
pub open spec fn athlete_age(result: ResultModel, table: TableModel) -> Option<Seq<char>> {
    if result.name.len() == 0 {
        None
    } else {
        match table.sex(result.sex) {
            None => None,
            Some(standards) => if standards.events.len() == 0 {
                None
            } else {
                best_age_match(result.age, standards.events[0].labels())
            },
        }
    }
}

/// The age group to which a result is counted: among the qualifiers, or
/// among all athletes.
pub open spec fn resolved_age(result: ResultModel, table: TableModel, qualifiers_only: bool)
    -> Option<Seq<char>> {
    if qualifiers_only {
        qualifying_age(result, table)
    } else {
        athlete_age(result, table)
    }
}

/// The names of the athletes of a sex whom `results` count to an age
/// group.
pub open spec fn athletes(
    results: Seq<ResultModel>,
    table: TableModel,
    qualifiers_only: bool,
    sex: Seq<char>,
    age: Seq<char>,
) -> Set<Seq<char>>
    decreases results.len(),
{
    if results.len() == 0 {
        Set::empty()
    } else {
        let result = results.last();
        let before = athletes(results.drop_last(), table, qualifiers_only, sex, age);
        if result.sex == sex && resolved_age(result, table, qualifiers_only) == Some(age) {
            before.insert(result.name)
        } else {
            before
        }
    }
}

/// The athletes of a sex who qualified in at least one event at an age
/// group.
pub open spec fn unique_qualifiers(
    results: Seq<ResultModel>,
    table: TableModel,
    sex: Seq<char>,
    age: Seq<char>,
) -> Set<Seq<char>> {
    athletes(results, table, true, sex, age)
}

/// The athletes of a sex who swam at all at an age group.
pub open spec fn total_athletes(
    results: Seq<ResultModel>,
    table: TableModel,
    sex: Seq<char>,
    age: Seq<char>,
) -> Set<Seq<char>> {
    athletes(results, table, false, sex, age)
}

/// The groups that taking `results` one after the other leaves.
pub open spec fn grouped(results: Seq<ResultModel>, table: TableModel, qualifiers_only: bool) -> Seq<
    GroupModel,
>
    decreases results.len(),
{
    if results.len() == 0 {
        Seq::empty()
    } else {
        let result = results.last();
        let before = grouped(results.drop_last(), table, qualifiers_only);
        match resolved_age(result, table, qualifiers_only) {
            Some(age) => with_name(before, result.sex, age, result.name),
            None => before,
        }
    }
}

/// Adding a name to one group adds it to the names of that group, unless
/// it is among them, and leaves the names of every other group alone.
pub proof fn lemma_with_name(
    groups: Seq<GroupModel>,
    sex: Seq<char>,
    age: Seq<char>,
    name: Seq<char>,
    other_sex: Seq<char>,
    other_age: Seq<char>,
)
    ensures
        names_of(with_name(groups, sex, age, name), other_sex, other_age) == if (sex, age) == (
            other_sex,
            other_age,
        ) && !names_of(groups, sex, age).contains(name) {
            names_of(groups, sex, age).push(name)
        } else {
            names_of(groups, other_sex, other_age)
        },
{
    let key = (sex, age);
    let other = (other_sex, other_age);
    let keys = group_keys(groups);
    let after = with_name(groups, sex, age, name);
    lemma_position_is_first(keys, key);
    lemma_position_is_first(keys, other);
    match position(keys, key) {
        Some(i) => {
            assert(keys[i] == key);
            if !groups[i].names.contains(name) {
                assert(group_keys(after) =~= keys);
                match position(keys, other) {
                    Some(j) => {
                        assert(keys[j] == other);
                        if j != i {
                            assert(after[j] == groups[j]);
                        }
                    },
                    None => {},
                }
            }
        },
        None => {
            assert(group_keys(after) =~= keys.push(key));
            lemma_position_push(keys, key, other);
            assert(Seq::<Seq<char>>::empty().push(name) =~= seq![name]);
            match position(keys, other) {
                Some(j) => {
                    assert(after[j] == groups[j]);
                },
                None => {},
            }
        },
    }
}

/// Taking results one after the other leaves one group for each sex and
/// age group, and none without a name.
pub proof fn lemma_grouped_groups(
    results: Seq<ResultModel>,
    table: TableModel,
    qualifiers_only: bool,
)
    ensures
        group_keys(grouped(results, table, qualifiers_only)).no_duplicates(),
        forall|i: int|
            0 <= i < grouped(results, table, qualifiers_only).len() ==> (#[trigger] grouped(
                results,
                table,
                qualifiers_only,
            )[i]).names.len() > 0,
    decreases results.len(),
{
    if results.len() > 0 {
        let result = results.last();
        let before = grouped(results.drop_last(), table, qualifiers_only);
        lemma_grouped_groups(results.drop_last(), table, qualifiers_only);
        match resolved_age(result, table, qualifiers_only) {
            Some(age) => {
                let keys = group_keys(before);
                let key = (result.sex, age);
                let after = with_name(before, result.sex, age, result.name);
                match position(keys, key) {
                    Some(at) => {
                        lemma_position_is_first(keys, key);
                        if !before[at].names.contains(result.name) {
                            assert(group_keys(after) =~= keys);
                            assert forall|i: int| 0 <= i < after.len() implies (
                            #[trigger] after[i]).names.len() > 0 by {
                                if i != at {
                                    assert(after[i] == before[i]);
                                }
                            }
                        }
                    },
                    None => {
                        assert(group_keys(after) =~= keys.push(key));
                        lemma_push_distinct(keys, key);
                        assert forall|i: int| 0 <= i < after.len() implies (
                        #[trigger] after[i]).names.len() > 0 by {
                            if i < before.len() {
                                assert(after[i] == before[i]);
                            }
                        }
                    },
                }
            },
            None => {},
        }
    } else {
        assert(group_keys(Seq::<GroupModel>::empty()) =~= Seq::empty());
    }
}

/// The groups that `results` leave hold, for every sex and age group, the
/// names of its athletes, each once.
pub proof fn lemma_grouped(
    results: Seq<ResultModel>,
    table: TableModel,
    qualifiers_only: bool,
    sex: Seq<char>,
    age: Seq<char>,
)
    ensures
        names_of(grouped(results, table, qualifiers_only), sex, age).no_duplicates(),
        names_of(grouped(results, table, qualifiers_only), sex, age).to_set() == athletes(
            results,
            table,
            qualifiers_only,
            sex,
            age,
        ),
        names_of(grouped(results, table, qualifiers_only), sex, age).len() == athletes(
            results,
            table,
            qualifiers_only,
            sex,
            age,
        ).len(),
    decreases results.len(),
{
    let names = names_of(grouped(results, table, qualifiers_only), sex, age);
    if results.len() == 0 {
        assert(group_keys(Seq::<GroupModel>::empty()) =~= Seq::empty());
        assert(names =~= Seq::empty());
        assert(names.to_set() =~= Set::empty());
    } else {
        let result = results.last();
        let earlier = results.drop_last();
        let before = grouped(earlier, table, qualifiers_only);
        let names_before = names_of(before, sex, age);
        lemma_grouped(earlier, table, qualifiers_only, sex, age);
        match resolved_age(result, table, qualifiers_only) {
            Some(resolved) => {
                lemma_with_name(before, result.sex, resolved, result.name, sex, age);
                if (result.sex, resolved) == (sex, age) {
                    if names_before.contains(result.name) {
                        assert(names_before.to_set().insert(result.name) =~= names_before.to_set());
                    } else {
                        names_before.lemma_push_to_set_commute(result.name);
                        assert(names.no_duplicates());
                    }
                } else {
                    assert(!(result.sex == sex && resolved == age));
                }
            },
            None => {},
        }
    }
    names.unique_seq_to_set();
}

/// An athlete is among those of a sex and age group exactly when one of
/// the results names them and counts to that group.
pub proof fn lemma_athletes_members(
    results: Seq<ResultModel>,
    table: TableModel,
    qualifiers_only: bool,
    sex: Seq<char>,
    age: Seq<char>,
    name: Seq<char>,
)
    ensures
        athletes(results, table, qualifiers_only, sex, age).contains(name) <==> exists|i: int|
            0 <= i < results.len() && (#[trigger] results[i]).name == name && results[i].sex == sex
                && resolved_age(results[i], table, qualifiers_only) == Some(age),
    decreases results.len(),
{
    if results.len() > 0 {
        let earlier = results.drop_last();
        let last = results.len() - 1;
        lemma_athletes_members(earlier, table, qualifiers_only, sex, age, name);
        if athletes(results, table, qualifiers_only, sex, age).contains(name) {
            if athletes(earlier, table, qualifiers_only, sex, age).contains(name) {
                let i = choose|i: int|
                    0 <= i < earlier.len() && (#[trigger] earlier[i]).name == name && earlier[i].sex
                        == sex && resolved_age(earlier[i], table, qualifiers_only) == Some(age);
                assert(results[i] == earlier[i]);
            } else {
                assert(results[last].name == name);
            }
        }
        if exists|i: int|
            0 <= i < results.len() && (#[trigger] results[i]).name == name && results[i].sex == sex
                && resolved_age(results[i], table, qualifiers_only) == Some(age) {
            let i = choose|i: int|
                0 <= i < results.len() && (#[trigger] results[i]).name == name && results[i].sex
                    == sex && resolved_age(results[i], table, qualifiers_only) == Some(age);
            if i < last {
                assert(earlier[i] == results[i]);
            }
        }
    }
}

/// An athlete who qualifies a second time in the same sex and age group,
/// in whatever event, is counted once: the qualifiers of the group stay
/// the same, and so does their number.
pub proof fn lemma_repeated_qualifier_counts_once(
    results: Seq<ResultModel>,
    again: ResultModel,
    table: TableModel,
    sex: Seq<char>,
    age: Seq<char>,
)
    requires
        again.sex == sex,
        qualifying_age(again, table) == Some(age),
        unique_qualifiers(results, table, sex, age).contains(again.name),
    ensures
        unique_qualifiers(results.push(again), table, sex, age) == unique_qualifiers(
            results,
            table,
            sex,
            age,
        ),
        unique_qualifiers(results.push(again), table, sex, age).len() == unique_qualifiers(
            results,
            table,
            sex,
            age,
        ).len(),
{
    assert(results.push(again).drop_last() =~= results);
    assert(unique_qualifiers(results, table, sex, age).insert(again.name) =~= unique_qualifiers(
        results,
        table,
        sex,
        age,
    ));
}

impl AthleteGroups {
    /// How many athletes a sex and age group has.
    pub fn count(&self, sex: &str, age: &str) -> (r: usize)
        ensures
            r == names_of(self@, sex@, age@).len(),
    {
        match find_group(&self.groups, sex, age) {
            Some(i) => self.groups[i].names.len(),
            None => 0,
        }
    }
}

/// The place of the group of a sex and age group.
pub fn find_group(groups: &Vec<AthleteGroup>, sex: &str, age: &str) -> (r: Option<usize>)
    ensures
        match r {
            Some(i) => i < groups.len() && position(group_keys(views(groups@)), (sex@, age@))
                == Some(i as int),
            None => position(group_keys(views(groups@)), (sex@, age@)) is None,
        },
{
    let ghost keys = group_keys(views(groups@));
    let ghost key = (sex@, age@);
    let mut i: usize = 0;
    while i < groups.len()
        invariant
            i <= groups.len(),
            keys == group_keys(views(groups@)),
            key == (sex@, age@),
            forall|j: int| 0 <= j < i ==> #[trigger] keys[j] != key,
        decreases groups.len() - i,
    {
        if same_text(groups[i].sex.as_str(), sex) && same_text(groups[i].age.as_str(), age) {
            proof {
                lemma_position(keys, key, i as int);
            }
            return Some(i);
        }
        i += 1;
    }
    proof {
        lemma_position(keys, key, i as int);
    }
    None
}

/// Puts `name` among the athletes of a sex and age group.
pub fn add_name(groups: &mut Vec<AthleteGroup>, sex: &str, age: &str, name: &str)
    ensures
        views(final(groups)@) == with_name(views(old(groups)@), sex@, age@, name@),
{
    let ghost before = views(groups@);
    match find_group(groups, sex, age) {
        Some(i) => {
            let ghost names = before[i as int].names;
            assert(names == texts(groups@[i as int].names@));
            let known = find_text(&groups[i].names, name);
            proof {
                lemma_position_contains(names, name@);
            }
            if known.is_none() {
                proof {
                    lemma_position_is_first(group_keys(before), (sex@, age@));
                    assert(group_keys(before)[i as int] == (sex@, age@));
                }
                let mut group = groups.remove(i);
                group.names.push(String::from_str(name));
                assert(group@.names =~= names.push(name@));
                groups.insert(i, group);
                assert(views(groups@) =~= before.update(
                    i as int,
                    GroupModel { sex: sex@, age: age@, names: names.push(name@) },
                ));
            }
        },
        None => {
            let mut names: Vec<String> = Vec::new();
            names.push(String::from_str(name));
            let group = AthleteGroup { sex: String::from_str(sex), age: String::from_str(age), names };
            assert(group@.names =~= seq![name@]);
            groups.push(group);
            assert(views(groups@) =~= before.push(group@));
        },
    }
}

/// The age group in which a result qualifies its athlete, if it does.
pub fn qualifying_age_of(result: &MeetResult, table: &StandardsTable) -> (r: Option<String>)
    ensures
        match r {
            Some(age) => qualifying_age(result@, table@) == Some(age@),
            None => qualifying_age(result@, table@) is None,
        },
{
    if result.name.as_str().unicode_len() == 0 {
        return None;
    }
    let standards = match table.event(result.sex.as_str(), result.event.as_str()) {
        Some(standards) => standards,
        None => {
            return None;
        },
    };
    let labels = standards.labels();
    let age = match find_best_age_match(result.age.as_str(), &labels) {
        Some(age) => age,
        None => {
            return None;
        },
    };
    match standards.standard(age.as_str()) {
        Some(standard) => if result.time.le(&standard) {
            Some(age)
        } else {
            None
        },
        None => None,
    }
}

/// The age group among which the athlete of a result is counted, if
/// there is one.
pub fn athlete_age_of(result: &MeetResult, table: &StandardsTable) -> (r: Option<String>)
    ensures
        match r {
            Some(age) => athlete_age(result@, table@) == Some(age@),
            None => athlete_age(result@, table@) is None,
        },
{
    if result.name.as_str().unicode_len() == 0 {
        return None;
    }
    let standards = match table.sex(result.sex.as_str()) {
        Some(standards) => standards,
        None => {
            return None;
        },
    };
    if standards.events.len() == 0 {
        return None;
    }
    assert(standards@.events[0] == standards.events@[0]@);
    let labels = standards.events[0].labels();
    find_best_age_match(result.age.as_str(), &labels)
}

/// Collects the athletes of `meet_results` by sex and resolved age group:
/// those who qualified, or all.
pub fn collect_athletes(
    meet_results: &Vec<MeetResult>,
    table: &StandardsTable,
    qualifiers_only: bool,
) -> (r: AthleteGroups)
    ensures
        r@ == grouped(views(meet_results@), table@, qualifiers_only),
        group_keys(r@).no_duplicates(),
        forall|sex: Seq<char>, age: Seq<char>|
            #![trigger names_of(r@, sex, age)]
            names_of(r@, sex, age).no_duplicates() && names_of(r@, sex, age).to_set() == athletes(
                views(meet_results@),
                table@,
                qualifiers_only,
                sex,
                age,
            ) && names_of(r@, sex, age).len() == athletes(
                views(meet_results@),
                table@,
                qualifiers_only,
                sex,
                age,
            ).len(),
{
    let ghost results = views(meet_results@);
    let mut groups: Vec<AthleteGroup> = Vec::new();
    let mut n: usize = 0;
    assert(views(groups@) =~= grouped(results.take(0), table@, qualifiers_only));
    while n < meet_results.len()
        invariant
            n <= meet_results.len(),
            results == views(meet_results@),
            views(groups@) == grouped(results.take(n as int), table@, qualifiers_only),
        decreases meet_results.len() - n,
    {
        let result = &meet_results[n];
        proof {
            assert(results.take(n + 1).drop_last() =~= results.take(n as int));
            assert(results.take(n + 1).last() == result@);
        }
        let resolved = if qualifiers_only {
            qualifying_age_of(result, table)
        } else {
            athlete_age_of(result, table)
        };
        match resolved {
            Some(age) => {
                add_name(&mut groups, result.sex.as_str(), age.as_str(), result.name.as_str());
            },
            None => {},
        }
        n += 1;
    }
    let r = AthleteGroups { groups };
    proof {
        assert(results.take(n as int) =~= results);
        lemma_grouped_groups(results, table@, qualifiers_only);
        assert forall|sex: Seq<char>, age: Seq<char>|
            #![trigger names_of(r@, sex, age)]
            names_of(r@, sex, age).no_duplicates() && names_of(r@, sex, age).to_set() == athletes(
                results,
                table@,
                qualifiers_only,
                sex,
                age,
            ) && names_of(r@, sex, age).len() == athletes(
                results,
                table@,
                qualifiers_only,
                sex,
                age,
            ).len() by {
            lemma_grouped(results, table@, qualifiers_only, sex, age);
        }
    }
    r
}

/// Collects, for every sex and age group, the athletes who qualified in
/// at least one event. The age of a result is resolved against the age
/// groups of its own event. However often an athlete qualifies in a
/// group, the group holds the name once.
pub fn count_unique_qualifiers(meet_results: &Vec<MeetResult>, table: &StandardsTable) -> (r:
    AthleteGroups)
    ensures
        r@ == grouped(views(meet_results@), table@, true),
        group_keys(r@).no_duplicates(),
        forall|sex: Seq<char>, age: Seq<char>|
            #![trigger names_of(r@, sex, age)]
            names_of(r@, sex, age).no_duplicates() && names_of(r@, sex, age).to_set()
                == unique_qualifiers(views(meet_results@), table@, sex, age) && names_of(
                r@,
                sex,
                age,
            ).len() == unique_qualifiers(views(meet_results@), table@, sex, age).len(),
{
    collect_athletes(meet_results, table, true)
}

/// Collects, for every sex and age group, the athletes who swam at all,
/// qualifying or not.
pub fn count_total_athletes(meet_results: &Vec<MeetResult>, table: &StandardsTable) -> (r:
    AthleteGroups)
    ensures
        r@ == grouped(views(meet_results@), table@, false),
        group_keys(r@).no_duplicates(),
        forall|sex: Seq<char>, age: Seq<char>|
            #![trigger names_of(r@, sex, age)]
            names_of(r@, sex, age).no_duplicates() && names_of(r@, sex, age).to_set()
                == total_athletes(views(meet_results@), table@, sex, age) && names_of(
                r@,
                sex,
                age,
            ).len() == total_athletes(views(meet_results@), table@, sex, age).len(),
{
    collect_athletes(meet_results, table, false)
}

} // verus!
