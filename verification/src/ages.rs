//! Resolving an athlete's age to the age group whose standard applies.
//!
//! Age groups are labels that write a number. An athlete whose age has no
//! group of its own falls into the nearest one: the youngest group for
//! those below it, the oldest group for those above it.

use vstd::prelude::*;
use vstd::string::*;
use crate::text::{decimal_i32, parse_i32, texts};

verus! {

/// The number that an age label writes.
pub open spec fn age_number(label: Seq<char>) -> Option<int> {
    decimal_i32(label)
}

/// Whether `labels[i]` exists and writes a number.
pub open spec fn is_candidate(labels: Seq<Seq<char>>, i: int) -> bool {
    0 <= i < labels.len() && age_number(labels[i]) is Some
}

/// The number that the candidate `labels[i]` writes.
pub open spec fn number_at(labels: Seq<Seq<char>>, i: int) -> int {
    age_number(labels[i])->0
}

/// How far two ages are apart.
pub open spec fn distance(a: int, b: int) -> int {
    if a >= b {
        a - b
    } else {
        b - a
    }
}

/// Whether the number `n` suits `age` better than the number `m`: it is
/// nearer, or as near and smaller.
pub open spec fn closer(age: int, n: int, m: int) -> bool {
    distance(age, n) < distance(age, m) || (distance(age, n) == distance(age, m) && n < m)
}

/// Whether no candidate writes a larger number than `labels[i]`.
pub open spec fn is_oldest(labels: Seq<Seq<char>>, i: int) -> bool {
    forall|j: int| #[trigger] is_candidate(labels, j) ==> number_at(labels, j) <= number_at(labels, i)
}

/// Whether `labels[i]` is the age group of an athlete of age `age`.
///
/// It writes a number, and no candidate writes one that suits `age` better:
/// so an exact match wins, an age below every group gets the youngest and
/// an age above every group the oldest. Among labels that write the same
/// number the first one is taken; for an age above every group, the last.
pub open spec fn is_best_match(age: int, labels: Seq<Seq<char>>, i: int) -> bool {
    &&& is_candidate(labels, i)
    &&& forall|j: int| #[trigger]
        is_candidate(labels, j) ==> !closer(age, number_at(labels, j), number_at(labels, i))
    &&& forall|j: int| #[trigger]
        is_candidate(labels, j) && number_at(labels, j) == number_at(labels, i) ==> if age
            > number_at(labels, i) && is_oldest(labels, i) {
            j <= i
        } else {
            i <= j
        }
}

/// The age group among `labels` of an athlete whose age is written by
/// `age`; `None` where `age` writes no number or no label does.
pub open spec fn best_age_match(age: Seq<char>, labels: Seq<Seq<char>>) -> Option<Seq<char>> {
    match age_number(age) {
        None => None,
        Some(a) => if exists|i: int| is_best_match(a, labels, i) {
            Some(labels[choose|i: int| is_best_match(a, labels, i)])
        } else {
            None
        },
    }
}

/// At most one label is the age group of a given age.
pub proof fn lemma_best_match_unique(age: int, labels: Seq<Seq<char>>, i: int, j: int)
    requires
        is_best_match(age, labels, i),
        is_best_match(age, labels, j),
    ensures
        i == j,
{
    assert(is_candidate(labels, i));
    assert(is_candidate(labels, j));
    assert(number_at(labels, i) == number_at(labels, j));
    assert(is_oldest(labels, i) == is_oldest(labels, j));
}

/// The age group of an athlete is the label that `is_best_match` singles
/// out.
pub proof fn lemma_best_age_match(age: Seq<char>, labels: Seq<Seq<char>>, i: int)
    requires
        age_number(age) is Some,
        is_best_match(age_number(age)->0, labels, i),
    ensures
        best_age_match(age, labels) == Some(labels[i]),
{
    let a = age_number(age)->0;
    let k = choose|k: int| is_best_match(a, labels, k);
    lemma_best_match_unique(a, labels, i, k);
}

/// The age group of an age is a nearest one. So a group that writes the
/// age itself wins; an age below every group gets the youngest group, and
/// an age above every group the oldest.
pub proof fn lemma_best_match_is_nearest(age: int, labels: Seq<Seq<char>>, i: int)
    requires
        is_best_match(age, labels, i),
    ensures
        forall|j: int| #[trigger]
            is_candidate(labels, j) ==> distance(age, number_at(labels, i)) <= distance(
                age,
                number_at(labels, j),
            ),
        (exists|j: int| is_candidate(labels, j) && number_at(labels, j) == age) ==> number_at(
            labels,
            i,
        ) == age,
        (forall|j: int| #[trigger] is_candidate(labels, j) ==> age < number_at(labels, j))
            ==> forall|j: int| #[trigger]
            is_candidate(labels, j) ==> number_at(labels, i) <= number_at(labels, j),
        (forall|j: int| #[trigger] is_candidate(labels, j) ==> age > number_at(labels, j))
            ==> forall|j: int| #[trigger]
            is_candidate(labels, j) ==> number_at(labels, i) >= number_at(labels, j),
{
    assert(is_candidate(labels, i));
    if exists|j: int| is_candidate(labels, j) && number_at(labels, j) == age {
        let j = choose|j: int| is_candidate(labels, j) && number_at(labels, j) == age;
        assert(!closer(age, number_at(labels, j), number_at(labels, i)));
    }
}

/// Among the first `n` labels, the first of those whose number suits
/// `age` best.
pub proof fn lemma_first_closest(age: int, labels: Seq<Seq<char>>, n: int) -> (best: int)
    requires
        0 <= n <= labels.len(),
        exists|j: int| 0 <= j < n && is_candidate(labels, j),
    ensures
        0 <= best < n,
        is_candidate(labels, best),
        forall|j: int|
            0 <= j < n && #[trigger] is_candidate(labels, j) ==> !closer(
                age,
                number_at(labels, j),
                number_at(labels, best),
            ) && (number_at(labels, j) == number_at(labels, best) ==> best <= j),
    decreases n,
{
    let last = n - 1;
    if exists|j: int| 0 <= j < last && is_candidate(labels, j) {
        let before = lemma_first_closest(age, labels, last);
        if is_candidate(labels, last) && closer(
            age,
            number_at(labels, last),
            number_at(labels, before),
        ) {
            last
        } else {
            before
        }
    } else {
        let j = choose|j: int| 0 <= j < n && is_candidate(labels, j);
        assert(j == last);
        last
    }
}

/// Among the first `n` labels, the last of those that write the largest
/// number.
pub proof fn lemma_last_oldest(labels: Seq<Seq<char>>, n: int) -> (oldest: int)
    requires
        0 <= n <= labels.len(),
        exists|j: int| 0 <= j < n && is_candidate(labels, j),
    ensures
        0 <= oldest < n,
        is_candidate(labels, oldest),
        forall|j: int|
            0 <= j < n && #[trigger] is_candidate(labels, j) ==> number_at(labels, j) <= number_at(
                labels,
                oldest,
            ) && (number_at(labels, j) == number_at(labels, oldest) ==> j <= oldest),
    decreases n,
{
    let last = n - 1;
    if exists|j: int| 0 <= j < last && is_candidate(labels, j) {
        let before = lemma_last_oldest(labels, last);
        if is_candidate(labels, last) && number_at(labels, last) >= number_at(labels, before) {
            last
        } else {
            before
        }
    } else {
        let j = choose|j: int| 0 <= j < n && is_candidate(labels, j);
        assert(j == last);
        last
    }
}

/// An age has an age group as soon as one label writes a number.
pub proof fn lemma_best_match_exists(age: int, labels: Seq<Seq<char>>)
    requires
        exists|j: int| is_candidate(labels, j),
    ensures
        exists|i: int| is_best_match(age, labels, i),
{
    let j = choose|j: int| is_candidate(labels, j);
    assert(0 <= j < labels.len() && is_candidate(labels, j));
    let n = labels.len() as int;
    let best = lemma_first_closest(age, labels, n);
    let oldest = lemma_last_oldest(labels, n);
    if age > number_at(labels, oldest) {
        assert(is_oldest(labels, oldest));
        assert(is_best_match(age, labels, oldest));
    } else {
        if age > number_at(labels, best) {
            assert(!is_oldest(labels, best) || number_at(labels, best) >= number_at(
                labels,
                oldest,
            ));
        }
        assert(is_best_match(age, labels, best));
    }
}

/// An athlete has an age group exactly when the age writes a number and
/// at least one label does.
pub proof fn lemma_best_age_match_is_some(age: Seq<char>, labels: Seq<Seq<char>>)
    ensures
        best_age_match(age, labels) is Some <==> age_number(age) is Some && exists|j: int|
            is_candidate(labels, j),
{
    if age_number(age) is Some {
        let a = age_number(age)->0;
        if exists|j: int| is_candidate(labels, j) {
            lemma_best_match_exists(a, labels);
        }
        if best_age_match(age, labels) is Some {
            let i = choose|i: int| is_best_match(a, labels, i);
            assert(is_candidate(labels, i));
        }
    }
}

/// Finds the age group among `available_ages` for an athlete of age
/// `athlete_age`. There is one exactly when `athlete_age` writes a number
/// and at least one of the labels does.
pub fn find_best_age_match(athlete_age: &str, available_ages: &Vec<String>) -> (r: Option<String>)
    ensures
        match r {
            Some(label) => best_age_match(athlete_age@, texts(available_ages@)) == Some(label@),
            None => best_age_match(athlete_age@, texts(available_ages@)) is None,
        },
        r is Some <==> age_number(athlete_age@) is Some && exists|i: int|
            is_candidate(texts(available_ages@), i),
{
    match find_best_age_index(athlete_age, available_ages) {
        Some(i) => Some(available_ages[i].clone()),
        None => None,
    }
}

/// The position in `available_ages` of the age group for an athlete of age
/// `athlete_age`.
pub fn find_best_age_index(athlete_age: &str, available_ages: &Vec<String>) -> (r: Option<usize>)
    ensures
        match r {
            Some(i) => i < available_ages.len() && age_number(athlete_age@) is Some
                && is_best_match(age_number(athlete_age@)->0, texts(available_ages@), i as int)
                && best_age_match(athlete_age@, texts(available_ages@)) == Some(
                available_ages@[i as int]@,
            ),
            None => best_age_match(athlete_age@, texts(available_ages@)) is None,
        },
        r is Some <==> age_number(athlete_age@) is Some && exists|i: int|
            is_candidate(texts(available_ages@), i),
{
    let age: i32 = match parse_i32(athlete_age) {
        Some(a) => a,
        None => {
            return None;
        },
    };
    let ghost labels = texts(available_ages@);
    let mut found = false;
    let mut best: usize = 0;
    let mut best_number: i32 = 0;
    let mut last_oldest: usize = 0;
    let mut oldest_number: i32 = 0;
    let mut i: usize = 0;
    while i < available_ages.len()
        invariant
            labels == texts(available_ages@),
            i <= available_ages.len(),
            found <==> exists|j: int| 0 <= j < i && is_candidate(labels, j),
            found ==> best < i && is_candidate(labels, best as int) && best_number == number_at(
                labels,
                best as int,
            ),
            found ==> forall|j: int|
                0 <= j < i && #[trigger] is_candidate(labels, j) ==> !closer(
                    age as int,
                    number_at(labels, j),
                    best_number as int,
                ) && (number_at(labels, j) == best_number ==> best <= j),
            found ==> last_oldest < i && is_candidate(labels, last_oldest as int) && oldest_number
                == number_at(labels, last_oldest as int),
            found ==> forall|j: int|
                0 <= j < i && #[trigger] is_candidate(labels, j) ==> number_at(labels, j)
                    <= oldest_number && (number_at(labels, j) == oldest_number ==> j
                    <= last_oldest),
        decreases available_ages.len() - i,
    {
        assert(labels[i as int] == available_ages@[i as int]@);
        match parse_i32(available_ages[i].as_str()) {
            Some(n) => {
                assert(is_candidate(labels, i as int));
                if !found || is_closer(age, n, best_number) {
                    best = i;
                    best_number = n;
                }
                if !found || n >= oldest_number {
                    last_oldest = i;
                    oldest_number = n;
                }
                found = true;
            },
            None => {
                assert(!is_candidate(labels, i as int));
            },
        }
        i += 1;
    }
    if !found {
        assert forall|k: int| !is_best_match(age as int, labels, k) by {
            if is_candidate(labels, k) {
                assert(0 <= k < i);
            }
        }
        return None;
    }
    let chosen = if age > oldest_number {
        last_oldest
    } else {
        best
    };
    proof {
        let k = chosen as int;
        assert forall|j: int| #[trigger] is_candidate(labels, j) implies !closer(
            age as int,
            number_at(labels, j),
            number_at(labels, k),
        ) by {
            assert(0 <= j < i);
        }
        if age > oldest_number {
            assert(is_oldest(labels, k)) by {
                assert forall|j: int| #[trigger] is_candidate(labels, j) implies number_at(
                    labels,
                    j,
                ) <= number_at(labels, k) by {
                    assert(0 <= j < i);
                }
            }
        } else {
            if age > number_at(labels, k) {
                assert(is_candidate(labels, last_oldest as int));
                assert(!is_oldest(labels, k) || number_at(labels, k) >= oldest_number);
            }
        }
        assert forall|j: int| #[trigger]
            is_candidate(labels, j) && number_at(labels, j) == number_at(labels, k) implies if age
            > number_at(labels, k) && is_oldest(labels, k) {
            j <= k
        } else {
            k <= j
        } by {
            assert(0 <= j < i);
        }
        assert(is_best_match(age as int, labels, k));
        lemma_best_age_match(athlete_age@, labels, k);
        assert(labels[k] == available_ages@[k]@);
    }
    Some(chosen)
}

/// Whether the number `n` suits `age` better than the number `m`.
pub fn is_closer(age: i32, n: i32, m: i32) -> (r: bool)
    ensures
        r == closer(age as int, n as int, m as int),
{
    let a: i64 = age as i64;
    let dn: i64 = if a >= n as i64 {
        a - n as i64
    } else {
        n as i64 - a
    };
    let dm: i64 = if a >= m as i64 {
        a - m as i64
    } else {
        m as i64 - a
    };
    dn < dm || (dn == dm && n < m)
}

} // verus!
