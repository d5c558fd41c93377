//! Finding a key in a list of keys.

use vstd::prelude::*;
use vstd::string::*;
use crate::text::{same_text, texts};

verus! {

/// The views of the items of a sequence, in order.
pub open spec fn views<T: View>(items: Seq<T>) -> Seq<T::V> {
    Seq::new(items.len(), |i: int| items[i]@)
}

/// The first position at which `key` stands in `keys`.
pub open spec fn position<K>(keys: Seq<K>, key: K) -> Option<int>
    decreases keys.len(),
{
    if keys.len() == 0 {
        None
    } else if keys[0] == key {
        Some(0)
    } else {
        match position(keys.drop_first(), key) {
            Some(i) => Some(i + 1),
            None => None,
        }
    }
}

/// `position` is the first place of the key, or `None` where the key
/// stands nowhere: `at` is that place, or the length of `keys`.
pub proof fn lemma_position<K>(keys: Seq<K>, key: K, at: int)
    requires
        0 <= at <= keys.len(),
        forall|j: int| 0 <= j < at ==> #[trigger] keys[j] != key,
        at < keys.len() ==> keys[at] == key,
    ensures
        position(keys, key) == if at < keys.len() {
            Some(at)
        } else {
            None
        },
    decreases at,
{
    if at > 0 {
        lemma_position(keys.drop_first(), key, at - 1);
    }
}

/// What `position` finds is the first place of the key.
pub proof fn lemma_position_is_first<K>(keys: Seq<K>, key: K)
    ensures
        match position(keys, key) {
            Some(i) => 0 <= i < keys.len() && keys[i] == key && forall|j: int|
                0 <= j < i ==> #[trigger] keys[j] != key,
            None => forall|j: int| 0 <= j < keys.len() ==> #[trigger] keys[j] != key,
        },
    decreases keys.len(),
{
    if keys.len() > 0 && keys[0] != key {
        let rest = keys.drop_first();
        lemma_position_is_first(rest, key);
        match position(rest, key) {
            Some(i) => {
                assert forall|j: int| 0 <= j < i + 1 implies #[trigger] keys[j] != key by {
                    if j > 0 {
                        assert(rest[j - 1] == keys[j]);
                    }
                }
            },
            None => {
                assert forall|j: int| 0 <= j < keys.len() implies #[trigger] keys[j] != key by {
                    if j > 0 {
                        assert(rest[j - 1] == keys[j]);
                    }
                }
            },
        }
    }
}

/// Where a key stands after another key is added at the end: where it
/// stood before, or at the end if it is the new key and stood nowhere.
pub proof fn lemma_position_push<K>(keys: Seq<K>, added: K, key: K)
    ensures
        position(keys.push(added), key) == match position(keys, key) {
            Some(i) => Some(i),
            None => if key == added {
                Some(keys.len() as int)
            } else {
                None
            },
        },
{
    lemma_position_is_first(keys, key);
    let longer = keys.push(added);
    match position(keys, key) {
        Some(i) => {
            assert(longer[i] == keys[i]);
            assert forall|j: int| 0 <= j < i implies #[trigger] longer[j] != key by {
                assert(longer[j] == keys[j]);
            }
            lemma_position(longer, key, i);
        },
        None => {
            assert forall|j: int| 0 <= j < keys.len() implies #[trigger] longer[j] != key by {
                assert(longer[j] == keys[j]);
            }
            if key == added {
                lemma_position(longer, key, keys.len() as int);
            } else {
                lemma_position(longer, key, longer.len() as int);
            }
        },
    }
}

/// A key stands somewhere in `keys` exactly when `position` finds it.
pub proof fn lemma_position_contains<K>(keys: Seq<K>, key: K)
    ensures
        position(keys, key) is Some <==> keys.contains(key),
{
    lemma_position_is_first(keys, key);
}

/// Keys that stand once each still do when a key that stood nowhere is
/// added.
pub proof fn lemma_push_distinct<K>(keys: Seq<K>, key: K)
    requires
        keys.no_duplicates(),
        position(keys, key) is None,
    ensures
        keys.push(key).no_duplicates(),
{
    lemma_position_is_first(keys, key);
    assert forall|a: int, b: int|
        0 <= a < keys.len() + 1 && 0 <= b < keys.len() + 1 && a != b implies keys.push(key)[a]
        != keys.push(key)[b] by {
        if a < keys.len() {
            assert(keys.push(key)[a] == keys[a]);
        }
        if b < keys.len() {
            assert(keys.push(key)[b] == keys[b]);
        }
    }
}

/// The first position at which `key` stands in `keys`.
pub fn find_text(keys: &Vec<String>, key: &str) -> (r: Option<usize>)
    ensures
        match r {
            Some(i) => position(texts(keys@), key@) == Some(i as int) && i < keys.len(),
            None => position(texts(keys@), key@) is None,
        },
{
    let mut i: usize = 0;
    while i < keys.len()
        invariant
            i <= keys.len(),
            forall|j: int| 0 <= j < i ==> #[trigger] texts(keys@)[j] != key@,
        decreases keys.len() - i,
    {
        if same_text(keys[i].as_str(), key) {
            proof {
                lemma_position(texts(keys@), key@, i as int);
            }
            return Some(i);
        }
        i += 1;
    }
    proof {
        lemma_position(texts(keys@), key@, i as int);
    }
    None
}

} // verus!
