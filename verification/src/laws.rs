//! General laws of the trie, stated over [`Trie::spec_get`] — the same
//! specification function the contracts of [`Trie::insert`] and
//! [`Trie::get_value`] are written against.

use crate::trie::Trie;
use vstd::prelude::*;

verus! {

/// The keys of `pairs` are pairwise distinct.
pub open spec fn distinct_keys<T>(pairs: Seq<(Seq<char>, T)>) -> bool {
    forall|i: int, j: int|
        0 <= i < j < pairs.len() ==> (#[trigger] pairs[i]).0 != (#[trigger] pairs[j]).0
}

/// Each state in `states` arises from its predecessor exactly as
/// [`Trie::insert`]'s contract describes inserting the corresponding pair:
/// a key that is absent gains its value, a key that is present (or any
/// other key) changes no answer.
pub open spec fn insert_chain<T>(states: Seq<Trie<T>>, pairs: Seq<(Seq<char>, T)>) -> bool {
    &&& states.len() == pairs.len() + 1
    &&& forall|i: int, k: Seq<char>|
        1 <= i <= pairs.len() ==> #[trigger] states[i].spec_get(k) == (if states[i
            - 1].spec_get(pairs[i - 1].0) is None && k == pairs[i - 1].0 {
            Some(pairs[i - 1].1)
        } else {
            states[i - 1].spec_get(k)
        })
}

/// Inserting any value under any non-empty key into an empty trie
/// succeeds, and an immediate lookup of that key finds exactly that value.
///
/// `pre` and `post` are the trie before and after the call, and `r` its
/// result, constrained as [`Trie::insert`]'s contract constrains them.
pub proof fn lemma_insert_into_empty_finds_value<T>(
    pre: Trie<T>,
    post: Trie<T>,
    key: Seq<char>,
    value: T,
    r: bool,
)
    requires
        forall|k: Seq<char>| #[trigger] pre.spec_get(k) is None,
        key.len() > 0,
        r <==> (key.len() > 0 && pre.spec_get(key) is None),
        r ==> forall|k: Seq<char>|
            #[trigger] post.spec_get(k) == (if k == key {
                Some(value)
            } else {
                pre.spec_get(k)
            }),
    ensures
        r,
        post.spec_get(key) == Some(value),
{
    assert(pre.spec_get(key) is None);
}

/// Inserting under a key that already holds a value fails, and every
/// answer — the stored value included — is kept.
pub proof fn lemma_duplicate_insert_keeps_value<T>(
    pre: Trie<T>,
    post: Trie<T>,
    key: Seq<char>,
    stored: T,
    r: bool,
)
    requires
        pre.spec_get(key) == Some(stored),
        r <==> (key.len() > 0 && pre.spec_get(key) is None),
        !r ==> forall|k: Seq<char>| #[trigger] post.spec_get(k) == pre.spec_get(k),
    ensures
        !r,
        post.spec_get(key) == Some(stored),
        forall|k: Seq<char>| #[trigger] post.spec_get(k) == pre.spec_get(k),
{
}

/// Round trip, in any insertion order: after inserting a sequence of
/// distinct non-empty keys that the trie did not hold, with their values,
/// looking up every inserted key finds its value unchanged — and every
/// key never inserted (a pure prefix of an inserted key included) answers
/// as it did at the start.
pub proof fn lemma_round_trip<T>(states: Seq<Trie<T>>, pairs: Seq<(Seq<char>, T)>)
    requires
        insert_chain(states, pairs),
        distinct_keys(pairs),
        forall|i: int| 0 <= i < pairs.len() ==> (#[trigger] pairs[i]).0.len() > 0,
        forall|i: int| 0 <= i < pairs.len() ==> states[0].spec_get((#[trigger] pairs[i]).0) is None,
    ensures
        forall|i: int|
            0 <= i < pairs.len() ==> states[pairs.len() as int].spec_get((#[trigger] pairs[i]).0)
                == Some(pairs[i].1),
        forall|k: Seq<char>|
            (forall|i: int| 0 <= i < pairs.len() ==> (#[trigger] pairs[i]).0 != k)
                ==> #[trigger] states[pairs.len() as int].spec_get(k) == states[0].spec_get(k),
{
    lemma_round_trip_aux(states, pairs, pairs.len() as int);
}

/// Induction step for [`lemma_round_trip`]: after the first `m` inserts,
/// the first `m` keys answer with their values, the remaining keys are
/// still absent, and untouched keys answer as at the start.
proof fn lemma_round_trip_aux<T>(states: Seq<Trie<T>>, pairs: Seq<(Seq<char>, T)>, m: int)
    requires
        insert_chain(states, pairs),
        distinct_keys(pairs),
        forall|i: int| 0 <= i < pairs.len() ==> (#[trigger] pairs[i]).0.len() > 0,
        forall|i: int| 0 <= i < pairs.len() ==> states[0].spec_get((#[trigger] pairs[i]).0) is None,
        0 <= m <= pairs.len(),
    ensures
        forall|i: int|
            0 <= i < m ==> states[m].spec_get((#[trigger] pairs[i]).0) == Some(pairs[i].1),
        forall|i: int| m <= i < pairs.len() ==> states[m].spec_get((#[trigger] pairs[i]).0) is None,
        forall|k: Seq<char>|
            (forall|i: int| 0 <= i < pairs.len() ==> (#[trigger] pairs[i]).0 != k)
                ==> #[trigger] states[m].spec_get(k) == states[0].spec_get(k),
    decreases m,
{
    if m > 0 {
        lemma_round_trip_aux(states, pairs, m - 1);
        let last = pairs[m - 1].0;
        assert(states[m - 1].spec_get(last) is None);
        assert forall|i: int| 0 <= i < m implies states[m].spec_get((#[trigger] pairs[i]).0)
            == Some(pairs[i].1) by {
            assert(states[m].spec_get(pairs[i].0) == (if states[m - 1].spec_get(last) is None
                && pairs[i].0 == last {
                Some(pairs[m - 1].1)
            } else {
                states[m - 1].spec_get(pairs[i].0)
            }));
            if i < m - 1 {
                assert(pairs[i].0 != last);
            }
        }
        assert forall|i: int| m <= i < pairs.len() implies states[m].spec_get(
            (#[trigger] pairs[i]).0) is None by {
            assert(states[m].spec_get(pairs[i].0) == (if states[m - 1].spec_get(last) is None
                && pairs[i].0 == last {
                Some(pairs[m - 1].1)
            } else {
                states[m - 1].spec_get(pairs[i].0)
            }));
            assert(pairs[i].0 != last);
        }
        assert forall|k: Seq<char>|
            (forall|i: int|
                0 <= i < pairs.len() ==> (#[trigger] pairs[i]).0 != k) implies #[trigger] states[m].spec_get(
            k) == states[0].spec_get(k) by {
            assert(pairs[m - 1].0 != k);
            assert(states[m].spec_get(k) == states[m - 1].spec_get(k));
        }
    }
}

} // verus!
