use crate::stats::{lemma_summarize_is_exact, lemma_summarize_push, summarize, Summary};
use vstd::prelude::*;

verus! {

/// What a table holds: for each key that was observed, its statistic.
pub type Tally = Map<Seq<u8>, Summary>;

/// One observation: a key and the value that was measured for it.
pub type Observation = (Seq<u8>, i16);

/// The table after one more observation: the statistic of the key, or the
/// empty one where the key is new, takes the value in. No other key changes.
pub open spec fn observed(t: Tally, key: Seq<u8>, value: i16) -> Tally {
    let before = if t.contains_key(key) {
        t[key]
    } else {
        Summary::empty()
    };
    t.insert(key, before.observe(value as int))
}

/// The table that a run of observations leaves, starting from an empty one.
pub open spec fn tally(observations: Seq<Observation>) -> Tally {
    observations.fold_left(Map::empty(), |t: Tally, o: Observation| observed(t, o.0, o.1))
}

/// The values that a run of observations holds for one key, in their order.
pub open spec fn values_of(observations: Seq<Observation>, key: Seq<u8>) -> Seq<i16>
    decreases observations.len(),
{
    if observations.len() == 0 {
        Seq::empty()
    } else {
        let before = values_of(observations.drop_last(), key);
        if observations.last().0 == key {
            before.push(observations.last().1)
        } else {
            before
        }
    }
}

/// The table after a run of observations and one more.
pub proof fn lemma_tally_push(observations: Seq<Observation>, o: Observation)
    ensures
        tally(observations.push(o)) == observed(tally(observations), o.0, o.1),
{
    assert(observations.push(o).drop_last() =~= observations);
}

/// A run of observations holds no more values for a key than it is long.
pub proof fn lemma_values_of_len(observations: Seq<Observation>, key: Seq<u8>)
    ensures
        values_of(observations, key).len() <= observations.len(),
    decreases observations.len(),
{
    if observations.len() > 0 {
        lemma_values_of_len(observations.drop_last(), key);
    }
}

/// A table holds exactly the keys that were observed, and for each of them
/// the statistic of the values that were observed for it: their number,
/// their sum, the least and the greatest of them.
pub proof fn lemma_tally_is_per_key(observations: Seq<Observation>, key: Seq<u8>)
    ensures
        tally(observations).contains_key(key) <==> values_of(observations, key).len() > 0,
        tally(observations).contains_key(key) ==> tally(observations)[key] == summarize(
            values_of(observations, key),
        ),
    decreases observations.len(),
{
    if observations.len() > 0 {
        let before = observations.drop_last();
        let last = observations.last();
        lemma_tally_is_per_key(before, key);
        if last.0 == key {
            lemma_summarize_push(values_of(before, key), last.1);
        }
    }
}

/// Every statistic in a table is valid and has at least one observation,
/// and none has more observations than the run is long.
pub proof fn lemma_tally_entries(observations: Seq<Observation>, key: Seq<u8>)
    requires
        tally(observations).contains_key(key),
    ensures
        tally(observations)[key].valid(),
        1 <= tally(observations)[key].count <= observations.len(),
{
    lemma_tally_is_per_key(observations, key);
    lemma_summarize_is_exact(values_of(observations, key));
    lemma_values_of_len(observations, key);
}

/// Two observations can change places.
pub proof fn lemma_observed_commutes(t: Tally, a: Observation, b: Observation)
    ensures
        observed(observed(t, a.0, a.1), b.0, b.1) == observed(observed(t, b.0, b.1), a.0, a.1),
{
}

/// The order in which the observations arrive does not matter: two runs
/// that hold the same observations the same number of times leave the same
/// table.
pub proof fn lemma_tally_order_insensitive(a: Seq<Observation>, b: Seq<Observation>)
    requires
        a.to_multiset() == b.to_multiset(),
    ensures
        tally(a) == tally(b),
{
    let f = |t: Tally, o: Observation| observed(t, o.0, o.1);
    assert(vstd::seq_lib::commutative_foldl(f)) by {
        assert forall|x: Observation, y: Observation, t: Tally| #[trigger]
            f(f(t, x), y) == f(f(t, y), x) by {
            lemma_observed_commutes(t, x, y);
        }
    }
    vstd::seq_lib::lemma_fold_left_permutation(a, b, f, Map::empty());
}

} // verus!
