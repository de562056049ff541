use vstd::prelude::*;

use crate::error::owned;
use crate::keyed::{entry_map, find_slot, lemma_entry_insert, lemma_entry_update, names_sorted};
use crate::serving::{last_index_of, last_position, lemma_last_index_in_bounds};

verus! {

/// A forecast paired with the observations of its entity, and how many points are compared.
#[derive(Clone, Copy, Debug, PartialEq, Eq, Structural)]
pub struct EvaluationPair {
    pub forecast: usize,
    pub observation: usize,
    pub compared_points: usize,
}

/// The pair for forecast `k`: the last observation of its entity, compared over the shorter of the
/// two lengths; none when no observation matches or nothing can be compared.
pub open spec fn pair_for(
    forecast_ids: Seq<String>,
    forecast_lens: Seq<usize>,
    observation_ids: Seq<String>,
    observed_lens: Seq<usize>,
    k: int,
) -> Option<EvaluationPair> {
    match last_index_of(observation_ids, forecast_ids[k]@) {
        None => None,
        Some(o) => {
            let n = if forecast_lens[k] <= observed_lens[o] {
                forecast_lens[k]
            } else {
                observed_lens[o]
            };
            if n == 0 {
                None
            } else {
                Some(EvaluationPair { forecast: k as usize, observation: o as usize, compared_points: n })
            }
        },
    }
}

/// The pairs of the first `n` forecasts, in forecast order.
pub open spec fn pairs_upto(
    forecast_ids: Seq<String>,
    forecast_lens: Seq<usize>,
    observation_ids: Seq<String>,
    observed_lens: Seq<usize>,
    n: int,
) -> Seq<EvaluationPair>
    decreases n,
{
    if n <= 0 {
        Seq::empty()
    } else {
        let rest = pairs_upto(forecast_ids, forecast_lens, observation_ids, observed_lens, n - 1);
        match pair_for(forecast_ids, forecast_lens, observation_ids, observed_lens, n - 1) {
            Some(p) => rest.push(p),
            None => rest,
        }
    }
}

/// Which forecasts an evaluation scores: each forecast (given by entity ID and point count) whose
/// entity has observations (the last ones given for it count), compared over the shorter of the
/// forecast and the observations, and skipped when that is nothing. Pairs come in forecast order.
pub fn evaluation_plan(
    forecast_ids: &Vec<String>,
    forecast_lens: &Vec<usize>,
    observation_ids: &Vec<String>,
    observed_lens: &Vec<usize>,
) -> (pairs: Vec<EvaluationPair>)
    requires
        forecast_lens@.len() == forecast_ids@.len(),
        observed_lens@.len() == observation_ids@.len(),
    ensures
        pairs@ == pairs_upto(
            forecast_ids@,
            forecast_lens@,
            observation_ids@,
            observed_lens@,
            forecast_ids@.len() as int,
        ),
        forall|i: int|
            0 <= i < pairs@.len() ==> (#[trigger] pairs@[i]).forecast < forecast_ids@.len()
                && pairs@[i].observation < observation_ids@.len(),
        forall|k: int|
            0 <= k < forecast_ids@.len() ==> (#[trigger] scores_forecast(pairs@, k) <==> match last_index_of(
                observation_ids@,
                forecast_ids@[k]@,
            ) {
                Some(o) => forecast_lens@[k] > 0 && observed_lens@[o] > 0,
                None => false,
            }),
        forall|i: int|
            0 <= i < pairs@.len() ==> {
                let p = #[trigger] pairs@[i];
                &&& 0 < p.compared_points
                &&& p.compared_points <= forecast_lens@[p.forecast as int]
                &&& p.compared_points <= observed_lens@[p.observation as int]
                &&& (p.compared_points == forecast_lens@[p.forecast as int]
                    || p.compared_points == observed_lens@[p.observation as int])
            },
{
    let mut pairs: Vec<EvaluationPair> = Vec::new();
    let mut k: usize = 0;
    while k < forecast_ids.len()
        invariant
            k <= forecast_ids@.len(),
            forecast_lens@.len() == forecast_ids@.len(),
            observed_lens@.len() == observation_ids@.len(),
            pairs@ == pairs_upto(forecast_ids@, forecast_lens@, observation_ids@, observed_lens@, k as int),
            forall|i: int|
                0 <= i < pairs@.len() ==> (#[trigger] pairs@[i]).forecast < forecast_ids@.len()
                    && pairs@[i].observation < observation_ids@.len(),
        decreases forecast_ids@.len() - k,
    {
        match last_position(observation_ids, &forecast_ids[k]) {
            None => {},
            Some(o) => {
                proof {
                    lemma_last_index_in_bounds(observation_ids@, forecast_ids@[k as int]@);
                }
                let n = if forecast_lens[k] <= observed_lens[o] {
                    forecast_lens[k]
                } else {
                    observed_lens[o]
                };
                if n > 0 {
                    pairs.push(EvaluationPair { forecast: k, observation: o, compared_points: n });
                }
            },
        }
        k = k + 1;
    }
    let observations = observation_ids.len();
    proof {
        let n = forecast_ids@.len() as int;
        assert(observation_ids@.len() == observations);
        lemma_pairs_within_bounds(forecast_ids@, forecast_lens@, observation_ids@, observed_lens@, n);
        lemma_pairs_complete(forecast_ids@, forecast_lens@, observation_ids@, observed_lens@, n);
    }
    pairs
}

/// Some pair of `pairs` scores forecast `k`.
pub open spec fn scores_forecast(pairs: Seq<EvaluationPair>, k: int) -> bool {
    exists|i: int| 0 <= i < pairs.len() && #[trigger] pairs[i].forecast == k
}

/// Every forecast whose entity has observations is scored exactly when both it and those
/// observations have at least one point, and a scored forecast is compared over the shorter of the
/// two: its compared points reach one of the two lengths.
pub proof fn lemma_pairs_complete(
    forecast_ids: Seq<String>,
    forecast_lens: Seq<usize>,
    observation_ids: Seq<String>,
    observed_lens: Seq<usize>,
    n: int,
)
    requires
        0 <= n <= forecast_ids.len() <= usize::MAX,
        observation_ids.len() <= usize::MAX,
        forecast_lens.len() == forecast_ids.len(),
        observed_lens.len() == observation_ids.len(),
    ensures
        forall|k: int|
            0 <= k < n ==> (#[trigger] scores_forecast(
                pairs_upto(forecast_ids, forecast_lens, observation_ids, observed_lens, n),
                k,
            ) <==> match last_index_of(observation_ids, forecast_ids[k]@) {
                Some(o) => forecast_lens[k] > 0 && observed_lens[o] > 0,
                None => false,
            }),
        forall|i: int|
            0 <= i < pairs_upto(forecast_ids, forecast_lens, observation_ids, observed_lens, n).len()
                ==> {
                let p = #[trigger] pairs_upto(
                    forecast_ids,
                    forecast_lens,
                    observation_ids,
                    observed_lens,
                    n,
                )[i];
                ||| p.compared_points == forecast_lens[p.forecast as int]
                ||| p.compared_points == observed_lens[p.observation as int]
            },
    decreases n,
{
    if n > 0 {
        lemma_pairs_complete(forecast_ids, forecast_lens, observation_ids, observed_lens, n - 1);
        lemma_pairs_within_bounds(forecast_ids, forecast_lens, observation_ids, observed_lens, n - 1);
        lemma_last_index_in_bounds(observation_ids, forecast_ids[n - 1]@);
        let rest = pairs_upto(forecast_ids, forecast_lens, observation_ids, observed_lens, n - 1);
        let all = pairs_upto(forecast_ids, forecast_lens, observation_ids, observed_lens, n);
        assert(!scores_forecast(rest, n - 1)) by {
            if scores_forecast(rest, n - 1) {
                let i = choose|i: int| 0 <= i < rest.len() && #[trigger] rest[i].forecast == n - 1;
                assert(rest[i].forecast < n - 1);
            }
        }
        match pair_for(forecast_ids, forecast_lens, observation_ids, observed_lens, n - 1) {
            None => {
                assert(all == rest);
            },
            Some(p) => {
                assert(all == rest.push(p));
                assert(all[rest.len() as int] == p);
                assert(p.forecast == n - 1);
                assert(all[rest.len() as int].forecast == n - 1);
                assert(scores_forecast(all, n - 1));
                assert forall|k: int| 0 <= k < n - 1 implies #[trigger] scores_forecast(all, k)
                    == scores_forecast(rest, k) by {
                    if scores_forecast(all, k) {
                        let i = choose|i: int| 0 <= i < all.len() && #[trigger] all[i].forecast == k;
                        assert(i < rest.len());
                        assert(rest[i] == all[i]);
                    }
                    if scores_forecast(rest, k) {
                        let i = choose|i: int| 0 <= i < rest.len() && #[trigger] rest[i].forecast == k;
                        assert(all[i] == rest[i]);
                    }
                }
                assert forall|i: int| 0 <= i < all.len() implies {
                    let q = #[trigger] all[i];
                    ||| q.compared_points == forecast_lens[q.forecast as int]
                    ||| q.compared_points == observed_lens[q.observation as int]
                } by {
                    if i < rest.len() {
                        assert(all[i] == rest[i]);
                    }
                }
            },
        }
    }
}

/// Every planned pair compares at least one point and no more than either the forecast or the
/// observations hold, pairs a forecast with the last observations given for its entity, and pairs
/// come in increasing forecast order (so no forecast is scored twice).
pub proof fn lemma_pairs_within_bounds(
    forecast_ids: Seq<String>,
    forecast_lens: Seq<usize>,
    observation_ids: Seq<String>,
    observed_lens: Seq<usize>,
    n: int,
)
    requires
        0 <= n <= forecast_ids.len() <= usize::MAX,
        observation_ids.len() <= usize::MAX,
        forecast_lens.len() == forecast_ids.len(),
        observed_lens.len() == observation_ids.len(),
    ensures
        forall|i: int|
            0 <= i < pairs_upto(forecast_ids, forecast_lens, observation_ids, observed_lens, n).len()
                ==> {
                let p = #[trigger] pairs_upto(
                    forecast_ids,
                    forecast_lens,
                    observation_ids,
                    observed_lens,
                    n,
                )[i];
                &&& p.forecast < n
                &&& last_index_of(observation_ids, forecast_ids[p.forecast as int]@) == Some(
                    p.observation as int,
                )
                &&& 0 < p.compared_points
                &&& p.compared_points <= forecast_lens[p.forecast as int]
                &&& p.compared_points <= observed_lens[p.observation as int]
            },
        forall|i: int, j: int|
            0 <= i < j < pairs_upto(forecast_ids, forecast_lens, observation_ids, observed_lens, n).len()
                ==> (#[trigger] pairs_upto(
                forecast_ids,
                forecast_lens,
                observation_ids,
                observed_lens,
                n,
            )[i]).forecast < (#[trigger] pairs_upto(
                forecast_ids,
                forecast_lens,
                observation_ids,
                observed_lens,
                n,
            )[j]).forecast,
    decreases n,
{
    if n > 0 {
        lemma_pairs_within_bounds(forecast_ids, forecast_lens, observation_ids, observed_lens, n - 1);
        let rest = pairs_upto(forecast_ids, forecast_lens, observation_ids, observed_lens, n - 1);
        let all = pairs_upto(forecast_ids, forecast_lens, observation_ids, observed_lens, n);
        lemma_last_index_in_bounds(observation_ids, forecast_ids[n - 1]@);
        match pair_for(forecast_ids, forecast_lens, observation_ids, observed_lens, n - 1) {
            None => {
                assert(all == rest);
            },
            Some(p) => {
                assert(all == rest.push(p));
                assert(p.forecast == n - 1);
                assert forall|i: int| 0 <= i < all.len() implies {
                    let q = #[trigger] all[i];
                    &&& q.forecast < n
                    &&& last_index_of(observation_ids, forecast_ids[q.forecast as int]@) == Some(
                        q.observation as int,
                    )
                    &&& 0 < q.compared_points
                    &&& q.compared_points <= forecast_lens[q.forecast as int]
                    &&& q.compared_points <= observed_lens[q.observation as int]
                } by {
                    if i < rest.len() {
                        assert(all[i] == rest[i]);
                    }
                }
                assert forall|i: int, j: int| 0 <= i < j < all.len() implies (#[trigger] all[i]).forecast
                    < (#[trigger] all[j]).forecast by {
                    assert(all[i] == rest[i]);
                    if j < rest.len() {
                        assert(all[j] == rest[j]);
                    }
                }
            },
        }
    }
}

/// How much one reported regime probability bucket weighs: at least one.
pub open spec fn regime_weight(bucket: usize) -> usize {
    if bucket == 0 {
        1
    } else {
        bucket
    }
}

/// Accumulated regime weights by label, in label order.
#[derive(Debug)]
pub struct RegimeTally {
    entries: Vec<(String, usize)>,
}

impl RegimeTally {
    #[verifier::type_invariant]
    spec fn well_formed(self) -> bool {
        names_sorted(self.entries@)
    }

    /// The weight of each label seen.
    pub closed spec fn weights(self) -> Map<Seq<char>, usize> {
        entry_map(self.entries@)
    }

    /// No label seen yet.
    pub fn new() -> (tally: Self)
        ensures
            tally.weights() == Map::<Seq<char>, usize>::empty(),
    {
        RegimeTally { entries: Vec::new() }
    }

    /// The weight of `label` so far (zero when unseen).
    pub fn weight(&self, label: &str) -> (w: usize)
        ensures
            w == (if self.weights().contains_key(label@) {
                self.weights()[label@]
            } else {
                0
            }),
    {
        proof {
            use_type_invariant(self);
        }
        let (i, found) = find_slot(&self.entries, label);
        if found {
            self.entries[i].1
        } else {
            0
        }
    }

    /// Adds a probability bucket to the weight of `label`, counting an empty bucket as one.
    pub fn add(&mut self, label: &str, bucket: usize)
        requires
            (if old(self).weights().contains_key(label@) {
                old(self).weights()[label@]
            } else {
                0
            }) + regime_weight(bucket) <= usize::MAX,
        ensures
            final(self).weights() == old(self).weights().insert(
                label@,
                ((if old(self).weights().contains_key(label@) {
                    old(self).weights()[label@]
                } else {
                    0
                }) + regime_weight(bucket)) as usize,
            ),
    {
        proof {
            use_type_invariant(&*self);
        }
        let weight = if bucket == 0 {
            1
        } else {
            bucket
        };
        let mut entries: Vec<(String, usize)> = Vec::new();
        std::mem::swap(&mut entries, &mut self.entries);
        let ghost before = entries@;
        let (i, found) = find_slot(&entries, label);
        if found {
            let (key, count) = entries.remove(i);
            let entry = (key, count + weight);
            entries.insert(i, entry);
            proof {
                assert(entries@ =~= before.update(i as int, entry));
                lemma_entry_update(before, i as int, entry);
            }
        } else {
            let entry = (owned(label), weight);
            entries.insert(i, entry);
            proof {
                lemma_entry_insert(before, i as int, entry);
            }
        }
        self.entries = entries;
    }

    /// The labels and their weights, in label order.
    pub fn entries(&self) -> (entries: &Vec<(String, usize)>)
        ensures
            names_sorted(entries@),
            entry_map(entries@) == self.weights(),
    {
        proof {
            use_type_invariant(self);
        }
        &self.entries
    }
}

impl Default for RegimeTally {
    fn default() -> (tally: Self)
        ensures
            tally.weights() == Map::<Seq<char>, usize>::empty(),
    {
        RegimeTally::new()
    }
}

/// The request, evaluation and response counters that serving keeps.
#[derive(Clone, Copy, Debug, PartialEq, Eq, Structural)]
pub struct ServingCounts {
    pub request_count: usize,
    pub evaluation_count: usize,
    pub evaluated_observation_count: usize,
    pub last_alert_count: usize,
    pub interval_width_count: usize,
    pub quantile_crossing_count: usize,
    pub quantile_check_count: usize,
    pub scenario_path_count: usize,
}

impl Default for ServingCounts {
    fn default() -> (counts: Self)
        ensures
            counts == (ServingCounts {
                request_count: 0,
                evaluation_count: 0,
                evaluated_observation_count: 0,
                last_alert_count: 0,
                interval_width_count: 0,
                quantile_crossing_count: 0,
                quantile_check_count: 0,
                scenario_path_count: 0,
            }),
    {
        ServingCounts {
            request_count: 0,
            evaluation_count: 0,
            evaluated_observation_count: 0,
            last_alert_count: 0,
            interval_width_count: 0,
            quantile_crossing_count: 0,
            quantile_check_count: 0,
            scenario_path_count: 0,
        }
    }
}

impl ServingCounts {
    /// Counts one served request.
    pub fn record_request(&mut self)
        requires
            old(self).request_count < usize::MAX,
        ensures
            *final(self) == (ServingCounts { request_count: (old(self).request_count + 1) as usize, ..*old(self) }),
    {
        self.request_count = self.request_count + 1;
    }

    /// Counts one scored evaluation over `observation_count` points that raised `alert_count` alerts.
    pub fn record_evaluation(&mut self, observation_count: usize, alert_count: usize)
        requires
            old(self).evaluation_count < usize::MAX,
            old(self).evaluated_observation_count + observation_count <= usize::MAX,
        ensures
            *final(self) == (ServingCounts {
                evaluation_count: (old(self).evaluation_count + 1) as usize,
                evaluated_observation_count: (old(self).evaluated_observation_count + observation_count) as usize,
                last_alert_count: alert_count,
                ..*old(self)
            }),
    {
        self.evaluation_count = self.evaluation_count + 1;
        self.evaluated_observation_count = self.evaluated_observation_count + observation_count;
        self.last_alert_count = alert_count;
    }

    /// Counts one prediction interval step whose width was measured.
    pub fn record_interval_step(&mut self)
        requires
            old(self).interval_width_count < usize::MAX,
        ensures
            *final(self) == (ServingCounts {
                interval_width_count: (old(self).interval_width_count + 1) as usize,
                ..*old(self)
            }),
    {
        self.interval_width_count = self.interval_width_count + 1;
    }

    /// Counts `paths` scenario paths of a response.
    pub fn record_scenario_paths(&mut self, paths: usize)
        requires
            old(self).scenario_path_count + paths <= usize::MAX,
        ensures
            *final(self) == (ServingCounts {
                scenario_path_count: (old(self).scenario_path_count + paths) as usize,
                ..*old(self)
            }),
    {
        self.scenario_path_count = self.scenario_path_count + paths;
    }

    /// Counts one comparison of adjacent quantiles, and a crossing when the lower level exceeded
    /// the higher one.
    pub fn record_quantile_check(&mut self, crossed: bool)
        requires
            old(self).quantile_check_count < usize::MAX,
            crossed ==> old(self).quantile_crossing_count < usize::MAX,
        ensures
            *final(self) == (ServingCounts {
                quantile_check_count: (old(self).quantile_check_count + 1) as usize,
                quantile_crossing_count: (old(self).quantile_crossing_count + if crossed {
                    1int
                } else {
                    0int
                }) as usize,
                ..*old(self)
            }),
    {
        self.quantile_check_count = self.quantile_check_count + 1;
        if crossed {
            self.quantile_crossing_count = self.quantile_crossing_count + 1;
        }
    }
}

} // verus!
