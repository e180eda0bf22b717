//! The dashboard's JSON views.
use crate::optimizer::recommender::{cache_too_small, RecommendationEngine};
use crate::telemetry::TelemetryMetrics;
use vstd::prelude::*;
use vstd::string::StringExecFns;

verus! {

/// `s` between double quotes.
pub open spec fn quoted(s: Seq<char>) -> Seq<char> {
    seq!['"'] + s + seq!['"']
}

/// The quoted items, separated by a comma and a space.
pub open spec fn json_items(items: Seq<Seq<char>>) -> Seq<char>
    decreases items.len(),
{
    if items.len() == 0 {
        Seq::empty()
    } else if items.len() == 1 {
        quoted(items[0])
    } else {
        json_items(items.drop_last()) + seq![',', ' '] + quoted(items.last())
    }
}

/// The JSON array of the strings `items`.
pub open spec fn json_list(items: Seq<Seq<char>>) -> Seq<char> {
    seq!['['] + json_items(items) + seq![']']
}

/// The advice the recommendation engine gives for `hits` and `misses`.
pub open spec fn advice(hits: int, misses: int) -> Seq<Seq<char>> {
    if cache_too_small(hits, misses) {
        seq!["Increase cache size: Cache hit ratio is below 50%."@]
    } else {
        Seq::empty()
    }
}

pub struct DashboardApi;

impl DashboardApi {
    /// The advice for `metrics` as a JSON array of strings.
    pub fn get_recommendations_json(metrics: &TelemetryMetrics) -> (r: String)
        requires
            metrics.cache_hits + metrics.cache_misses <= u64::MAX,
        ensures
            r@ == json_list(advice(metrics.cache_hits as int, metrics.cache_misses as int)),
    {
        let recommender = RecommendationEngine::new();
        let recs = recommender.generate_recommendations(metrics);
        let ghost items = advice(metrics.cache_hits as int, metrics.cache_misses as int);
        proof {
            reveal_strlit("[");
            reveal_strlit("]");
            reveal_strlit(", ");
            reveal_strlit("\"");
        }
        let mut out = String::from_str("[");
        assert("["@ =~= seq!['[']);
        let mut i: usize = 0;
        while i < recs.len()
            invariant
                i <= recs@.len(),
                recs@.len() == items.len(),
                forall|k: int| 0 <= k < items.len() ==> #[trigger] recs@[k]@ == items[k],
                out@ == seq!['['] + json_items(items.subrange(0, i as int)),
            decreases recs@.len() - i,
        {
            let ghost before = out@;
            if i > 0 {
                out.append(", ");
            }
            out.append("\"");
            out.append(recs[i].as_str());
            out.append("\"");
            proof {
                reveal_strlit(", ");
                reveal_strlit("\"");
                assert(", "@ =~= seq![',', ' ']);
                assert("\""@ =~= seq!['"']);
                let s = items.subrange(0, i + 1);
                assert(s.drop_last() =~= items.subrange(0, i as int));
                assert(s.last() == items[i as int]);
                if i == 0 {
                    assert(json_items(items.subrange(0, 0)) =~= Seq::<char>::empty());
                }
                assert(out@ =~= seq!['['] + json_items(s));
            }
            i = i + 1;
        }
        out.append("]");
        proof {
            assert("]"@ =~= seq![']']);
            assert(items.subrange(0, items.len() as int) =~= items);
            assert(out@ =~= json_list(items));
        }
        out
    }
}

} // verus!
