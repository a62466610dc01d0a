//! Comparison of two graphs' average shortest-path lengths against each
//! other and against the six-degrees threshold.

use crate::graph::Graph;
use crate::paths::{stats_of, AvgStats, MAX_ANALYSIS_NODES};
use vstd::prelude::*;

verus! {

/// The six-degrees-of-separation threshold on the average shortest-path
/// length.
pub const SIX_DEGREES_THRESHOLD: u64 = 6;

/// Which of two defined averages is the smaller.
#[derive(Clone, Copy, Debug, PartialEq, Eq, Structural)]
pub enum AvgOrder {
    FirstSmaller,
    SecondSmaller,
    Equal,
}

/// The outcome of comparing two graphs: each graph's pair totals, whether
/// each average meets the threshold, and which average is smaller.
/// A graph without reachable pairs has an undefined average: its fields
/// hold `None`, and so does `order` when either average is undefined.
#[derive(Clone, Copy, Debug)]
pub struct Comparison {
    pub stats1: Option<AvgStats>,
    pub stats2: Option<AvgStats>,
    pub within_six_1: Option<bool>,
    pub within_six_2: Option<bool>,
    pub order: Option<AvgOrder>,
}

/// Whether an average `total / pairs` lies within the threshold, stated
/// without division: `total <= 6 * pairs`.
pub open spec fn within_threshold(s: Option<AvgStats>) -> Option<bool> {
    match s {
        Some(st) => Some(st.total as int <= SIX_DEGREES_THRESHOLD as int * st.pairs as int),
        None => None,
    }
}

/// The order of two averages `x.total / x.pairs` and `y.total / y.pairs`,
/// compared by cross-multiplication.
pub open spec fn order_of(a: Option<AvgStats>, b: Option<AvgStats>) -> Option<AvgOrder> {
    match (a, b) {
        (Some(x), Some(y)) => {
            let first = x.total as int * y.pairs as int;
            let second = y.total as int * x.pairs as int;
            if first < second {
                Some(AvgOrder::FirstSmaller)
            } else if second < first {
                Some(AvgOrder::SecondSmaller)
            } else {
                Some(AvgOrder::Equal)
            }
        },
        _ => None,
    }
}

/// Computes both graphs' average shortest-path statistics, evaluates each
/// against the six-degrees threshold, and orders the two averages.
pub fn compare_average_shortpaths(graph1: &Graph, graph2: &Graph) -> (r: Comparison)
    requires
        graph1.wf(),
        graph2.wf(),
        graph1.node_count() <= MAX_ANALYSIS_NODES,
        graph2.node_count() <= MAX_ANALYSIS_NODES,
    ensures
        r.stats1 == stats_of(*graph1),
        r.stats2 == stats_of(*graph2),
        r.within_six_1 == within_threshold(stats_of(*graph1)),
        r.within_six_2 == within_threshold(stats_of(*graph2)),
        r.order == order_of(stats_of(*graph1), stats_of(*graph2)),
{
    let s1 = graph1.average_shortpath();
    let s2 = graph2.average_shortpath();
    let within_six_1 = match s1 {
        Some(st) => Some(
            (st.total as u128) <= (SIX_DEGREES_THRESHOLD as u128) * (st.pairs as u128),
        ),
        None => None,
    };
    let within_six_2 = match s2 {
        Some(st) => Some(
            (st.total as u128) <= (SIX_DEGREES_THRESHOLD as u128) * (st.pairs as u128),
        ),
        None => None,
    };
    let order = match (s1, s2) {
        (Some(x), Some(y)) => {
            proof {
                assert((x.total as int) * (y.pairs as int) <= (0xffff_ffff_ffff_ffffint) * (
                0xffff_ffff_ffff_ffffint)) by (nonlinear_arith)
                    requires
                        0 <= (x.total as int) <= 0xffff_ffff_ffff_ffffint,
                        0 <= (y.pairs as int) <= 0xffff_ffff_ffff_ffffint,
                ;
                assert((y.total as int) * (x.pairs as int) <= (0xffff_ffff_ffff_ffffint) * (
                0xffff_ffff_ffff_ffffint)) by (nonlinear_arith)
                    requires
                        0 <= (y.total as int) <= 0xffff_ffff_ffff_ffffint,
                        0 <= (x.pairs as int) <= 0xffff_ffff_ffff_ffffint,
                ;
            }
            let first = (x.total as u128) * (y.pairs as u128);
            let second = (y.total as u128) * (x.pairs as u128);
            if first < second {
                Some(AvgOrder::FirstSmaller)
            } else if second < first {
                Some(AvgOrder::SecondSmaller)
            } else {
                Some(AvgOrder::Equal)
            }
        },
        _ => None,
    };
    Comparison { stats1: s1, stats2: s2, within_six_1, within_six_2, order }
}

} // verus!
