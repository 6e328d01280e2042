use vstd::prelude::*;

verus! {

/// The weight the layout gives an item: its value, and 1 for a value of 0.
pub open spec fn item_weight(value: u64) -> int {
    if value == 0 {
        1
    } else {
        value as int
    }
}

/// The weights of the first `k` items, added up.
pub open spec fn prefix_weight(weights: Seq<(usize, u64)>, k: int) -> int
    decreases k,
{
    if k <= 0 {
        0
    } else {
        prefix_weight(weights, k - 1) + item_weight(weights[k - 1].1)
    }
}

proof fn lemma_prefix_weight_bounds(weights: Seq<(usize, u64)>, k: int)
    requires
        0 <= k <= weights.len(),
    ensures
        k <= prefix_weight(weights, k) <= k * 18_446_744_073_709_551_615,
    decreases k,
{
    if k > 0 {
        lemma_prefix_weight_bounds(weights, k - 1);
    }
}

proof fn lemma_prefix_weight_grows(weights: Seq<(usize, u64)>, j: int, k: int)
    requires
        0 <= j <= k <= weights.len(),
    ensures
        prefix_weight(weights, j) <= prefix_weight(weights, k),
    decreases k - j,
{
    if j < k {
        lemma_prefix_weight_grows(weights, j, k - 1);
    }
}

/// Where the layout cuts a list of two or more weighted items in two: after
/// the first `split` items, the fewest whose weight reaches half of the total
/// (rounded down), or before the last item when no shorter prefix does. Both
/// parts hold at least one item. Also gives the weight of the first part and
/// the total.
pub fn split_point(weights: &[(usize, u64)]) -> (cut: (usize, u128, u128))
    requires
        weights@.len() >= 2,
    ensures
        1 <= cut.0 < weights@.len(),
        cut.1 == prefix_weight(weights@, cut.0 as int),
        cut.2 == prefix_weight(weights@, weights@.len() as int),
        forall|k: int| 1 <= k < cut.0 ==> prefix_weight(weights@, k) < cut.2 / 2,
        cut.1 >= cut.2 / 2 || cut.0 == weights@.len() - 1,
{
    let n = weights.len();
    proof {
        lemma_prefix_weight_bounds(weights@, n as int);
        assert(n * 18_446_744_073_709_551_615 < 340_282_366_920_938_463_463_374_607_431_768_211_455) by (nonlinear_arith)
            requires n <= usize::MAX, usize::MAX <= u64::MAX;
    }
    let mut total: u128 = 0;
    for i in 0..n
        invariant
            n == weights@.len(),
            n * 18_446_744_073_709_551_615 < 340_282_366_920_938_463_463_374_607_431_768_211_455,
            total == prefix_weight(weights@, i as int),
    {
        proof {
            lemma_prefix_weight_bounds(weights@, i + 1);
            lemma_prefix_weight_grows(weights@, i + 1, n as int);
            lemma_prefix_weight_bounds(weights@, n as int);
        }
        let value = weights[i].1;
        total = total + if value == 0 {
            1
        } else {
            value as u128
        };
    }
    let half = total / 2;
    let mut running: u128 = 0;
    let mut split: usize = 1;
    let mut position: usize = 0;
    while position < n - 1
        invariant
            n == weights@.len(),
            n >= 2,
            total == prefix_weight(weights@, n as int),
            half == total / 2,
            position <= n - 1,
            running == prefix_weight(weights@, position as int),
            forall|k: int| 1 <= k <= position ==> prefix_weight(weights@, k) < half,
            n * 18_446_744_073_709_551_615 < 340_282_366_920_938_463_463_374_607_431_768_211_455,
        decreases n - 1 - position,
    {
        proof {
            lemma_prefix_weight_grows(weights@, position + 1, n as int);
        }
        let value = weights[position].1;
        running = running + if value == 0 {
            1
        } else {
            value as u128
        };
        split = position + 1;
        if running >= half {
            return (split, running, total);
        }
        position = position + 1;
    }
    (position, running, total)
}

} // verus!
