//! Weighted sampling of one option per group.
//!
//! A draw is a number below the group's total weight. Walking the options in
//! order and adding up their weights, the option picked is the first whose
//! cumulative weight exceeds the draw.

use vstd::prelude::*;
use crate::layer::{cumulative, lemma_cumulative_monotonic, total_weight, weights_of, LayerGroup};

verus! {

/// `i` is the first option whose cumulative weight exceeds `draw`.
pub open spec fn is_pick(weights: Seq<nat>, draw: nat, i: int) -> bool {
    &&& 0 <= i < weights.len()
    &&& cumulative(weights, i + 1) > draw
    &&& forall|j: int| 0 <= j < i ==> #[trigger] cumulative(weights, j + 1) <= draw
}

/// The option picked for a draw: the one that satisfies `is_pick`, which
/// exists and is unique for every draw below the total weight.
pub open spec fn picked(weights: Seq<nat>, draw: nat) -> int {
    choose|i: int| is_pick(weights, draw, i)
}

/// The option picked is the one whose band of the draw range holds the
/// draw; the band of option `i` starts at the cumulative weight before it and
/// is as wide as its weight.
pub proof fn lemma_pick_band(weights: Seq<nat>, draw: nat, i: int)
    ensures
        is_pick(weights, draw, i) <==> (0 <= i < weights.len() && cumulative(weights, i) <= draw
            < cumulative(weights, i) + weights[i]),
{
    if 0 <= i < weights.len() {
        assert(cumulative(weights, i + 1) == cumulative(weights, i) + weights[i]);
        if cumulative(weights, i) <= draw < cumulative(weights, i + 1) {
            assert forall|j: int| 0 <= j < i implies #[trigger] cumulative(weights, j + 1)
                <= draw by {
                lemma_cumulative_monotonic(weights, j + 1, i);
            }
        }
        if is_pick(weights, draw, i) && i > 0 {
            assert(cumulative(weights, (i - 1) + 1) <= draw);
        }
    }
}

/// No draw picks two different options.
pub proof fn lemma_pick_unique(weights: Seq<nat>, draw: nat, i: int, j: int)
    requires
        is_pick(weights, draw, i),
        is_pick(weights, draw, j),
    ensures
        i == j,
{
    if i < j {
        assert(cumulative(weights, i + 1) <= draw);
    } else if j < i {
        assert(cumulative(weights, j + 1) <= draw);
    }
}

/// Every draw below the total weight picks some option.
pub proof fn lemma_pick_exists(weights: Seq<nat>, draw: nat)
    requires
        draw < total_weight(weights),
    ensures
        is_pick(weights, draw, picked(weights, draw)),
{
    lemma_first_exceeding(weights, draw, weights.len() as int);
}

/// Among the first `n` options, if their cumulative weight exceeds the draw,
/// one of them is the first to do so.
proof fn lemma_first_exceeding(weights: Seq<nat>, draw: nat, n: int)
    requires
        0 <= n <= weights.len(),
        cumulative(weights, n) > draw,
    ensures
        exists|i: int| is_pick(weights, draw, i),
    decreases n,
{
    if n > 0 {
        if cumulative(weights, n - 1) > draw {
            lemma_first_exceeding(weights, draw, n - 1);
        } else {
            assert forall|j: int| 0 <= j < n - 1 implies #[trigger] cumulative(weights, j + 1)
                <= draw by {
                lemma_cumulative_monotonic(weights, j + 1, n - 1);
            }
            assert(is_pick(weights, draw, n - 1));
        }
    }
}

/// A group with a single option yields that option for every draw.
pub proof fn lemma_single_option(weights: Seq<nat>, draw: nat)
    requires
        weights.len() == 1,
        draw < total_weight(weights),
    ensures
        picked(weights, draw) == 0,
        forall|i: int| is_pick(weights, draw, i) <==> i == 0,
{
    lemma_pick_exists(weights, draw);
}

/// An option of weight zero is never picked.
pub proof fn lemma_pick_has_weight(weights: Seq<nat>, draw: nat, i: int)
    requires
        is_pick(weights, draw, i),
    ensures
        weights[i] > 0,
{
    lemma_pick_band(weights, draw, i);
}

/// The option that `draw` picks from `group`.
pub fn pick(group: &LayerGroup, draw: u128) -> (i: usize)
    requires
        draw < total_weight(group.weights()),
    ensures
        is_pick(group.weights(), draw as nat, i as int),
        i as int == picked(group.weights(), draw as nat),
        cumulative(group.weights(), i as int) <= draw < cumulative(group.weights(), i + 1),
{
    let options = group.options();
    let n: usize = options.len();
    let ghost weights = group.weights();
    let mut running: u128 = 0;
    let mut i: usize = 0;
    while i + 1 < n
        invariant
            0 < n,
            i < n,
            n == options@.len(),
            weights == weights_of(options@),
            weights == group.weights(),
            running == cumulative(weights, i as int),
            running <= draw,
            running <= i * 0xFFFF_FFFF,
            draw < total_weight(weights),
            forall|j: int| 0 <= j < i ==> #[trigger] cumulative(weights, j + 1) <= draw,
        decreases n - i,
    {
        assert(weights[i as int] == options@[i as int].weight);
        let reached: u128 = running + (options[i].weight as u128);
        if reached > draw {
            proof {
                lemma_pick_exists(weights, draw as nat);
                lemma_pick_unique(weights, draw as nat, i as int, picked(weights, draw as nat));
                lemma_pick_band(weights, draw as nat, i as int);
            }
            return i;
        }
        running = reached;
        i = i + 1;
    }
    proof {
        lemma_pick_exists(weights, draw as nat);
        lemma_pick_unique(weights, draw as nat, i as int, picked(weights, draw as nat));
        lemma_pick_band(weights, draw as nat, i as int);
    }
    i
}

/// A random draw for `group`: a number below its total weight, every such
/// number being equally likely.
pub fn draw(group: &LayerGroup) -> (d: u128)
    requires
        group.wf(),
    ensures
        d < total_weight(group.weights()),
{
    uniform_below(group.total_weight())
}

/// Draws one option of `group` at random, each with a chance proportional
/// to its weight.
pub fn select(group: &LayerGroup) -> (i: usize)
    requires
        group.wf(),
    ensures
        exists|draw: nat|
            draw < total_weight(group.weights()) && is_pick(group.weights(), draw, i as int),
        i < group.spec_options().len(),
        group.weights()[i as int] > 0,
        group.spec_options().len() == 1 ==> i == 0,
{
    let d = draw(group);
    let i = pick(group, d);
    proof {
        lemma_pick_has_weight(group.weights(), d as nat, i as int);
    }
    i
}

/// Calls `rand::Rng::gen_range` on the thread-local generator of
/// `rand::thread_rng` with the range from zero up to `bound`, exclusive.
/// Trusted: the number returned lies in that range. The call panics on an
/// empty range, which `requires` rules out.
#[verifier::external_body]
fn uniform_below(bound: u128) -> (draw: u128)
    requires
        bound > 0,
    ensures
        draw < bound,
{
    rand::Rng::gen_range(&mut rand::thread_rng(), 0..bound)
}

} // verus!
