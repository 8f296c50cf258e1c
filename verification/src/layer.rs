//! Layer options and the groups that hold them.

use vstd::prelude::*;
use crate::raster::Raster;

verus! {

/// One selectable image of a group.
#[derive(Clone, Debug, PartialEq, Eq)]
pub struct LayerOption {
    /// The trait name shown for this option.
    pub name: String,
    /// The image that is stacked when this option is drawn.
    pub image: Raster,
    /// The share of draws this option gets relative to its siblings.
    pub weight: u32,
}

/// Sum of the first `n` weights.
pub open spec fn cumulative(weights: Seq<nat>, n: int) -> nat
    decreases n,
{
    if n <= 0 {
        0
    } else {
        cumulative(weights, n - 1) + weights[n - 1]
    }
}

/// Sum of all weights.
pub open spec fn total_weight(weights: Seq<nat>) -> nat {
    cumulative(weights, weights.len() as int)
}

/// The weights of a run of options, in order.
pub open spec fn weights_of(options: Seq<LayerOption>) -> Seq<nat> {
    Seq::new(options.len(), |i: int| options[i].weight as nat)
}

/// Cumulative sums never shrink as more weights are taken in.
pub proof fn lemma_cumulative_monotonic(weights: Seq<nat>, i: int, j: int)
    requires
        i <= j,
    ensures
        cumulative(weights, i) <= cumulative(weights, j),
    decreases j - i,
{
    if i < j {
        lemma_cumulative_monotonic(weights, i, j - 1);
    }
}

impl LayerOption {
    /// An option's image must be a well-formed raster.
    pub open spec fn wf(&self) -> bool {
        self.image.wf()
    }

    /// An option with the default weight, under which all options of a
    /// group are equally likely.
    pub fn new(name: String, image: Raster) -> (option: LayerOption)
        ensures
            option.name == name,
            option.image == image,
            option.weight == 1,
    {
        LayerOption { name, image, weight: 1 }
    }

    /// An option with an explicit weight.
    pub fn weighted(name: String, image: Raster, weight: u32) -> (option: LayerOption)
        ensures
            option.name == name,
            option.image == image,
            option.weight == weight,
    {
        LayerOption { name, image, weight }
    }
}

/// Every option of a run is well formed.
pub open spec fn all_wf(options: Seq<LayerOption>) -> bool {
    forall|i: int| 0 <= i < options.len() ==> (#[trigger] options[i]).wf()
}

/// Adds up the weights of a run of options.
pub fn sum_weights(options: &Vec<LayerOption>) -> (total: u128)
    ensures
        total == total_weight(weights_of(options@)),
{
    let n: usize = options.len();
    let mut total: u128 = 0;
    let mut i: usize = 0;
    while i < n
        invariant
            i <= n,
            n == options@.len(),
            total == cumulative(weights_of(options@), i as int),
            total <= i * 0xFFFF_FFFF,
        decreases n - i,
    {
        assert(weights_of(options@)[i as int] == options@[i as int].weight);
        total = total + (options[i].weight as u128);
        i = i + 1;
    }
    total
}

/// Why a set of options makes no group.
#[derive(Clone, Copy, Debug, PartialEq, Eq, Structural)]
pub enum GroupError {
    /// There is no option to draw.
    Empty,
    /// All options have weight zero, so none can be drawn.
    Weightless,
}

/// A named set of options that share one slot in the stacking order.
#[derive(Clone, Debug, PartialEq, Eq)]
pub struct LayerGroup {
    name: String,
    options: Vec<LayerOption>,
    rank: usize,
}

impl LayerGroup {
    pub closed spec fn spec_name(&self) -> Seq<char> {
        self.name@
    }

    pub closed spec fn spec_options(&self) -> Seq<LayerOption> {
        self.options@
    }

    pub closed spec fn spec_rank(&self) -> nat {
        self.rank as nat
    }

    /// The weights of the group's options, in order.
    pub open spec fn weights(&self) -> Seq<nat> {
        weights_of(self.spec_options())
    }

    /// A group has at least one option that can be drawn, and all its
    /// options are well formed.
    pub open spec fn wf(&self) -> bool {
        &&& self.spec_options().len() > 0
        &&& total_weight(self.weights()) > 0
        &&& all_wf(self.spec_options())
    }

    /// Two groups with the same name and options; ranks may differ.
    pub open spec fn same_content(&self, other: &LayerGroup) -> bool {
        self.spec_name() == other.spec_name() && self.spec_options() == other.spec_options()
    }

    /// Builds a group of rank 0 from a name and its options.
    pub fn new(name: String, options: Vec<LayerOption>) -> (made: Result<LayerGroup, GroupError>)
        requires
            all_wf(options@),
        ensures
            options@.len() == 0 ==> made == Err::<LayerGroup, GroupError>(GroupError::Empty),
            options@.len() > 0 && total_weight(weights_of(options@)) == 0 ==> made == Err::<
                LayerGroup,
                GroupError,
            >(GroupError::Weightless),
            options@.len() > 0 && total_weight(weights_of(options@)) > 0 ==> (made matches Ok(g)
                && g.wf() && g.spec_name() == name@ && g.spec_options() == options@
                && g.spec_rank() == 0),
    {
        if options.len() == 0 {
            return Err(GroupError::Empty);
        }
        if sum_weights(&options) == 0 {
            return Err(GroupError::Weightless);
        }
        Ok(LayerGroup { name, options, rank: 0 })
    }

    /// The same group at another position of the stacking order.
    pub fn ranked(self, rank: usize) -> (moved: LayerGroup)
        ensures
            moved.same_content(&self),
            moved.spec_rank() == rank,
            self.wf() ==> moved.wf(),
    {
        LayerGroup { name: self.name, options: self.options, rank }
    }

    pub fn name(&self) -> (name: &String)
        ensures
            name@ == self.spec_name(),
    {
        &self.name
    }

    pub fn options(&self) -> (options: &Vec<LayerOption>)
        ensures
            options@ == self.spec_options(),
    {
        &self.options
    }

    pub fn rank(&self) -> (rank: usize)
        ensures
            rank == self.spec_rank(),
    {
        self.rank
    }

    /// Whether this group is stacked below `other`. Groups are ordered by
    /// rank alone.
    pub fn stacks_below(&self, other: &LayerGroup) -> (below: bool)
        ensures
            below == (self.spec_rank() < other.spec_rank()),
    {
        self.rank < other.rank
    }

    /// Sum of the weights of the group's options.
    pub fn total_weight(&self) -> (total: u128)
        ensures
            total == total_weight(self.weights()),
    {
        sum_weights(&self.options)
    }
}

} // verus!
