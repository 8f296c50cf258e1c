//! Stacking rasters bottom to top with "over" blending.

use vstd::prelude::*;
use crate::pixel::{over, Pixel};
use crate::raster::Raster;

verus! {

/// A layer above the bottom one does not cover the grid of the bottom layer.
#[derive(Clone, Copy, Debug, PartialEq, Eq, Structural)]
pub struct DimensionMismatch {
    /// Position of the first such layer in the stack.
    pub layer: usize,
}

/// What was selected for one group: the names of the group and of the
/// option chosen, and the image to stack.
#[derive(Clone, Copy, Debug, PartialEq, Eq)]
pub struct Selection<'a> {
    /// Name of the group.
    pub group: &'a String,
    /// Trait name of the option chosen.
    pub name: &'a String,
    /// Image of the option chosen.
    pub image: &'a Raster,
}

/// The images of a run of selections, in order.
pub open spec fn images_of(selections: Seq<Selection>) -> Seq<&Raster> {
    Seq::new(selections.len(), |k: int| selections[k].image)
}

/// `traits` names, in order, the group and the option of each selection.
pub open spec fn records(selections: Seq<Selection>, traits: Seq<(String, String)>) -> bool {
    &&& traits.len() == selections.len()
    &&& forall|k: int|
        0 <= k < selections.len() ==> (#[trigger] traits[k]).0@ == selections[k].group@
            && traits[k].1@ == selections[k].name@
}

/// `image` shows the layers laid over each other, bottom first, on a
/// transparent canvas of the bottom layer's size; without any layer it is
/// the empty raster.
pub open spec fn shows(layers: Seq<&Raster>, image: Raster) -> bool {
    &&& image.wf()
    &&& layers.len() == 0 ==> image@.len() == 0 && image.spec_width() == 0 && image.spec_height()
        == 0
    &&& layers.len() > 0 ==> image.same_size(layers[0]) && image@.len() == layers[0]@.len()
    &&& forall|at: int|
        0 <= at < image@.len() ==> #[trigger] image@[at] == stacked(
            samples(layers),
            layers.len() as int,
            at,
        )
}

/// The samples of each layer of a stack.
pub open spec fn samples(layers: Seq<&Raster>) -> Seq<Seq<Pixel>> {
    Seq::new(layers.len(), |k: int| layers[k]@)
}

/// The sample at position `at` after the lowest `count` layers have been
/// laid, one after the other, over a transparent canvas.
pub open spec fn stacked(layers: Seq<Seq<Pixel>>, count: int, at: int) -> Pixel
    decreases count,
{
    if count <= 0 {
        Pixel::clear()
    } else {
        over(stacked(layers, count - 1, at), layers[count - 1][at])
    }
}

/// Every layer covers the grid of the bottom layer.
pub open spec fn uniform(layers: Seq<&Raster>) -> bool {
    forall|k: int| 0 <= k < layers.len() ==> (#[trigger] layers[k]).same_size(layers[0])
}

/// `k` is the first layer that does not cover the grid of the bottom layer.
pub open spec fn first_mismatch(layers: Seq<&Raster>, k: int) -> bool {
    &&& 0 < k < layers.len()
    &&& !layers[k].same_size(layers[0])
    &&& forall|m: int| 0 <= m < k ==> (#[trigger] layers[m]).same_size(layers[0])
}

/// Every layer of the stack is a well-formed raster.
pub open spec fn all_rasters_wf(layers: Seq<&Raster>) -> bool {
    forall|k: int| 0 <= k < layers.len() ==> (#[trigger] layers[k]).wf()
}

/// A bottom layer that is opaque at a position, stacked alone, shows
/// through unchanged there.
pub proof fn lemma_opaque_background_alone(layers: Seq<Seq<Pixel>>, at: int)
    requires
        layers.len() >= 1,
        layers[0][at].a == 255,
    ensures
        stacked(layers, 1, at) == layers[0][at],
{
    assert(stacked(layers, 0, at) == Pixel::clear());
}

/// Layers that are fully transparent at a position change nothing there:
/// the stack of `count` layers shows what its lowest `below` layers show.
pub proof fn lemma_transparent_layers_vanish(
    layers: Seq<Seq<Pixel>>,
    below: int,
    count: int,
    at: int,
)
    requires
        0 <= below <= count <= layers.len(),
        forall|k: int| below <= k < count ==> (#[trigger] layers[k])[at].a == 0,
    ensures
        stacked(layers, count, at) == stacked(layers, below, at),
    decreases count - below,
{
    if below < count {
        lemma_transparent_layers_vanish(layers, below, count - 1, at);
        assert(layers[count - 1][at].a == 0);
    }
}

/// Every sample of the raster is opaque.
pub open spec fn opaque(raster: &Raster) -> bool {
    forall|at: int| 0 <= at < raster@.len() ==> (#[trigger] raster@[at]).a == 255
}

/// Every sample of the raster is fully transparent.
pub open spec fn transparent(raster: &Raster) -> bool {
    forall|at: int| 0 <= at < raster@.len() ==> (#[trigger] raster@[at]).a == 0
}

/// Stacking an opaque background alone reproduces it: the image has the
/// background's size and its samples, unchanged.
pub proof fn lemma_background_alone_reproduced(layers: Seq<&Raster>, image: Raster)
    requires
        layers.len() == 1,
        opaque(layers[0]),
        shows(layers, image),
    ensures
        image.same_size(layers[0]),
        image@ == layers[0]@,
{
    assert forall|at: int| 0 <= at < image@.len() implies image@[at] == layers[0]@[at] by {
        assert(layers[0]@[at].a == 255);
        lemma_opaque_background_alone(samples(layers), at);
    }
    assert(image@ =~= layers[0]@);
}

/// Fully transparent layers above a background are no-ops: the stack
/// shows what the background shows alone, and where the background is
/// opaque, the background itself.
pub proof fn lemma_transparent_layers_are_no_ops(
    layers: Seq<&Raster>,
    image: Raster,
    alone: Raster,
)
    requires
        layers.len() >= 1,
        forall|k: int| 1 <= k < layers.len() ==> transparent(#[trigger] layers[k]),
        forall|k: int| 1 <= k < layers.len() ==> (#[trigger] layers[k])@.len() == layers[0]@.len(),
        shows(layers, image),
        shows(layers.subrange(0, 1), alone),
    ensures
        image.same_size(&alone),
        image@ == alone@,
        opaque(layers[0]) ==> image@ == layers[0]@,
{
    let bottom = layers.subrange(0, 1);
    assert(bottom[0] == layers[0]);
    assert forall|at: int| 0 <= at < image@.len() implies image@[at] == alone@[at] by {
        assert forall|k: int| 1 <= k < layers.len() implies (#[trigger] samples(layers)[k])[at].a
            == 0 by {
            assert(transparent(layers[k]));
            assert(layers[k]@[at].a == 0);
        }
        lemma_transparent_layers_vanish(samples(layers), 1, layers.len() as int, at);
        assert(stacked(samples(layers), 0, at) == stacked(samples(bottom), 0, at));
        assert(samples(layers)[0] == samples(bottom)[0]);
    }
    assert(image@ =~= alone@);
    if opaque(layers[0]) {
        lemma_background_alone_reproduced(bottom, alone);
    }
}

/// Stacks the layers, bottom first, onto a transparent canvas of the bottom
/// layer's size. An empty stack gives the empty raster.
///
/// Sizes are compared before any sample is written: the stack is refused
/// when a layer does not cover the grid of the bottom layer, and the error
/// names the first such layer.
pub fn composite(layers: &Vec<&Raster>) -> (out: Result<Raster, DimensionMismatch>)
    requires
        all_rasters_wf(layers@),
    ensures
        out is Ok <==> uniform(layers@),
        match out {
            Ok(image) => shows(layers@, image),
            Err(fault) => first_mismatch(layers@, fault.layer as int),
        },
{
    let n: usize = layers.len();
    if n == 0 {
        return Ok(Raster::empty());
    }
    let bottom: &Raster = layers[0];
    let mut k: usize = 1;
    while k < n
        invariant
            1 <= k <= n,
            n == layers@.len(),
            bottom == layers@[0],
            forall|m: int| 0 <= m < k ==> (#[trigger] layers@[m]).same_size(layers@[0]),
        decreases n - k,
    {
        if !layers[k].has_size_of(bottom) {
            return Err(DimensionMismatch { layer: k });
        }
        k = k + 1;
    }
    let mut canvas = Raster::blank_like(bottom);
    let ghost stack = samples(layers@);
    let mut k: usize = 0;
    while k < n
        invariant
            k <= n,
            n == layers@.len(),
            n > 0,
            stack == samples(layers@),
            all_rasters_wf(layers@),
            uniform(layers@),
            canvas.wf(),
            canvas.same_size(layers@[0]),
            canvas@.len() == layers@[0]@.len(),
            forall|at: int|
                0 <= at < canvas@.len() ==> #[trigger] canvas@[at] == stacked(stack, k as int, at),
        decreases n - k,
    {
        let ghost before = canvas@;
        assert(layers@[k as int].same_size(layers@[0]));
        let laid = canvas.lay_over(layers[k]);
        assert(laid);
        proof {
            assert forall|at: int| 0 <= at < canvas@.len() implies #[trigger] canvas@[at]
                == stacked(stack, k + 1, at) by {
                assert(canvas@[at] == over(before[at], layers@[k as int]@[at]));
                assert(stack[k as int] == layers@[k as int]@);
            }
        }
        k = k + 1;
    }
    Ok(canvas)
}

/// Stacks the images of the selections, bottom first, and records for each
/// selection the names of its group and of its option.
///
/// Fails as `composite` does on the images, before any sample is written;
/// the error gives the position of the first selection whose image does not
/// cover the grid of the bottom one.
pub fn composite_selections(selections: &Vec<Selection>) -> (out: Result<
    (Raster, Vec<(String, String)>),
    DimensionMismatch,
>)
    requires
        all_rasters_wf(images_of(selections@)),
    ensures
        out is Ok <==> uniform(images_of(selections@)),
        match out {
            Ok((image, traits)) => shows(images_of(selections@), image) && records(
                selections@,
                traits@,
            ),
            Err(fault) => first_mismatch(images_of(selections@), fault.layer as int),
        },
{
    let n: usize = selections.len();
    let mut layers: Vec<&Raster> = Vec::new();
    let mut traits: Vec<(String, String)> = Vec::new();
    let mut k: usize = 0;
    while k < n
        invariant
            k <= n,
            n == selections@.len(),
            layers@ == images_of(selections@).subrange(0, k as int),
            traits@.len() == k,
            forall|m: int|
                0 <= m < k ==> (#[trigger] traits@[m]).0@ == selections@[m].group@ && traits@[m].1@
                    == selections@[m].name@,
        decreases n - k,
    {
        let selection = &selections[k];
        layers.push(selection.image);
        traits.push((selection.group.clone(), selection.name.clone()));
        k = k + 1;
        assert(layers@ =~= images_of(selections@).subrange(0, k as int));
    }
    assert(layers@ =~= images_of(selections@));
    match composite(&layers) {
        Ok(image) => Ok((image, traits)),
        Err(fault) => Err(fault),
    }
}

} // verus!
