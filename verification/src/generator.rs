//! Generating a collectible: one option per group, stacked in group order.

use vstd::prelude::*;
use crate::codec::{encode_png, png_encoding};
use crate::compositor::{composite_selections, images_of, samples, stacked, Selection};
use crate::layer::{total_weight, LayerGroup};
use crate::pixel::Pixel;
use crate::raster::{rgba_bytes, Raster};
use crate::selector::{draw, pick, picked};

verus! {

/// A generated image together with the record of what was drawn.
#[derive(Clone, Debug, PartialEq, Eq)]
pub struct Composite {
    /// The stacked image.
    pub image: Raster,
    /// For each group, in stacking order, the index of the option drawn.
    pub choices: Vec<usize>,
    /// For each group, in stacking order, its name and the name of the
    /// option drawn.
    pub traits: Vec<(String, String)>,
}

/// Why nothing was generated.
#[derive(Clone, Copy, Debug, PartialEq, Eq, Structural)]
pub enum GenerateError {
    /// The option at index `option`, chosen for the group at index `group`,
    /// does not cover the grid of the bottom layer.
    DimensionMismatch { group: usize, option: usize },
    /// The encoder refused the stacked image.
    Encoding,
}

/// Every group of the catalog is well formed.
pub open spec fn catalog_wf(groups: Seq<LayerGroup>) -> bool {
    forall|k: int| 0 <= k < groups.len() ==> (#[trigger] groups[k]).wf()
}

/// There is one draw per group, each below its group's total weight.
pub open spec fn valid_draws(groups: Seq<LayerGroup>, draws: Seq<u128>) -> bool {
    &&& draws.len() == groups.len()
    &&& forall|k: int|
        0 <= k < groups.len() ==> (#[trigger] draws[k]) < total_weight(groups[k].weights())
}

/// There is one choice per group, each the index of one of its options.
pub open spec fn valid_choices(groups: Seq<LayerGroup>, choices: Seq<usize>) -> bool {
    &&& choices.len() == groups.len()
    &&& forall|k: int|
        0 <= k < groups.len() ==> (#[trigger] choices[k]) < groups[k].spec_options().len()
}

/// The choices that a run of draws makes: for each group, the first option
/// whose cumulative weight exceeds the group's draw.
pub open spec fn selection(groups: Seq<LayerGroup>, draws: Seq<u128>) -> Seq<usize> {
    Seq::new(groups.len(), |k: int| picked(groups[k].weights(), draws[k] as nat) as usize)
}

/// The image of the option chosen for group `k`.
pub open spec fn chosen_image(groups: Seq<LayerGroup>, choices: Seq<usize>, k: int) -> Raster {
    groups[k].spec_options()[choices[k] as int].image
}

/// The samples of the chosen images, bottom first.
pub open spec fn chosen_layers(groups: Seq<LayerGroup>, choices: Seq<usize>) -> Seq<Seq<Pixel>> {
    Seq::new(groups.len(), |k: int| chosen_image(groups, choices, k)@)
}

/// Every chosen image covers the grid of the bottom one.
pub open spec fn sizes_agree(groups: Seq<LayerGroup>, choices: Seq<usize>) -> bool {
    forall|k: int|
        0 <= k < groups.len() ==> (#[trigger] chosen_image(groups, choices, k)).same_size(
            &chosen_image(groups, choices, 0),
        )
}

/// Group `k` is the first whose chosen image does not cover the grid of the
/// bottom one.
pub open spec fn first_misfit(groups: Seq<LayerGroup>, choices: Seq<usize>, k: int) -> bool {
    &&& 0 < k < groups.len()
    &&& !chosen_image(groups, choices, k).same_size(&chosen_image(groups, choices, 0))
    &&& forall|m: int|
        0 <= m < k ==> (#[trigger] chosen_image(groups, choices, m)).same_size(
            &chosen_image(groups, choices, 0),
        )
}

/// Width of the canvas: that of the bottom layer, zero without any layer.
pub open spec fn canvas_width(groups: Seq<LayerGroup>, choices: Seq<usize>) -> u32 {
    if groups.len() == 0 {
        0
    } else {
        chosen_image(groups, choices, 0).spec_width()
    }
}

/// Height of the canvas: that of the bottom layer, zero without any layer.
pub open spec fn canvas_height(groups: Seq<LayerGroup>, choices: Seq<usize>) -> u32 {
    if groups.len() == 0 {
        0
    } else {
        chosen_image(groups, choices, 0).spec_height()
    }
}

/// The samples of the stacked image: at each position of the canvas, the
/// chosen layers laid over each other, bottom first.
pub open spec fn stacked_image(groups: Seq<LayerGroup>, choices: Seq<usize>) -> Seq<Pixel> {
    Seq::new(
        (canvas_width(groups, choices) * canvas_height(groups, choices)) as nat,
        |at: int| stacked(chosen_layers(groups, choices), groups.len() as int, at),
    )
}

/// The record names group `k` and the option chosen for it.
pub open spec fn names_choice(
    groups: Seq<LayerGroup>,
    choices: Seq<usize>,
    k: int,
    entry: (String, String),
) -> bool {
    entry.0@ == groups[k].spec_name() && entry.1@ == groups[k].spec_options()[choices[k] as int].name@
}

/// `made` is what stacking the chosen options gives: the stacked image on
/// a canvas of the bottom layer's size, the choices themselves, and for
/// each group, in stacking order, its name and that of its chosen option.
pub open spec fn depicts(groups: Seq<LayerGroup>, choices: Seq<usize>, made: &Composite) -> bool {
    &&& made.image.wf()
    &&& made.image.spec_width() == canvas_width(groups, choices)
    &&& made.image.spec_height() == canvas_height(groups, choices)
    &&& made.image@ == stacked_image(groups, choices)
    &&& made.choices@ == choices
    &&& made.traits@.len() == groups.len()
    &&& forall|k: int|
        0 <= k < groups.len() ==> names_choice(groups, choices, k, #[trigger] made.traits@[k])
}

/// What stacking `choices` must give: a composite that depicts them when
/// all chosen images agree in size, and otherwise the error that names the
/// first group whose chosen image does not fit, with the option chosen.
pub open spec fn composed_from(
    groups: Seq<LayerGroup>,
    choices: Seq<usize>,
    out: Result<Composite, GenerateError>,
) -> bool {
    match out {
        Ok(made) => sizes_agree(groups, choices) && depicts(groups, choices, &made),
        Err(GenerateError::DimensionMismatch { group, option }) => first_misfit(
            groups,
            choices,
            group as int,
        ) && option == choices[group as int],
        Err(GenerateError::Encoding) => false,
    }
}

/// The PNG encoding of the stacked image, `None` where the encoder refuses.
pub open spec fn stacked_png(groups: Seq<LayerGroup>, choices: Seq<usize>) -> Option<Seq<u8>> {
    png_encoding(
        canvas_width(groups, choices),
        canvas_height(groups, choices),
        rgba_bytes(stacked_image(groups, choices)),
    )
}

/// What rendering `choices` must give: the PNG encoding of the stacked
/// image when all chosen images agree in size and the encoder accepts the
/// result, and otherwise the error that says which of the two failed.
pub open spec fn rendered_from(
    groups: Seq<LayerGroup>,
    choices: Seq<usize>,
    out: Result<Vec<u8>, GenerateError>,
) -> bool {
    match out {
        Ok(png) => sizes_agree(groups, choices) && stacked_png(groups, choices) == Some(png@),
        Err(GenerateError::DimensionMismatch { group, option }) => first_misfit(
            groups,
            choices,
            group as int,
        ) && option == choices[group as int],
        Err(GenerateError::Encoding) => sizes_agree(groups, choices) && stacked_png(groups, choices)
            is None,
    }
}

/// Two composites that depict the same choices from the same catalog
/// agree in size, in every sample, in the bytes they are encoded from, and
/// in every entry of their records.
pub proof fn lemma_depiction_unique(
    groups: Seq<LayerGroup>,
    choices: Seq<usize>,
    first: &Composite,
    second: &Composite,
)
    requires
        depicts(groups, choices, first),
        depicts(groups, choices, second),
    ensures
        first.image.same_size(&second.image),
        first.image@ == second.image@,
        rgba_bytes(first.image@) == rgba_bytes(second.image@),
        first.choices@ == second.choices@,
        first.traits@.len() == second.traits@.len(),
        forall|k: int|
            0 <= k < first.traits@.len() ==> (#[trigger] first.traits@[k]).0@ == second.traits@[k].0@
                && first.traits@[k].1@ == second.traits@[k].1@,
{
    assert forall|k: int| 0 <= k < first.traits@.len() implies (#[trigger] first.traits@[k]).0@
        == second.traits@[k].0@ && first.traits@[k].1@ == second.traits@[k].1@ by {
        assert(names_choice(groups, choices, k, first.traits@[k]));
        assert(names_choice(groups, choices, k, second.traits@[k]));
    }
}

/// No two groups are both the first whose chosen image does not fit.
proof fn lemma_first_misfit_unique(groups: Seq<LayerGroup>, choices: Seq<usize>, k: int, m: int)
    requires
        first_misfit(groups, choices, k),
        first_misfit(groups, choices, m),
    ensures
        k == m,
{
    if k < m {
        assert(chosen_image(groups, choices, k).same_size(&chosen_image(groups, choices, 0)));
    } else if m < k {
        assert(chosen_image(groups, choices, m).same_size(&chosen_image(groups, choices, 0)));
    }
}

/// Generation is repeatable: with the same catalog and the same draws, two
/// generations either both fail, with the same error, or both succeed, with
/// the same choices, the same image sample for sample, and the same record.
pub proof fn lemma_generation_repeatable(
    groups: Seq<LayerGroup>,
    draws: Seq<u128>,
    first: Result<Composite, GenerateError>,
    second: Result<Composite, GenerateError>,
)
    requires
        composed_from(groups, selection(groups, draws), first),
        composed_from(groups, selection(groups, draws), second),
    ensures
        first is Ok <==> second is Ok,
        first is Err ==> first->Err_0 == second->Err_0,
        first is Ok ==> {
            &&& first->Ok_0.choices@ == second->Ok_0.choices@
            &&& first->Ok_0.image.same_size(&second->Ok_0.image)
            &&& first->Ok_0.image@ == second->Ok_0.image@
            &&& first->Ok_0.traits@.len() == second->Ok_0.traits@.len()
            &&& forall|k: int|
                0 <= k < first->Ok_0.traits@.len() ==> (#[trigger] first->Ok_0.traits@[k]).0@
                    == second->Ok_0.traits@[k].0@ && first->Ok_0.traits@[k].1@
                    == second->Ok_0.traits@[k].1@
        },
{
    let choices = selection(groups, draws);
    match (first, second) {
        (Ok(one), Ok(other)) => {
            lemma_depiction_unique(groups, choices, &one, &other);
        },
        (
            Err(GenerateError::DimensionMismatch { group, option }),
            Err(GenerateError::DimensionMismatch { group: other, option: _ }),
        ) => {
            lemma_first_misfit_unique(groups, choices, group as int, other as int);
        },
        (Err(GenerateError::DimensionMismatch { group, option }), Ok(_)) => {
            assert(chosen_image(groups, choices, group as int).same_size(
                &chosen_image(groups, choices, 0),
            ));
        },
        (Ok(_), Err(GenerateError::DimensionMismatch { group, option })) => {
            assert(chosen_image(groups, choices, group as int).same_size(
                &chosen_image(groups, choices, 0),
            ));
        },
        _ => {},
    }
}

/// Rendering is repeatable: with the same catalog and the same draws, two
/// renderings either both fail, with the same error, or both succeed, with
/// the same bytes.
pub proof fn lemma_rendering_repeatable(
    groups: Seq<LayerGroup>,
    draws: Seq<u128>,
    first: Result<Vec<u8>, GenerateError>,
    second: Result<Vec<u8>, GenerateError>,
)
    requires
        rendered_from(groups, selection(groups, draws), first),
        rendered_from(groups, selection(groups, draws), second),
    ensures
        first is Ok <==> second is Ok,
        first is Ok ==> first->Ok_0@ == second->Ok_0@,
        first is Err ==> first->Err_0 == second->Err_0,
{
    let choices = selection(groups, draws);
    match (first, second) {
        (
            Err(GenerateError::DimensionMismatch { group, option }),
            Err(GenerateError::DimensionMismatch { group: other, option: _ }),
        ) => {
            lemma_first_misfit_unique(groups, choices, group as int, other as int);
        },
        (Err(GenerateError::DimensionMismatch { group, option }), _) => {
            assert(chosen_image(groups, choices, group as int).same_size(
                &chosen_image(groups, choices, 0),
            ));
        },
        (_, Err(GenerateError::DimensionMismatch { group, option })) => {
            assert(chosen_image(groups, choices, group as int).same_size(
                &chosen_image(groups, choices, 0),
            ));
        },
        _ => {},
    }
}

/// The option that each draw picks from its group.
pub fn select_all(groups: &Vec<LayerGroup>, draws: &Vec<u128>) -> (choices: Vec<usize>)
    requires
        valid_draws(groups@, draws@),
    ensures
        choices@ == selection(groups@, draws@),
        valid_choices(groups@, choices@),
{
    let n: usize = groups.len();
    let mut choices: Vec<usize> = Vec::new();
    let mut k: usize = 0;
    while k < n
        invariant
            k <= n,
            n == groups@.len(),
            valid_draws(groups@, draws@),
            choices@.len() == k,
            forall|m: int|
                0 <= m < k ==> #[trigger] choices@[m] == selection(groups@, draws@)[m]
                    && choices@[m] < groups@[m].spec_options().len(),
        decreases n - k,
    {
        assert(draws@[k as int] < total_weight(groups@[k as int].weights()));
        let i = pick(&groups[k], draws[k]);
        choices.push(i);
        k = k + 1;
    }
    assert(choices@ =~= selection(groups@, draws@));
    choices
}

/// One random draw per group.
pub fn draw_all(groups: &Vec<LayerGroup>) -> (draws: Vec<u128>)
    requires
        catalog_wf(groups@),
    ensures
        valid_draws(groups@, draws@),
{
    let n: usize = groups.len();
    let mut draws: Vec<u128> = Vec::new();
    let mut k: usize = 0;
    while k < n
        invariant
            k <= n,
            n == groups@.len(),
            catalog_wf(groups@),
            draws@.len() == k,
            forall|m: int|
                0 <= m < k ==> (#[trigger] draws@[m]) < total_weight(groups@[m].weights()),
        decreases n - k,
    {
        let d = draw(&groups[k]);
        draws.push(d);
        k = k + 1;
    }
    draws
}

/// `pick` is what was selected for group `k`: the group's name, and the
/// name and image of the option chosen for it.
pub open spec fn selects(
    groups: Seq<LayerGroup>,
    choices: Seq<usize>,
    k: int,
    pick: Selection,
) -> bool {
    &&& pick.group@ == groups[k].spec_name()
    &&& pick.name@ == groups[k].spec_options()[choices[k] as int].name@
    &&& *pick.image == chosen_image(groups, choices, k)
}

/// The selections that the choices stand for, one per group, in the order
/// of the groups.
pub fn selections_of<'a>(groups: &'a Vec<LayerGroup>, choices: &Vec<usize>) -> (picks: Vec<
    Selection<'a>,
>)
    requires
        valid_choices(groups@, choices@),
    ensures
        picks@.len() == groups@.len(),
        forall|k: int|
            0 <= k < groups@.len() ==> selects(groups@, choices@, k, #[trigger] picks@[k]),
{
    let n: usize = groups.len();
    let mut picks: Vec<Selection<'a>> = Vec::new();
    let mut k: usize = 0;
    while k < n
        invariant
            k <= n,
            n == groups@.len(),
            valid_choices(groups@, choices@),
            picks@.len() == k,
            forall|m: int| 0 <= m < k ==> selects(groups@, choices@, m, #[trigger] picks@[m]),
        decreases n - k,
    {
        assert(choices@[k as int] < groups@[k as int].spec_options().len());
        let group = &groups[k];
        let option = &group.options()[choices[k]];
        picks.push(Selection { group: group.name(), name: &option.name, image: &option.image });
        k = k + 1;
    }
    picks
}

/// Stacks the chosen option of every group, in the order of the groups,
/// and records the names of what was chosen.
///
/// Sizes are compared before any sample is written. The stack is refused
/// when a chosen image does not cover the grid of the bottom one; the
/// error names the first such group and the option chosen for it.
pub fn compose(groups: &Vec<LayerGroup>, choices: Vec<usize>) -> (out: Result<
    Composite,
    GenerateError,
>)
    requires
        catalog_wf(groups@),
        valid_choices(groups@, choices@),
    ensures
        out is Ok <==> sizes_agree(groups@, choices@),
        composed_from(groups@, choices@, out),
{
    let picks = selections_of(groups, &choices);
    let ghost layers = images_of(picks@);
    proof {
        assert forall|m: int| 0 <= m < layers.len() implies *(#[trigger] layers[m])
            == chosen_image(groups@, choices@, m) by {
            assert(selects(groups@, choices@, m, picks@[m]));
        }
        assert forall|m: int| 0 <= m < layers.len() implies (#[trigger] layers[m]).wf() by {
            assert(*layers[m] == chosen_image(groups@, choices@, m));
            assert(groups@[m].wf());
            assert(choices@[m] < groups@[m].spec_options().len());
            assert(groups@[m].spec_options()[choices@[m] as int].wf());
        }
        assert(samples(layers) =~= chosen_layers(groups@, choices@));
    }
    match composite_selections(&picks) {
        Err(fault) => {
            proof {
                assert(*layers[fault.layer as int] == chosen_image(
                    groups@,
                    choices@,
                    fault.layer as int,
                ));
                assert(*layers[0] == chosen_image(groups@, choices@, 0));
                assert forall|m: int| 0 <= m < fault.layer implies (#[trigger] chosen_image(
                    groups@,
                    choices@,
                    m,
                )).same_size(&chosen_image(groups@, choices@, 0)) by {
                    assert(layers[m].same_size(layers[0]));
                }
                assert(!chosen_image(groups@, choices@, fault.layer as int).same_size(
                    &chosen_image(groups@, choices@, 0),
                ));
            }
            Err(GenerateError::DimensionMismatch { group: fault.layer, option: choices[fault.layer] })
        },
        Ok((image, traits)) => {
            proof {
                assert forall|m: int| 0 <= m < groups@.len() implies (#[trigger] chosen_image(
                    groups@,
                    choices@,
                    m,
                )).same_size(&chosen_image(groups@, choices@, 0)) by {
                    assert(layers[m].same_size(layers[0]));
                }
                if groups@.len() > 0 {
                    assert(*layers[0] == chosen_image(groups@, choices@, 0));
                }
                assert(image@ =~= stacked_image(groups@, choices@));
                assert forall|k: int| 0 <= k < groups@.len() implies names_choice(
                    groups@,
                    choices@,
                    k,
                    #[trigger] traits@[k],
                ) by {
                    assert(selects(groups@, choices@, k, picks@[k]));
                }
            }
            Ok(Composite { image, choices, traits })
        },
    }
}

/// Encodes the stacked image of a composite as PNG.
pub fn render(made: &Composite) -> (out: Result<Vec<u8>, GenerateError>)
    requires
        made.image.wf(),
    ensures
        match png_encoding(
            made.image.spec_width(),
            made.image.spec_height(),
            rgba_bytes(made.image@),
        ) {
            Some(png) => out matches Ok(bytes) && bytes@ == png,
            None => out == Err::<Vec<u8>, GenerateError>(GenerateError::Encoding),
        },
{
    match encode_png(&made.image) {
        Ok(png) => Ok(png),
        Err(_) => Err(GenerateError::Encoding),
    }
}

/// Generates the collectible that the given draws select.
pub fn generate_with(groups: &Vec<LayerGroup>, draws: &Vec<u128>) -> (out: Result<
    Composite,
    GenerateError,
>)
    requires
        catalog_wf(groups@),
        valid_draws(groups@, draws@),
    ensures
        out is Ok <==> sizes_agree(groups@, selection(groups@, draws@)),
        composed_from(groups@, selection(groups@, draws@), out),
{
    let choices = select_all(groups, draws);
    compose(groups, choices)
}

/// Generates the collectible that the given draws select and encodes it as
/// PNG.
pub fn render_with(groups: &Vec<LayerGroup>, draws: &Vec<u128>) -> (out: Result<
    Vec<u8>,
    GenerateError,
>)
    requires
        catalog_wf(groups@),
        valid_draws(groups@, draws@),
    ensures
        rendered_from(groups@, selection(groups@, draws@), out),
{
    match generate_with(groups, draws) {
        Ok(made) => render(&made),
        Err(fault) => Err(fault),
    }
}

/// Generates a collectible from fresh random draws.
pub fn generate(groups: &Vec<LayerGroup>) -> (out: Result<Composite, GenerateError>)
    requires
        catalog_wf(groups@),
    ensures
        exists|draws: Seq<u128>|
            valid_draws(groups@, draws) && #[trigger] composed_from(
                groups@,
                selection(groups@, draws),
                out,
            ),
{
    let draws = draw_all(groups);
    let out = generate_with(groups, &draws);
    assert(valid_draws(groups@, draws@) && composed_from(
        groups@,
        selection(groups@, draws@),
        out,
    ));
    out
}

/// Generates a collectible from fresh random draws and encodes it as PNG.
pub fn gen_orbital(groups: &Vec<LayerGroup>) -> (out: Result<Vec<u8>, GenerateError>)
    requires
        catalog_wf(groups@),
    ensures
        exists|draws: Seq<u128>|
            valid_draws(groups@, draws) && #[trigger] rendered_from(
                groups@,
                selection(groups@, draws),
                out,
            ),
{
    let draws = draw_all(groups);
    let out = render_with(groups, &draws);
    assert(valid_draws(groups@, draws@) && rendered_from(groups@, selection(groups@, draws@), out));
    out
}

} // verus!
