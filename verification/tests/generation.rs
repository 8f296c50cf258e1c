use orbitalz::codec::decode;
use orbitalz::generator::{
    compose, draw_all, gen_orbital, generate, generate_with, render, render_with, select_all,
    selections_of, GenerateError,
};
use orbitalz::layer::{LayerGroup, LayerOption};
use orbitalz::pixel::Pixel;
use orbitalz::raster::Raster;

fn solid_option(name: &str, width: u32, height: u32, p: Pixel, weight: u32) -> LayerOption {
    LayerOption::weighted(String::from(name), Raster::filled(width, height, p).unwrap(), weight)
}

fn blue() -> Pixel {
    Pixel::new(0, 0, 255, 255)
}

fn red() -> Pixel {
    Pixel::new(255, 0, 0, 255)
}

fn green() -> Pixel {
    Pixel::new(0, 255, 0, 255)
}

fn catalog() -> Vec<LayerGroup> {
    let background = LayerGroup::new(
        String::from("Background"),
        vec![solid_option("Sky", 4, 4, blue(), 1), solid_option("Grass", 4, 4, green(), 3)],
    )
    .unwrap();
    let mut cap = vec![Pixel::transparent(); 16];
    cap[0] = red();
    cap[1] = red();
    let hat = LayerGroup::new(
        String::from("Hat"),
        vec![
            LayerOption::new(String::from("None"), Raster::filled(4, 4, Pixel::transparent()).unwrap()),
            LayerOption::new(String::from("Cap"), Raster::new(4, 4, cap).unwrap()),
        ],
    )
    .unwrap();
    vec![background.ranked(0), hat.ranked(1)]
}

fn misfit_catalog() -> Vec<LayerGroup> {
    let background =
        LayerGroup::new(String::from("Background"), vec![solid_option("Blue", 100, 100, blue(), 1)])
            .unwrap();
    let hat = LayerGroup::new(String::from("Hat"), vec![solid_option("Red", 50, 50, red(), 1)])
        .unwrap();
    vec![background, hat]
}

#[test]
fn draws_select_one_option_per_group() {
    let groups = catalog();
    assert_eq!(select_all(&groups, &vec![0, 0]), vec![0, 0]);
    assert_eq!(select_all(&groups, &vec![1, 1]), vec![1, 1]);
    assert_eq!(select_all(&groups, &vec![3, 0]), vec![1, 0]);
}

#[test]
fn compose_stacks_choices_and_records_traits() {
    let groups = catalog();
    let made = compose(&groups, vec![0, 1]).unwrap();
    assert_eq!(made.choices, vec![0, 1]);
    assert_eq!(
        made.traits,
        vec![
            (String::from("Background"), String::from("Sky")),
            (String::from("Hat"), String::from("Cap")),
        ]
    );
    assert_eq!((made.image.width(), made.image.height()), (4, 4));
    assert_eq!(made.image.sample(0), Some(red()));
    assert_eq!(made.image.sample(1), Some(red()));
    for at in 2..16 {
        assert_eq!(made.image.sample(at), Some(blue()));
    }
}

#[test]
fn transparent_choice_shows_the_background() {
    let groups = catalog();
    let made = compose(&groups, vec![1, 0]).unwrap();
    assert_eq!(made.image, Raster::filled(4, 4, green()).unwrap());
    assert_eq!(made.traits[1], (String::from("Hat"), String::from("None")));
}

#[test]
fn compose_of_no_groups_is_empty() {
    let made = compose(&Vec::new(), Vec::new()).unwrap();
    assert_eq!(made.image, Raster::empty());
    assert!(made.choices.is_empty());
    assert!(made.traits.is_empty());
}

#[test]
fn hat_of_other_size_is_a_dimension_mismatch() {
    let groups = misfit_catalog();
    assert_eq!(
        compose(&groups, vec![0, 0]).unwrap_err(),
        GenerateError::DimensionMismatch { group: 1, option: 0 }
    );
    assert_eq!(
        generate_with(&groups, &vec![0, 0]).unwrap_err(),
        GenerateError::DimensionMismatch { group: 1, option: 0 }
    );
    assert_eq!(
        render_with(&groups, &vec![0, 0]),
        Err(GenerateError::DimensionMismatch { group: 1, option: 0 })
    );
    assert_eq!(generate(&groups).unwrap_err(), GenerateError::DimensionMismatch { group: 1, option: 0 });
    assert_eq!(gen_orbital(&groups), Err(GenerateError::DimensionMismatch { group: 1, option: 0 }));
}

#[test]
fn mismatch_names_the_option_chosen() {
    let base = LayerGroup::new(String::from("Base"), vec![solid_option("b", 2, 2, blue(), 1)]).unwrap();
    let mid = LayerGroup::new(
        String::from("Mid"),
        vec![solid_option("fits", 2, 2, green(), 1), solid_option("wide", 3, 2, green(), 1)],
    )
    .unwrap();
    let groups = vec![base, mid];
    assert!(generate_with(&groups, &vec![0, 0]).is_ok());
    assert_eq!(
        generate_with(&groups, &vec![0, 1]).unwrap_err(),
        GenerateError::DimensionMismatch { group: 1, option: 1 }
    );
}

#[test]
fn same_draws_give_the_same_composite() {
    let groups = catalog();
    for d0 in 0..4u128 {
        for d1 in 0..2u128 {
            let draws = vec![d0, d1];
            let first = generate_with(&groups, &draws).unwrap();
            let second = generate_with(&groups, &draws).unwrap();
            assert_eq!(first, second);
            assert_eq!(first.image.to_rgba(), second.image.to_rgba());
            assert_eq!(render_with(&groups, &draws), render_with(&groups, &draws));
        }
    }
}

#[test]
fn generate_with_follows_the_draws() {
    let groups = catalog();
    let made = generate_with(&groups, &vec![2, 1]).unwrap();
    assert_eq!(made.choices, vec![1, 1]);
    assert_eq!(made.traits[0].1, "Grass");
    assert_eq!(made.traits[1].1, "Cap");
    assert_eq!(made.image.sample(0), Some(red()));
    assert_eq!(made.image.sample(15), Some(green()));
}

#[test]
fn render_encodes_the_stacked_image_as_png() {
    let groups = catalog();
    let made = generate_with(&groups, &vec![0, 1]).unwrap();
    let png = render(&made).unwrap();
    assert_eq!(&png[..4], &[0x89, b'P', b'N', b'G']);
    assert_eq!(decode(&png), Ok(made.image.clone()));
    assert_eq!(render_with(&groups, &vec![0, 1]), Ok(png));
}

#[test]
fn render_of_nothing_fails_in_the_encoder() {
    assert_eq!(render_with(&Vec::new(), &Vec::new()), Err(GenerateError::Encoding));
    assert_eq!(gen_orbital(&Vec::new()), Err(GenerateError::Encoding));
}

#[test]
fn random_draws_are_below_each_total() {
    let groups = catalog();
    for _ in 0..200 {
        let draws = draw_all(&groups);
        assert_eq!(draws.len(), 2);
        assert!(draws[0] < 4);
        assert!(draws[1] < 2);
    }
}

#[test]
fn random_generation_depicts_its_choices() {
    let groups = catalog();
    for _ in 0..50 {
        let made = generate(&groups).unwrap();
        assert_eq!(made.choices.len(), 2);
        assert!(made.choices[0] < 2 && made.choices[1] < 2);
        let again = compose(&groups, made.choices.clone()).unwrap();
        assert_eq!(made, again);
    }
}

#[test]
fn gen_orbital_gives_a_png_of_canvas_size() {
    let groups = catalog();
    let png = gen_orbital(&groups).unwrap();
    let image = decode(&png).unwrap();
    assert_eq!((image.width(), image.height()), (4, 4));
    let corner = image.sample(15);
    assert!(corner == Some(blue()) || corner == Some(green()));
}

#[test]
fn single_option_catalog_always_generates_the_same_image() {
    let background =
        LayerGroup::new(String::from("Background"), vec![solid_option("Blue", 100, 100, blue(), 1)])
            .unwrap();
    let hat = LayerGroup::new(String::from("Hat"), vec![solid_option("Red", 100, 100, red(), 9)])
        .unwrap();
    let groups = vec![background, hat];
    let first = gen_orbital(&groups).unwrap();
    for _ in 0..5 {
        assert_eq!(gen_orbital(&groups).unwrap(), first);
    }
    assert_eq!(decode(&first), Ok(Raster::filled(100, 100, red()).unwrap()));
}

#[test]
fn selections_name_group_option_and_image() {
    let groups = catalog();
    let picks = selections_of(&groups, &vec![1, 0]);
    assert_eq!(picks.len(), 2);
    assert_eq!(picks[0].group, "Background");
    assert_eq!(picks[0].name, "Grass");
    assert_eq!(picks[0].image, &Raster::filled(4, 4, green()).unwrap());
    assert_eq!(picks[1].group, "Hat");
    assert_eq!(picks[1].name, "None");
}
