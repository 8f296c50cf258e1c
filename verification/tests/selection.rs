use orbitalz::layer::{sum_weights, GroupError, LayerGroup, LayerOption};
use orbitalz::pixel::Pixel;
use orbitalz::raster::Raster;
use orbitalz::selector::{draw, pick, select};

fn dot() -> Raster {
    Raster::filled(1, 1, Pixel::new(1, 2, 3, 255)).unwrap()
}

fn weighted_group(weights: &[u32]) -> LayerGroup {
    let mut options = Vec::new();
    for (i, w) in weights.iter().enumerate() {
        options.push(LayerOption::weighted(format!("option-{}", i), dot(), *w));
    }
    LayerGroup::new(String::from("Group"), options).unwrap()
}

#[test]
fn new_option_has_default_weight() {
    let option = LayerOption::new(String::from("Red"), dot());
    assert_eq!(option.weight, 1);
    assert_eq!(option.name, "Red");
    assert_eq!(option.image, dot());
}

#[test]
fn weighted_option_keeps_its_weight() {
    let option = LayerOption::weighted(String::from("Gold"), dot(), 7);
    assert_eq!(option.weight, 7);
    assert_eq!(option.name, "Gold");
}

#[test]
fn group_without_options_is_refused() {
    assert_eq!(LayerGroup::new(String::from("Hat"), Vec::new()), Err(GroupError::Empty));
}

#[test]
fn group_without_weight_is_refused() {
    let options = vec![
        LayerOption::weighted(String::from("a"), dot(), 0),
        LayerOption::weighted(String::from("b"), dot(), 0),
    ];
    assert_eq!(LayerGroup::new(String::from("Hat"), options), Err(GroupError::Weightless));
}

#[test]
fn new_group_keeps_name_and_options_at_rank_zero() {
    let group = weighted_group(&[3, 4]);
    assert_eq!(group.name(), "Group");
    assert_eq!(group.rank(), 0);
    assert_eq!(group.options().len(), 2);
    assert_eq!(group.options()[1].name, "option-1");
    assert_eq!(group.options()[1].weight, 4);
}

#[test]
fn ranked_changes_only_the_rank() {
    let group = weighted_group(&[3, 4]);
    let moved = group.clone().ranked(5);
    assert_eq!(moved.rank(), 5);
    assert_eq!(moved.name(), group.name());
    assert_eq!(moved.options(), group.options());
}

#[test]
fn total_weight_adds_all_weights() {
    assert_eq!(weighted_group(&[1, 1, 1]).total_weight(), 3);
    assert_eq!(weighted_group(&[2, 0, 3]).total_weight(), 5);
    assert_eq!(weighted_group(&[u32::MAX, u32::MAX, 2]).total_weight(), 2 * (u32::MAX as u128) + 2);
}

#[test]
fn sum_weights_of_nothing_is_zero() {
    assert_eq!(sum_weights(&Vec::new()), 0);
}

#[test]
fn equal_weights_give_each_option_one_draw() {
    let group = weighted_group(&[1, 1, 1]);
    assert_eq!(pick(&group, 0), 0);
    assert_eq!(pick(&group, 1), 1);
    assert_eq!(pick(&group, 2), 2);
}

#[test]
fn pick_walks_cumulative_weights() {
    let group = weighted_group(&[2, 5, 3]);
    let picks: Vec<usize> = (0..10).map(|d| pick(&group, d)).collect();
    assert_eq!(picks, vec![0, 0, 1, 1, 1, 1, 1, 2, 2, 2]);
}

#[test]
fn pick_passes_over_weightless_options() {
    let group = weighted_group(&[0, 2, 0, 3, 0]);
    let picks: Vec<usize> = (0..5).map(|d| pick(&group, d)).collect();
    assert_eq!(picks, vec![1, 1, 3, 3, 3]);
}

#[test]
fn pick_handles_weights_beyond_64_bits_in_total() {
    let group = weighted_group(&[u32::MAX, u32::MAX, u32::MAX]);
    let one = u32::MAX as u128;
    assert_eq!(pick(&group, one - 1), 0);
    assert_eq!(pick(&group, one), 1);
    assert_eq!(pick(&group, 3 * one - 1), 2);
}

#[test]
fn single_option_is_always_picked() {
    let group = weighted_group(&[4]);
    for d in 0..4 {
        assert_eq!(pick(&group, d), 0);
    }
    for _ in 0..200 {
        assert_eq!(select(&group), 0);
    }
}

#[test]
fn draw_stays_below_total_weight() {
    let group = weighted_group(&[2, 5, 3]);
    for _ in 0..500 {
        assert!(draw(&group) < 10);
    }
}

#[test]
fn select_never_returns_a_weightless_option() {
    let group = weighted_group(&[0, 1, 0, 1]);
    for _ in 0..500 {
        let i = select(&group);
        assert!(i == 1 || i == 3);
    }
}

#[test]
fn equal_weights_are_drawn_equally_often() {
    let group = weighted_group(&[1, 1, 1]);
    let rounds = 30_000;
    let mut seen = [0u32; 3];
    for _ in 0..rounds {
        seen[select(&group)] += 1;
    }
    for count in seen {
        let share = count as f64 / rounds as f64;
        assert!((share - 1.0 / 3.0).abs() < 0.03, "share {}", share);
    }
}

#[test]
fn unequal_weights_are_drawn_in_proportion() {
    let group = weighted_group(&[1, 3]);
    let rounds = 30_000;
    let mut heavy = 0u32;
    for _ in 0..rounds {
        if select(&group) == 1 {
            heavy += 1;
        }
    }
    let share = heavy as f64 / rounds as f64;
    assert!((share - 0.75).abs() < 0.03, "share {}", share);
}

#[test]
fn groups_compare_by_rank_alone() {
    let low = weighted_group(&[9, 9]).ranked(1);
    let high = weighted_group(&[1]).ranked(2);
    assert!(low.stacks_below(&high));
    assert!(!high.stacks_below(&low));
    assert!(!low.stacks_below(&low.clone()));
}
