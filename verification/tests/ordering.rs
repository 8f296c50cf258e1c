use orbitalz::layer::{LayerGroup, LayerOption};
use orbitalz::ordering::{order_groups, OrderingError};
use orbitalz::pixel::Pixel;
use orbitalz::raster::Raster;

fn named_group(name: &str, shade: u8) -> LayerGroup {
    let image = Raster::filled(1, 1, Pixel::new(shade, shade, shade, 255)).unwrap();
    let option = LayerOption::new(format!("{}-{}", name, shade), image);
    LayerGroup::new(String::from(name), vec![option]).unwrap()
}

fn names(list: &[&str]) -> Vec<String> {
    list.iter().map(|s| String::from(*s)).collect()
}

#[test]
fn groups_come_out_in_list_order() {
    let groups = vec![named_group("Hat", 1), named_group("Background", 2), named_group("Eyes", 3)];
    let order = names(&["Background", "Eyes", "Hat"]);
    let sorted = order_groups(groups.clone(), &order).unwrap();
    assert_eq!(sorted.len(), groups.len());
    for (i, group) in sorted.iter().enumerate() {
        assert_eq!(group.rank(), i);
        assert_eq!(group.name(), &order[i]);
    }
    assert_eq!(sorted[0].options(), groups[1].options());
    assert_eq!(sorted[1].options(), groups[2].options());
    assert_eq!(sorted[2].options(), groups[0].options());
}

#[test]
fn six_groups_get_ranks_zero_to_five() {
    let order = names(&["Background", "Orbital", "Eyes", "Nose", "Mouth", "Hat"]);
    let groups = vec![
        named_group("Mouth", 4),
        named_group("Hat", 5),
        named_group("Orbital", 1),
        named_group("Background", 0),
        named_group("Nose", 3),
        named_group("Eyes", 2),
    ];
    let sorted = order_groups(groups, &order).unwrap();
    let ranks: Vec<usize> = sorted.iter().map(|g| g.rank()).collect();
    assert_eq!(ranks, vec![0, 1, 2, 3, 4, 5]);
    let shades: Vec<u8> = sorted.iter().map(|g| g.options()[0].image.sample(0).unwrap().r).collect();
    assert_eq!(shades, vec![0, 1, 2, 3, 4, 5]);
}

#[test]
fn already_sorted_groups_stay_in_place() {
    let groups = vec![named_group("A", 1), named_group("B", 2)];
    let sorted = order_groups(groups.clone(), &names(&["A", "B"])).unwrap();
    assert_eq!(sorted[0], groups[0].clone().ranked(0));
    assert_eq!(sorted[1], groups[1].clone().ranked(1));
}

#[test]
fn nothing_orders_to_nothing() {
    assert_eq!(order_groups(Vec::new(), &Vec::new()), Ok(Vec::new()));
}

#[test]
fn repeated_list_entry_is_refused() {
    let groups = vec![named_group("A", 1), named_group("B", 2)];
    let out = order_groups(groups, &names(&["A", "B", "A"]));
    assert_eq!(out, Err(OrderingError::DuplicateName { position: 2 }));
}

#[test]
fn group_absent_from_list_is_refused() {
    let groups = vec![named_group("A", 1), named_group("Extra", 2), named_group("B", 3)];
    let out = order_groups(groups, &names(&["A", "B"]));
    assert_eq!(out, Err(OrderingError::UnlistedGroup { group: 1 }));
}

#[test]
fn repeated_group_name_is_refused() {
    let groups = vec![named_group("A", 1), named_group("B", 2), named_group("A", 3)];
    let out = order_groups(groups, &names(&["A", "B"]));
    assert_eq!(out, Err(OrderingError::DuplicateGroup { group: 2 }));
}

#[test]
fn list_entry_without_group_is_refused() {
    let groups = vec![named_group("A", 1), named_group("C", 2)];
    let out = order_groups(groups, &names(&["A", "B", "C"]));
    assert_eq!(out, Err(OrderingError::MissingGroup { position: 1 }));
}

#[test]
fn repeated_list_entry_is_reported_before_other_faults() {
    let groups = vec![named_group("Extra", 1)];
    let out = order_groups(groups, &names(&["A", "A"]));
    assert_eq!(out, Err(OrderingError::DuplicateName { position: 1 }));
}

#[test]
fn names_are_compared_exactly() {
    let groups = vec![named_group("hat", 1)];
    let out = order_groups(groups, &names(&["Hat"]));
    assert_eq!(out, Err(OrderingError::UnlistedGroup { group: 0 }));
}
