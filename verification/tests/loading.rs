use orbitalz::codec::encode_png;
use orbitalz::loader::{
    load_catalog, load_group, load_groups, load_option, trait_name, CatalogError, GroupDir,
    GroupFault, LayerFile, LoadError,
};
use orbitalz::ordering::OrderingError;
use orbitalz::pixel::Pixel;
use orbitalz::raster::Raster;

fn picture(shade: u8) -> Raster {
    Raster::filled(3, 2, Pixel::new(shade, shade, shade, 255)).unwrap()
}

fn png_file(file_name: &str, shade: u8) -> LayerFile {
    LayerFile { file_name: String::from(file_name), bytes: encode_png(&picture(shade)).unwrap() }
}

fn junk_file(file_name: &str) -> LayerFile {
    LayerFile { file_name: String::from(file_name), bytes: b"not an image".to_vec() }
}

fn dir(name: &str, files: Vec<LayerFile>) -> GroupDir {
    GroupDir { name: String::from(name), files }
}

fn list(items: &[&str]) -> Vec<String> {
    items.iter().map(|s| String::from(*s)).collect()
}

#[test]
fn trait_name_strips_the_extension() {
    assert_eq!(trait_name(&String::from("Red Cap.png")), "Red Cap");
    assert_eq!(trait_name(&String::from("archive.tar.gz")), "archive.tar");
    assert_eq!(trait_name(&String::from("trailing.")), "trailing");
}

#[test]
fn trait_name_keeps_names_without_extension() {
    assert_eq!(trait_name(&String::from("plain")), "plain");
    assert_eq!(trait_name(&String::from(".hidden")), ".hidden");
    assert_eq!(trait_name(&String::from("")), "");
    assert_eq!(trait_name(&String::from(".")), ".");
}

#[test]
fn trait_name_counts_characters_not_bytes() {
    assert_eq!(trait_name(&String::from("ch\u{e2}teau.png")), "ch\u{e2}teau");
    assert_eq!(trait_name(&String::from("\u{1f3a9}.webp")), "\u{1f3a9}");
}

#[test]
fn load_option_decodes_and_names() {
    let option = load_option(&png_file("Grey.png", 77)).unwrap();
    assert_eq!(option.name, "Grey");
    assert_eq!(option.weight, 1);
    assert_eq!(option.image, picture(77));
}

#[test]
fn load_option_refuses_what_is_no_image() {
    assert_eq!(load_option(&junk_file("notes.txt")), None);
}

#[test]
fn load_group_takes_every_file_in_order() {
    let group = load_group(&dir("Hat", vec![png_file("a.png", 1), png_file("b.png", 2)])).unwrap();
    assert_eq!(group.name(), "Hat");
    assert_eq!(group.rank(), 0);
    assert_eq!(group.options().len(), 2);
    assert_eq!(group.options()[0].name, "a");
    assert_eq!(group.options()[1].name, "b");
    assert_eq!(group.options()[1].image, picture(2));
    assert_eq!(group.total_weight(), 2);
}

#[test]
fn load_group_refuses_an_empty_directory() {
    assert_eq!(load_group(&dir("Hat", Vec::new())), Err(GroupFault::Empty));
}

#[test]
fn load_group_names_the_first_bad_file() {
    let files = vec![png_file("a.png", 1), junk_file("b.png"), junk_file("c.png")];
    assert_eq!(load_group(&dir("Hat", files)), Err(GroupFault::Undecodable { file: 1 }));
}

#[test]
fn load_groups_keeps_listing_order_and_skips_other_directories() {
    let dirs = vec![
        dir("Hat", vec![png_file("cap.png", 1)]),
        dir("scratch", vec![junk_file("notes.txt")]),
        dir("Background", vec![png_file("sky.png", 2), png_file("sea.png", 3)]),
    ];
    let groups = load_groups(&dirs, &list(&["Background", "Hat"])).unwrap();
    assert_eq!(groups.len(), 2);
    assert_eq!(groups[0].name(), "Hat");
    assert_eq!(groups[1].name(), "Background");
    assert_eq!(groups[1].options()[1].name, "sea");
}

#[test]
fn missing_directories_fail_loading() {
    let dirs = vec![
        dir("Background", vec![png_file("blue.png", 1)]),
        dir("Hat", vec![png_file("red.png", 2)]),
    ];
    let order = list(&["Background", "Orbital", "Eyes", "Nose", "Mouth", "Hat"]);
    assert_eq!(load_groups(&dirs, &order), Err(CatalogError::MissingGroup { position: 1 }));
    assert_eq!(
        load_catalog(Some(dirs), &order),
        Err(LoadError::Catalog(CatalogError::MissingGroup { position: 1 }))
    );
}

#[test]
fn missing_directory_is_reported_before_bad_files() {
    let dirs = vec![dir("Background", vec![junk_file("x.png")])];
    let out = load_groups(&dirs, &list(&["Background", "Hat"]));
    assert_eq!(out, Err(CatalogError::MissingGroup { position: 1 }));
}

#[test]
fn empty_wanted_directory_fails_loading() {
    let dirs = vec![dir("Background", vec![png_file("blue.png", 1)]), dir("Hat", Vec::new())];
    let out = load_groups(&dirs, &list(&["Background", "Hat"]));
    assert_eq!(out, Err(CatalogError::EmptyGroup { directory: 1 }));
}

#[test]
fn undecodable_file_fails_loading() {
    let dirs = vec![
        dir("other", Vec::new()),
        dir("Background", vec![png_file("blue.png", 1), junk_file("readme.md")]),
    ];
    let out = load_groups(&dirs, &list(&["Background"]));
    assert_eq!(out, Err(CatalogError::Undecodable { directory: 1, file: 1 }));
}

#[test]
fn unreadable_root_fails_loading() {
    assert_eq!(
        load_catalog(None, &list(&["Background"])),
        Err(LoadError::Catalog(CatalogError::RootUnreadable))
    );
}

#[test]
fn catalog_comes_out_ranked_and_sorted() {
    let dirs = vec![
        dir("Hat", vec![png_file("cap.png", 1)]),
        dir("Eyes", vec![png_file("wide.png", 2), png_file("shut.png", 3)]),
        dir("Background", vec![png_file("sky.png", 4)]),
    ];
    let order = list(&["Background", "Eyes", "Hat"]);
    let catalog = load_catalog(Some(dirs), &order).unwrap();
    assert_eq!(catalog.len(), 3);
    for (i, group) in catalog.iter().enumerate() {
        assert_eq!(group.rank(), i);
        assert_eq!(group.name(), &order[i]);
    }
    assert_eq!(catalog[1].options().len(), 2);
    assert_eq!(catalog[1].options()[0].name, "wide");
    assert_eq!(catalog[2].options()[0].image, picture(1));
}

#[test]
fn repeated_name_in_order_fails_after_loading() {
    let dirs = vec![dir("A", vec![png_file("a.png", 1)])];
    assert_eq!(
        load_catalog(Some(dirs), &list(&["A", "A"])),
        Err(LoadError::Order(OrderingError::DuplicateName { position: 1 }))
    );
}

#[test]
fn two_directories_of_one_name_fail_after_loading() {
    let dirs = vec![dir("A", vec![png_file("a.png", 1)]), dir("A", vec![png_file("b.png", 2)])];
    assert_eq!(
        load_catalog(Some(dirs), &list(&["A"])),
        Err(LoadError::Order(OrderingError::DuplicateGroup { group: 1 }))
    );
}

#[test]
fn empty_order_gives_empty_catalog() {
    let dirs = vec![dir("stray", Vec::new())];
    assert_eq!(load_catalog(Some(dirs), &Vec::new()), Ok(Vec::new()));
}
