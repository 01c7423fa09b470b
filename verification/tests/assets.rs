use std::collections::HashMap;
use std::path::PathBuf;

use family_tree::assets::data::Rename;
use family_tree::assets::pane::{is_listed, listed_items};
use family_tree::assets::io::{
    asset_from_bytes, asset_from_media_types, classify_folder, index_new_files, new_key,
    DetectedAsset, FolderChoice,
};
use family_tree::assets::{
    Asset, AssetHandle, AssetKind, AssetPath, AssetsData, AssetsError, Character, Image, ViewMode,
};

fn png_bytes() -> Vec<u8> {
    vec![0x89, 0x50, 0x4E, 0x47, 0x0D, 0x0A, 0x1A, 0x0A, 0, 0, 0, 13, 0x49, 0x48, 0x44, 0x52]
}

fn image_asset() -> Asset {
    Asset::Image(Image::new(image::ImageFormat::Png, png_bytes()))
}

fn character_asset(name: &str, img: u32) -> Asset {
    Asset::Character(Character { name: name.to_string(), img: AssetHandle::from_id(img) })
}

fn store_with_folder() -> AssetsData {
    let mut data = AssetsData::new();
    data.set_folder(PathBuf::from("/tmp/tree"));
    data
}

#[test]
fn kind_folders_and_names() {
    assert_eq!(AssetKind::Image.folder(), "images");
    assert_eq!(AssetKind::Character.folder(), "characters");
    assert_eq!(AssetKind::all(), vec![AssetKind::Image, AssetKind::Character]);
    assert_eq!(AssetKind::folders(), vec!["images", "characters"]);
    assert_eq!(AssetKind::Image.to_string(), "image");
    assert_eq!(AssetKind::Character.to_string(), "character");
    assert_eq!(AssetKind::default(), AssetKind::Image);
    assert!(matches!(ViewMode::default(), ViewMode::Thumbnails));
}

#[test]
fn kind_from_str_ignores_case() {
    assert_eq!(AssetKind::from_str("IMAGES"), Ok(AssetKind::Image));
    assert_eq!(AssetKind::from_str("Image"), Ok(AssetKind::Image));
    assert_eq!(AssetKind::from_str("Characters"), Ok(AssetKind::Character));
    assert_eq!(AssetKind::from_str("character"), Ok(AssetKind::Character));
    assert_eq!(AssetKind::from_str("sounds"), Err(()));
    assert_eq!(AssetKind::from_str(""), Err(()));
    assert_eq!(AssetKind::try_from("CHARACTER"), Ok(AssetKind::Character));
}

#[test]
fn asset_path_parts() {
    let p = AssetPath::new(AssetKind::Image, "photo.old.png".to_string());
    assert_eq!(p.kind(), AssetKind::Image);
    assert_eq!(p.file_name(), "photo.old.png");
    assert_eq!(p.name(), "photo");
    assert_eq!(p.extension(), ".old.png");
    assert_eq!(p.to_string(), "images/photo.old.png");
    let q = AssetPath::new(AssetKind::Character, "ann".to_string());
    assert_eq!(q.name(), "ann");
    assert_eq!(q.extension(), "");
    assert_eq!(q.to_string(), "characters/ann");
    let r = AssetKind::Character.add("bob.chara.ron".to_string());
    assert_eq!(r.to_string(), "characters/bob.chara.ron");
    assert!(r.same_as(&AssetPath::new(AssetKind::Character, "bob.chara.ron".to_string())));
    assert!(!r.same_as(&q));
}

#[test]
fn asset_path_parses() {
    let p = AssetPath::try_from("Images/cat.png").unwrap();
    assert_eq!(p.kind(), AssetKind::Image);
    assert_eq!(p.file_name(), "cat.png");
    let q = AssetPath::try_from("characters/a/b").unwrap();
    assert_eq!(q.kind(), AssetKind::Character);
    assert_eq!(q.file_name(), "a");
    assert!(AssetPath::try_from("images").is_err());
    assert!(AssetPath::try_from("music/song.mp3").is_err());
    let r = AssetPath::try_from("images/").unwrap();
    assert_eq!(r.file_name(), "");
}

#[test]
fn new_key_takes_the_smallest_gap() {
    let mut map: HashMap<u32, &str> = HashMap::new();
    assert_eq!(new_key(&map), 0);
    map.insert(0, "a");
    map.insert(1, "b");
    map.insert(3, "d");
    assert_eq!(new_key(&map), 2);
    map.insert(2, "c");
    assert_eq!(new_key(&map), 4);
}

#[test]
fn add_needs_a_folder() {
    let mut data = AssetsData::new();
    let res = data.add("cat.png".to_string(), image_asset(), true);
    assert!(matches!(res, Err(AssetsError::NoFolderLoaded)));
    assert_eq!(data.num_handles(), 0);
}

#[test]
fn add_needs_the_file() {
    let mut data = store_with_folder();
    let res = data.add("cat.png".to_string(), image_asset(), false);
    assert!(matches!(res, Err(AssetsError::FileNotFound)));
    assert_eq!(data.num_handles(), 0);
}

#[test]
fn add_then_get() {
    let mut data = store_with_folder();
    let h = data.add("cat.png".to_string(), image_asset(), true).unwrap();
    assert_eq!(h.id(), 0);
    assert!(data.is(h, AssetKind::Image));
    assert!(!data.is(h, AssetKind::Character));
    assert_eq!(data.get_image(h).unwrap().as_bytes(), png_bytes().as_slice());
    assert!(data.get_character(h).is_none());
    assert_eq!(data.path(h).unwrap().to_string(), "images/cat.png");
    let c = data.add("ann.chara.ron".to_string(), character_asset("Ann", 0), true).unwrap();
    assert_eq!(c.id(), 1);
    let chara = data.get_character(c).unwrap();
    assert_eq!(chara.name, "Ann");
    assert_eq!(chara.img, h);
    assert!(data.get(AssetHandle::from_id(7)).is_none());
    assert!(data.path(AssetHandle::from_id(7)).is_none());
}

#[test]
fn add_over_an_existing_path_replaces_the_asset() {
    let mut data = store_with_folder();
    let a = data.add("ann.chara.ron".to_string(), character_asset("Ann", 0), true).unwrap();
    let b = data.add("ann.chara.ron".to_string(), character_asset("Anna", 0), true).unwrap();
    assert_ne!(a, b);
    assert_eq!(data.get_character(a).unwrap().name, "Anna");
    assert_eq!(data.get_character(b).unwrap().name, "Anna");
    assert_eq!(data.get_all_of_kind(AssetKind::Character).len(), 1);
}

#[test]
fn set_replaces_an_asset() {
    let mut data = store_with_folder();
    let c = data.add("ann.chara.ron".to_string(), character_asset("Ann", 0), true).unwrap();
    assert!(data.set(c, character_asset("Bea", 3)));
    assert_eq!(data.get_character(c).unwrap().name, "Bea");
    assert!(!data.set(AssetHandle::from_id(9), character_asset("X", 0)));
}

#[test]
fn handle_finds_the_path() {
    let mut data = store_with_folder();
    let h = data.add("cat.png".to_string(), image_asset(), true).unwrap();
    assert_eq!(data.handle(AssetPath::new(AssetKind::Image, "cat.png".to_string())), Some(h));
    assert_eq!(data.handle(AssetPath::new(AssetKind::Image, "dog.png".to_string())), None);
    assert!(data.contains_path(&AssetPath::new(AssetKind::Image, "cat.png".to_string())));
}

#[test]
fn iter_and_kinds() {
    let mut data = store_with_folder();
    let i = data.add("cat.png".to_string(), image_asset(), true).unwrap();
    let c = data.add("ann.chara.ron".to_string(), character_asset("Ann", 0), true).unwrap();
    let mut handles: Vec<u32> = data.iter().iter().map(|(h, _, _)| h.id()).collect();
    handles.sort();
    assert_eq!(handles, vec![i.id(), c.id()]);
    let images = data.get_all_of_kind(AssetKind::Image);
    assert_eq!(images.len(), 1);
    assert_eq!(images[0].0.file_name(), "cat.png");
    let characters = data.get_all_of_kind(AssetKind::Character);
    assert_eq!(characters.len(), 1);
    assert_eq!(characters[0].0.file_name(), "ann.chara.ron");
}

#[test]
fn rename_keeps_the_extension() {
    let mut data = store_with_folder();
    let h = data.add("cat.png".to_string(), image_asset(), true).unwrap();
    let plan: Rename = data.rename(h, "  kitten  ".to_string()).unwrap();
    assert_eq!(plan.from.to_string(), "images/cat.png");
    assert_eq!(plan.to.to_string(), "images/kitten.png");
    assert_eq!(data.path(h).unwrap().file_name(), "kitten.png");
    assert!(data.get(h).is_none());
    data.finish_rename(&plan);
    assert!(data.get_image(h).is_some());
    assert_eq!(data.handle(AssetPath::new(AssetKind::Image, "kitten.png".to_string())), Some(h));
}

#[test]
fn rename_does_not_double_the_extension() {
    let mut data = store_with_folder();
    let h = data.add("cat.png".to_string(), image_asset(), true).unwrap();
    let plan = data.rename(h, "tiger.png".to_string()).unwrap();
    assert_eq!(plan.to.file_name(), "tiger.png");
}

#[test]
fn rename_errors() {
    let mut data = store_with_folder();
    let h = data.add("cat.png".to_string(), image_asset(), true).unwrap();
    assert!(matches!(data.rename(AssetHandle::from_id(5), "x".to_string()), Err(AssetsError::InvalidAsset)));
    assert!(matches!(data.rename(h, "   ".to_string()), Err(AssetsError::InvalidFilename)));
    assert_eq!(data.path(h).unwrap().file_name(), "cat.png");
}

#[test]
fn load_takes_everything_or_keeps_the_failures() {
    let mut data = store_with_folder();
    let loaded = vec![
        (0u32, AssetPath::new(AssetKind::Image, "cat.png".to_string()), Ok(image_asset())),
        (3u32, AssetPath::new(AssetKind::Character, "ann.chara.ron".to_string()), Ok(character_asset("Ann", 0))),
    ];
    assert!(data.load(loaded).is_ok());
    assert_eq!(data.num_handles(), 2);
    assert!(data.is(AssetHandle::from_id(0), AssetKind::Image));
    assert_eq!(data.get_character(AssetHandle::from_id(3)).unwrap().name, "Ann");

    let broken = vec![
        (0u32, AssetPath::new(AssetKind::Image, "dog.png".to_string()), Ok(image_asset())),
        (1u32, AssetPath::new(AssetKind::Image, "bad.png".to_string()), Err(anyhow::Error::msg("unreadable"))),
    ];
    assert!(matches!(data.load(broken), Err(AssetsError::LoadPartiallyFailed)));
    assert_eq!(data.failed_loads().len(), 1);
    assert_eq!(data.failed_loads()[0].0.file_name(), "bad.png");
    assert_eq!(data.failed_loads()[0].1.to_string(), "unreadable");
    assert_eq!(data.num_handles(), 2);
    assert!(data.get_character(AssetHandle::from_id(3)).is_some());
}

#[test]
fn index_new_files_adds_unindexed_files() {
    let mut index: HashMap<u32, AssetPath> = HashMap::new();
    index.insert(1, AssetPath::new(AssetKind::Image, "cat.png".to_string()));
    let names = vec!["cat.png".to_string(), "dog.png".to_string(), "eel.png".to_string()];
    assert!(index_new_files(&mut index, AssetKind::Image, &names));
    assert_eq!(index.len(), 3);
    assert_eq!(index[&0].file_name(), "dog.png");
    assert_eq!(index[&2].file_name(), "eel.png");
    assert_eq!(index[&1].file_name(), "cat.png");
}

#[test]
fn index_new_files_leaves_a_full_index() {
    let mut index: HashMap<u32, AssetPath> = HashMap::new();
    index.insert(0, AssetPath::new(AssetKind::Image, "cat.png".to_string()));
    let names = vec!["dog.png".to_string()];
    assert!(!index_new_files(&mut index, AssetKind::Image, &names));
    assert_eq!(index.len(), 1);
    assert!(index_new_files(&mut index, AssetKind::Character, &names));
    assert_eq!(index[&1].to_string(), "characters/dog.png");
}

#[test]
fn folder_choice() {
    let with_data = vec![Some(("images".to_string(), true)), Some(("data.ron".to_string(), false))];
    assert_eq!(classify_folder(&with_data), FolderChoice::Load);
    let with_files = vec![Some(("images".to_string(), true)), Some(("notes.txt".to_string(), false))];
    assert_eq!(classify_folder(&with_files), FolderChoice::Confirm);
    let kinds_only = vec![Some(("Images".to_string(), true)), Some(("characters".to_string(), true))];
    assert_eq!(classify_folder(&kinds_only), FolderChoice::Nothing);
    let unreadable = vec![None];
    assert_eq!(classify_folder(&unreadable), FolderChoice::Confirm);
    let file_named_like_kind = vec![Some(("images".to_string(), false))];
    assert_eq!(classify_folder(&file_named_like_kind), FolderChoice::Confirm);
    assert_eq!(classify_folder(&Vec::new()), FolderChoice::Nothing);
}

#[test]
fn detects_an_image_from_its_media_types() {
    let res = asset_from_media_types(&["text/plain", "image/png"], png_bytes(), "cat.png").unwrap();
    match res {
        DetectedAsset::Image(img) => {
            assert_eq!(img.format(), image::ImageFormat::Png);
            assert_eq!(img.as_bytes(), png_bytes().as_slice());
        }
        _ => panic!("expected an image"),
    }
}

#[test]
fn image_media_type_without_format_falls_back() {
    let res = asset_from_media_types(&["image/svg+xml", "text/plain"], vec![1, 2], "a.chara.ron");
    assert!(matches!(res, Ok(DetectedAsset::CharacterRon(ref b)) if b == &vec![1u8, 2]));
    let res = asset_from_media_types(&["image/svg+xml"], vec![1, 2], "a.svg");
    assert!(matches!(res, Err(AssetsError::InvalidAsset)));
}

#[test]
fn detects_a_character_file() {
    let res = asset_from_media_types(&["text/plain"], b"(name: \"Ann\")".to_vec(), "ann.chara.ron");
    assert!(matches!(res, Ok(DetectedAsset::CharacterRon(_))));
    let res = asset_from_media_types(&["text/plain"], b"hello".to_vec(), "notes.txt");
    assert!(matches!(res, Err(AssetsError::InvalidAsset)));
    let res = asset_from_media_types(&[], b"hello".to_vec(), "x.chara.ron");
    assert!(matches!(res, Err(AssetsError::InvalidAsset)));
}

#[test]
fn detects_a_png_from_its_bytes() {
    let res = asset_from_bytes(png_bytes(), "cat.png").unwrap();
    match res {
        DetectedAsset::Image(img) => assert_eq!(img.format(), image::ImageFormat::Png),
        _ => panic!("expected an image"),
    }
}

#[test]
fn asset_kind_and_folder() {
    assert_eq!(image_asset().kind(), AssetKind::Image);
    assert_eq!(image_asset().folder(), "images");
    assert_eq!(character_asset("A", 0).kind(), AssetKind::Character);
    assert_eq!(character_asset("A", 0).folder(), "characters");
    let c = character_asset("A", 2).clone();
    assert!(matches!(c, Asset::Character(ref ch) if ch.name == "A" && ch.img.id() == 2));
}

#[test]
fn written_paths_read_back() {
    for kind in AssetKind::all() {
        let p = AssetPath::new(kind, "some file.v2.png".to_string());
        let q = AssetPath::try_from(p.to_string().as_str()).unwrap();
        assert!(p.same_as(&q));
    }
}

#[test]
fn kind_folders_parse_back() {
    for kind in AssetKind::all() {
        assert_eq!(AssetKind::from_str(kind.folder()), Ok(kind));
        assert_eq!(AssetKind::from_str(&kind.to_string()), Ok(kind));
    }
}

#[test]
fn pane_lists_by_kind_and_query() {
    let p = AssetPath::new(AssetKind::Image, "Cat.PNG".to_string());
    assert!(is_listed(&p, AssetKind::Image, ""));
    assert!(is_listed(&p, AssetKind::Image, "cAt"));
    assert!(is_listed(&p, AssetKind::Image, "images/cat"));
    assert!(!is_listed(&p, AssetKind::Image, "dog"));
    assert!(!is_listed(&p, AssetKind::Character, ""));
}

#[test]
fn rename_trims_the_name_and_keeps_the_extension() {
    let mut data = store_with_folder();
    let h = data.add("cat.png".to_string(), image_asset(), true).unwrap();
    let plan = data.rename(h, "  dog.png ".to_string()).unwrap();
    assert_eq!(plan.to.to_string(), "images/dog.png");
    assert_eq!(data.path(h).unwrap().to_string(), "images/dog.png");
    let plan = data.rename(h, "\u{3000}cat\t".to_string()).unwrap();
    assert_eq!(plan.to.to_string(), "images/cat.png");
}

#[test]
fn pane_items_are_listed_once_and_ordered_by_path() {
    let mut data = store_with_folder();
    let zebra = data.add("zebra.png".to_string(), image_asset(), true).unwrap();
    let ant = data.add("ant.png".to_string(), image_asset(), true).unwrap();
    let ann = data.add("ann.chara.ron".to_string(), character_asset("Ann", ant.id()), true).unwrap();
    let bob = data.add("bob.chara.ron".to_string(), character_asset("Bob", 42), true).unwrap();

    let images = listed_items(&data, AssetKind::Image, "");
    let handles: Vec<AssetHandle> = images.iter().map(|(h, _, _)| *h).collect();
    assert_eq!(handles, vec![ant, zebra]);

    // Bob's image handle leads nowhere, so Bob is not listed.
    let characters = listed_items(&data, AssetKind::Character, "");
    let handles: Vec<AssetHandle> = characters.iter().map(|(h, _, _)| *h).collect();
    assert_eq!(handles, vec![ann]);
    assert_ne!(handles, vec![ann, bob]);
    assert_eq!(characters[0].1.to_string(), "characters/ann.chara.ron");
    assert_eq!(characters[0].2.as_bytes(), png_bytes().as_slice());

    let found = listed_items(&data, AssetKind::Image, "ZEB");
    assert_eq!(found.len(), 1);
    assert_eq!(found[0].0, zebra);
}
