use std::path::PathBuf;

use family_tree::assets::{Asset, AssetHandle, AssetsData, Character, Image};
use family_tree::inspector::{
    Edit, EditCharacter, EditImage, Inspector, InspectorMessage, InspectorTask,
};

fn chara(name: &str, img: u32) -> Asset {
    Asset::Character(Character { name: name.to_string(), img: AssetHandle::from_id(img) })
}

fn name_of(asset: &Asset) -> String {
    match asset {
        Asset::Character(c) => c.name.clone(),
        Asset::Image(_) => String::new(),
    }
}

fn rename(name: &str) -> InspectorMessage {
    InspectorMessage::UpdateTempAsset(Edit::Character(EditCharacter::Name(name.to_string())))
}

fn setup() -> (AssetsData, AssetHandle, Inspector) {
    let mut assets = AssetsData::new();
    assets.set_folder(PathBuf::from("/tmp/tree"));
    let h = assets.add("ann.chara.ron".to_string(), chara("Ann", 5), true).unwrap();
    let mut inspector = Inspector::new();
    let task = inspector.update(&mut assets, InspectorMessage::SetCurrent(h, false));
    assert!(matches!(task, InspectorTask::Nothing));
    (assets, h, inspector)
}

#[test]
fn apply_and_invert_twice_restores() {
    let mut asset = chara("Ann", 1);
    let mut edit = Edit::Character(EditCharacter::Name("Bea".to_string()));
    edit.apply_and_invert(&mut asset);
    assert_eq!(name_of(&asset), "Bea");
    assert!(matches!(edit, Edit::Character(EditCharacter::Name(ref n)) if n == "Ann"));
    edit.apply_and_invert(&mut asset);
    assert_eq!(name_of(&asset), "Ann");
    assert!(matches!(edit, Edit::Character(EditCharacter::Name(ref n)) if n == "Bea"));
}

#[test]
fn image_edits_change_the_picture() {
    let mut asset = chara("Ann", 1);
    let mut edit = Edit::Character(EditCharacter::Image(AssetHandle::from_id(9)));
    edit.apply_and_invert(&mut asset);
    assert!(matches!(asset, Asset::Character(ref c) if c.img.id() == 9));
    assert!(matches!(edit, Edit::Character(EditCharacter::Image(h)) if h.id() == 1));
}

#[test]
fn character_edits_leave_images_alone() {
    let mut asset = Asset::Image(Image::new(image::ImageFormat::Png, vec![1, 2, 3]));
    let mut edit = Edit::Character(EditCharacter::Name("Bea".to_string()));
    edit.apply_and_invert(&mut asset);
    assert!(matches!(edit, Edit::Character(EditCharacter::Name(ref n)) if n == "Bea"));
    let mut image_edit = Edit::Image(EditImage);
    let mut c = chara("Ann", 1);
    image_edit.apply_and_invert(&mut c);
    assert_eq!(name_of(&c), "Ann");
}

#[test]
fn shows_a_copy_of_the_asset() {
    let (_, h, inspector) = setup();
    assert_eq!(inspector.current(), Some(h));
    assert_eq!(name_of(inspector.temp_asset().unwrap()), "Ann");
    assert!(!inspector.can_undo());
    assert!(!inspector.can_redo());
    assert!(!inspector.has_pending_edits());
}

#[test]
fn undo_and_redo() {
    let (mut assets, _, mut inspector) = setup();
    inspector.update(&mut assets, rename("Bea"));
    inspector.update(&mut assets, rename("Cleo"));
    assert_eq!(name_of(inspector.temp_asset().unwrap()), "Cleo");
    assert!(inspector.can_undo());
    inspector.update(&mut assets, InspectorMessage::Undo);
    assert_eq!(name_of(inspector.temp_asset().unwrap()), "Bea");
    assert!(inspector.can_redo());
    inspector.update(&mut assets, InspectorMessage::Undo);
    assert_eq!(name_of(inspector.temp_asset().unwrap()), "Ann");
    assert!(!inspector.can_undo());
    inspector.update(&mut assets, InspectorMessage::Undo);
    assert_eq!(name_of(inspector.temp_asset().unwrap()), "Ann");
    inspector.update(&mut assets, InspectorMessage::Redo);
    inspector.update(&mut assets, InspectorMessage::Redo);
    assert_eq!(name_of(inspector.temp_asset().unwrap()), "Cleo");
    assert!(!inspector.can_redo());
}

#[test]
fn a_new_edit_drops_the_redo_history() {
    let (mut assets, _, mut inspector) = setup();
    inspector.update(&mut assets, rename("Bea"));
    inspector.update(&mut assets, rename("Cleo"));
    inspector.update(&mut assets, InspectorMessage::Undo);
    inspector.update(&mut assets, rename("Dora"));
    assert!(!inspector.can_redo());
    inspector.update(&mut assets, InspectorMessage::Undo);
    assert_eq!(name_of(inspector.temp_asset().unwrap()), "Bea");
}

#[test]
fn apply_writes_the_copy_back() {
    let (mut assets, h, mut inspector) = setup();
    inspector.update(&mut assets, rename("Bea"));
    assert!(inspector.has_pending_edits());
    assert_eq!(assets.get_character(h).unwrap().name, "Ann");
    let task = inspector.update(&mut assets, InspectorMessage::Apply);
    assert!(matches!(task, InspectorTask::Nothing));
    assert_eq!(assets.get_character(h).unwrap().name, "Bea");
    assert!(!inspector.has_pending_edits());
}

#[test]
fn done_applies_and_leaves_edit_mode() {
    let (mut assets, h, mut inspector) = setup();
    inspector.update(&mut assets, InspectorMessage::EnterEditMode);
    assert!(inspector.is_editing());
    inspector.update(&mut assets, rename("Bea"));
    let task = inspector.update(&mut assets, InspectorMessage::Done);
    assert!(matches!(task, InspectorTask::Done(InspectorMessage::ExitEditMode)));
    assert_eq!(assets.get_character(h).unwrap().name, "Bea");
    inspector.update(&mut assets, InspectorMessage::ExitEditMode);
    assert!(!inspector.is_editing());
}

#[test]
fn revert_and_cancel_ask_for_more() {
    let (mut assets, h, mut inspector) = setup();
    let task = inspector.update(&mut assets, InspectorMessage::Revert);
    assert!(matches!(task, InspectorTask::Done(InspectorMessage::SetCurrent(c, true)) if c == h));
    let task = inspector.update(&mut assets, InspectorMessage::Cancel);
    match task {
        InspectorTask::Batch(v) => {
            assert_eq!(v.len(), 2);
            assert!(matches!(v[0], InspectorMessage::Revert));
            assert!(matches!(v[1], InspectorMessage::ExitEditMode));
        }
        _ => panic!("expected a batch"),
    }
    let mut empty = Inspector::new();
    let task = empty.update(&mut assets, InspectorMessage::Revert);
    assert!(matches!(task, InspectorTask::Nothing));
}

#[test]
fn revert_shows_the_stored_asset_again() {
    let (mut assets, h, mut inspector) = setup();
    inspector.update(&mut assets, rename("Bea"));
    inspector.update(&mut assets, InspectorMessage::SetCurrent(h, true));
    assert_eq!(name_of(inspector.temp_asset().unwrap()), "Ann");
    assert!(!inspector.has_pending_edits());
    assert!(!inspector.can_undo());
}

#[test]
fn pin_keeps_the_shown_asset() {
    let (mut assets, h, mut inspector) = setup();
    let other = assets.add("bob.chara.ron".to_string(), chara("Bob", 5), true).unwrap();
    inspector.update(&mut assets, InspectorMessage::SetPinned(true));
    assert!(inspector.is_pinned());
    inspector.update(&mut assets, InspectorMessage::SetCurrent(other, false));
    assert_eq!(inspector.current(), Some(h));
    inspector.update(&mut assets, InspectorMessage::SetCurrent(other, true));
    assert_eq!(inspector.current(), Some(other));
    assert_eq!(name_of(inspector.temp_asset().unwrap()), "Bob");
}

#[test]
fn another_asset_clears_the_history() {
    let (mut assets, _, mut inspector) = setup();
    let other = assets.add("bob.chara.ron".to_string(), chara("Bob", 5), true).unwrap();
    inspector.update(&mut assets, rename("Bea"));
    inspector.update(&mut assets, InspectorMessage::SetCurrent(other, false));
    assert!(!inspector.can_redo());
    assert!(inspector.can_set_current(&assets, other, false));
}

#[test]
fn missing_asset_is_not_shown() {
    let (mut assets, h, mut inspector) = setup();
    inspector.update(&mut assets, InspectorMessage::SetCurrent(AssetHandle::from_id(42), true));
    assert_eq!(inspector.current(), Some(h));
}

#[test]
fn history_past_its_end_cannot_be_reapplied() {
    let (mut assets, h, mut inspector) = setup();
    inspector.update(&mut assets, rename("B"));
    inspector.update(&mut assets, rename("C"));
    inspector.update(&mut assets, rename("D"));
    inspector.update(&mut assets, InspectorMessage::Apply);
    inspector.update(&mut assets, InspectorMessage::Undo);
    inspector.update(&mut assets, InspectorMessage::Undo);
    inspector.update(&mut assets, rename("E"));
    // three edits applied, but the history now holds two
    assert!(!inspector.can_set_current(&assets, h, true));
    assert!(inspector.can_set_current(&assets, AssetHandle::from_id(42), true));
}

#[test]
fn revert_keeps_the_history_in_step() {
    let (mut assets, h, mut inspector) = setup();
    inspector.update(&mut assets, rename("Bea"));
    inspector.update(&mut assets, rename("Cleo"));
    inspector.update(&mut assets, InspectorMessage::Apply);
    inspector.update(&mut assets, InspectorMessage::Undo);
    inspector.update(&mut assets, InspectorMessage::Undo);
    assert_eq!(name_of(inspector.temp_asset().unwrap()), "Ann");
    inspector.update(&mut assets, InspectorMessage::SetCurrent(h, true));
    assert_eq!(name_of(inspector.temp_asset().unwrap()), "Cleo");
    assert!(!inspector.has_pending_edits());
    inspector.update(&mut assets, InspectorMessage::Undo);
    assert_eq!(name_of(inspector.temp_asset().unwrap()), "Bea");
    inspector.update(&mut assets, InspectorMessage::Undo);
    assert_eq!(name_of(inspector.temp_asset().unwrap()), "Ann");
    inspector.update(&mut assets, InspectorMessage::Redo);
    inspector.update(&mut assets, InspectorMessage::Redo);
    assert_eq!(name_of(inspector.temp_asset().unwrap()), "Cleo");
}

#[test]
fn revert_after_redoing_past_the_applied_edit() {
    let (mut assets, h, mut inspector) = setup();
    inspector.update(&mut assets, rename("Bea"));
    inspector.update(&mut assets, InspectorMessage::Apply);
    inspector.update(&mut assets, rename("Cleo"));
    inspector.update(&mut assets, rename("Dora"));
    inspector.update(&mut assets, InspectorMessage::SetCurrent(h, true));
    assert_eq!(name_of(inspector.temp_asset().unwrap()), "Bea");
    assert!(inspector.can_redo());
    inspector.update(&mut assets, InspectorMessage::Redo);
    assert_eq!(name_of(inspector.temp_asset().unwrap()), "Cleo");
    inspector.update(&mut assets, InspectorMessage::Redo);
    assert_eq!(name_of(inspector.temp_asset().unwrap()), "Dora");
    inspector.update(&mut assets, InspectorMessage::Undo);
    inspector.update(&mut assets, InspectorMessage::Undo);
    inspector.update(&mut assets, InspectorMessage::Undo);
    assert_eq!(name_of(inspector.temp_asset().unwrap()), "Ann");
}
