//! Path classification and tag cleaning.

use dungeondraft_pack::asset_pack::AssetPack;
use dungeondraft_pack::containers::{FileStore, NameList};
use dungeondraft_pack::godot_version::GodotVersion;
use dungeondraft_pack::pack_meta::{ColorOverrides, PackMeta};
use dungeondraft_pack::path_utils::{is_objects_file, is_pack_file, is_root_json_file,
    is_tags_file};
use dungeondraft_pack::tags::Tags;
use dungeondraft_pack::utils::read_string;

fn new_empty_pack() -> AssetPack {
    AssetPack {
        godot_version: GodotVersion::new(0, 0, 0, 0),
        meta: PackMeta {
            name: "".to_string(),
            id: "".to_string(),
            version: "".to_string(),
            author: "".to_string(),
            custom_color_overrides: Some(ColorOverrides {
                enabled: false,
                min_redness: "0.0".to_string(),
                min_saturation: "0.0".to_string(),
                red_tolerance: "0.0".to_string(),
            }),
        },
        tags: Tags::new(),
        object_files: FileStore::new(),
        other_files: FileStore::new(),
    }
}

#[test]
fn test_is_root_json_file() {
    assert!(is_root_json_file("8UWKyQPf.json"));
    assert!(!is_root_json_file("bla/8UWKyQPf.json"));
    assert!(!is_root_json_file("8UWKyQPf.txt"));
}

#[test]
fn asset_pack_test_is_root_json_file() {
    assert!(is_root_json_file("8UWKyQPf.json"));
    assert!(!is_root_json_file("bla/8UWKyQPf.json"));
    assert!(!is_root_json_file("8UWKyQPf.txt"));
}

#[test]
fn classification_of_well_known_paths() {
    assert!(is_pack_file("pack.json"));
    assert!(is_pack_file("sub/pack.json"));
    assert!(!is_pack_file("xpack.json"));
    assert!(is_tags_file("data/default.dungeondraft_tags"));
    assert!(is_tags_file("nested/data/default.dungeondraft_tags"));
    assert!(!is_tags_file("data/other.dungeondraft_tags"));
    assert!(is_objects_file("textures/objects/rock.png"));
    assert!(!is_objects_file("textures/walls/rock.png"));
}

#[test]
fn test_clean_tags() {
    let rock_file = "textures/objects/rock.png".to_string();

    let mut pack = new_empty_pack();

    let mut rocks = NameList::new();
    rocks.insert(rock_file.clone());
    rocks.insert("does_not_exist.jpg".to_string());
    pack.tags.tags.insert("rocks".to_string(), rocks);
    pack.tags.tags.insert("empty".to_string(), NameList::new());

    pack.tags.sets.insert("empty".to_string(), NameList::new());
    let mut will_be_empty = NameList::new();
    will_be_empty.insert("empty".to_string());
    pack.tags.sets.insert("will_be_empty".to_string(), will_be_empty);
    let mut loses_one_tag = NameList::new();
    loses_one_tag.insert("rocks".to_string());
    loses_one_tag.insert("empty".to_string());
    pack.tags.sets.insert("loses_one_tag".to_string(), loses_one_tag);

    pack.object_files.insert(rock_file.clone(), vec![]);

    pack.clean_tags();

    assert!(!pack.tags.tags.contains_key("empty"));
    assert!(pack.tags.tags.contains_key("rocks"));
    let rock_tags = pack.get_files_in_tag("rocks").unwrap();

    assert_eq!(rock_tags.len(), 1);
    assert!(rock_tags.contains(&rock_file));

    assert_eq!(pack.tags.sets.len(), 1);
    assert!(pack.tags.sets.contains_key("loses_one_tag"));

    let one_tag_set = pack.tags.sets.get("loses_one_tag").unwrap();
    assert_eq!(one_tag_set.len(), 1);
    assert!(one_tag_set.contains("rocks"));
}

#[test]
fn cleaning_twice_equals_cleaning_once() {
    let rock_file = "textures/objects/rock.png".to_string();

    let mut pack = new_empty_pack();
    let mut rocks = NameList::new();
    rocks.insert(rock_file.clone());
    rocks.insert("gone.png".to_string());
    pack.tags.tags.insert("rocks".to_string(), rocks);
    let mut one = NameList::new();
    one.insert("rocks".to_string());
    one.insert("nothing".to_string());
    pack.tags.sets.insert("one".to_string(), one);
    pack.object_files.insert(rock_file.clone(), vec![1, 2, 3]);

    pack.clean_tags();
    let once = pack.tags.clone();

    pack.clean_tags();
    assert_eq!(pack.tags, once);
}

#[test]
fn read_string_decodes_utf8() {
    let data: Vec<u8> = vec![0x61, 0x62, 0xc3, 0xa9];
    let (s, next) = read_string(&data, 0, 4).unwrap();
    assert_eq!(s, "ab\u{e9}");
    assert_eq!(next, 4);
    assert!(read_string(&data, 2, 1).is_err());
    assert!(read_string(&data, 0, 5).is_err());
}
