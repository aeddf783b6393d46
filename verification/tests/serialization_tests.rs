//! Reading and writing whole archives.

use std::io::{Cursor, Write};

use byteorder::{WriteBytesExt, LE};

use dungeondraft_pack::asset_pack::{has_pack_magic, AssetPack};
use dungeondraft_pack::error::{DocKind, PackError};
use dungeondraft_pack::file_meta_data::FileMetaData;
use dungeondraft_pack::godot_version::GodotVersion;

const TEST_PACK_META_JSON: &str = r#"
{
	"name": "example_pack",
	"id": "12345678",
	"version": "1",
	"author": "brass_phoenix",
	"custom_color_overrides": {
		"enabled": false,
		"min_redness": 0.1,
		"min_saturation": 0,
		"red_tolerance": 0.04
	}
}
"#;

const TEST_PACK_TAGS_JSON: &str = r#"
{
	"tags": {
		"MyTag": [
			"textures/objects/random.png"
		],
		"Colorable": [
			"textures/objects/sample_cauldron.png"
		]
	},
	"sets": {
		"Example Set": [
			"MyTag"
		]
	}
}
"#;

const TEST_PACK_FAKE_PNG: [u8; 10] = [0; 10];

fn write_file_meta(cursor: &mut Cursor<Vec<u8>>, path: &str, offset: i64, size: i64) {
    cursor.write_i32::<LE>(path.len() as i32).unwrap();
    cursor.write_all(path.as_bytes()).unwrap();
    cursor.write_i64::<LE>(offset).unwrap();
    cursor.write_i64::<LE>(size).unwrap();

    // md5 hash. Is actually unused in dungeondraft asset packs.
    cursor.write_all(&[0; 16]).unwrap();
}

fn create_raw_test_pack() -> Vec<u8> {
    let data: Vec<u8> = vec![];
    let mut cursor = Cursor::new(data);

    // Magic number indicating a Godot asset pack
    // "GDPC"
    let magic_num = [0x47, 0x44, 0x50, 0x43];
    cursor.write_all(&magic_num).unwrap();

    // Godot version
    cursor.write_i32::<LE>(1).unwrap(); // Version
    cursor.write_i32::<LE>(3).unwrap(); // Major
    cursor.write_i32::<LE>(2).unwrap(); // Minor
    cursor.write_i32::<LE>(4).unwrap(); // Revision

    // Reserved space
    cursor.write_all(&[0; 16 * 4]).unwrap();

    // Number of files
    cursor.write_i32::<LE>(5).unwrap();

    // For some reason Dungeondraft has two identical files in each pack.
    // One json file in the `packs` folder, and another in the `packs/<pack-id>` folder.
    write_file_meta(
        &mut cursor,
        "res://packs/12345678.json",
        468,
        TEST_PACK_META_JSON.len() as i64,
    );
    write_file_meta(
        &mut cursor,
        "res://packs/12345678/pack.json",
        683,
        TEST_PACK_META_JSON.len() as i64,
    );

    // Tag file
    write_file_meta(
        &mut cursor,
        "res://packs/12345678/data/default.dungeondraft_tags",
        898,
        TEST_PACK_TAGS_JSON.len() as i64,
    );

    // A random object file
    write_file_meta(
        &mut cursor,
        "res://packs/12345678/textures/objects/random.png",
        1080,
        TEST_PACK_FAKE_PNG.len() as i64,
    );

    // A random non-object file
    write_file_meta(
        &mut cursor,
        "res://packs/12345678/textures/portals/door.png",
        1090,
        TEST_PACK_FAKE_PNG.len() as i64,
    );

    // ---- File contents ----

    cursor.write_all(TEST_PACK_META_JSON.as_bytes()).unwrap();
    cursor.write_all(TEST_PACK_META_JSON.as_bytes()).unwrap();
    cursor.write_all(TEST_PACK_TAGS_JSON.as_bytes()).unwrap();
    cursor.write_all(&TEST_PACK_FAKE_PNG).unwrap();
    cursor.write_all(&TEST_PACK_FAKE_PNG).unwrap();

    cursor.into_inner()
}

#[test]
fn asset_pack_from_read_happy_flow() {
    let raw_pack = create_raw_test_pack();

    let pack = AssetPack::from_read(&raw_pack).unwrap();

    assert_eq!(pack.godot_version, GodotVersion::new(1, 3, 2, 4));
    assert_eq!(pack.meta.name, "example_pack");
    assert_eq!(pack.meta.id, "12345678");
    assert_eq!(pack.meta.author, "brass_phoenix");

    let color_overrides = pack.meta.custom_color_overrides.as_ref().unwrap();
    assert!(!color_overrides.enabled);
    assert_eq!(color_overrides.min_redness.parse::<f32>().unwrap(), 0.1);
    assert_eq!(color_overrides.min_saturation.parse::<f32>().unwrap(), 0.0);
    assert_eq!(color_overrides.red_tolerance.parse::<f32>().unwrap(), 0.04);

    assert!(pack.object_files.contains_key("textures/objects/random.png"));
    assert!(pack.other_files.contains_key("textures/portals/door.png"));

    let tags = &pack.tags.tags;

    assert_eq!(tags.len(), 2);
    assert!(tags.contains_key("MyTag"));
    assert!(tags.contains_key("Colorable"));
    assert_eq!(tags.get("MyTag").unwrap().len(), 1);
    assert_eq!(tags.get("Colorable").unwrap().len(), 1);
    assert!(tags.get("MyTag").unwrap().contains("textures/objects/random.png"));
    assert!(tags.get("Colorable").unwrap().contains("textures/objects/sample_cauldron.png"));

    let tag_sets = &pack.tags.sets;

    assert_eq!(tag_sets.len(), 1);
    assert!(tag_sets.contains_key("Example Set"));
    assert_eq!(tag_sets.get("Example Set").unwrap().len(), 1);
    assert!(tag_sets.get("Example Set").unwrap().contains("MyTag"));
}

#[test]
fn asset_pack_read_write_read_equivalence_check() {
    let raw_pack = create_raw_test_pack();

    let pack = AssetPack::from_read(&raw_pack).unwrap();

    let mut written_pack = vec![];
    pack.to_write(&mut written_pack).unwrap();

    let re_read_pack = AssetPack::from_read(&written_pack).unwrap();

    assert_eq!(pack.godot_version, re_read_pack.godot_version);
    assert_eq!(pack.meta, re_read_pack.meta);

    assert_eq!(pack.object_files.len(), re_read_pack.object_files.len());
    assert_eq!(pack.other_files.len(), re_read_pack.other_files.len());

    assert_eq!(pack.tags, re_read_pack.tags);
}

#[test]
fn packed_file_from_read() {
    let path = String::from("res://X3DLFK/test/bla.txt");
    let offset = 12;
    let size = 987;
    let md5 = [12; 16];

    let mut data = vec![];
    data.write_i32::<LE>(path.len() as i32).unwrap();
    data.write_all(path.as_bytes()).unwrap();
    data.write_i64::<LE>(offset).unwrap();
    data.write_i64::<LE>(size).unwrap();
    data.write_all(&md5).unwrap();

    let (file, _next) = FileMetaData::from_read(&data, 0).unwrap();

    assert_eq!(file.path, "test/bla.txt");
    assert_eq!(file.offset, offset as u64);
    assert_eq!(file.size, size as u64);
    assert_eq!(file.md5, md5.to_vec());
}

#[test]
fn asset_pack_packed_file_from_read() {
    let path = String::from("res://X3DLFK/test/bla.txt");
    let offset = 12;
    let size = 987;
    let md5 = [12; 16];

    let mut data = vec![];
    data.write_i32::<LE>(path.len() as i32).unwrap();
    data.write_all(path.as_bytes()).unwrap();
    data.write_i64::<LE>(offset).unwrap();
    data.write_i64::<LE>(size).unwrap();
    data.write_all(&md5).unwrap();

    let (file, _next) = FileMetaData::from_read(&data, 0).unwrap();

    assert_eq!(file.path, "test/bla.txt");
    assert_eq!(file.offset, offset as u64);
    assert_eq!(file.size, size as u64);
    assert_eq!(file.md5, md5.to_vec());
}

#[test]
fn truncated_stream_is_rejected() {
    let data: Vec<u8> = vec![0x47, 0x44, 0x50];
    match AssetPack::from_read(&data) {
        Err(PackError::Truncated) => {},
        other => panic!("expected a truncation error, got {:?}", other),
    }
}

#[test]
fn missing_metadata_document_is_rejected() {
    // a structurally valid archive with an empty directory
    let data: Vec<u8> = vec![];
    let mut cursor = Cursor::new(data);
    cursor.write_all(&[0x47, 0x44, 0x50, 0x43]).unwrap();
    cursor.write_i32::<LE>(1).unwrap();
    cursor.write_i32::<LE>(0).unwrap();
    cursor.write_i32::<LE>(0).unwrap();
    cursor.write_i32::<LE>(0).unwrap();
    cursor.write_all(&[0; 64]).unwrap();
    cursor.write_i32::<LE>(0).unwrap();
    let data = cursor.into_inner();
    match AssetPack::from_read(&data) {
        Err(PackError::MissingMeta) => {},
        other => panic!("expected a missing-metadata error, got {:?}", other),
    }
}

#[test]
fn malformed_metadata_surfaces_raw_text() {
    // the metadata document is UTF-8 but not valid JSON
    let bad_doc = "{ this is not json";
    let data: Vec<u8> = vec![];
    let mut cursor = Cursor::new(data);
    cursor.write_all(&[0x47, 0x44, 0x50, 0x43]).unwrap();
    cursor.write_i32::<LE>(1).unwrap();
    cursor.write_i32::<LE>(0).unwrap();
    cursor.write_i32::<LE>(0).unwrap();
    cursor.write_i32::<LE>(0).unwrap();
    cursor.write_all(&[0; 64]).unwrap();
    cursor.write_i32::<LE>(1).unwrap();
    write_file_meta(&mut cursor, "res://packs/abc.json", 0, bad_doc.len() as i64);
    cursor.write_all(bad_doc.as_bytes()).unwrap();
    let data = cursor.into_inner();
    match AssetPack::from_read(&data) {
        Err(PackError::Schema { doc, raw }) => {
            assert_eq!(doc, DocKind::PackMetaDoc);
            assert_eq!(raw, bad_doc);
        },
        other => panic!("expected a schema error, got {:?}", other),
    }
}

#[test]
fn non_utf8_path_is_rejected() {
    let data: Vec<u8> = vec![];
    let mut cursor = Cursor::new(data);
    cursor.write_all(&[0x47, 0x44, 0x50, 0x43]).unwrap();
    cursor.write_i32::<LE>(1).unwrap();
    cursor.write_i32::<LE>(0).unwrap();
    cursor.write_i32::<LE>(0).unwrap();
    cursor.write_i32::<LE>(0).unwrap();
    cursor.write_all(&[0; 64]).unwrap();
    cursor.write_i32::<LE>(1).unwrap();
    cursor.write_i32::<LE>(2).unwrap();
    cursor.write_all(&[0xff, 0xfe]).unwrap();
    cursor.write_i64::<LE>(0).unwrap();
    cursor.write_i64::<LE>(0).unwrap();
    cursor.write_all(&[0; 16]).unwrap();
    let data = cursor.into_inner();
    match AssetPack::from_read(&data) {
        Err(PackError::Encoding) => {},
        other => panic!("expected an encoding error, got {:?}", other),
    }
}

#[test]
fn missing_tag_index_defaults_to_empty() {
    // an archive holding only the metadata document: no tag entries
    let doc = r#"{"name":"p","id":"abc","version":"1","author":"a"}"#;
    let data: Vec<u8> = vec![];
    let mut cursor = Cursor::new(data);
    cursor.write_all(&[0x47, 0x44, 0x50, 0x43]).unwrap();
    cursor.write_i32::<LE>(1).unwrap();
    cursor.write_i32::<LE>(0).unwrap();
    cursor.write_i32::<LE>(0).unwrap();
    cursor.write_i32::<LE>(0).unwrap();
    cursor.write_all(&[0; 64]).unwrap();
    cursor.write_i32::<LE>(1).unwrap();
    write_file_meta(&mut cursor, "res://packs/abc.json", 0, doc.len() as i64);
    cursor.write_all(doc.as_bytes()).unwrap();
    let data = cursor.into_inner();
    let pack = AssetPack::from_read(&data).unwrap();
    assert_eq!(pack.tags.tags.len(), 0);
    assert_eq!(pack.tags.sets.len(), 0);
    assert_eq!(pack.meta.id, "abc");
    assert!(pack.meta.custom_color_overrides.is_none());
}

#[test]
fn magic_marker_is_tolerated_but_reported() {
    let mut raw_pack = create_raw_test_pack();
    assert!(has_pack_magic(&raw_pack));
    // damage the marker: reading still succeeds
    raw_pack[0] = 0x58;
    assert!(!has_pack_magic(&raw_pack));
    let pack = AssetPack::from_read(&raw_pack).unwrap();
    assert_eq!(pack.meta.name, "example_pack");
}

#[test]
fn written_archive_layout_is_exact() {
    // one object file, no color overrides: check the header bytes
    let raw = create_raw_test_pack();
    let pack = AssetPack::from_read(&raw).unwrap();
    let mut out = vec![];
    pack.to_write(&mut out).unwrap();
    assert_eq!(&out[0..4], &[0x47, 0x44, 0x50, 0x43]);
    // version record 1.3.2.4, little-endian
    assert_eq!(&out[4..8], &[1, 0, 0, 0]);
    assert_eq!(&out[8..12], &[3, 0, 0, 0]);
    assert_eq!(&out[12..16], &[2, 0, 0, 0]);
    assert_eq!(&out[16..20], &[4, 0, 0, 0]);
    // reserved region zeroed
    assert_eq!(&out[20..84], &[0u8; 64][..]);
    // five files: the two metadata copies, the tag index, two payloads
    assert_eq!(&out[84..88], &[5, 0, 0, 0]);
}
