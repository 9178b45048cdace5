use lance::error::Error;
use lance::fragment::{DataFile, DeletionFile, Fragment, LanceFileVersion, RowIdMeta};
use lance::manifest::{
    is_detached_version, DataStorageFormat, Manifest, UtcTimestamp, VersionPart, WriterVersion,
    FLAG_MOVE_STABLE_ROW_IDS,
};
use lance::schema::{Field, Schema, StorageClass};
use lance::strmap::StrMap;

fn field(name: &str, id: i32, class: StorageClass) -> Field {
    Field {
        name: name.to_string(),
        id,
        parent_id: -1,
        logical_type: "int64".to_string(),
        nullable: false,
        storage_class: class,
        metadata: StrMap::new(),
    }
}

fn one_field_schema() -> Schema {
    Schema { fields: vec![field("a", 0, StorageClass::Default)], metadata: StrMap::new() }
}

fn three_fragments() -> Vec<Fragment> {
    vec![
        Fragment::with_file_legacy(0, "path1", vec![0], Some(10)),
        Fragment::with_file_legacy(1, "path2", vec![0], Some(15)),
        Fragment::with_file_legacy(2, "path3", vec![0], Some(20)),
    ]
}

#[test]
fn test_writer_version() {
    let wv = WriterVersion::default();
    assert_eq!(wv.library, "lance");
    let parts = wv.semver().unwrap();
    assert_eq!(parts, (0, 1, 0, None));
    assert_eq!(format!("{}.{}.{}", parts.0, parts.1, parts.2), "0.1.0");
    for part in &[VersionPart::Major, VersionPart::Minor, VersionPart::Patch] {
        let bumped = wv.bump(*part, false);
        let bumped_parts = bumped.semver_or_panic();
        assert!(wv.older_than(bumped_parts.0, bumped_parts.1, bumped_parts.2));
    }
}

#[test]
fn test_fragments_by_offset_range() {
    let manifest = Manifest::new(one_field_schema(), three_fragments(), DataStorageFormat::default(), None);

    let actual = manifest.fragments_by_offset_range(0..10);
    assert_eq!(actual.len(), 1);
    assert_eq!(actual[0].0, 0);
    assert_eq!(actual[0].1.id, 0);

    let actual = manifest.fragments_by_offset_range(5..15);
    assert_eq!(actual.len(), 2);
    assert_eq!(actual[0].0, 0);
    assert_eq!(actual[0].1.id, 0);
    assert_eq!(actual[1].0, 10);
    assert_eq!(actual[1].1.id, 1);

    let actual = manifest.fragments_by_offset_range(15..50);
    assert_eq!(actual.len(), 2);
    assert_eq!(actual[0].0, 10);
    assert_eq!(actual[0].1.id, 1);
    assert_eq!(actual[1].0, 25);
    assert_eq!(actual[1].1.id, 2);

    // Out of range
    let actual = manifest.fragments_by_offset_range(45..100);
    assert!(actual.is_empty());

    assert!(manifest.fragments_by_offset_range(200..400).is_empty());
}

#[test]
fn test_max_field_id() {
    let schema = Schema {
        fields: vec![field("a", 0, StorageClass::Default), field("b", 2, StorageClass::Default)],
        metadata: StrMap::new(),
    };
    let fragments = vec![
        Fragment {
            id: 0,
            files: vec![DataFile::new_legacy_from_fields("path1", vec![0, 1, 2])],
            deletion_file: None,
            row_id_meta: None,
            physical_rows: None,
        },
        Fragment {
            id: 1,
            files: vec![
                DataFile::new_legacy_from_fields("path2", vec![0, 1, 43]),
                DataFile::new_legacy_from_fields("path3", vec![2]),
            ],
            deletion_file: None,
            row_id_meta: None,
            physical_rows: None,
        },
    ];
    let manifest = Manifest::new(schema, fragments, DataStorageFormat::default(), None);
    assert_eq!(manifest.max_field_id(), 43);
}

fn config_pairs(m: &StrMap) -> Vec<(String, String)> {
    let mut out = Vec::new();
    for i in 0..m.len() {
        let (k, v) = m.entry(i);
        out.push((k.clone(), v.clone()));
    }
    out.sort();
    out
}

#[test]
fn test_config() {
    let mut manifest = Manifest::new(one_field_schema(), three_fragments(), DataStorageFormat::default(), None);

    let mut config = config_pairs(&manifest.config);
    config.push(("lance.test".to_string(), "value".to_string()));
    config.push(("other-key".to_string(), "other-value".to_string()));

    manifest.update_config(config.clone());
    config.sort();
    assert_eq!(config_pairs(&manifest.config), config.clone());

    config.retain(|(k, _)| k != "other-key");
    manifest.delete_config_keys(&["other-key".to_string()]);
    assert_eq!(config_pairs(&manifest.config), config);
}

#[test]
fn offsets_are_prefix_sums() {
    let manifest = Manifest::new(one_field_schema(), three_fragments(), DataStorageFormat::default(), None);
    assert_eq!(manifest.fragment_offsets(), &vec![0, 10, 25, 45]);
}

#[test]
fn offset_lookup_skips_empty_fragments() {
    let fragments = vec![
        Fragment::with_file_legacy(0, "path_a", vec![0], Some(10)),
        Fragment::with_file_legacy(1, "path_b", vec![0], Some(0)),
        Fragment::with_file_legacy(2, "path_c", vec![0], Some(5)),
    ];
    let manifest = Manifest::new(one_field_schema(), fragments, DataStorageFormat::default(), None);
    let actual = manifest.fragments_by_offset_range(10..12);
    assert_eq!(actual.len(), 1);
    assert_eq!(actual[0].0, 10);
    assert_eq!(actual[0].1.id, 2);
}

#[test]
fn local_schema_drops_blob_fields() {
    let schema = Schema {
        fields: vec![field("a", 0, StorageClass::Default), field("blob", 1, StorageClass::Blob)],
        metadata: StrMap::new(),
    };
    let manifest = Manifest::new(schema, vec![], DataStorageFormat::default(), None);
    assert_eq!(manifest.local_schema.fields.len(), 1);
    assert_eq!(manifest.local_schema.fields[0].name, "a");
    assert_eq!(manifest.schema.fields.len(), 2);
}

#[test]
fn max_fragment_id_is_a_high_water_mark() {
    let mut manifest = Manifest::new(one_field_schema(), three_fragments(), DataStorageFormat::default(), None);
    assert_eq!(manifest.max_fragment_id, None);
    assert_eq!(manifest.max_fragment_id(), Some(2));
    manifest.update_max_fragment_id();
    assert_eq!(manifest.max_fragment_id, Some(2));
    let next = Manifest::new_from_previous(&manifest, one_field_schema(), vec![], None);
    let mut next = next;
    next.update_max_fragment_id();
    assert_eq!(next.max_fragment_id, Some(2));
    assert_eq!(next.max_fragment_id(), Some(2));
    assert_eq!(next.version, 2);
}

#[test]
fn fragments_since_requires_an_older_manifest() {
    let first = Manifest::new(one_field_schema(), three_fragments()[..2].to_vec(), DataStorageFormat::default(), None);
    let same = Manifest::new(one_field_schema(), three_fragments(), DataStorageFormat::default(), None);
    assert!(matches!(same.fragments_since(&first), Err(Error::Io(_))));

    let second = Manifest::new_from_previous(&first, one_field_schema(), three_fragments(), None);
    let added = second.fragments_since(&first).unwrap();
    assert_eq!(added.len(), 1);
    assert_eq!(added[0].id, 2);
}

#[test]
fn new_from_previous_inherits_and_resets() {
    let mut first = Manifest::new(one_field_schema(), three_fragments(), DataStorageFormat::default(), Some(7));
    first.set_timestamp(5);
    first.next_row_id = 45;
    first.update_config(vec![("k".to_string(), "v".to_string())]);
    let second = Manifest::new_from_previous(&first, one_field_schema(), three_fragments(), None);
    assert_eq!(second.version, 2);
    assert_eq!(second.blob_dataset_version, Some(7));
    assert_eq!(second.timestamp_nanos, 0);
    assert_eq!(second.next_row_id, 45);
    assert_eq!(second.config.get(&"k".to_string()), Some(&"v".to_string()));
    let third = Manifest::new_from_previous(&second, one_field_schema(), vec![], Some(9));
    assert_eq!(third.blob_dataset_version, Some(9));
}

#[test]
fn replace_field_metadata_needs_a_known_field() {
    let mut manifest = Manifest::new(one_field_schema(), vec![], DataStorageFormat::default(), None);
    let mut md = StrMap::new();
    md.insert("k".to_string(), "v".to_string());
    assert!(manifest.replace_field_metadata(0, md.duplicate()).is_ok());
    assert_eq!(manifest.schema.fields[0].metadata.get(&"k".to_string()), Some(&"v".to_string()));
    assert!(matches!(manifest.replace_field_metadata(5, md), Err(Error::InvalidInput(_))));
}

#[test]
fn flags_and_formats() {
    let mut manifest = Manifest::new(one_field_schema(), vec![], DataStorageFormat::new(LanceFileVersion::Legacy), None);
    assert!(manifest.should_use_legacy_format());
    assert!(!manifest.uses_move_stable_row_ids());
    manifest.reader_feature_flags = FLAG_MOVE_STABLE_ROW_IDS;
    assert!(manifest.uses_move_stable_row_ids());
    assert!(is_detached_version(0x8000_0000_0000_0001));
    assert!(!is_detached_version(5));
    assert_eq!(DataStorageFormat::default().version, "2.0");
}

#[test]
fn timestamp_splits_seconds_and_nanos() {
    let mut manifest = Manifest::new(one_field_schema(), vec![], DataStorageFormat::default(), None);
    manifest.set_timestamp(1_500_000_000_250);
    assert_eq!(manifest.timestamp(), UtcTimestamp { seconds: 1500, nanos: 250 });
    manifest.set_timestamp(8_210_266_876_799 * 1_000_000_000 + 7);
    assert_eq!(manifest.timestamp(), UtcTimestamp { seconds: 8_210_266_876_799, nanos: 7 });
    manifest.set_timestamp(8_210_266_876_800 * 1_000_000_000);
    assert_eq!(manifest.timestamp(), UtcTimestamp { seconds: 0, nanos: 0 });
    manifest.set_timestamp(u128::MAX);
    let t = manifest.timestamp();
    assert!(t == UtcTimestamp { seconds: 0, nanos: 0 } || t.nanos < 1_000_000_000);
}

#[test]
fn semver_parsing() {
    let v = WriterVersion { library: "lance".to_string(), version: "1.2.3.beta.x".to_string() };
    assert_eq!(v.semver(), Some((1, 2, 3, Some("beta".to_string()))));
    let short = WriterVersion { library: "lance".to_string(), version: "4".to_string() };
    assert_eq!(short.semver(), Some((4, 0, 0, None)));
    let bad = WriterVersion { library: "lance".to_string(), version: "x.1.2".to_string() };
    assert_eq!(bad.semver(), None);
    let big = WriterVersion { library: "lance".to_string(), version: "4294967296.0.0".to_string() };
    assert_eq!(big.semver(), None);
}

#[test]
fn bump_keeps_later_parts() {
    let v = WriterVersion { library: "lance".to_string(), version: "1.2.3.rc".to_string() };
    assert_eq!(v.bump(VersionPart::Minor, false).version, "1.3.3");
    assert_eq!(v.bump(VersionPart::Major, true).version, "2.2.3.rc");
    assert_eq!(v.bump(VersionPart::Patch, true).version, "1.2.4.rc");
    assert_eq!(v.bump(VersionPart::Patch, true).library, "lance");
}

#[test]
fn older_than_orders_triples() {
    let v = WriterVersion { library: "lance".to_string(), version: "1.2.3".to_string() };
    assert!(v.older_than(1, 2, 4));
    assert!(v.older_than(1, 3, 0));
    assert!(v.older_than(2, 0, 0));
    assert!(!v.older_than(1, 2, 3));
    assert!(!v.older_than(1, 2, 2));
    assert!(!v.older_than(0, 9, 9));
}

fn rich_manifest() -> Manifest {
    let mut md = StrMap::new();
    md.insert("owner".to_string(), "me".to_string());
    let mut f0 = field("a", 0, StorageClass::Default);
    f0.metadata = md.duplicate();
    let schema = Schema {
        fields: vec![f0, field("blob", 1, StorageClass::Blob), field("child", 2, StorageClass::Default)],
        metadata: md,
    };
    let mut fragments = three_fragments();
    fragments[1].deletion_file = Some(DeletionFile { read_version: 3, id: 4, num_deleted_rows: 5 });
    fragments[2].row_id_meta = Some(RowIdMeta { sequence: vec![1, 2, 3] });
    fragments[2].files[0].fields = vec![0, -1, 2];
    let mut m = Manifest::new(schema, fragments, DataStorageFormat::default(), Some(11));
    m.set_timestamp(1_700_000_000_123_456_789);
    m.tag = Some("release".to_string());
    m.index_section = Some(0);
    m.max_fragment_id = Some(2);
    m.transaction_file = Some("tx/1.txn".to_string());
    m.next_row_id = 40;
    m.writer_feature_flags = 8;
    m.update_config(vec![("lance.test".to_string(), "value".to_string())]);
    m
}

#[test]
fn manifest_round_trip() {
    let m = rich_manifest();
    let bytes = m.serialized();
    let back = Manifest::from_serialized(&bytes).unwrap();
    assert_eq!(back.version, m.version);
    assert_eq!(back.timestamp_nanos, m.timestamp_nanos);
    assert_eq!(back.tag, m.tag);
    assert_eq!(back.index_section, Some(0));
    assert_eq!(back.max_fragment_id, Some(2));
    assert_eq!(back.transaction_file, m.transaction_file);
    assert_eq!(back.next_row_id, 40);
    assert_eq!(back.writer_feature_flags, 8);
    assert_eq!(back.blob_dataset_version, Some(11));
    assert_eq!(back.fragments.len(), 3);
    assert_eq!(back.fragments[1].deletion_file, Some(DeletionFile { read_version: 3, id: 4, num_deleted_rows: 5 }));
    assert_eq!(back.fragments[2].row_id_meta.as_ref().unwrap().sequence, vec![1, 2, 3]);
    assert_eq!(back.fragments[2].files[0].fields, vec![0, -1, 2]);
    assert_eq!(back.schema.fields.len(), 3);
    assert_eq!(back.local_schema.fields.len(), 2);
    assert_eq!(back.schema.fields[1].storage_class, StorageClass::Blob);
    assert_eq!(back.schema.fields[0].metadata.get(&"owner".to_string()), Some(&"me".to_string()));
    assert_eq!(back.config.get(&"lance.test".to_string()), Some(&"value".to_string()));
    assert_eq!(back.fragment_offsets(), m.fragment_offsets());
    let wv = back.writer_version.as_ref().unwrap();
    assert_eq!(wv.library, "lance");
    assert_eq!(back.data_storage_format.version, "2.0");
    assert_eq!(back.serialized(), bytes);
}

#[test]
fn empty_tag_reads_back_as_none() {
    let mut m = Manifest::new(one_field_schema(), vec![], DataStorageFormat::default(), Some(0));
    m.tag = None;
    let back = Manifest::from_serialized(&m.serialized()).unwrap();
    assert_eq!(back.tag, None);
    assert_eq!(back.transaction_file, None);
    assert_eq!(back.blob_dataset_version, None);
    assert_eq!(back.timestamp_nanos, 0);
}

#[test]
fn decode_rejects_missing_row_ids() {
    let mut m = Manifest::new(one_field_schema(), three_fragments(), DataStorageFormat::default(), None);
    m.reader_feature_flags = FLAG_MOVE_STABLE_ROW_IDS;
    let bytes = m.serialized();
    match Manifest::from_serialized(&bytes) {
        Err(Error::Internal(msg)) => assert_eq!(msg, "All fragments must have row ids"),
        _ => panic!("expected an internal error"),
    }
}

#[test]
fn decode_rejects_garbage() {
    assert!(matches!(Manifest::from_serialized(&[0xff]), Err(Error::InvalidInput(_))));
    assert!(matches!(Manifest::from_serialized(&[0x0a, 0x05, 0x01]), Err(Error::InvalidInput(_))));
}

#[test]
fn decode_infers_a_missing_format() {
    // An empty message: no fragments and no writer flags give the legacy format.
    let back = Manifest::from_serialized(&[]).unwrap();
    assert_eq!(back.data_storage_format.version, "0.1");
    assert_eq!(back.data_storage_format.file_format, "lance");
    assert!(back.writer_version.is_none());
    // Writer flag 4 alone gives the second storage version.
    let back = Manifest::from_serialized(&[0x50, 0x04]).unwrap();
    assert_eq!(back.data_storage_format.version, "2.0");
}

#[test]
fn writer_version_needs_both_parts() {
    // An empty writer-version message.
    let back = Manifest::from_serialized(&[0x6a, 0x00]).unwrap();
    assert!(back.writer_version.is_none());
    // A library without a version.
    let back = Manifest::from_serialized(&[0x6a, 0x07, 0x0a, 0x05, b'l', b'a', b'n', b'c', b'e']).unwrap();
    assert!(back.writer_version.is_none());
    // Both parts set.
    let back = Manifest::from_serialized(&[0x6a, 0x0a, 0x0a, 0x05, b'l', b'a', b'n', b'c', b'e', 0x12, 0x01, b'1']).unwrap();
    let wv = back.writer_version.unwrap();
    assert_eq!(wv.library, "lance");
    assert_eq!(wv.version, "1");
}

#[test]
fn storage_version_names() {
    assert_eq!(DataStorageFormat::new(LanceFileVersion::Legacy).lance_file_version().unwrap(), LanceFileVersion::Legacy);
    assert_eq!(DataStorageFormat::default().lance_file_version().unwrap(), LanceFileVersion::V2_0);
    assert_eq!(DataStorageFormat::new(LanceFileVersion::V2_1).lance_file_version().unwrap(), LanceFileVersion::V2_1);
    let bad = DataStorageFormat { file_format: "lance".to_string(), version: "9.9".to_string() };
    assert!(matches!(bad.lance_file_version(), Err(Error::InvalidInput(_))));
}

#[test]
fn mutators_leave_the_rest_unchanged() {
    let mut m = rich_manifest();
    let before = m.serialized();
    let mut md = StrMap::new();
    md.insert("x".to_string(), "y".to_string());
    assert!(m.replace_field_metadata(99, md).is_err());
    assert_eq!(m.serialized(), before);
    m.delete_config_keys(&["absent".to_string()]);
    assert_eq!(m.serialized(), before);
}

#[test]
fn offset_lookup_drops_empty_fragments_inside_the_range() {
    let fragments = vec![
        Fragment::with_file_legacy(0, "path_a", vec![0], Some(10)),
        Fragment::with_file_legacy(1, "path_b", vec![0], Some(0)),
        Fragment::with_file_legacy(2, "path_c", vec![0], Some(15)),
    ];
    let manifest = Manifest::new(one_field_schema(), fragments, DataStorageFormat::default(), None);
    let actual = manifest.fragments_by_offset_range(5..20);
    assert_eq!(actual.len(), 2);
    assert_eq!((actual[0].0, actual[0].1.id), (0, 0));
    assert_eq!((actual[1].0, actual[1].1.id), (10, 2));
    assert!(manifest.fragments_by_offset_range(25..30).is_empty());
}
