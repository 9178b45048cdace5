use lance::archive::{
    archive_file_name, archive_file_version, archive_versions, archives_to_delete, from_inverted_version,
    to_inverted_version, ManifestSummary, VersionArchive, VersionArchiveConfig, VersionSummary,
};
use lance::catalog::{cached_table_is_stale, check_params_valid, is_lance_url};
use lance::error::Error;
use lance::statistics::{calculate_data_stats, calculate_data_stats_checked};
use lance::strmap::StrMap;

fn create_test_version_summary(version: u64) -> VersionSummary {
    VersionSummary {
        version,
        timestamp_millis: version as i64 * 1000,
        manifest_summary: ManifestSummary {
            total_fragments: version,
            total_data_files: version,
            total_files_size: version * 100,
            total_deletion_files: 0,
            total_data_file_rows: version * 100,
            total_deletion_file_rows: 0,
            total_rows: version * 100,
        },
        is_tagged: false,
        is_cleaned_up: false,
        transaction_uuid: None,
        read_version: None,
        operation_type: None,
        transaction_properties: StrMap::new(),
    }
}

fn new_archive(config: VersionArchiveConfig) -> VersionArchive {
    VersionArchive::load_or_new_from("test".to_string(), config, &vec![])
}

#[test]
fn test_version_inversion() {
    assert_eq!(from_inverted_version(to_inverted_version(1)), 1);
    assert_eq!(from_inverted_version(to_inverted_version(100)), 100);
    assert_eq!(from_inverted_version(to_inverted_version(u64::MAX)), u64::MAX);
    assert!(to_inverted_version(1) > to_inverted_version(2));
}

#[test]
fn test_config_from_config() {
    let mut config = StrMap::new();
    config.insert("lance.version_archive.enabled".to_string(), "false".to_string());
    config.insert("lance.version_archive.max_entries".to_string(), "100".to_string());
    config.insert("lance.version_archive.max_archive_files".to_string(), "5".to_string());

    let archive_config = VersionArchiveConfig::from_config(&config);
    assert!(!archive_config.enabled);
    assert_eq!(archive_config.max_entries, 100);
    assert_eq!(archive_config.max_archive_files, 5);
}

#[test]
fn test_config_from_config_defaults() {
    let config = StrMap::new();
    let archive_config = VersionArchiveConfig::from_config(&config);
    assert!(archive_config.enabled);
    assert_eq!(archive_config.max_entries, 10000);
    assert_eq!(archive_config.max_archive_files, 2);
}

#[test]
fn invalid_config_values_fall_back() {
    let mut config = StrMap::new();
    config.insert("lance.version_archive.enabled".to_string(), "yes".to_string());
    config.insert("lance.version_archive.max_entries".to_string(), "-3".to_string());
    config.insert("lance.version_archive.max_archive_files".to_string(), "+7".to_string());
    let archive_config = VersionArchiveConfig::from_config(&config);
    assert!(archive_config.enabled);
    assert_eq!(archive_config.max_entries, 10000);
    assert_eq!(archive_config.max_archive_files, 7);
}

#[test]
fn test_archive_load_or_new_empty() {
    let archive = new_archive(VersionArchiveConfig::default());
    assert!(archive.versions.is_empty());
    assert_eq!(archive.latest_version(), 0);
}

#[test]
fn test_archive_add_summaries_and_flush() {
    let mut archive = new_archive(VersionArchiveConfig::default());
    assert!(archive.is_enabled(), "Archive should be enabled by default");
    archive.add_summaries(&[create_test_version_summary(1), create_test_version_summary(2)]);
    let written = archive.prepare_flush();
    assert!(written.is_some());
    assert_eq!(archive.versions.len(), 2);
    assert_eq!(archive.latest_version(), 2);
    assert_eq!(archive.dataset_created_millis, 1000);

    let disabled = new_archive(VersionArchiveConfig { enabled: false, ..Default::default() });
    assert!(!disabled.is_enabled(), "Archive should be disabled when enabled=false");
}

#[test]
fn test_archive_truncation() {
    let mut archive = new_archive(VersionArchiveConfig { max_entries: 2, ..Default::default() });
    archive.add_summaries(&[
        create_test_version_summary(1),
        create_test_version_summary(2),
        create_test_version_summary(3),
    ]);
    archive.prepare_flush().unwrap();
    assert_eq!(archive.versions.len(), 2);
    assert_eq!(archive.versions[0].version, 2);
    assert_eq!(archive.versions[1].version, 3);
    assert_eq!(archive.latest_version(), 3);
}

#[test]
fn test_add_summaries_empty() {
    let mut archive = new_archive(VersionArchiveConfig::default());
    archive.add_summaries(&[]);
    assert!(archive.prepare_flush().is_none());
    let loaded = VersionArchive::load_or_new_from("test".to_string(), VersionArchiveConfig::default(), &vec![]);
    assert!(loaded.versions.is_empty());
}

#[test]
fn test_add_summaries_sorts_by_version() {
    let mut archive = new_archive(VersionArchiveConfig::default());
    archive.add_summaries(&[
        create_test_version_summary(3),
        create_test_version_summary(1),
        create_test_version_summary(2),
    ]);
    let (_, bytes) = archive.prepare_flush().unwrap();
    let loaded = VersionArchive::load_or_new_from("test".to_string(), VersionArchiveConfig::default(), &vec![Some(bytes)]);
    assert_eq!(loaded.versions.len(), 3);
    assert_eq!(loaded.versions[0].version, 1);
    assert_eq!(loaded.versions[1].version, 2);
    assert_eq!(loaded.versions[2].version, 3);
}

#[test]
fn test_archive_load_existing() {
    let mut archive = new_archive(VersionArchiveConfig::default());
    let mut summary = create_test_version_summary(2);
    summary.is_tagged = true;
    summary.is_cleaned_up = true;
    summary.transaction_uuid = Some("uuid-1".to_string());
    summary.read_version = Some(1);
    summary.transaction_properties.insert("k".to_string(), "v".to_string());
    archive.add_summaries(&[summary]);
    let (name, bytes) = archive.prepare_flush().unwrap();
    assert_eq!(name, archive_file_name(2));
    let loaded = VersionArchive::load_or_new_from("test".to_string(), VersionArchiveConfig::default(), &vec![Some(bytes)]);
    assert_eq!(loaded.versions.len(), 1);
    assert!(loaded.versions[0].is_tagged, "is_tagged should be preserved");
    assert!(loaded.versions[0].is_cleaned_up, "is_cleaned_up should be preserved");
    assert_eq!(loaded.versions[0].transaction_uuid, Some("uuid-1".to_string()));
    assert_eq!(loaded.versions[0].read_version, Some(1));
    assert_eq!(loaded.versions[0].timestamp_millis, 2000);
    assert_eq!(loaded.versions[0].manifest_summary.total_rows, 200);
    assert_eq!(loaded.versions[0].transaction_properties.get(&"k".to_string()), Some(&"v".to_string()));
    assert_eq!(loaded.latest_version(), 2);
    assert_eq!(loaded.created_at_millis, archive.created_at_millis);
}

#[test]
fn test_load_newest_valid_archive() {
    let mut archive = new_archive(VersionArchiveConfig::default());
    archive.add_summaries(&[create_test_version_summary(1)]);
    let (_, v1) = archive.prepare_flush().unwrap();
    archive.add_summaries(&[create_test_version_summary(2)]);
    let (_, v2) = archive.prepare_flush().unwrap();
    assert!(!v2.is_empty());
    // The newest file (v2) is overwritten with garbage.
    let candidates = vec![Some(b"corrupted".to_vec()), Some(v1)];
    let loaded = VersionArchive::load_or_new_from("test".to_string(), VersionArchiveConfig::default(), &candidates);
    assert_eq!(loaded.latest_version(), 1);
}

#[test]
fn test_archive_corruption_graceful_degradation() {
    let candidates = vec![Some(b"corrupted data".to_vec())];
    let loaded = VersionArchive::load_or_new_from("test".to_string(), VersionArchiveConfig::default(), &candidates);
    assert!(loaded.versions.is_empty());
    assert!(VersionArchive::load_latest_from("test".to_string(), VersionArchiveConfig::default(), &candidates).is_none());
    let unreadable: Vec<Option<Vec<u8>>> = vec![None];
    assert!(VersionArchive::load_latest_from("test".to_string(), VersionArchiveConfig::default(), &unreadable).is_none());
}

#[test]
fn test_max_archive_files_cleanup() {
    let mut listed: Vec<u64> = Vec::new();
    let mut archive = new_archive(VersionArchiveConfig { max_archive_files: 2, ..Default::default() });
    for i in 1..=4 {
        archive.add_summaries(&[create_test_version_summary(i)]);
        let (name, _) = archive.prepare_flush().unwrap();
        listed.push(archive_file_version(&name).unwrap());
        let deleted = archives_to_delete(&listed, archive.config().max_archive_files);
        listed.retain(|v| !deleted.contains(v));
    }
    assert_eq!(listed.len(), 2);
    assert_eq!(listed, vec![3, 4]);
}

#[test]
fn cleanup_deletes_the_oldest() {
    assert_eq!(archives_to_delete(&vec![2, 4, 1, 3], 2), vec![2, 1]);
    assert!(archives_to_delete(&vec![2, 1], 2).is_empty());
    assert_eq!(archives_to_delete(&vec![5, 6], 0), vec![6, 5]);
}

#[test]
fn archive_file_names() {
    assert_eq!(archive_file_name(1), "18446744073709551614.binpb");
    assert_eq!(archive_file_name(u64::MAX), "00000000000000000000.binpb");
    assert_eq!(archive_file_version("18446744073709551614.binpb"), Some(1));
    assert_eq!(archive_file_version("18446744073709551614.json"), None);
    assert_eq!(archive_file_version("abc.binpb"), None);
    let names = vec![
        archive_file_name(3),
        "notes.txt".to_string(),
        archive_file_name(10),
        archive_file_name(1),
    ];
    assert_eq!(archive_versions(&names), vec![10, 3, 1]);
}

#[test]
fn data_statistics_sum_per_field() {
    let stats = vec![vec![(0u32, 10u64), (1, 5), (9, 100)], vec![(0, 1)]];
    let result = calculate_data_stats(&vec![0, 1, 2], false, &stats);
    assert_eq!(result.fields.len(), 3);
    assert_eq!((result.fields[0].id, result.fields[0].bytes_on_disk), (0, 11));
    assert_eq!((result.fields[1].id, result.fields[1].bytes_on_disk), (1, 5));
    assert_eq!((result.fields[2].id, result.fields[2].bytes_on_disk), (2, 0));
    let legacy = calculate_data_stats(&vec![0, 1], true, &stats);
    assert_eq!(legacy.fields[0].bytes_on_disk, 0);
    assert_eq!(legacy.fields[1].bytes_on_disk, 0);
}

#[test]
fn catalog_decisions() {
    assert!(is_lance_url("s3://bucket/table.lance"));
    assert!(is_lance_url(".lance"));
    assert!(!is_lance_url("data/table.parquet"));
    assert!(!is_lance_url("lance"));
    assert!(cached_table_is_stale(5, 4));
    assert!(!cached_table_is_stale(5, 5));
    assert!(!cached_table_is_stale(4, 5));
    assert!(check_params_valid(&None, &None).is_ok());
    assert!(check_params_valid(&Some("c".to_string()), &Some("s".to_string())).is_ok());
    assert!(matches!(check_params_valid(&None, &Some("s".to_string())), Err(Error::Internal(_))));
}

#[test]
fn checked_statistics_report_overflow() {
    let stats = vec![vec![(0u32, u64::MAX)], vec![(0, 1), (1, 2)]];
    assert!(calculate_data_stats_checked(&vec![0, 1], false, &stats).is_none());
    let fine = calculate_data_stats_checked(&vec![1], false, &stats).unwrap();
    assert_eq!((fine.fields[0].id, fine.fields[0].bytes_on_disk), (1, 2));
    let legacy = calculate_data_stats_checked(&vec![0, 1], true, &stats).unwrap();
    assert_eq!(legacy.fields[0].bytes_on_disk, 0);
}

#[test]
fn truncation_keeps_equal_versions_in_order() {
    let mut archive = new_archive(VersionArchiveConfig { max_entries: 2, ..Default::default() });
    let mut first = create_test_version_summary(2);
    first.timestamp_millis = 7;
    let mut second = create_test_version_summary(2);
    second.timestamp_millis = 9;
    archive.add_summaries(&[first, create_test_version_summary(1), second]);
    archive.prepare_flush().unwrap();
    assert_eq!(archive.versions.len(), 2);
    assert_eq!(archive.versions[0].timestamp_millis, 7);
    assert_eq!(archive.versions[1].timestamp_millis, 9);
    // The creation time comes from the first summary in version order.
    assert_eq!(archive.dataset_created_millis, 1000);
}

#[test]
fn creation_time_is_kept_once_set() {
    let mut archive = new_archive(VersionArchiveConfig::default());
    archive.dataset_created_millis = 42;
    archive.add_summaries(&[create_test_version_summary(3)]);
    archive.prepare_flush().unwrap();
    assert_eq!(archive.dataset_created_millis, 42);
}
