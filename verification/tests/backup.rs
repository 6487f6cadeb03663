use financials::backup::{
    all_snapshots_prefix, backup_wait_seconds, build_object_store, extract_instance_id,
    merged_config, own_snapshots_prefix, prune_plan, s3_settings, snapshot_due, snapshot_prefix,
    snapshots_of_all_instances, snapshots_of_instance, BackupConfig, Snapshot, StorageFields,
};

fn make_s3_config() -> BackupConfig {
    BackupConfig {
        id: 0,
        provider: "s3".to_string(),
        bucket: "my-bucket".to_string(),
        path: "db-backups".to_string(),
        region: "us-east-1".to_string(),
        endpoint: None,
        access_key_id: Some("AKIA123".to_string()),
        secret_access_key: Some("secret456".to_string()),
        b2_key_id: None,
        b2_application_key: None,
        b2_endpoint: None,
        enabled: true,
        db_instance_id: Some("019f5564-a32d-7573-966b-b9bd9afe0fc5".to_string()),
        interval_minutes: 60,
        max_snapshots: 10,
    }
}

fn make_b2_config() -> BackupConfig {
    BackupConfig {
        id: 0,
        provider: "b2".to_string(),
        bucket: "my-b2-bucket".to_string(),
        path: "db-backups".to_string(),
        region: "us-east-1".to_string(),
        endpoint: None,
        access_key_id: None,
        secret_access_key: None,
        b2_key_id: Some("b2-key-id".to_string()),
        b2_application_key: Some("b2-app-key".to_string()),
        b2_endpoint: None,
        enabled: true,
        db_instance_id: Some("019f5564-a32d-7573-966b-b9bd9afe0fc5".to_string()),
        interval_minutes: 60,
        max_snapshots: 10,
    }
}

fn snap(key: &str, ts: &str) -> Snapshot {
    Snapshot { key: key.to_string(), timestamp: ts.to_string(), size: 1, instance_id: None }
}

#[test]
fn snapshot_prefix_with_instance_id() {
    let config = make_s3_config();
    let prefix = snapshot_prefix(&config);
    assert_eq!(prefix, "db-backups/019f5564-a32d-7573-966b-b9bd9afe0fc5/");
}

#[test]
fn snapshot_prefix_without_instance_id() {
    let mut config = make_s3_config();
    config.db_instance_id = None;
    let prefix = snapshot_prefix(&config);
    assert_eq!(prefix, "db-backups/");
}

#[test]
fn snapshot_prefix_empty_path() {
    let mut config = make_s3_config();
    config.path = String::new();
    config.db_instance_id = Some("abc-123".to_string());
    let prefix = snapshot_prefix(&config);
    assert_eq!(prefix, "abc-123/");
}

#[test]
fn snapshot_prefix_empty_path_no_instance_id() {
    let mut config = make_s3_config();
    config.path = String::new();
    config.db_instance_id = None;
    let prefix = snapshot_prefix(&config);
    assert_eq!(prefix, "/");
}

#[test]
fn snapshot_prefix_trims_trailing_slashes() {
    let mut config = make_s3_config();
    config.path = "backups///".to_string();
    config.db_instance_id = Some("x".to_string());
    assert_eq!(snapshot_prefix(&config), "backups/x/");
    assert_eq!(own_snapshots_prefix(&config), "backups/x");
    assert_eq!(all_snapshots_prefix(&config), "backups");
    config.path = "/".to_string();
    assert_eq!(all_snapshots_prefix(&config), "/");
}

#[test]
fn build_object_store_s3() {
    let config = make_s3_config();
    let result = build_object_store(&config);
    assert!(result.is_ok(), "Should build S3 client: {:?}", result.err());
}

#[test]
fn build_object_store_b2() {
    let config = make_b2_config();
    let result = build_object_store(&config);
    assert!(result.is_ok(), "Should build B2 client: {:?}", result.err());
}

#[test]
fn build_object_store_custom_endpoint() {
    let mut config = make_s3_config();
    config.endpoint = Some("https://minio.example.com".to_string());
    let result = build_object_store(&config);
    assert!(result.is_ok());
}

#[test]
fn extract_instance_id_from_key() {
    // Standard path: financials-backups/{instance_id}/{timestamp}.db
    assert_eq!(
        extract_instance_id(
            "financials-backups/abc-123/2026-07-12T18:30:00Z.db",
            "financials-backups"
        ),
        Some("abc-123".to_string())
    );
    // No base path
    assert_eq!(
        extract_instance_id("abc-123/2026-07-12T18:30:00Z.db", ""),
        Some("abc-123".to_string())
    );
    // No instance ID (old format or flat path)
    assert_eq!(extract_instance_id("2026-07-12T18:30:00Z.db", ""), None);
    // Base path doesn't match — strip_prefix falls back to full key
    // so the first segment is "other-path"
    assert_eq!(
        extract_instance_id(
            "other-path/abc-123/2026-07-12T18:30:00Z.db",
            "financials-backups"
        ),
        Some("other-path".to_string())
    );
}

#[test]
fn instance_id_found_again_in_snapshot_key() {
    let config = make_s3_config();
    let key = format!("{}2026-01-01T00:00:00Z.db", snapshot_prefix(&config));
    assert_eq!(
        extract_instance_id(&key, "db-backups"),
        config.db_instance_id.clone()
    );
}

#[test]
fn snapshots_listed_newest_first() {
    let config = make_s3_config();
    let listing = vec![
        ("db-backups/a/2026-01-01T00:00:00Z.db".to_string(), 10u64),
        ("db-backups/b/2026-03-01T00:00:00Z.db".to_string(), 20u64),
        ("db-backups/readme.txt".to_string(), 5u64),
        ("db-backups/c/2026-02-01T00:00:00Z.db.db".to_string(), 30u64),
    ];
    let snaps = snapshots_of_all_instances(&config, &listing);
    let stamps: Vec<&str> = snaps.iter().map(|s| s.timestamp.as_str()).collect();
    assert_eq!(stamps, vec!["2026-03-01T00:00:00Z", "2026-02-01T00:00:00Z", "2026-01-01T00:00:00Z"]);
    assert_eq!(snaps[0].instance_id.as_deref(), Some("b"));
    assert_eq!(snaps[0].size, 20);
    let own = snapshots_of_instance(&config, &listing);
    assert_eq!(own.len(), 3);
    assert_eq!(own[2].instance_id, config.db_instance_id);
}

#[test]
fn prune_keeps_the_newest() {
    let existing = vec![snap("k3", "3"), snap("k2", "2"), snap("k1", "1")];
    assert_eq!(prune_plan(2, &existing), vec!["k1".to_string()]);
    assert_eq!(prune_plan(0, &existing), vec!["k2".to_string(), "k1".to_string()]);
    assert!(prune_plan(3, &existing).is_empty());
    assert!(prune_plan(10, &existing).is_empty());
}

#[test]
fn s3_settings_for_providers() {
    let s = s3_settings(&make_s3_config());
    assert_eq!(s.access_key, "AKIA123");
    assert_eq!(s.secret_key, "secret456");
    assert_eq!(s.endpoint, None);
    assert!(!s.allow_http);
    let s = s3_settings(&make_b2_config());
    assert_eq!(s.access_key, "b2-key-id");
    assert_eq!(s.endpoint.as_deref(), Some("https://s3.us-west-004.backblazeb2.com"));
    assert!(s.allow_http);
    let mut c = make_s3_config();
    c.endpoint = Some("http://localhost:9000".to_string());
    let s = s3_settings(&c);
    assert_eq!(s.endpoint.as_deref(), Some("http://localhost:9000"));
    assert!(s.allow_http);
    c.endpoint = Some("minio.local".to_string());
    assert_eq!(s3_settings(&c).endpoint.as_deref(), Some("https://minio.local"));
}

fn fields() -> StorageFields {
    StorageFields {
        provider: "s3".to_string(),
        bucket: "b".to_string(),
        path: "p".to_string(),
        region: "r".to_string(),
        endpoint: Some("  ".to_string()),
        access_key_id: Some("key".to_string()),
        secret_access_key: None,
        b2_key_id: None,
        b2_application_key: Some("".to_string()),
        b2_endpoint: None,
        interval_minutes: None,
        max_snapshots: Some(3),
    }
}

#[test]
fn merged_config_new_and_existing() {
    let c = merged_config(&fields(), &None);
    assert_eq!(c.endpoint, None);
    assert_eq!(c.access_key_id.as_deref(), Some("key"));
    assert_eq!(c.secret_access_key, None);
    assert!(!c.enabled);
    assert_eq!(c.interval_minutes, 60);
    assert_eq!(c.max_snapshots, 3);
    let existing = make_s3_config();
    let c = merged_config(&fields(), &Some(existing));
    assert_eq!(c.secret_access_key.as_deref(), Some("secret456"));
    assert!(c.enabled);
    assert_eq!(c.interval_minutes, 60);
    assert_eq!(c.max_snapshots, 10);
    assert_eq!(c.bucket, "b");
    assert_eq!(c.db_instance_id.as_deref(), Some("019f5564-a32d-7573-966b-b9bd9afe0fc5"));
}

#[test]
fn scheduler_waits() {
    assert_eq!(backup_wait_seconds(&None), 300);
    let mut c = make_s3_config();
    c.interval_minutes = 1;
    assert_eq!(backup_wait_seconds(&Some(c)), 300);
    let c = make_s3_config();
    assert_eq!(backup_wait_seconds(&Some(c)), 3600);
    let mut c = make_s3_config();
    c.enabled = false;
    assert!(!snapshot_due(&Some(c)));
    assert!(snapshot_due(&Some(make_s3_config())));
}

#[test]
fn build_object_store_keeps_its_settings() {
    let config = make_b2_config();
    let store = build_object_store(&config).unwrap();
    assert_eq!(store.settings.bucket, "my-b2-bucket");
    assert_eq!(store.settings.access_key, "b2-key-id");
    assert_eq!(store.settings.secret_key, "b2-app-key");
    assert_eq!(store.settings.endpoint, Some("https://s3.us-west-004.backblazeb2.com".to_string()));
    assert!(store.settings.allow_http);
}
