use chrono::{Datelike, NaiveDate};
use financials::error::AppError;
use financials::requests::{
    day_field, id_field, required_name, BackupForm, ChangeTypeForm, PublicBackupForm, valid_item_type, AddTxnForm, CreatePortfolioForm, CreateSessionForm, Flash,
    RenamePortfolioForm, RenameSessionForm, settings_notice,
};
use financials::server::{next_listen_port, secure_cookies_setting};

fn bad_request(r: Result<impl std::fmt::Debug, AppError>) -> String {
    match r {
        Err(AppError::BadRequest(m)) => m,
        other => panic!("expected a bad request, got {:?}", other),
    }
}

#[test]
fn required_name_trims_or_refuses() {
    assert_eq!(required_name("  Home  ", "Name is required").unwrap(), "Home");
    assert_eq!(bad_request(required_name("   ", "Name is required")), "Name is required");
    assert_eq!(
        bad_request(CreatePortfolioForm { name: "".to_string() }.portfolio_name()),
        "Portfolio name is required"
    );
    assert_eq!(
        bad_request(RenamePortfolioForm { name: " \t".to_string() }.portfolio_name()),
        "Portfolio name cannot be empty"
    );
    assert_eq!(
        bad_request(CreateSessionForm { name: " ".to_string() }.session_name()),
        "Session name is required"
    );
    assert_eq!(
        RenameSessionForm { name: " June ".to_string() }.session_name().unwrap(),
        "June"
    );
}

#[test]
fn valid_item_types() {
    for t in ["asset", "cash", "debt", "investment"] {
        assert!(valid_item_type(t));
    }
    assert!(!valid_item_type("Cash"));
    assert!(!valid_item_type(""));
}

#[test]
fn add_txn_entry_parses_and_normalises() {
    let form = AddTxnForm {
        date: "2025-07-01".to_string(),
        amount: "-12.34".to_string(),
        vendor: Some("  Shop ".to_string()),
    };
    let (d, cents, vendor) = form.entry().unwrap();
    assert_eq!(d, NaiveDate::from_ymd_opt(2025, 7, 1).unwrap().num_days_from_ce());
    assert_eq!(cents, 1234);
    assert_eq!(vendor, "Shop");
    let no_vendor = AddTxnForm {
        date: "2025-07-01".to_string(),
        amount: "$1,000".to_string(),
        vendor: None,
    };
    assert_eq!(no_vendor.entry().unwrap().1, 100000);
    assert_eq!(no_vendor.entry().unwrap().2, "");
}

#[test]
fn add_txn_entry_errors() {
    let bad_date = AddTxnForm {
        date: "07/01/2025".to_string(),
        amount: "1".to_string(),
        vendor: None,
    };
    assert_eq!(bad_request(bad_date.entry()), "Invalid date format. Use YYYY-MM-DD.");
    let bad_amount = AddTxnForm {
        date: "2025-07-01".to_string(),
        amount: "".to_string(),
        vendor: None,
    };
    assert_eq!(bad_request(bad_amount.entry()), "Invalid amount: (empty)");
}

#[test]
fn flash_banner_classes() {
    let f = |m: Option<&str>, k: Option<&str>| {
        Flash {
            flash: m.map(|s| s.to_string()),
            flash_type: k.map(|s| s.to_string()),
        }
        .banner()
    };
    assert_eq!(f(Some("Saved"), None), Some(("flash-success".to_string(), "Saved".to_string())));
    assert_eq!(f(Some("Oops"), Some("error")).unwrap().0, "flash-error");
    assert_eq!(f(Some("Hm"), Some("warning")).unwrap().0, "flash-warning");
    assert_eq!(f(Some("Ok"), Some("other")).unwrap().0, "flash-success");
    assert_eq!(f(None, Some("error")), None);
}

#[test]
fn listen_ports_and_secure_cookies() {
    assert_eq!(next_listen_port(3000), Some(3001));
    assert_eq!(next_listen_port(3099), Some(3100));
    assert_eq!(next_listen_port(3100), None);
    assert!(secure_cookies_setting(Some("true")));
    assert!(secure_cookies_setting(Some("1")));
    assert!(!secure_cookies_setting(Some("yes")));
    assert!(!secure_cookies_setting(None));
}

#[test]
fn backup_forms_storage_fields() {
    let form = BackupForm {
        provider: "b2".to_string(),
        bucket: "shared".to_string(),
        path: "p".to_string(),
        region: "eu".to_string(),
        endpoint: None,
        access_key_id: None,
        secret_access_key: None,
        b2_bucket: Some("b2-bucket".to_string()),
        b2_path: None,
        b2_region: Some("us-west".to_string()),
        b2_key_id: Some("kid".to_string()),
        b2_application_key: None,
        b2_endpoint: None,
        interval_minutes: Some(30),
        max_snapshots: None,
    };
    let f = form.storage_fields();
    assert_eq!((f.bucket.as_str(), f.path.as_str(), f.region.as_str()), ("b2-bucket", "p", "us-west"));
    assert_eq!(f.b2_key_id.as_deref(), Some("kid"));
    assert_eq!(f.interval_minutes, Some(30));
    let public = PublicBackupForm {
        provider: "s3".to_string(),
        bucket: "b".to_string(),
        path: "p".to_string(),
        region: Some("  ".to_string()),
        endpoint: None,
        access_key_id: None,
        secret_access_key: None,
        b2_region: Some("ignored".to_string()),
        b2_key_id: None,
        b2_application_key: None,
        b2_endpoint: None,
        interval_minutes: None,
        max_snapshots: Some(3),
    };
    assert_eq!(public.storage_fields().region, "us-east-1");
}

#[test]
fn change_type_form_checks_type() {
    assert_eq!(ChangeTypeForm { item_id: 1, item_type: "debt".to_string() }.checked_type().unwrap(), "debt");
    assert_eq!(
        bad_request(ChangeTypeForm { item_id: 1, item_type: "car".to_string() }.checked_type()),
        "Invalid item type"
    );
}

#[test]
fn day_and_id_fields() {
    assert_eq!(
        day_field("2025-07-01", "bad date").unwrap(),
        NaiveDate::from_ymd_opt(2025, 7, 1).unwrap().num_days_from_ce()
    );
    assert_eq!(bad_request(day_field("01/07/2025", "bad date")), "bad date");
    assert_eq!(id_field("00000000-0000-0000-0000-00000000002a", "bad id").unwrap(), 42);
    assert_eq!(bad_request(id_field("nope", "bad id")), "bad id");
}

#[test]
fn settings_notice_codes() {
    let n = |f: &str| settings_notice(&Some(f.to_string()));
    assert_eq!(n("saved"), Some(("flash flash-success".to_string(), "Configuration saved".to_string())));
    assert_eq!(n("enabled"), Some(("flash flash-success".to_string(), "Backups enabled".to_string())));
    assert_eq!(n("disabled"), Some(("flash flash-info".to_string(), "Backups paused".to_string())));
    assert_eq!(n("restored"), Some(("flash flash-success".to_string(), "Database restored from backup".to_string())));
    assert_eq!(
        n("restore_failed"),
        Some(("flash flash-error".to_string(), "Restore failed — check server logs for details".to_string()))
    );
    assert_eq!(n("password_changed"), Some(("flash flash-success".to_string(), "Password updated successfully".to_string())));
    assert_eq!(n("other"), None);
    assert_eq!(settings_notice(&None), None);
}
