use financials::auth::{
    change_password, login_notice, login_outcome, setup_password, validate_new_password,
    ChangePasswordForm, FlashParam, LoginOutcome, SetupPasswordForm,
};
use financials::error::AppError;

fn bad_request_text(r: Result<impl std::fmt::Debug, AppError>) -> String {
    match r {
        Err(AppError::BadRequest(m)) => m,
        other => panic!("expected a bad request, got {:?}", other),
    }
}

#[test]
fn validate_new_password_rules() {
    assert!(validate_new_password("abcd", "abcd").is_ok());
    assert_eq!(
        bad_request_text(validate_new_password("abc", "abc")),
        "New password must be at least 4 characters"
    );
    assert_eq!(
        bad_request_text(validate_new_password("abcd", "abce")),
        "New passwords do not match"
    );
    // Four bytes, counted in UTF-8: two two-byte characters are enough.
    assert!(validate_new_password("éé", "éé").is_ok());
    assert_eq!(
        bad_request_text(validate_new_password("é", "é")),
        "New password must be at least 4 characters"
    );
}

#[test]
fn login_outcome_paths() {
    let hash = bcrypt::hash("secret", 4).unwrap();
    assert_eq!(login_outcome(true, "anything", "").unwrap(), LoginOutcome::ChangePassword);
    assert_eq!(login_outcome(false, "secret", &hash).unwrap(), LoginOutcome::Dashboard);
    match login_outcome(false, "wrong", &hash) {
        Err(AppError::Unauthorized(m)) => assert_eq!(m, "Invalid password"),
        other => panic!("unexpected {:?}", other),
    }
    assert!(matches!(login_outcome(false, "secret", "not a hash"), Err(AppError::Internal(_))));
}

#[test]
fn change_password_refusals() {
    let hash = bcrypt::hash("current", 4).unwrap();
    let short = ChangePasswordForm {
        current_password: Some("current".to_string()),
        new_password: "ab".to_string(),
        confirm_password: "ab".to_string(),
    };
    assert_eq!(
        bad_request_text(change_password(false, &short, &hash)),
        "New password must be at least 4 characters"
    );
    let wrong = ChangePasswordForm {
        current_password: Some("nope".to_string()),
        new_password: "abcd".to_string(),
        confirm_password: "abcd".to_string(),
    };
    match change_password(false, &wrong, &hash) {
        Err(AppError::Unauthorized(m)) => assert_eq!(m, "Current password is incorrect"),
        other => panic!("unexpected {:?}", other),
    }
    let missing = ChangePasswordForm {
        current_password: None,
        new_password: "abcd".to_string(),
        confirm_password: "abcd".to_string(),
    };
    assert!(matches!(change_password(false, &missing, &hash), Err(AppError::Unauthorized(_))));
}

#[test]
fn setup_password_refused_once_set() {
    let form = SetupPasswordForm {
        new_password: "abcd".to_string(),
        confirm_password: "abcd".to_string(),
    };
    assert_eq!(
        bad_request_text(setup_password(false, &form)),
        "Password is already set. Please log in."
    );
    let mismatch = SetupPasswordForm {
        new_password: "abcd".to_string(),
        confirm_password: "abcx".to_string(),
    };
    assert_eq!(bad_request_text(setup_password(true, &mismatch)), "New passwords do not match");
}

#[test]
fn login_notice_flash_values() {
    let restored = login_notice(&FlashParam { flash: Some("restored".to_string()) }).unwrap();
    assert_eq!(restored.0, "flash flash-success");
    assert_eq!(restored.1, "Database restored from backup. Please log in again.");
    let failed = login_notice(&FlashParam { flash: Some("restore_failed".to_string()) }).unwrap();
    assert_eq!(failed.0, "flash flash-error");
    assert!(login_notice(&FlashParam { flash: Some("other".to_string()) }).is_none());
    assert!(login_notice(&FlashParam { flash: None }).is_none());
}

#[test]
fn setup_password_hash_accepts_new_password() {
    let form = SetupPasswordForm {
        new_password: "first-pass".to_string(),
        confirm_password: "first-pass".to_string(),
    };
    let hash = setup_password(true, &form).unwrap();
    assert_ne!(hash, "first-pass");
    assert_eq!(login_outcome(false, "first-pass", &hash).unwrap(), LoginOutcome::Dashboard);
}

#[test]
fn change_password_hash_accepts_new_password() {
    let old = bcrypt::hash("current", 4).unwrap();
    let form = ChangePasswordForm {
        current_password: Some("current".to_string()),
        new_password: "next-pass".to_string(),
        confirm_password: "next-pass".to_string(),
    };
    let hash = change_password(false, &form, &old).unwrap();
    assert_ne!(hash, "next-pass");
    assert!(bcrypt::verify("next-pass", &hash).unwrap());
    assert!(!bcrypt::verify("current", &hash).unwrap());
}
