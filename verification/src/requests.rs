//! The forms and queries that requests carry, with the checks made on
//! them before anything is stored.

use vstd::prelude::*;
use crate::backup::{copy_opt, nonblank, nonblank_exec, opt_view, StorageFields};
use crate::csv_import::is_bad_request;
use crate::dates::{chrono_parse_day, parse_day};
use crate::error::AppError;
use crate::forms::{parse_uuid, uuid_parse};
use crate::money::{abs, parse_dollars, spec_parse_dollars};
use crate::reconcile::SortOrder;
use crate::text::{chars_eq, chars_of, string_of, trim, trimmed_chars};

verus! {

// ── Portfolio ──

/// A new wealth item.
pub struct AddItemForm {
    pub name: String,
    pub item_type: String,
}

/// A new portfolio.
pub struct CreatePortfolioForm {
    pub name: String,
}

/// A portfolio's new name.
pub struct RenamePortfolioForm {
    pub name: String,
}

/// The notice shown on a portfolio page.
pub struct PortfolioQuery {
    pub flash: Option<String>,
    pub flash_type: Option<String>,
}

/// The cell being edited: an item and a date, as given.
pub struct CellQuery {
    pub item_id: String,
    pub date: String,
}

/// A date, as given.
pub struct DateQuery {
    pub date: String,
}

/// Moving an item one place: the item and `left` or `right`.
pub struct MoveItemQuery {
    pub item_id: u128,
    pub direction: String,
}

/// The new type of an item.
pub struct ChangeTypeForm {
    pub item_id: u128,
    pub item_type: String,
}

/// The item to delete.
pub struct DeleteItemForm {
    pub item_id: u128,
}

/// The notice of the portfolio page, by its query parameters.
pub struct PortfolioFilter {
    pub flash: Option<String>,
    pub flash_type: Option<String>,
}

/// A row of balances to delete: its date, as given.
pub struct DeleteRowForm {
    pub log_date: String,
}

/// The portfolio and the period that the statistics page covers, as given.
pub struct StatsFilter {
    pub portfolio: Option<String>,
    pub from: Option<String>,
    pub to: Option<String>,
}

// ── Reconciliation ──

/// A new reconciliation session.
pub struct CreateSessionForm {
    pub name: String,
}

/// How the transactions are listed, and where the page scrolls to.
pub struct SortQuery {
    pub sort: Option<SortOrder>,
    pub scroll_to: Option<usize>,
}

/// A transaction entered by hand.
pub struct AddTxnForm {
    pub date: String,
    pub amount: String,
    pub vendor: Option<String>,
}

/// The outgoing transaction to unlink, as given.
pub struct UnlinkForm {
    pub outgoing_id: String,
}

/// The reconciled transaction to unlink, as given.
pub struct UnlinkReconciledForm {
    pub reconciled_id: String,
}

/// A session's new name.
pub struct RenameSessionForm {
    pub name: String,
}

// ── Settings and backups ──

/// The notice shown on the settings page.
pub struct SettingsFlash {
    pub flash: Option<String>,
}

/// The period the insights cover.
pub struct DateRangeQuery {
    pub range: Option<String>,
}

/// The backup settings form.
pub struct BackupForm {
    pub provider: String,
    pub bucket: String,
    pub path: String,
    pub region: String,
    pub endpoint: Option<String>,
    pub access_key_id: Option<String>,
    pub secret_access_key: Option<String>,
    pub b2_bucket: Option<String>,
    pub b2_path: Option<String>,
    pub b2_region: Option<String>,
    pub b2_key_id: Option<String>,
    pub b2_application_key: Option<String>,
    pub b2_endpoint: Option<String>,
    pub interval_minutes: Option<i64>,
    pub max_snapshots: Option<i64>,
}

/// The snapshot to restore: the timestamp field holds its key.
pub struct RestoreForm {
    pub timestamp: Option<String>,
}

/// The backup form of the page that works without a stored
/// configuration.
pub struct PublicBackupForm {
    pub provider: String,
    pub bucket: String,
    pub path: String,
    pub region: Option<String>,
    pub endpoint: Option<String>,
    pub access_key_id: Option<String>,
    pub secret_access_key: Option<String>,
    pub b2_region: Option<String>,
    pub b2_key_id: Option<String>,
    pub b2_application_key: Option<String>,
    pub b2_endpoint: Option<String>,
    pub interval_minutes: Option<i64>,
    pub max_snapshots: Option<i64>,
}

// ── Storage fields of the backup forms ──

/// The text given in `o`, or `a` when nothing is given.
pub open spec fn given_or(o: Option<String>, a: Seq<char>) -> Seq<char> {
    match o {
        Some(s) => s@,
        None => a,
    }
}

/// The region given in `o`, or `us-east-1` when it is missing or blank.
pub open spec fn region_or_default(o: Option<String>) -> Seq<char> {
    match nonblank(opt_view(o)) {
        Some(s) => s,
        None => "us-east-1"@,
    }
}

fn given_or_exec(o: &Option<String>, a: &String) -> (r: String)
    ensures
        r@ == given_or(*o, a@),
{
    match o {
        Some(s) => s.clone(),
        None => a.clone(),
    }
}

fn region_or_default_exec(o: &Option<String>) -> (r: String)
    ensures
        r@ == region_or_default(*o),
{
    match nonblank_exec(o) {
        Some(s) => s,
        None => "us-east-1".to_owned(),
    }
}

impl BackupForm {
    /// The storage fields the form submits: for the `b2` provider the B2
    /// bucket, path and region where they are given (the shared fields
    /// otherwise), for any other provider the shared fields; the keys,
    /// endpoints, interval and retention as given.
    pub fn storage_fields(&self) -> (f: StorageFields)
        ensures
            f.provider@ == self.provider@,
            f.bucket@ == (if self.provider@ == "b2"@ {
                given_or(self.b2_bucket, self.bucket@)
            } else {
                self.bucket@
            }),
            f.path@ == (if self.provider@ == "b2"@ {
                given_or(self.b2_path, self.path@)
            } else {
                self.path@
            }),
            f.region@ == (if self.provider@ == "b2"@ {
                given_or(self.b2_region, self.region@)
            } else {
                self.region@
            }),
            opt_view(f.endpoint) == opt_view(self.endpoint),
            opt_view(f.access_key_id) == opt_view(self.access_key_id),
            opt_view(f.secret_access_key) == opt_view(self.secret_access_key),
            opt_view(f.b2_key_id) == opt_view(self.b2_key_id),
            opt_view(f.b2_application_key) == opt_view(self.b2_application_key),
            opt_view(f.b2_endpoint) == opt_view(self.b2_endpoint),
            f.interval_minutes == self.interval_minutes,
            f.max_snapshots == self.max_snapshots,
    {
        let b2 = chars_eq(&chars_of(self.provider.as_str()), &chars_of("b2"));
        let (bucket, path, region) = if b2 {
            (
                given_or_exec(&self.b2_bucket, &self.bucket),
                given_or_exec(&self.b2_path, &self.path),
                given_or_exec(&self.b2_region, &self.region),
            )
        } else {
            (self.bucket.clone(), self.path.clone(), self.region.clone())
        };
        StorageFields {
            provider: self.provider.clone(),
            bucket,
            path,
            region,
            endpoint: copy_opt(&self.endpoint),
            access_key_id: copy_opt(&self.access_key_id),
            secret_access_key: copy_opt(&self.secret_access_key),
            b2_key_id: copy_opt(&self.b2_key_id),
            b2_application_key: copy_opt(&self.b2_application_key),
            b2_endpoint: copy_opt(&self.b2_endpoint),
            interval_minutes: self.interval_minutes,
            max_snapshots: self.max_snapshots,
        }
    }
}

impl PublicBackupForm {
    /// The storage fields the form submits: the region is the B2 region
    /// for the `b2` provider and the S3 region otherwise, `us-east-1` when
    /// it is missing or blank; everything else as given.
    pub fn storage_fields(&self) -> (f: StorageFields)
        ensures
            f.provider@ == self.provider@,
            f.bucket@ == self.bucket@,
            f.path@ == self.path@,
            f.region@ == (if self.provider@ == "b2"@ {
                region_or_default(self.b2_region)
            } else {
                region_or_default(self.region)
            }),
            opt_view(f.endpoint) == opt_view(self.endpoint),
            opt_view(f.access_key_id) == opt_view(self.access_key_id),
            opt_view(f.secret_access_key) == opt_view(self.secret_access_key),
            opt_view(f.b2_key_id) == opt_view(self.b2_key_id),
            opt_view(f.b2_application_key) == opt_view(self.b2_application_key),
            opt_view(f.b2_endpoint) == opt_view(self.b2_endpoint),
            f.interval_minutes == self.interval_minutes,
            f.max_snapshots == self.max_snapshots,
    {
        let b2 = chars_eq(&chars_of(self.provider.as_str()), &chars_of("b2"));
        let region = if b2 {
            region_or_default_exec(&self.b2_region)
        } else {
            region_or_default_exec(&self.region)
        };
        StorageFields {
            provider: self.provider.clone(),
            bucket: self.bucket.clone(),
            path: self.path.clone(),
            region,
            endpoint: copy_opt(&self.endpoint),
            access_key_id: copy_opt(&self.access_key_id),
            secret_access_key: copy_opt(&self.secret_access_key),
            b2_key_id: copy_opt(&self.b2_key_id),
            b2_application_key: copy_opt(&self.b2_application_key),
            b2_endpoint: copy_opt(&self.b2_endpoint),
            interval_minutes: self.interval_minutes,
            max_snapshots: self.max_snapshots,
        }
    }
}

// ── Checks ──

/// The day number of a `YYYY-MM-DD` date given in a form; the request is
/// refused with `message` when the text is no such date.
pub fn day_field(s: &str, message: &str) -> (r: Result<i32, AppError>)
    ensures
        match chrono_parse_day(s@, "%Y-%m-%d"@) {
            Some(d) => r == Ok::<i32, AppError>(d),
            None => r matches Err(e) && is_bad_request(e, message@),
        },
{
    match parse_day(s, "%Y-%m-%d") {
        Some(d) => Ok(d),
        None => Err(AppError::BadRequest(message.to_owned())),
    }
}

/// The id given in a form, read as a UUID; the request is refused with
/// `message` when the text is no UUID.
pub fn id_field(s: &str, message: &str) -> (r: Result<u128, AppError>)
    ensures
        match uuid_parse(s@) {
            Some(u) => r == Ok::<u128, AppError>(u),
            None => r matches Err(e) && is_bad_request(e, message@),
        },
{
    match parse_uuid(s) {
        Some(u) => Ok(u),
        None => Err(AppError::BadRequest(message.to_owned())),
    }
}

/// `r` is the name as stored: trimmed, or refused with `message` when
/// nothing is left.
pub open spec fn is_required_name(name: Seq<char>, message: Seq<char>, r: Result<String, AppError>) -> bool {
    if trim(name).len() == 0 {
        r matches Err(e) && is_bad_request(e, message)
    } else {
        r matches Ok(n) && n@ == trim(name)
    }
}

/// A name as stored: trimmed, and refused with `message` when nothing is
/// left.
pub fn required_name(name: &str, message: &str) -> (r: Result<String, AppError>)
    ensures
        is_required_name(name@, message@, r),
{
    let t = trimmed_chars(name);
    if t.len() == 0 {
        Err(AppError::BadRequest(message.to_owned()))
    } else {
        Ok(string_of(&t))
    }
}

impl CreatePortfolioForm {
    /// The name of the new portfolio, trimmed; a blank name is refused.
    pub fn portfolio_name(&self) -> (r: Result<String, AppError>)
        ensures
            is_required_name(self.name@, "Portfolio name is required"@, r),
    {
        required_name(self.name.as_str(), "Portfolio name is required")
    }
}

impl RenamePortfolioForm {
    /// The new name of the portfolio, trimmed; a blank name is refused.
    pub fn portfolio_name(&self) -> (r: Result<String, AppError>)
        ensures
            is_required_name(self.name@, "Portfolio name cannot be empty"@, r),
    {
        required_name(self.name.as_str(), "Portfolio name cannot be empty")
    }
}

impl CreateSessionForm {
    /// The name of the new session, trimmed; a blank name is refused.
    pub fn session_name(&self) -> (r: Result<String, AppError>)
        ensures
            is_required_name(self.name@, "Session name is required"@, r),
    {
        required_name(self.name.as_str(), "Session name is required")
    }
}

impl RenameSessionForm {
    /// The new name of the session, trimmed; a blank name is refused.
    pub fn session_name(&self) -> (r: Result<String, AppError>)
        ensures
            is_required_name(self.name@, "Session name cannot be empty"@, r),
    {
        required_name(self.name.as_str(), "Session name cannot be empty")
    }
}

/// The types a wealth item may have.
pub open spec fn spec_valid_item_type(t: Seq<char>) -> bool {
    t == "asset"@ || t == "cash"@ || t == "debt"@ || t == "investment"@
}

/// Whether the text is one of the item types `asset`, `cash`, `debt` and
/// `investment`.
pub fn valid_item_type(t: &str) -> (r: bool)
    ensures
        r == spec_valid_item_type(t@),
{
    let v = chars_of(t);
    chars_eq(&v, &chars_of("asset")) || chars_eq(&v, &chars_of("cash")) || chars_eq(
        &v,
        &chars_of("debt"),
    ) || chars_eq(&v, &chars_of("investment"))
}

impl ChangeTypeForm {
    /// The new type when it is one of the four item types; else the
    /// request is refused with `Invalid item type`.
    pub fn checked_type(&self) -> (r: Result<String, AppError>)
        ensures
            spec_valid_item_type(self.item_type@) ==> (r matches Ok(t) && t@ == self.item_type@),
            !spec_valid_item_type(self.item_type@) ==> (r matches Err(e) && is_bad_request(
                e,
                "Invalid item type"@,
            )),
    {
        if valid_item_type(self.item_type.as_str()) {
            Ok(self.item_type.clone())
        } else {
            Err(AppError::BadRequest("Invalid item type".to_owned()))
        }
    }
}

/// A transaction as entered: its date in `%Y-%m-%d`, the absolute amount
/// in cents, and the trimmed vendor (empty when not given). A date that is
/// not in that format, or an amount that `parse_dollars` refuses, is a bad
/// request with that error's message.
pub open spec fn txn_entry_ok(f: AddTxnForm, r: Result<(i32, i64, String), AppError>) -> bool {
    match chrono_parse_day(f.date@, "%Y-%m-%d"@) {
        None => r matches Err(e) && is_bad_request(e, "Invalid date format. Use YYYY-MM-DD."@),
        Some(day) => match spec_parse_dollars(f.amount@) {
            Err(m) => r matches Err(e) && is_bad_request(e, m),
            Ok(c) => r matches Ok((d, cents, vendor)) && d == day && cents == abs(c) && vendor@
                == match f.vendor {
                Some(v) => trim(v@),
                None => Seq::empty(),
            },
        },
    }
}

impl AddTxnForm {
    /// The transaction the form enters (see `txn_entry_ok`).
    pub fn entry(&self) -> (r: Result<(i32, i64, String), AppError>)
        ensures
            txn_entry_ok(*self, r),
    {
        let day = match parse_day(self.date.as_str(), "%Y-%m-%d") {
            Some(d) => d,
            None => {
                return Err(AppError::BadRequest("Invalid date format. Use YYYY-MM-DD.".to_owned()));
            },
        };
        let c = match parse_dollars(self.amount.as_str()) {
            Ok(c) => c,
            Err(m) => {
                return Err(AppError::BadRequest(m));
            },
        };
        let cents: i64 = if c < 0 {
            -c
        } else {
            c
        };
        let vendor = match &self.vendor {
            Some(v) => string_of(&trimmed_chars(v.as_str())),
            None => String::new(),
        };
        Ok((day, cents, vendor))
    }
}

// ── Notices ──

/// A notice shown at the top of a page: the message and its kind.
pub struct Flash {
    pub flash: Option<String>,
    pub flash_type: Option<String>,
}

/// The CSS class of a notice of the given kind: `flash-error`,
/// `flash-warning`, and `flash-success` for any other kind or none.
pub open spec fn spec_flash_class(kind: Option<Seq<char>>) -> Seq<char> {
    match kind {
        Some(k) => if k == "error"@ {
            "flash-error"@
        } else if k == "warning"@ {
            "flash-warning"@
        } else {
            "flash-success"@
        },
        None => "flash-success"@,
    }
}

impl Flash {
    /// The notice to show, as the CSS class of its kind and the message;
    /// `None` without a message.
    pub fn banner(&self) -> (r: Option<(String, String)>)
        ensures
            match self.flash {
                Some(m) => r matches Some((c, t)) && c@ == spec_flash_class(
                    match self.flash_type {
                        Some(k) => Some(k@),
                        None => None,
                    },
                ) && t@ == m@,
                None => r is None,
            },
    {
        match &self.flash {
            Some(m) => {
                let cls = match &self.flash_type {
                    Some(k) => {
                        let v = chars_of(k.as_str());
                        if chars_eq(&v, &chars_of("error")) {
                            "flash-error".to_owned()
                        } else if chars_eq(&v, &chars_of("warning")) {
                            "flash-warning".to_owned()
                        } else {
                            "flash-success".to_owned()
                        }
                    },
                    None => "flash-success".to_owned(),
                };
                Some((cls, m.clone()))
            },
            None => None,
        }
    }
}

/// The notice of the settings page for its `flash` parameter, as a CSS
/// class and text; other values show none.
pub open spec fn spec_settings_notice(flash: Option<Seq<char>>) -> Option<(Seq<char>, Seq<char>)> {
    match flash {
        Some(f) => if f == "saved"@ {
            Some(("flash flash-success"@, "Configuration saved"@))
        } else if f == "enabled"@ {
            Some(("flash flash-success"@, "Backups enabled"@))
        } else if f == "disabled"@ {
            Some(("flash flash-info"@, "Backups paused"@))
        } else if f == "restored"@ {
            Some(("flash flash-success"@, "Database restored from backup"@))
        } else if f == "restore_failed"@ {
            Some(("flash flash-error"@, "Restore failed — check server logs for details"@))
        } else if f == "password_changed"@ {
            Some(("flash flash-success"@, "Password updated successfully"@))
        } else {
            None
        },
        None => None,
    }
}

/// The notice of the settings page, if its `flash` parameter asks for one
/// (see `spec_settings_notice`).
pub fn settings_notice(flash: &Option<String>) -> (r: Option<(String, String)>)
    ensures
        match spec_settings_notice(
            match flash {
                Some(f) => Some(f@),
                None => None,
            },
        ) {
            Some((c, t)) => r matches Some((c2, t2)) && c2@ == c && t2@ == t,
            None => r is None,
        },
{
    match flash {
        Some(f) => {
            let v = chars_of(f.as_str());
            if chars_eq(&v, &chars_of("saved")) {
                Some(("flash flash-success".to_owned(), "Configuration saved".to_owned()))
            } else if chars_eq(&v, &chars_of("enabled")) {
                Some(("flash flash-success".to_owned(), "Backups enabled".to_owned()))
            } else if chars_eq(&v, &chars_of("disabled")) {
                Some(("flash flash-info".to_owned(), "Backups paused".to_owned()))
            } else if chars_eq(&v, &chars_of("restored")) {
                Some(("flash flash-success".to_owned(), "Database restored from backup".to_owned()))
            } else if chars_eq(&v, &chars_of("restore_failed")) {
                Some(
                    (
                        "flash flash-error".to_owned(),
                        "Restore failed — check server logs for details".to_owned(),
                    ),
                )
            } else if chars_eq(&v, &chars_of("password_changed")) {
                Some(("flash flash-success".to_owned(), "Password updated successfully".to_owned()))
            } else {
                None
            }
        },
        None => None,
    }
}

} // verus!
