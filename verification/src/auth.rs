//! Signing in and setting the password: the forms, the rules a new
//! password must meet, and the decisions made with the stored hash.

use vstd::prelude::*;
use crate::csv_import::is_bad_request;
use crate::error::AppError;
use crate::text::{chars_eq, chars_of};

verus! {

/// The sign-in form.
pub struct LoginForm {
    pub password: String,
}

/// The query of the sign-in page.
pub struct FlashParam {
    pub flash: Option<String>,
}

/// The form that changes the password.
pub struct ChangePasswordForm {
    pub current_password: Option<String>,
    pub new_password: String,
    pub confirm_password: String,
}

/// The form that sets the first password.
pub struct SetupPasswordForm {
    pub new_password: String,
    pub confirm_password: String,
}

/// Where a successful sign-in leads.
#[derive(Clone, Copy, Debug, PartialEq, Eq, Structural)]
pub enum LoginOutcome {
    /// No password is set yet: on to setting one.
    ChangePassword,
    /// The password matched: on to the dashboard.
    Dashboard,
}

/// The number of bytes a character takes in UTF-8.
pub open spec fn utf8_width(c: char) -> nat {
    let u = c as u32;
    if u < 0x80 {
        1
    } else if u < 0x800 {
        2
    } else if u < 0x10000 {
        3
    } else {
        4
    }
}

/// The length of the text in UTF-8 bytes (`str::len`).
pub open spec fn utf8_len(s: Seq<char>) -> nat
    decreases s.len(),
{
    if s.len() == 0 {
        0
    } else {
        utf8_len(s.drop_last()) + utf8_width(s.last())
    }
}

/// The error, if any, for a new password and its confirmation: at least
/// four bytes are needed, and the two must be the same.
pub open spec fn password_problem(new: Seq<char>, confirm: Seq<char>) -> Option<Seq<char>> {
    if utf8_len(new) < 4 {
        Some("New password must be at least 4 characters"@)
    } else if new != confirm {
        Some("New passwords do not match"@)
    } else {
        None
    }
}

/// Whether the text is at least four bytes long in UTF-8.
fn at_least_four_bytes(s: &Vec<char>) -> (r: bool)
    ensures
        r == (utf8_len(s@) >= 4),
{
    let mut n: usize = 0;
    let mut i: usize = 0;
    while i < s.len() && n < 4
        invariant
            i <= s.len(),
            n == utf8_len(s@.take(i as int)),
        decreases s.len() - i,
    {
        assert(s@.take(i + 1).drop_last() =~= s@.take(i as int));
        let u = s[i] as u32;
        let w: usize = if u < 0x80 {
            1
        } else if u < 0x800 {
            2
        } else if u < 0x10000 {
            3
        } else {
            4
        };
        n = n + w;
        i = i + 1;
    }
    if n >= 4 {
        proof {
            lemma_utf8_len_prefix(s@, i as int);
        }
        true
    } else {
        assert(s@.take(s.len() as int) =~= s@);
        false
    }
}

/// A prefix is no longer than the whole text.
proof fn lemma_utf8_len_prefix(s: Seq<char>, i: int)
    requires
        0 <= i <= s.len(),
    ensures
        utf8_len(s.take(i)) <= utf8_len(s),
    decreases s.len() - i,
{
    if i < s.len() {
        lemma_utf8_len_prefix(s, i + 1);
        assert(s.take(i + 1).drop_last() =~= s.take(i));
    } else {
        assert(s.take(i) =~= s);
    }
}

/// Checks a new password and its confirmation (see `password_problem`).
pub fn validate_new_password(new_password: &str, confirm_password: &str) -> (r: Result<(), AppError>)
    ensures
        match password_problem(new_password@, confirm_password@) {
            None => r is Ok,
            Some(m) => r matches Err(e) && is_bad_request(e, m),
        },
{
    let new = chars_of(new_password);
    if !at_least_four_bytes(&new) {
        return Err(AppError::BadRequest("New password must be at least 4 characters".to_owned()));
    }
    if !chars_eq(&new, &chars_of(confirm_password)) {
        return Err(AppError::BadRequest("New passwords do not match".to_owned()));
    }
    Ok(())
}

/// What `bcrypt::verify` answers for a password and a stored hash: whether
/// they match, or `None` for its error (a malformed hash).
pub uninterp spec fn bcrypt_verify(password: Seq<char>, hash: Seq<char>) -> Option<bool>;

/// Checks a password against a bcrypt hash with `bcrypt::verify`. The
/// contract names the answer.
#[verifier::external_body]
fn verify_password(password: &str, hash: &str) -> (r: Option<bool>)
    ensures
        r == bcrypt_verify(password@, hash@),
{
    bcrypt::verify(password, hash).ok()
}

/// Hashes a password with `bcrypt::hash` at the default cost. The salt is
/// random, so the hash itself gets no name; what holds of every hash it
/// gives is that `bcrypt::verify` accepts the same password against it,
/// since `verify` reads the cost and salt back out of the hash and
/// recomputes. Whether it succeeds (the OS's randomness) is not stated; an
/// error of the crate comes back as its text.
#[verifier::external_body]
fn hash_password(password: &str) -> (r: Result<String, String>)
    ensures
        r matches Ok(h) ==> bcrypt_verify(password@, h@) == Some(true),
{
    bcrypt::hash(password, bcrypt::DEFAULT_COST).map_err(|e| e.to_string())
}

/// The outcome of signing in with a password: on to setting a password
/// when none is set, else to the dashboard when it matches the stored
/// hash; a wrong password is unauthorized and a malformed hash an internal
/// error.
pub fn login_outcome(needs_password: bool, password: &str, stored_hash: &str) -> (r: Result<
    LoginOutcome,
    AppError,
>)
    ensures
        needs_password ==> r == Ok::<LoginOutcome, AppError>(LoginOutcome::ChangePassword),
        !needs_password ==> match bcrypt_verify(password@, stored_hash@) {
            Some(true) => r == Ok::<LoginOutcome, AppError>(LoginOutcome::Dashboard),
            Some(false) => r matches Err(AppError::Unauthorized(m)) && m@ == "Invalid password"@,
            None => r matches Err(AppError::Internal(_)),
        },
{
    if needs_password {
        return Ok(LoginOutcome::ChangePassword);
    }
    match verify_password(password, stored_hash) {
        Some(true) => Ok(LoginOutcome::Dashboard),
        Some(false) => Err(AppError::Unauthorized("Invalid password".to_owned())),
        None => Err(AppError::Internal("password verification failed".to_owned())),
    }
}

/// The new hash for a password change: the new password must pass
/// `validate_new_password`; when a password is set already, the current
/// one (empty when not given) must match the stored hash, else the change
/// is unauthorized. The new password is then hashed: a hash that is
/// returned accepts the new password on every later sign-in.
pub fn change_password(
    needs_password: bool,
    form: &ChangePasswordForm,
    stored_hash: &str,
) -> (r: Result<String, AppError>)
    ensures
        r matches Ok(h) ==> bcrypt_verify(form.new_password@, h@) == Some(true),
        match password_problem(form.new_password@, form.confirm_password@) {
            Some(m) => r matches Err(e) && is_bad_request(e, m),
            None => if needs_password {
                r is Ok || r matches Err(AppError::Internal(_))
            } else {
                match bcrypt_verify(
                    match form.current_password {
                        Some(c) => c@,
                        None => Seq::empty(),
                    },
                    stored_hash@,
                ) {
                    Some(true) => r is Ok || r matches Err(AppError::Internal(_)),
                    Some(false) => r matches Err(AppError::Unauthorized(m)) && m@
                        == "Current password is incorrect"@,
                    None => r matches Err(AppError::Internal(_)),
                }
            },
        },
{
    validate_new_password(form.new_password.as_str(), form.confirm_password.as_str())?;
    if !needs_password {
        let current = match &form.current_password {
            Some(c) => c.clone(),
            None => String::new(),
        };
        match verify_password(current.as_str(), stored_hash) {
            Some(true) => {},
            Some(false) => {
                return Err(AppError::Unauthorized("Current password is incorrect".to_owned()));
            },
            None => {
                return Err(AppError::Internal("password verification failed".to_owned()));
            },
        }
    }
    match hash_password(form.new_password.as_str()) {
        Ok(h) => Ok(h),
        Err(e) => Err(AppError::Internal(e)),
    }
}

/// The hash for the first password: refused once a password is set, else
/// the new password must pass `validate_new_password` and is hashed: a
/// hash that is returned accepts the new password on every later sign-in.
pub fn setup_password(needs_password: bool, form: &SetupPasswordForm) -> (r: Result<String, AppError>)
    ensures
        r matches Ok(h) ==> bcrypt_verify(form.new_password@, h@) == Some(true),
        !needs_password ==> (r matches Err(e) && is_bad_request(
            e,
            "Password is already set. Please log in."@,
        )),
        needs_password ==> match password_problem(form.new_password@, form.confirm_password@) {
            Some(m) => r matches Err(e) && is_bad_request(e, m),
            None => r is Ok || r matches Err(AppError::Internal(_)),
        },
{
    if !needs_password {
        return Err(AppError::BadRequest("Password is already set. Please log in.".to_owned()));
    }
    validate_new_password(form.new_password.as_str(), form.confirm_password.as_str())?;
    match hash_password(form.new_password.as_str()) {
        Ok(h) => Ok(h),
        Err(e) => Err(AppError::Internal(e)),
    }
}

/// The notice shown on the sign-in page for its `flash` parameter, as a
/// CSS class and text.
pub open spec fn spec_login_notice(flash: Option<Seq<char>>) -> Option<(Seq<char>, Seq<char>)> {
    match flash {
        Some(f) => if f == "restored"@ {
            Some(("flash flash-success"@, "Database restored from backup. Please log in again."@))
        } else if f == "restore_failed"@ {
            Some(("flash flash-error"@, "Restore failed — check server logs for details."@))
        } else {
            None
        },
        None => None,
    }
}

/// The notice of the sign-in page, if its `flash` parameter asks for one
/// (see `spec_login_notice`).
pub fn login_notice(params: &FlashParam) -> (r: Option<(String, String)>)
    ensures
        match spec_login_notice(
            match params.flash {
                Some(f) => Some(f@),
                None => None,
            },
        ) {
            Some((c, t)) => r matches Some((c2, t2)) && c2@ == c && t2@ == t,
            None => r is None,
        },
{
    match &params.flash {
        Some(f) => {
            let v = chars_of(f.as_str());
            if chars_eq(&v, &chars_of("restored")) {
                Some(
                    (
                        "flash flash-success".to_owned(),
                        "Database restored from backup. Please log in again.".to_owned(),
                    ),
                )
            } else if chars_eq(&v, &chars_of("restore_failed")) {
                Some(
                    (
                        "flash flash-error".to_owned(),
                        "Restore failed — check server logs for details.".to_owned(),
                    ),
                )
            } else {
                None
            }
        },
        None => None,
    }
}

} // verus!
