//! User records and the credential side of login and registration.
//!
//! Password hashing and checking are delegated to bcrypt behind trusted
//! wrappers; everything around them — which fields must be present, what a
//! successful login issues, what registration stores — is verified.

use vstd::prelude::*;

use crate::token::ClaimsView;
use crate::token::TOKEN_TTL_SECS;
use crate::token::issue_session;
use crate::token::spec_token;

verus! {

/// A stored user record.
pub struct UserObject {
    pub id: i32,
    pub pseudo: Option<String>,
    pub email: Option<String>,
    pub password_hash: Option<String>,
    pub role: Option<String>,
}

/// A user record to be created: like `UserObject` but without an identifier,
/// and with `password_hash` still holding the plaintext password until
/// `prepare_registration` replaces it.
pub struct NewUserObject {
    pub pseudo: Option<String>,
    pub email: Option<String>,
    pub password_hash: Option<String>,
    pub role: Option<String>,
}

/// The site information record.
pub struct InfoObject {
    pub cgu: String,
    pub legal_mentions: Option<String>,
}

/// The body of a login request.
pub struct LoginRequest {
    pub email: String,
    pub password: String,
}

/// Whether bcrypt accepts a password against a stored hash string. The
/// outcome of `bcrypt::verify` depends on the password and the hash alone,
/// so it is given a name here; a malformed hash accepts nothing.
pub uninterp spec fn bcrypt_accepts(password: Seq<char>, hash: Seq<char>) -> bool;

/// Relies on `bcrypt::verify`: it re-derives the hash of `password` with the
/// cost and salt carried inside `stored_hash` and compares in constant time,
/// a pure function of the two arguments. A hash it cannot parse makes the
/// call fail, and `false` is returned, which the name covers.
#[verifier::external_body]
pub(crate) fn verify_password(password: &str, stored_hash: &str) -> (r: bool)
    ensures
        r == bcrypt_accepts(password@, stored_hash@),
{
    bcrypt::verify(password, stored_hash).unwrap_or(false)
}

/// Relies on `bcrypt::hash` at the default cost: it hashes the password with
/// a fresh random salt, and per the crate's source `bcrypt::verify` accepts
/// the password against every hash it returns. It fails only when the
/// operating system's randomness is unavailable for the salt.
#[verifier::external_body]
fn hash_password(password: &str) -> (r: Option<String>)
    ensures
        r matches Some(h) ==> bcrypt_accepts(password@, h@),
{
    bcrypt::hash(password, bcrypt::DEFAULT_COST).ok()
}

/// Option-of-string equality by content.
pub open spec fn opt_str_like(a: Option<String>, b: Option<String>) -> bool {
    match (a, b) {
        (Some(x), Some(y)) => x@ == y@,
        (None, None) => true,
        _ => false,
    }
}

fn clone_opt_string(o: &Option<String>) -> (r: Option<String>)
    ensures
        opt_str_like(r, *o),
{
    match o {
        Some(s) => Some(s.clone()),
        None => None,
    }
}

/// The login computation for a user record fetched by the caller: the
/// password attempt is checked against the stored hash, and on success a
/// session token bound to the record's email and role code is issued, valid
/// for `TOKEN_TTL_SECS` from `now`. Returns `None` — invalid credentials —
/// when the record lacks an email, stored hash or role, or the password does
/// not match.
pub fn login(user: &UserObject, password: &str, secret: &[u8], now: u64) -> (r: Option<String>)
    requires
        now + TOKEN_TTL_SECS <= u64::MAX,
    ensures
        r is Some <==> user.email is Some && user.password_hash is Some && user.role is Some
            && bcrypt_accepts(password@, (user.password_hash->Some_0)@),
        r matches Some(t) ==> t@ == spec_token(
            ClaimsView {
                sub: (user.email->Some_0)@,
                iat: now,
                exp: (now + TOKEN_TTL_SECS) as u64,
                role: (user.role->Some_0)@,
            },
            secret@,
        ),
{
    let email = match &user.email {
        Some(e) => e,
        None => {
            return None;
        },
    };
    let hash = match &user.password_hash {
        Some(h) => h,
        None => {
            return None;
        },
    };
    let role = match &user.role {
        Some(ro) => ro,
        None => {
            return None;
        },
    };
    if !verify_password(password, hash.as_str()) {
        return None;
    }
    Some(issue_session(email.as_str(), role.as_str(), secret, now))
}

/// The registration computation: replaces the plaintext password of a new
/// user record with its bcrypt hash, leaving every other field as it is.
/// Returns `None` when the record carries no password, or when hashing
/// itself fails (no randomness for the salt).
pub fn prepare_registration(new_user: &NewUserObject) -> (r: Option<NewUserObject>)
    ensures
        new_user.password_hash is None ==> r is None,
        r matches Some(u) ==> opt_str_like(u.pseudo, new_user.pseudo) && opt_str_like(
            u.email,
            new_user.email,
        ) && opt_str_like(u.role, new_user.role) && new_user.password_hash is Some
            && u.password_hash is Some && bcrypt_accepts(
            (new_user.password_hash->Some_0)@,
            (u.password_hash->Some_0)@,
        ),
{
    let pw = match &new_user.password_hash {
        Some(p) => p,
        None => {
            return None;
        },
    };
    let hashed = match hash_password(pw.as_str()) {
        Some(h) => h,
        None => {
            return None;
        },
    };
    Some(
        NewUserObject {
            pseudo: clone_opt_string(&new_user.pseudo),
            email: clone_opt_string(&new_user.email),
            password_hash: Some(hashed),
            role: clone_opt_string(&new_user.role),
        },
    )
}

/// The update computation: replaces the plaintext password of an existing
/// record with its bcrypt hash, keeping the identifier and every other
/// field. The caller is expected to hand in plaintext; a record without a
/// password cannot be updated this way.
pub fn prepare_update(user: &UserObject) -> (r: Option<UserObject>)
    ensures
        user.password_hash is None ==> r is None,
        r matches Some(u) ==> u.id == user.id && opt_str_like(u.pseudo, user.pseudo)
            && opt_str_like(u.email, user.email) && opt_str_like(u.role, user.role)
            && user.password_hash is Some && u.password_hash is Some && bcrypt_accepts(
            (user.password_hash->Some_0)@,
            (u.password_hash->Some_0)@,
        ),
{
    let pw = match &user.password_hash {
        Some(p) => p,
        None => {
            return None;
        },
    };
    let hashed = match hash_password(pw.as_str()) {
        Some(h) => h,
        None => {
            return None;
        },
    };
    Some(
        UserObject {
            id: user.id,
            pseudo: clone_opt_string(&user.pseudo),
            email: clone_opt_string(&user.email),
            password_hash: Some(hashed),
            role: clone_opt_string(&user.role),
        },
    )
}

} // verus!
