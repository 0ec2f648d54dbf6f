use role_auth::gate::{AuthenticationGuard, GateOutcome, RoleGuard};
use role_auth::roles::Role;
use role_auth::token::{issue, verify, Claims, TOKEN_TTL_SECS};
use role_auth::users::{login, prepare_registration, prepare_update, NewUserObject, UserObject};

const SECRET: &[u8] = b"gate-test-secret";
const NOW: u64 = 1_700_000_000;

fn registered_user(id: i32, email: &str, password: &str, role: &str) -> UserObject {
    let new_user = NewUserObject {
        pseudo: Some(String::from("someone")),
        email: Some(String::from(email)),
        password_hash: Some(String::from(password)),
        role: Some(String::from(role)),
    };
    let stored = prepare_registration(&new_user).expect("registration must hash the password");
    assert_eq!(stored.email.as_deref(), Some(email));
    assert_eq!(stored.role.as_deref(), Some(role));
    let hash = stored.password_hash.expect("a hash must be present");
    assert_ne!(hash, password, "the password must not be stored in clear");
    UserObject {
        id,
        pseudo: stored.pseudo,
        email: Some(String::from(email)),
        password_hash: Some(hash),
        role: Some(String::from(role)),
    }
}

#[test]
fn admin_end_to_end_bypasses_every_requirement() {
    let user = registered_user(1, "admin@example.com", "hunter2", "0001");

    // login succeeds with the right password and issues a token
    let token = login(&user, "hunter2", SECRET, NOW).expect("login must succeed");
    let claims = verify(&token, SECRET, NOW).expect("issued token must verify");
    assert_eq!(claims.sub, "admin@example.com");
    assert_eq!(claims.role, "0001");
    assert_eq!(claims.iat, NOW);
    assert_eq!(claims.exp, NOW + TOKEN_TTL_SECS);

    // an operation requiring Admin admits the admin
    let admin_gate = AuthenticationGuard::with_roles(vec![Role::Admin]);
    assert!(matches!(
        admin_gate.evaluate(Some(&token), SECRET, NOW),
        GateOutcome::Authorized(_)
    ));

    // an operation requiring only Teacher still admits the admin (bypass)
    let teacher_gate = AuthenticationGuard::with_roles(vec![Role::Teacher]);
    assert!(matches!(
        teacher_gate.evaluate(Some(&token), SECRET, NOW),
        GateOutcome::Authorized(_)
    ));
}

#[test]
fn learner_is_forbidden_from_admin_operations() {
    let user = registered_user(2, "learner@example.com", "letmein", "1000");
    let token = login(&user, "letmein", SECRET, NOW).expect("login must succeed");
    let admin_gate = AuthenticationGuard::with_roles(vec![Role::Admin]);
    assert!(matches!(
        admin_gate.evaluate(Some(&token), SECRET, NOW),
        GateOutcome::Forbidden
    ));
    // but an unrestricted operation admits any authenticated caller
    let open_gate = AuthenticationGuard::new();
    assert!(matches!(
        open_gate.evaluate(Some(&token), SECRET, NOW),
        GateOutcome::Authorized(_)
    ));
}

#[test]
fn wrong_password_and_missing_fields_fail_login() {
    let user = registered_user(3, "who@example.com", "right-password", "0100");
    assert!(login(&user, "wrong-password", SECRET, NOW).is_none());
    assert!(login(&user, "", SECRET, NOW).is_none());

    let incomplete = UserObject {
        id: 4,
        pseudo: None,
        email: None,
        password_hash: user.password_hash.clone(),
        role: user.role.clone(),
    };
    assert!(login(&incomplete, "right-password", SECRET, NOW).is_none());
}

#[test]
fn gate_rejects_missing_expired_and_foreign_tokens() {
    let gate = AuthenticationGuard::new();
    assert!(matches!(
        gate.evaluate(None, SECRET, NOW),
        GateOutcome::Unauthorized
    ));
    assert!(matches!(
        gate.evaluate(Some("not-a-token"), SECRET, NOW),
        GateOutcome::Unauthorized
    ));

    let claims = Claims {
        sub: String::from("s@example.com"),
        iat: NOW,
        exp: NOW + 10,
        role: String::from("0001"),
    };
    let token = issue(&claims, SECRET);
    // expired from the instant now == exp
    assert!(matches!(
        gate.evaluate(Some(&token), SECRET, NOW + 10),
        GateOutcome::Unauthorized
    ));
    // signed under another secret
    assert!(matches!(
        gate.evaluate(Some(&token), b"other", NOW),
        GateOutcome::Unauthorized
    ));
}

#[test]
fn role_guard_checks_attached_claims() {
    let admin = Claims {
        sub: String::from("a@example.com"),
        iat: NOW,
        exp: NOW + 10,
        role: String::from("0001"),
    };
    let learner = Claims {
        sub: String::from("l@example.com"),
        iat: NOW,
        exp: NOW + 10,
        role: String::from("1000"),
    };
    let broken = Claims {
        sub: String::from("b@example.com"),
        iat: NOW,
        exp: NOW + 10,
        role: String::from("10"),
    };
    let guard = RoleGuard::new(vec![Role::Teacher, Role::Conceptor]);
    assert!(matches!(
        guard.evaluate(Some(&admin)),
        GateOutcome::Authorized(_)
    ));
    assert!(matches!(guard.evaluate(Some(&learner)), GateOutcome::Forbidden));
    assert!(matches!(guard.evaluate(Some(&broken)), GateOutcome::Forbidden));
    assert!(matches!(guard.evaluate(None), GateOutcome::Unauthorized));
}

#[test]
fn prepare_update_rehashes_and_keeps_fields() {
    let user = UserObject {
        id: 7,
        pseudo: Some(String::from("p")),
        email: Some(String::from("u@example.com")),
        password_hash: Some(String::from("fresh-plaintext")),
        role: Some(String::from("0010")),
    };
    let updated = prepare_update(&user).expect("update must hash the password");
    assert_eq!(updated.id, 7);
    assert_eq!(updated.email.as_deref(), Some("u@example.com"));
    assert_eq!(updated.role.as_deref(), Some("0010"));
    assert_ne!(updated.password_hash.as_deref(), Some("fresh-plaintext"));

    let passwordless = UserObject {
        id: 8,
        pseudo: None,
        email: Some(String::from("x@example.com")),
        password_hash: None,
        role: Some(String::from("0000")),
    };
    assert!(prepare_update(&passwordless).is_none());
}

#[test]
fn registration_requires_a_password() {
    let new_user = NewUserObject {
        pseudo: Some(String::from("p")),
        email: Some(String::from("n@example.com")),
        password_hash: None,
        role: Some(String::from("0000")),
    };
    assert!(prepare_registration(&new_user).is_none());
}

#[test]
fn malformed_role_in_a_valid_token_fails_closed() {
    // a token can carry a malformed role code; a role requirement then
    // forbids the request instead of allowing it
    let claims = Claims {
        sub: String::from("odd@example.com"),
        iat: NOW,
        exp: NOW + 10,
        role: String::from("abcd"),
    };
    let token = issue(&claims, SECRET);
    let gated = AuthenticationGuard::with_roles(vec![Role::Learner]);
    assert!(matches!(
        gated.evaluate(Some(&token), SECRET, NOW),
        GateOutcome::Forbidden
    ));
    // with no role requirement, authentication alone admits the caller
    let open_gate = AuthenticationGuard::new();
    assert!(matches!(
        open_gate.evaluate(Some(&token), SECRET, NOW),
        GateOutcome::Authorized(_)
    ));
}
