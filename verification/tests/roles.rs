use role_auth::roles::{authorize, has_role, is_admin, validate, Decision, Role};

#[test]
fn validate_accepts_well_formed_codes() {
    assert!(validate("0000"));
    assert!(validate("1111"));
    assert!(validate("0101"));
    assert!(validate("1000"));
    assert!(validate("0001"));
}

#[test]
fn validate_rejects_wrong_length() {
    assert!(!validate(""));
    assert!(!validate("0"));
    assert!(!validate("000"));
    assert!(!validate("00000"));
    assert!(!validate("01010101"));
}

#[test]
fn validate_rejects_foreign_characters() {
    assert!(!validate("0102"));
    assert!(!validate("abcd"));
    assert!(!validate("01O1"));
    assert!(!validate("01 1"));
    assert!(!validate("０101"));
    assert!(!validate("🙂11"));
}

#[test]
fn role_positions_are_stable() {
    assert_eq!(Role::Learner.index(), 0);
    assert_eq!(Role::Teacher.index(), 1);
    assert_eq!(Role::Conceptor.index(), 2);
    assert_eq!(Role::Admin.index(), 3);
}

#[test]
fn has_role_reads_the_right_bit() {
    assert!(has_role("1000", Role::Learner));
    assert!(!has_role("1000", Role::Teacher));
    assert!(has_role("0100", Role::Teacher));
    assert!(has_role("0010", Role::Conceptor));
    assert!(has_role("0001", Role::Admin));
    assert!(!has_role("1110", Role::Admin));
}

#[test]
fn is_admin_reads_the_last_bit() {
    assert!(is_admin("0001"));
    assert!(is_admin("1111"));
    assert!(!is_admin("1110"));
    assert!(!is_admin("0000"));
}

#[test]
fn authorize_empty_requirement_allows_every_valid_code() {
    assert_eq!(authorize("0000", &[]), Decision::Allow);
    assert_eq!(authorize("1000", &[]), Decision::Allow);
    assert_eq!(authorize("1111", &[]), Decision::Allow);
    assert_eq!(authorize("0001", &[]), Decision::Allow);
}

#[test]
fn authorize_any_of_semantics() {
    // Teacher bit set
    assert_eq!(
        authorize("0100", &[Role::Teacher, Role::Conceptor]),
        Decision::Allow
    );
    // Conceptor bit set
    assert_eq!(
        authorize("0010", &[Role::Teacher, Role::Conceptor]),
        Decision::Allow
    );
    // only Learner set
    assert_eq!(
        authorize("1000", &[Role::Teacher, Role::Conceptor]),
        Decision::Deny
    );
}

#[test]
fn authorize_admin_bypasses_every_requirement() {
    assert_eq!(authorize("0001", &[Role::Admin]), Decision::Allow);
    assert_eq!(authorize("0001", &[Role::Teacher]), Decision::Allow);
    assert_eq!(
        authorize("1001", &[Role::Learner, Role::Conceptor]),
        Decision::Allow
    );
    assert_eq!(authorize("1111", &[Role::Learner]), Decision::Allow);
}

#[test]
fn authorize_reports_malformed_codes() {
    assert_eq!(authorize("", &[Role::Admin]), Decision::Malformed);
    assert_eq!(authorize("000", &[Role::Teacher]), Decision::Malformed);
    assert_eq!(authorize("00000", &[Role::Learner]), Decision::Malformed);
    assert_eq!(authorize("0102", &[Role::Admin]), Decision::Malformed);
    assert_eq!(authorize("abcd", &[Role::Teacher]), Decision::Malformed);
}

#[test]
fn authorize_denies_without_any_required_role() {
    assert_eq!(authorize("1000", &[Role::Admin]), Decision::Deny);
    assert_eq!(authorize("0000", &[Role::Learner]), Decision::Deny);
    assert_eq!(
        authorize("0110", &[Role::Learner]),
        Decision::Deny
    );
}
