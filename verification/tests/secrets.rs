use role_auth::secrets::{initialize_secrets, SecretEntry, Secrets};

#[test]
fn empty_store_holds_nothing() {
    let store = Secrets::new();
    assert_eq!(store.get_secret("JWT_SECRET"), None);
    assert_eq!(store.get_secret(""), None);
}

#[test]
fn inserted_secrets_are_found_by_name() {
    let mut store = Secrets::new();
    store.insert(String::from("JWT_SECRET"), String::from("s3cr3t"));
    store.insert(String::from("DATABASE_URL"), String::from("postgres://db"));
    assert_eq!(store.get_secret("JWT_SECRET").as_deref(), Some("s3cr3t"));
    assert_eq!(
        store.get_secret("DATABASE_URL").as_deref(),
        Some("postgres://db")
    );
    assert_eq!(store.get_secret("OTHER"), None);
    assert_eq!(store.get_secret("jwt_secret"), None);
}

#[test]
fn later_insert_shadows_earlier_one() {
    let mut store = Secrets::new();
    store.insert(String::from("JWT_SECRET"), String::from("old"));
    store.insert(String::from("JWT_SECRET"), String::from("new"));
    assert_eq!(store.get_secret("JWT_SECRET").as_deref(), Some("new"));
}

#[test]
fn initialize_takes_the_first_entry_per_name() {
    let store = initialize_secrets(vec![
        SecretEntry {
            name: String::from("JWT_SECRET"),
            value: String::from("wins"),
        },
        SecretEntry {
            name: String::from("JWT_SECRET"),
            value: String::from("loses"),
        },
        SecretEntry {
            name: String::from("API_KEY"),
            value: String::from("k"),
        },
    ]);
    assert_eq!(store.get_secret("JWT_SECRET").as_deref(), Some("wins"));
    assert_eq!(store.get_secret("API_KEY").as_deref(), Some("k"));
}
