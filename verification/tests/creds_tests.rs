use oneroster::creds::CredentialStore;
use oneroster::error::CredentialError;

fn store_with_scopes(scopes: &[&str]) -> CredentialStore {
    CredentialStore::new(scopes.iter().map(|s| s.to_string()).collect())
}

#[test]
fn revoke_unknown_id_is_not_found() {
    let mut cs = store_with_scopes(&["roster.readonly"]);
    assert_eq!(cs.revoke("unknown-id"), Err(CredentialError::NotFound));
}

#[test]
fn revoke_issued_then_lookup_fails() {
    let mut cs = store_with_scopes(&["roster.readonly"]);
    let out = cs
        .issue(
            "tag1".to_string(),
            "roster.readonly",
            "cid-1".to_string(),
            "plain-secret".to_string(),
            "encoded-secret".to_string(),
        )
        .unwrap();
    assert_eq!(out.client_id, "cid-1");
    assert_eq!(out.client_secret, "plain-secret");
    assert!(cs.lookup("cid-1").is_ok());
    assert_eq!(cs.revoke("cid-1"), Ok(()));
    assert!(matches!(cs.lookup("cid-1"), Err(CredentialError::NotFound)));
    assert_eq!(cs.revoke("cid-1"), Err(CredentialError::NotFound));
}

#[test]
fn unknown_scopes_are_silently_skipped() {
    let mut cs = store_with_scopes(&["roster.readonly"]);
    let out = cs
        .issue(
            "t".to_string(),
            "roster.readonly unknown.scope",
            "cid-1".to_string(),
            "s".to_string(),
            "e".to_string(),
        )
        .unwrap();
    assert_eq!(out.scope, "roster.readonly");
    let resolved = cs.lookup("cid-1").unwrap();
    assert_eq!(resolved.scope, "roster.readonly");
}

#[test]
fn duplicate_scope_names_grant_once() {
    let mut cs = store_with_scopes(&["a.readonly", "b.readonly"]);
    let out = cs
        .issue(
            "t".to_string(),
            "a.readonly a.readonly b.readonly",
            "cid-1".to_string(),
            "s".to_string(),
            "e".to_string(),
        )
        .unwrap();
    assert_eq!(out.scope, "a.readonly b.readonly");
}

#[test]
fn lookup_returns_stored_encoded_secret() {
    let mut cs = store_with_scopes(&["a.readonly"]);
    cs.issue(
        "t".to_string(),
        "a.readonly",
        "cid-1".to_string(),
        "plain".to_string(),
        "encoded".to_string(),
    )
    .unwrap();
    let resolved = cs.lookup("cid-1").unwrap();
    assert_eq!(resolved.client_secret, "encoded");
}

#[test]
fn credential_with_no_scopes_is_unresolvable() {
    let mut cs = store_with_scopes(&["a.readonly"]);
    cs.issue(
        "t".to_string(),
        "unknown.only",
        "cid-1".to_string(),
        "s".to_string(),
        "e".to_string(),
    )
    .unwrap();
    assert!(matches!(cs.lookup("cid-1"), Err(CredentialError::NotFound)));
}

#[test]
fn duplicate_client_id_is_rejected() {
    let mut cs = store_with_scopes(&["a.readonly"]);
    cs.issue(
        "t".to_string(),
        "a.readonly",
        "cid-1".to_string(),
        "s".to_string(),
        "e".to_string(),
    )
    .unwrap();
    let r = cs.issue(
        "t2".to_string(),
        "a.readonly",
        "cid-1".to_string(),
        "s2".to_string(),
        "e2".to_string(),
    );
    assert!(matches!(r, Err(CredentialError::DuplicateClientId)));
}

#[test]
fn list_shows_only_users_with_scopes() {
    let mut cs = store_with_scopes(&["a.readonly"]);
    cs.issue(
        "first".to_string(),
        "a.readonly",
        "cid-1".to_string(),
        "s".to_string(),
        "e".to_string(),
    )
    .unwrap();
    cs.issue(
        "second".to_string(),
        "unknown.only",
        "cid-2".to_string(),
        "s".to_string(),
        "e".to_string(),
    )
    .unwrap();
    let users = cs.list();
    assert_eq!(users.len(), 1);
    assert_eq!(users[0].tag, "first");
    assert_eq!(users[0].client_id, "cid-1");
    assert_eq!(users[0].scope, "a.readonly");
}
