use nylon::auth::{
    authorize, bearer_token, check_key, generate_key, hex_lower, http_authorize, key_from_bytes, ApiKeys, AuthError,
    KeyGrant, KeyTableError, Scope, StatusCode,
};

fn keys() -> ApiKeys {
    ApiKeys::parse(
        r#"[
            {"key": "k-read", "tenant": "acme", "scope": "read"},
            {"key": "k-write", "tenant": "acme", "scope": "write"},
            {"key": "k-admin", "tenant": "*", "scope": "admin"}
        ]"#,
    )
    .unwrap()
}

#[test]
fn parse_and_authenticate() {
    let k = keys();
    assert_eq!(k.len(), 3);
    let g = k.authenticate("k-read").unwrap();
    assert_eq!(g.tenant, "acme");
    assert_eq!(g.scope, Scope::Read);
    assert!(k.authenticate("nope").is_none());
}

#[test]
fn wildcard_tenant_requires_admin() {
    assert!(ApiKeys::parse(r#"[{"key":"x","tenant":"*","scope":"write"}]"#).is_err());
    assert!(ApiKeys::parse(r#"[{"key":"x","tenant":"*","scope":"admin"}]"#).is_ok());
}

#[test]
fn missing_scope_defaults_to_read() {
    let k = ApiKeys::parse(r#"{"keys":[{"key":"x","tenant":"t"}]}"#).unwrap();
    assert_eq!(k.authenticate("x").unwrap().scope, Scope::Read);
}

#[test]
fn scope_ordering() {
    assert!(Scope::Read.allows(Scope::Read));
    assert!(!Scope::Read.allows(Scope::Write));
    assert!(Scope::Admin.allows(Scope::Write));
    assert!(Scope::Write.allows(Scope::Read));
}

#[test]
fn open_mode_passes_through() {
    assert!(check_key(None, None).is_ok());
}

#[test]
fn missing_key_rejected() {
    let auth = keys();
    let err = check_key(Some(&auth), None).unwrap_err();
    assert_eq!(err.code(), StatusCode::Unauthenticated);
}

#[test]
fn valid_key_grant_in_extensions() {
    let auth = keys();
    let grant = check_key(Some(&auth), Some("k-write")).unwrap().unwrap();
    assert_eq!(grant.tenant, "acme");
    assert_eq!(grant.scope, Scope::Write);
}

#[test]
fn authorize_checks_scope_and_tenant() {
    let grant = KeyGrant { tenant: "acme".into(), scope: Scope::Read };
    let err = authorize(Some(&grant), Scope::Write, "acme").unwrap_err();
    assert_eq!(err.code(), StatusCode::PermissionDenied);
    assert!(authorize(Some(&grant), Scope::Read, "acme").is_ok());
    let write = KeyGrant { tenant: "acme".into(), scope: Scope::Write };
    let err = authorize(Some(&write), Scope::Write, "other").unwrap_err();
    assert_eq!(err.code(), StatusCode::PermissionDenied);
    let admin = KeyGrant { tenant: "*".into(), scope: Scope::Admin };
    assert!(authorize(Some(&admin), Scope::Write, "other").is_ok());
    assert!(authorize(None, Scope::Write, "other").is_ok());
}

#[test]
fn generated_key_format() {
    let k = generate_key();
    assert!(k.starts_with("nyl_"));
    assert_eq!(k.len(), 4 + 32);
    assert_ne!(generate_key(), generate_key());
}

#[test]
fn refusal_details_name_levels_and_tenants() {
    let grant = KeyGrant { tenant: "acme".into(), scope: Scope::Read };
    assert_eq!(
        authorize(Some(&grant), Scope::Admin, "acme"),
        Err(AuthError::ScopeTooLow { has: Scope::Read, needed: Scope::Admin })
    );
    assert_eq!(
        authorize(Some(&grant), Scope::Read, "beta"),
        Err(AuthError::TenantNotCovered { key_tenant: "acme".into(), tenant: "beta".into() })
    );
}

#[test]
fn unknown_key_is_unauthenticated() {
    let auth = keys();
    let err = check_key(Some(&auth), Some("nope")).unwrap_err();
    assert_eq!(err, AuthError::InvalidKey);
    assert_eq!(err.code(), StatusCode::Unauthenticated);
}

#[test]
fn scope_names_roundtrip() {
    for s in [Scope::Read, Scope::Write, Scope::Admin] {
        assert_eq!(Scope::parse(s.as_str()), Some(s));
    }
    assert_eq!(Scope::parse("root"), None);
    assert_eq!(Scope::Write.as_str(), "write");
}

#[test]
fn key_table_errors() {
    assert!(matches!(ApiKeys::parse("not json"), Err(KeyTableError::Json(_))));
    assert_eq!(ApiKeys::parse(r#"{"other": []}"#).unwrap_err(), KeyTableError::NotAList);
    assert_eq!(ApiKeys::parse("[]").unwrap_err(), KeyTableError::Empty);
    assert_eq!(ApiKeys::parse(r#"[{"key":"a","tenant":"t"}, 5]"#).unwrap_err(), KeyTableError::BadEntry(2));
    assert_eq!(ApiKeys::parse(r#"[{"key":"","tenant":"t"}]"#).unwrap_err(), KeyTableError::EmptyField(1));
    assert_eq!(ApiKeys::parse(r#"[{"key":"a","tenant":"t","scope":"root"}]"#).unwrap_err(), KeyTableError::BadScope(1));
    assert_eq!(
        ApiKeys::parse(r#"[{"key":"a","tenant":"t"},{"key":"b","tenant":"*","scope":"read"}]"#).unwrap_err(),
        KeyTableError::WildcardNotAdmin(2)
    );
    assert_eq!(ApiKeys::parse(r#"[{"key":"a","tenant":1}]"#).unwrap_err(), KeyTableError::BadEntry(1));
}

#[test]
fn later_entry_replaces_earlier_key() {
    let k = ApiKeys::parse(
        r#"[{"key":"a","tenant":"t1","scope":"read"},{"key":"a","tenant":"t2","scope":"write"},["b","t3",null]]"#,
    )
    .unwrap();
    assert_eq!(k.len(), 2);
    let g = k.authenticate("a").unwrap();
    assert_eq!(g.tenant, "t2");
    assert_eq!(g.scope, Scope::Write);
    assert_eq!(k.authenticate("b").unwrap().scope, Scope::Read);
}

#[test]
fn http_key_sources() {
    let auth = keys();
    assert_eq!(bearer_token("Bearer k-read"), Some("k-read"));
    assert_eq!(bearer_token("Basic k-read"), None);
    let g = http_authorize(Some(&auth), None, Some("Bearer k-write"), Scope::Write, Some("acme")).unwrap().unwrap();
    assert_eq!(g.scope, Scope::Write);
    let g = http_authorize(Some(&auth), Some("k-read"), Some("Bearer k-write"), Scope::Read, None).unwrap().unwrap();
    assert_eq!(g.scope, Scope::Read);
    assert_eq!(
        http_authorize(Some(&auth), None, Some("Token k-write"), Scope::Read, None).unwrap_err(),
        AuthError::MissingKey
    );
    assert_eq!(
        http_authorize(Some(&auth), Some("k-read"), None, Scope::Write, None).unwrap_err().code(),
        StatusCode::PermissionDenied
    );
    assert_eq!(http_authorize(None, None, None, Scope::Admin, Some("x")).unwrap(), None);
}

#[test]
fn hex_and_key_text() {
    assert_eq!(hex_lower(&[0x00, 0x0f, 0xa5, 0xff]), "000fa5ff");
    assert_eq!(key_from_bytes(&[0xde, 0xad]), "nyl_dead");
}

#[test]
fn grant_tenant_mismatch_rejected() {
    let grant_a = KeyGrant { tenant: "tenant-a".into(), scope: Scope::Write };
    let err = authorize(Some(&grant_a), Scope::Write, "tenant-b").unwrap_err();
    assert_eq!(err.code(), StatusCode::PermissionDenied);
    assert_eq!(
        err,
        AuthError::TenantNotCovered { key_tenant: "tenant-a".into(), tenant: "tenant-b".into() }
    );
    let admin = KeyGrant { tenant: "*".into(), scope: Scope::Admin };
    assert!(authorize(Some(&admin), Scope::Write, "tenant-b").is_ok());
}
