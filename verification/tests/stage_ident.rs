use databend_plan::kvapi::KeyError;
use databend_plan::stage_ident::StageIdent;
use databend_plan::tenant::Tenant;

#[test]
fn test_kvapi_key_for_stage_ident() {
    let tenant = Tenant::new("test");
    let stage = StageIdent::new(tenant, "stage");

    let key = stage.to_string_key();
    assert_eq!(key, "__fd_stages/test/stage");
    assert_eq!(stage, StageIdent::from_str_key(&key).unwrap());
}

#[test]
fn stage_key_escapes_special_bytes() {
    let stage = StageIdent::new(Tenant::new("t-1"), "a/b c");
    let key = stage.to_string_key();
    assert_eq!(key, "__fd_stages/t%2d1/a%2fb%20c");
    assert_eq!(StageIdent::from_str_key(&key).unwrap(), stage);
}

#[test]
fn stage_key_escapes_non_ascii_bytes() {
    let stage = StageIdent::new(Tenant::new("tenant_A9"), "caf\u{e9}");
    let key = stage.to_string_key();
    assert_eq!(key, "__fd_stages/tenant_A9/caf%c3%a9");
    assert_eq!(StageIdent::from_str_key(&key).unwrap(), stage);
}

#[test]
fn stage_key_roundtrip_with_empty_stage_name() {
    let stage = StageIdent::new(Tenant::new("t"), "");
    let key = stage.to_string_key();
    assert_eq!(key, "__fd_stages/t/");
    assert_eq!(StageIdent::from_str_key(&key).unwrap(), stage);
}

#[test]
fn stage_key_with_empty_tenant_does_not_read_back() {
    let stage = StageIdent::new(Tenant::new(""), "s");
    let key = stage.to_string_key();
    assert_eq!(key, "__fd_stages//s");
    assert_eq!(
        StageIdent::from_str_key(&key),
        Err(KeyError::EmptySegment { index: 1 })
    );
}

#[test]
fn stage_key_errors() {
    assert_eq!(
        StageIdent::from_str_key("__fd_stage/test/stage"),
        Err(KeyError::InvalidSegment { index: 0 })
    );
    assert_eq!(
        StageIdent::from_str_key("__fd_stages/test"),
        Err(KeyError::WrongNumberOfSegments { index: 2 })
    );
    assert_eq!(
        StageIdent::from_str_key("__fd_stages"),
        Err(KeyError::WrongNumberOfSegments { index: 1 })
    );
    assert_eq!(
        StageIdent::from_str_key("__fd_stages/test/stage/x"),
        Err(KeyError::WrongNumberOfSegments { index: 3 })
    );
    assert_eq!(
        StageIdent::from_str_key("__fd_stages/te%zz/stage"),
        Err(KeyError::InvalidEscape { index: 1 })
    );
    assert_eq!(
        StageIdent::from_str_key("__fd_stages/test/st%4"),
        Err(KeyError::InvalidEscape { index: 2 })
    );
    assert_eq!(
        StageIdent::from_str_key("__fd_stages/%ff/stage"),
        Err(KeyError::InvalidUtf8 { index: 1 })
    );
}

#[test]
fn stage_key_reads_unescaped_segments() {
    let stage = StageIdent::from_str_key("__fd_stages/a-b/c").unwrap();
    assert_eq!(stage.tenant_name(), "a-b");
    assert_eq!(stage.name, "c");
}

#[test]
fn stage_parent_is_tenant_key() {
    let stage = StageIdent::new(Tenant::new("test"), "stage");
    assert_eq!(stage.parent(), Some("__fd_tenant/test".to_string()));
    assert_eq!(stage.tenant(), &Tenant::new("test"));
    assert_eq!(stage.tenant_name(), "test");
}

#[test]
fn tenant_key() {
    let tenant = Tenant::new("a b");
    assert_eq!(tenant.to_string_key(), "__fd_tenant/a%20b");
    assert_eq!(tenant.tenant_name(), "a b");
}

#[test]
fn different_stages_have_different_keys() {
    let a = StageIdent::new(Tenant::new("t"), "a_b");
    let b = StageIdent::new(Tenant::new("t_a"), "b");
    let c = StageIdent::new(Tenant::new("t"), "a/b");
    assert_ne!(a.to_string_key(), b.to_string_key());
    assert_ne!(a.to_string_key(), c.to_string_key());
    assert_ne!(b.to_string_key(), c.to_string_key());
}
