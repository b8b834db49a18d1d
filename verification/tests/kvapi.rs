use databend_plan::kvapi::{escape, unescape, KeyBuilder, KeyError, KeyParser};
use databend_plan::tenant::Tenant;

#[test]
fn escape_keeps_plain_bytes() {
    assert_eq!(escape(b"abcXYZ019_"), b"abcXYZ019_".to_vec());
}

#[test]
fn escape_hex_encodes_other_bytes() {
    assert_eq!(escape(b"a/b%"), b"a%2fb%25".to_vec());
    assert_eq!(escape(&[0u8, 255u8]), b"%00%ff".to_vec());
}

#[test]
fn unescape_undoes_escape() {
    let raw: Vec<u8> = (0u8..=255u8).collect();
    let escaped = escape(&raw);
    assert_eq!(unescape(&escaped), Some(raw));
}

#[test]
fn unescape_rejects_bad_escapes() {
    assert_eq!(unescape(b"%"), None);
    assert_eq!(unescape(b"%4"), None);
    assert_eq!(unescape(b"%4G"), None);
    assert_eq!(unescape(b"%4A"), None);
    assert_eq!(unescape(b"x%41y"), Some(b"xAy".to_vec()));
}

#[test]
fn builder_joins_segments() {
    let b = KeyBuilder::new_prefixed("pre");
    let b = b.push_str("a b").push_raw("c/d");
    assert_eq!(b.done(), "pre/a%20b/c/d");
    let empty = KeyBuilder::new().push_str("x");
    assert_eq!(empty.done(), "x");
}

#[test]
fn parser_reads_segments() {
    let mut p = KeyParser::new_prefixed("pre/a%20b//c", "pre").unwrap();
    assert_eq!(p.next_nonempty(), Ok("a b".to_string()));
    assert_eq!(p.next_str(), Ok(String::new()));
    assert_eq!(p.next_raw(), Ok(b"c".to_vec()));
    assert_eq!(p.done(), Ok(()));
    assert_eq!(p.next_raw(), Err(KeyError::WrongNumberOfSegments { index: 4 }));
}

#[test]
fn parser_errors() {
    assert_eq!(
        KeyParser::new_prefixed("pro/a", "pre").err(),
        Some(KeyError::InvalidSegment { index: 0 })
    );
    let mut p = KeyParser::new("a//b");
    assert_eq!(p.next_literal("a"), Ok(()));
    assert_eq!(p.next_nonempty(), Err(KeyError::EmptySegment { index: 1 }));
    assert_eq!(p.done(), Err(KeyError::WrongNumberOfSegments { index: 2 }));
}

#[test]
fn tenant_decodes_from_segment() {
    let mut p = KeyParser::new("ten%2fant/rest");
    let t = Tenant::decode_key(&mut p).unwrap();
    assert_eq!(t.tenant_name(), "ten/ant");
    assert_eq!(p.next_str(), Ok("rest".to_string()));
}
