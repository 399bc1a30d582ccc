use settings_core::datastore::{Committed, Error};
use settings_core::filesystem::{decode_path_component, encode_path_component, FilesystemDataStore};

#[test]
fn store_paths_are_rooted_under_live_and_pending() {
    let ds = FilesystemDataStore::new("/var/lib/store");
    assert_eq!(ds.base_path(&Committed::Live), "/var/lib/store/live");
    let tx = Committed::Pending { tx: "default".to_string() };
    assert_eq!(ds.base_path(&tx), "/var/lib/store/pending/default");
}

#[test]
fn transaction_names_are_encoded_in_pending_paths() {
    let ds = FilesystemDataStore::new("/base");
    let tx = Committed::Pending { tx: "my tx/1".to_string() };
    assert_eq!(ds.base_path(&tx), "/base/pending/my%20tx%2F1");
}

#[test]
fn safe_characters_encode_to_themselves() {
    assert_eq!(encode_path_component("abc_XYZ-019"), "abc_XYZ-019");
}

#[test]
fn unsafe_bytes_are_percent_escaped_uppercase() {
    assert_eq!(encode_path_component("a.b c%"), "a%2Eb%20c%25");
    // a multi-byte character escapes each of its bytes
    assert_eq!(encode_path_component("é"), "%C3%A9");
}

#[test]
fn decoding_reverses_the_encoding() {
    let encoded = encode_path_component("my tx/1 é");
    let decoded = decode_path_component(&encoded, "/base/pending").unwrap();
    assert_eq!(decoded, "my tx/1 é");
}

#[test]
fn decoding_invalid_utf8_is_a_corruption_error() {
    // 0xFF alone is never valid UTF-8
    let err = decode_path_component("%FF", "/base/pending/x").unwrap_err();
    match err {
        Error::Corruption { path, .. } => assert_eq!(path, "/base/pending/x"),
        other => panic!("expected a corruption error, found {:?}", other),
    }
}

#[test]
fn stray_percent_signs_pass_through_decoding() {
    // a '%' not followed by two hex digits stands for itself
    let decoded = decode_path_component("100%", "/p").unwrap();
    assert_eq!(decoded, "100%");
}
