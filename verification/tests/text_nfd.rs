use talon_core::text::nfd::normalize;

/// NFC `é` (U+00E9, one code point) and NFD `é` (e + U+0301, two code
/// points) must both normalize to the same NFD string.
#[test]
fn nfc_and_nfd_e_acute_compare_equal() {
    let nfc = "\u{00E9}"; // é precomposed
    let nfd = "e\u{0301}"; // e + combining acute accent
    assert_eq!(normalize(nfc), normalize(nfd));
}

/// Lowercased NFC and NFD forms must also be equal (the typical use-case).
#[test]
fn lowercased_nfc_and_nfd_compare_equal() {
    let nfc = "\u{00E9}";
    let nfd = "e\u{0301}";
    assert_eq!(normalize(nfc).to_lowercase(), normalize(nfd).to_lowercase());
}

/// Cyrillic text round-trips through NFD without corruption.
#[test]
fn cyrillic_round_trips() {
    let s = "Кириллица";
    assert_eq!(normalize(&normalize(s)), normalize(s));
}

/// ASCII input passes through unchanged.
#[test]
fn ascii_passthrough() {
    let s = "hello world";
    assert_eq!(normalize(s), s);
}

/// Empty input returns an empty string.
#[test]
fn empty_string() {
    assert_eq!(normalize(""), "");
}
