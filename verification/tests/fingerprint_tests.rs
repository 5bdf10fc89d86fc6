use mdbook_translator::fingerprint::fingerprint;

#[test]
fn fingerprint_is_deterministic() {
    assert_eq!(fingerprint("some text", "fr"), fingerprint("some text", "fr"));
    assert_eq!(fingerprint("", ""), fingerprint("", ""));
}

#[test]
fn distinct_languages_give_distinct_fingerprints() {
    assert_ne!(fingerprint("some text", "fr"), fingerprint("some text", "de"));
}

#[test]
fn distinct_texts_give_distinct_fingerprints() {
    assert_ne!(fingerprint("text one", "fr"), fingerprint("text two", "fr"));
}

#[test]
fn fingerprint_is_sixty_four_lowercase_hex_digits() {
    let fp = fingerprint("chunk", "Japanese");
    assert_eq!(fp.len(), 64);
    assert!(fp.chars().all(|c| c.is_ascii_hexdigit() && !c.is_ascii_uppercase()));
}

#[test]
fn fingerprint_of_empty_input_is_sha256_of_nothing() {
    // SHA-256 of the empty byte string.
    assert_eq!(
        fingerprint("", ""),
        "e3b0c44298fc1c149afbf4c8996fb92427ae41e4649b934ca495991b7852b855"
    );
}

#[test]
fn fingerprint_hashes_text_then_language() {
    // SHA-256 of the bytes of "abc": the text and the language are fed
    // into one digest, text first.
    assert_eq!(
        fingerprint("abc", ""),
        "ba7816bf8f01cfea414140de5dae2223b00361a396177a9cb410ff61f20015ad"
    );
    assert_eq!(fingerprint("ab", "c"), fingerprint("abc", ""));
    assert_eq!(fingerprint("", "abc"), fingerprint("abc", ""));
}
