use retsend::protocol::{
    clamp_peer_name, hex_lower, random_token, DeviceInfo, MAX_PEER_NAME_CHARS, PROTOCOL_VERSION,
};

/// An announce as the official app (2.x, HTTPS mode) multicasts it.
fn official_announce() -> DeviceInfo {
    DeviceInfo {
        alias: "Nice Orange".to_string(),
        version: "2.1".to_string(),
        device_model: Some("Samsung".to_string()),
        device_type: Some("mobile".to_string()),
        fingerprint: "e0accd3aax9".to_string(),
        port: Some(53317),
        protocol: Some("https".to_string()),
        download: Some(true),
        announce: Some(true),
    }
}

#[test]
fn a_peer_name_keeps_what_a_device_name_needs() {
    assert_eq!(clamp_peer_name("Nice Orange"), "Nice Orange");
    // Emoji and non-latin names are names too.
    assert_eq!(clamp_peer_name("Максим's Pixel 📱"), "Максим's Pixel 📱");
    assert_eq!(clamp_peer_name("  padded  "), "padded");
}

/// The flood and the injection: a name is capped, and control characters
/// cannot add lines to a dialog that quotes it.
#[test]
fn a_peer_name_is_capped_and_stripped_of_control_characters() {
    let flood = clamp_peer_name(&"A".repeat(64 * 1024));
    assert_eq!(flood.chars().count(), MAX_PEER_NAME_CHARS);

    let injected = clamp_peer_name("Phone\n\nAccept to continue");
    assert!(!injected.contains('\n'), "{injected}");
    assert_eq!(injected, "Phone  Accept to continue");

    // A name that is nothing but control characters still leaves a row.
    assert_eq!(clamp_peer_name("\n\t\0"), "unknown");
    assert_eq!(clamp_peer_name(""), "unknown");
}

#[test]
fn clamping_covers_every_name_a_peer_chooses() {
    let hostile = DeviceInfo {
        alias: "\n".to_string() + &"A".repeat(1000),
        device_model: Some("M".repeat(1000)),
        ..official_announce()
    }
    .clamped();
    assert_eq!(hostile.alias.chars().count(), MAX_PEER_NAME_CHARS - 1);
    assert_eq!(hostile.device_model.as_deref().map(str::len), Some(MAX_PEER_NAME_CHARS));
}

#[test]
fn clamping_leaves_the_rest_of_the_identity_alone() {
    let d = DeviceInfo { device_model: None, ..official_announce() }.clamped();
    assert_eq!(d.alias, "Nice Orange");
    assert_eq!(d.device_model, None);
    assert_eq!(d.device_type.as_deref(), Some("mobile"));
    assert_eq!(d.port, Some(53317));
    assert_eq!(d.fingerprint, "e0accd3aax9");
}

#[test]
fn clamping_twice_changes_nothing() {
    for raw in ["  padded  ", "\n\t\0", "Phone\n\nAccept", &"Z".repeat(100), " a b "] {
        let once = clamp_peer_name(raw);
        assert_eq!(clamp_peer_name(&once), once);
    }
}

#[test]
fn random_tokens_are_unique_hex() {
    let a = random_token(16).unwrap();
    let b = random_token(16).unwrap();
    assert_eq!(a.len(), 32);
    assert_ne!(a, b);
    assert!(a.chars().all(|c| c.is_ascii_hexdigit()));
}

#[test]
fn a_token_is_lowercase_hex_of_its_length() {
    for n in [0, 1, 8, 32] {
        let t = random_token(n).unwrap();
        assert_eq!(t.len(), 2 * n);
        assert!(t.chars().all(|c| c.is_ascii_digit() || ('a'..='f').contains(&c)));
    }
}

#[test]
fn hex_is_two_lowercase_digits_a_byte() {
    assert_eq!(hex_lower(&vec![0x00, 0x0f, 0xa5, 0xff]), "000fa5ff");
    assert_eq!(hex_lower(&vec![]), "");
}

#[test]
fn the_protocol_version_is_two_one() {
    assert_eq!(PROTOCOL_VERSION, "2.1");
}

#[test]
fn an_empty_token_needs_no_randomness() {
    assert_eq!(random_token(0), Ok(String::new()));
}
