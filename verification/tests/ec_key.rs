use ferricula::ec_key::{derive_shared_secret, parse_hex_key, public_from_private, seed_from_shared, KeyError};

#[test]
fn key_agreement_is_symmetric() {
    let a = [7u8; 32];
    let b = [9u8; 32];
    let pa = public_from_private(&a);
    let pb = public_from_private(&b);
    assert_ne!(pa, a);
    let s1 = derive_shared_secret(&a, &pb).unwrap();
    let s2 = derive_shared_secret(&b, &pa).unwrap();
    assert_eq!(s1, s2);
    let seed = seed_from_shared(&s1, b"ctx");
    assert_ne!(seed, s1);
    assert_eq!(seed, seed_from_shared(&s2, b"ctx"));
}

#[test]
fn parse_hex_key_errors() {
    let hex64 = "00".repeat(31) + "ff";
    let k = parse_hex_key(&format!("  {hex64}\n")).unwrap();
    assert_eq!(k[31], 0xff);
    assert_eq!(parse_hex_key("zz"), Err(KeyError::InvalidHex));
    assert_eq!(parse_hex_key("abc"), Err(KeyError::InvalidHex));
    assert_eq!(parse_hex_key("abcd"), Err(KeyError::WrongLength(2)));
}
