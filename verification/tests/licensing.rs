//! Tests of license parsing, field lookup, and RSA signature
//! verification against the real outside crates.

use imageflow::licensing::{LicenseBlob, LicenseError, LicenseParser, RSADecryptPublic};

#[test]
fn test_generic() {
    let rsa = RSADecryptPublic::from_byte_strings(b"28178177427582259905122756905913963624440517746414712044433894631438407111916149031583287058323879921298234454158166031934230083094710974550125942791690254427377300877691173542319534371793100994953897137837772694304619234054383162641475011138179669415510521009673718000682851222831185756777382795378538121010194881849505437499638792289283538921706236004391184253166867653735050981736002298838523242717690667046044130539971131293603078008447972889271580670305162199959939004819206804246872436611558871928921860176200657026263241409488257640191893499783065332541392967986495144643652353104461436623253327708136399114561",
                                                  b"65537").expect("RSA parameters must be positive integers in base 10");

    let blob = LicenseBlob::deserialize(&[rsa],"localhost:RG9tYWluOiBsb2NhbGhvc3QKT3duZXI6IEV2ZXJ5b25lCklzc3VlZDogMjAxNS0wMy0yOFQwOTozNjo1OVoKRmVhdHVyZXM6IFI0RWxpdGUgUjRDcmVhdGl2ZSBSNFBlcmZvcm1hbmNlCg==:h6D+kIXbF3qmvmW2gDpb+b4gdxBjnrkZLvSzXmEnqKAywNJNpTdFekpTOB4SwU14WbTeVyWwvFngHax7WuHBV+0WkQ5lDqKFaRW32vj8CJQeG8Wvnyj9PaNGaS/FpKhNjZbDEmh3qqirBp2NR0bpN4QbhP9NMy7+rOMo0nynAruwWvJKCnuf7mWWdb9a5uTZO9OUcSeS/tY8QaNeIhaCnhPe0Yx9qvOXe5nMnl10CR9ur+EtS54d1qzBGHqN/3oFhiB+xlqNELwz23qR4c8HxbTEyNarkG4CZx8CbbgJfHmPxAYGJTTBTPJ+cdah8MJR16Ta36cRZ2Buy8XYo/nf1g==");
    assert!(blob.is_ok());
}

/// The fields of the decoded example license read back correctly.
#[test]
fn deserialized_fields_read_back() {
    let rsa = RSADecryptPublic::from_byte_strings(b"28178177427582259905122756905913963624440517746414712044433894631438407111916149031583287058323879921298234454158166031934230083094710974550125942791690254427377300877691173542319534371793100994953897137837772694304619234054383162641475011138179669415510521009673718000682851222831185756777382795378538121010194881849505437499638792289283538921706236004391184253166867653735050981736002298838523242717690667046044130539971131293603078008447972889271580670305162199959939004819206804246872436611558871928921860176200657026263241409488257640191893499783065332541392967986495144643652353104461436623253327708136399114561",
                                                  b"65537").unwrap();
    let blob = LicenseBlob::deserialize(&[rsa],"localhost:RG9tYWluOiBsb2NhbGhvc3QKT3duZXI6IEV2ZXJ5b25lCklzc3VlZDogMjAxNS0wMy0yOFQwOTozNjo1OVoKRmVhdHVyZXM6IFI0RWxpdGUgUjRDcmVhdGl2ZSBSNFBlcmZvcm1hbmNlCg==:h6D+kIXbF3qmvmW2gDpb+b4gdxBjnrkZLvSzXmEnqKAywNJNpTdFekpTOB4SwU14WbTeVyWwvFngHax7WuHBV+0WkQ5lDqKFaRW32vj8CJQeG8Wvnyj9PaNGaS/FpKhNjZbDEmh3qqirBp2NR0bpN4QbhP9NMy7+rOMo0nynAruwWvJKCnuf7mWWdb9a5uTZO9OUcSeS/tY8QaNeIhaCnhPe0Yx9qvOXe5nMnl10CR9ur+EtS54d1qzBGHqN/3oFhiB+xlqNELwz23qR4c8HxbTEyNarkG4CZx8CbbgJfHmPxAYGJTTBTPJ+cdah8MJR16Ta36cRZ2Buy8XYo/nf1g==").unwrap();
    let fields = &blob.fields;
    assert_eq!(fields.id(), "localhost");
    assert_eq!(fields.get("Owner"), Some("Everyone"));
    let issued = fields.issued().expect("Issued is present");
    // 2015-03-28T09:36:59Z
    assert_eq!(issued.unix_seconds, 1427535419);
    assert_eq!(issued.offset_seconds, 0);
    let feats = fields.features();
    assert_eq!(feats, vec!["R4Elite", "R4Creative", "R4Performance"]);
    assert_eq!(fields.domains(), vec!["localhost"]);
}

/// A tampered payload no longer matches the signature.
#[test]
fn tampered_license_is_rejected() {
    let rsa = RSADecryptPublic::from_byte_strings(b"28178177427582259905122756905913963624440517746414712044433894631438407111916149031583287058323879921298234454158166031934230083094710974550125942791690254427377300877691173542319534371793100994953897137837772694304619234054383162641475011138179669415510521009673718000682851222831185756777382795378538121010194881849505437499638792289283538921706236004391184253166867653735050981736002298838523242717690667046044130539971131293603078008447972889271580670305162199959939004819206804246872436611558871928921860176200657026263241409488257640191893499783065332541392967986495144643652353104461436623253327708136399114561",
                                                  b"65537").unwrap();
    // payload swapped for different base64 ("RG9tYWlu" truncated content)
    let blob = LicenseBlob::deserialize(&[rsa],"localhost:RG9tYWluOiBldmlsLmNvbQo=:h6D+kIXbF3qmvmW2gDpb+b4gdxBjnrkZLvSzXmEnqKAywNJNpTdFekpTOB4SwU14WbTeVyWwvFngHax7WuHBV+0WkQ5lDqKFaRW32vj8CJQeG8Wvnyj9PaNGaS/FpKhNjZbDEmh3qqirBp2NR0bpN4QbhP9NMy7+rOMo0nynAruwWvJKCnuf7mWWdb9a5uTZO9OUcSeS/tY8QaNeIhaCnhPe0Yx9qvOXe5nMnl10CR9ur+EtS54d1qzBGHqN/3oFhiB+xlqNELwz23qR4c8HxbTEyNarkG4CZx8CbbgJfHmPxAYGJTTBTPJ+cdah8MJR16Ta36cRZ2Buy8XYo/nf1g==");
    assert!(matches!(blob, Err(LicenseError::LicenseCorrupted(_))));
}

/// Too few segments, and segments that are not base64, are rejected.
#[test]
fn malformed_license_strings_are_rejected() {
    let keys: Vec<RSADecryptPublic> = Vec::new();
    assert!(matches!(
        LicenseBlob::deserialize(&keys, "nodelimiters"),
        Err(LicenseError::LicenseCorrupted(_))
    ));
    assert!(matches!(
        LicenseBlob::deserialize(&keys, "id:!!!notbase64!!!:c2ln"),
        Err(LicenseError::LicenseCorrupted(_))
    ));
}

/// An RSA block at least as large as the modulus is refused.
#[test]
fn oversized_rsa_block_is_refused() {
    let rsa = RSADecryptPublic::from_byte_strings(b"5", b"3").unwrap();
    assert!(matches!(
        rsa.decrypt_public(&[7]),
        Err(LicenseError::RsaDecryptInputLargerThanModulus)
    ));
}

/// With exponent one the cipher is the identity, so the padded block
/// comes back with its padding stripped.
#[test]
fn decrypt_strips_padding() {
    let rsa = RSADecryptPublic::from_byte_strings(b"16777259", b"1").unwrap();
    // 0x01 0x00 0x2a: everything through the first zero byte is padding
    let out = rsa.decrypt_public(&[1, 0, 42]).unwrap();
    assert_eq!(out, vec![42]);
    // a block without a zero byte has no payload
    let out2 = rsa.decrypt_public(&[1, 2, 3]).unwrap();
    assert!(out2.is_empty());
}

/// Key parameters must be positive decimal numerals.
#[test]
fn key_parameters_are_validated() {
    assert!(RSADecryptPublic::from_byte_strings(b"0", b"65537").is_none());
    assert!(RSADecryptPublic::from_byte_strings(b"123", b"0").is_none());
    assert!(RSADecryptPublic::from_byte_strings(b"12x3", b"65537").is_none());
    assert!(RSADecryptPublic::from_byte_strings(b"", b"65537").is_none());
    assert!(RSADecryptPublic::from_byte_strings(b"123", b"65537").is_some());
}

/// Key/value parsing: last duplicate wins, lookup is case-insensitive,
/// and lines without a colon are ignored.
#[test]
fn parser_reads_fields_case_insensitively() {
    let p = LicenseParser::new(
        "Id: 4077\nOwner: Acme\nstray line without colon\nowner: Final Owner\n",
    )
    .unwrap();
    assert_eq!(p.id(), "4077");
    // the later duplicate of the key, in any case, wins
    assert_eq!(p.get("OWNER"), Some("Final Owner"));
    assert_eq!(p.get("owner"), Some("Final Owner"));
    assert_eq!(p.get("Missing"), None);
}

/// A license without an Id falls back to its Domain; one with neither is
/// refused.
#[test]
fn id_falls_back_to_domain() {
    let p = LicenseParser::new("Domain: Example.com\n").unwrap();
    assert_eq!(p.id(), "Example.com");
    assert!(matches!(
        LicenseParser::new("Owner: nobody\n"),
        Err(LicenseError::LicenseCorrupted(_))
    ));
}

/// Date fields must be RFC 3339; valid ones parse to their timestamp.
#[test]
fn date_fields_parse_or_reject() {
    let p = LicenseParser::new("Id: 1\nExpires: 2017-04-01T00:00:00Z\n").unwrap();
    let d = p.expires().expect("Expires is present");
    assert_eq!(d.unix_seconds, 1491004800);
    assert_eq!(d.offset_seconds, 0);
    assert!(p.issued().is_none());
    assert!(matches!(
        LicenseParser::new("Id: 1\nIssued: not-a-date\n"),
        Err(LicenseError::LicenseCorrupted(_))
    ));
    // an explicit offset is carried through
    let q = LicenseParser::new("Id: 1\nIssued: 2017-04-01T02:00:00+02:00\n").unwrap();
    let i = q.issued().unwrap();
    assert_eq!(i.unix_seconds, 1491004800);
    assert_eq!(i.offset_seconds, 7200);
}

/// Boolean-like and integer fields.
#[test]
fn flag_and_integer_fields() {
    let p = LicenseParser::new(
        "Id: 1\nValid: FALSE\nIsPublic: True\nMustBeFetched: true\nKind: ID\nNetworkGraceMinutes: 42\nCheckLicenseIntervalMinutes: -5\n",
    )
    .unwrap();
    assert!(p.is_revoked());
    assert!(p.is_public());
    assert!(p.is_must_be_fetched());
    assert!(p.is_remote_placeholder());
    assert_eq!(p.network_grace_minutes(), Some(42));
    assert_eq!(p.check_license_interval_minutes(), Some(-5));
    let q = LicenseParser::new("Id: 1\nNetworkGraceMinutes: 999999999999\n").unwrap();
    assert_eq!(q.network_grace_minutes(), None);
    let r = LicenseParser::new("Id: 1\nNetworkGraceMinutes: soon\n").unwrap();
    assert_eq!(r.network_grace_minutes(), None);
}

/// Domains are split, trimmed, lowercased, and empty entries dropped;
/// the single Domain field is appended.
#[test]
fn domains_are_normalized() {
    let p = LicenseParser::new("Id: 1\nDomains: A.com , B.ORG\nDomain: EXAMPLE.com\n").unwrap();
    assert_eq!(p.domains(), vec!["a.com", "b.org", "example.com"]);
    assert_eq!(p.license_servers(), Vec::<String>::new());
    let q = LicenseParser::new(
        "Id: 1\nLicenseServers: https://a.example/x https://b.example/y\n",
    )
    .unwrap();
    assert_eq!(
        q.license_servers(),
        vec!["https://a.example/x", "https://b.example/y"]
    );
}

/// The built-in trust stores parse into usable keys.
#[test]
fn trust_stores_hold_keys() {
    assert_eq!(imageflow::licensing::get_production_keys().len(), 2);
    assert_eq!(imageflow::licensing::get_test_keys().len(), 1);
    assert_eq!(imageflow::licensing::get_all_keys().len(), 3);
}
