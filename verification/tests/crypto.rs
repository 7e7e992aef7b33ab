use hydra::crypto::{
    trim_key_bytes, Base64Error, CryptoError, KeyFileRead, KeyProvider, StaticKeyProvider, KEY_LEN,
    NONCE_LEN,
};

fn kp() -> StaticKeyProvider {
    StaticKeyProvider::new([7u8; KEY_LEN], 1)
}

#[test]
fn round_trip() {
    let kp = kp();
    let sealed = kp.seal(b"sk-provider-secret-123").unwrap();
    assert_eq!(kp.open(&sealed).unwrap(), b"sk-provider-secret-123");
}

#[test]
fn nonce_is_unique_per_seal() {
    let kp = kp();
    let a = kp.seal(b"same").unwrap();
    let b = kp.seal(b"same").unwrap();
    assert_ne!(a.nonce, b.nonce);
    assert_ne!(a.ciphertext, b.ciphertext);
}

#[test]
fn tampered_ciphertext_is_rejected() {
    let kp = kp();
    let mut sealed = kp.seal(b"secret").unwrap();
    sealed.ciphertext[0] ^= 0xff;
    assert!(matches!(kp.open(&sealed), Err(CryptoError::Decrypt)));
}

#[test]
fn wrong_master_key_is_rejected() {
    let seal_kp = StaticKeyProvider::new([1u8; KEY_LEN], 1);
    let open_kp = StaticKeyProvider::new([2u8; KEY_LEN], 1);
    let sealed = seal_kp.seal(b"secret").unwrap();
    assert!(matches!(open_kp.open(&sealed), Err(CryptoError::Decrypt)));
}

#[test]
fn version_mismatch_is_rejected() {
    let seal_kp = StaticKeyProvider::new([1u8; KEY_LEN], 1);
    let open_kp = StaticKeyProvider::new([1u8; KEY_LEN], 2);
    let sealed = seal_kp.seal(b"secret").unwrap();
    assert!(matches!(
        open_kp.open(&sealed),
        Err(CryptoError::KeyVersionMismatch { .. })
    ));
}

#[test]
fn mismatch_names_both_versions() {
    let sealed = StaticKeyProvider::new([1u8; KEY_LEN], 3).seal(b"x").unwrap();
    let other = StaticKeyProvider::new([1u8; KEY_LEN], 9);
    assert_eq!(
        other.open(&sealed),
        Err(CryptoError::KeyVersionMismatch {
            stored: 3,
            provider: 9
        })
    );
}

#[test]
fn ciphertext_is_message_and_tag() {
    let sealed = kp().seal_with_nonce(b"secret", [5u8; NONCE_LEN]).unwrap();
    assert_eq!(sealed.nonce, [5u8; NONCE_LEN]);
    assert_eq!(sealed.key_version, 1);
    assert_eq!(sealed.ciphertext.len(), 6 + 16);
    assert_ne!(&sealed.ciphertext[..6], b"secret");
    assert_eq!(kp().open(&sealed).unwrap(), b"secret");
}

#[test]
fn known_ciphertext_of_the_zero_key() {
    let kp = StaticKeyProvider::new([0u8; KEY_LEN], 0);
    let sealed = kp.seal_with_nonce(&[0u8; 16], [0u8; NONCE_LEN]).unwrap();
    assert_eq!(
        sealed.ciphertext[..16].to_vec(),
        vec![
            0xce, 0xa7, 0x40, 0x3d, 0x4d, 0x60, 0x6b, 0x6e, 0x07, 0x4e, 0xc5, 0xd3, 0xba, 0xf3,
            0x9d, 0x18
        ]
    );
}

#[test]
fn too_short_a_ciphertext_is_rejected() {
    let mut sealed = kp().seal(b"").unwrap();
    sealed.ciphertext.pop();
    assert_eq!(kp().open(&sealed), Err(CryptoError::Decrypt));
}

#[test]
fn version_goes_in_lowest_byte_first() {
    let a = StaticKeyProvider::new([7u8; KEY_LEN], 0x0102_0304);
    let sealed = a.seal(b"v").unwrap();
    assert_eq!(a.version(), 0x0102_0304);
    assert_eq!(a.open(&sealed).unwrap(), b"v");
    // The same key under a relabelled version does not authenticate.
    let b = StaticKeyProvider::new([7u8; KEY_LEN], 0x0403_0201);
    let mut relabelled = sealed.clone();
    relabelled.key_version = 0x0403_0201;
    assert_eq!(b.open(&relabelled), Err(CryptoError::Decrypt));
}

const ENCODED: &str = "BwcHBwcHBwcHBwcHBwcHBwcHBwcHBwcHBwcHBwcHBwc=";

#[test]
fn key_from_base64_text() {
    let a = StaticKeyProvider::from_sources(None, Some(format!(" {ENCODED}\n"))).unwrap();
    assert_eq!(a.version(), 1);
    let sealed = kp().seal(b"shared").unwrap();
    assert_eq!(a.open(&sealed).unwrap(), b"shared");
}

#[test]
fn key_file_goes_before_base64_text() {
    let a = StaticKeyProvider::from_sources(
        Some(KeyFileRead::Read([vec![7u8; KEY_LEN], vec![b'\r', b'\n']].concat())),
        Some("not base64".to_string()),
    )
    .unwrap();
    let sealed = kp().seal(b"shared").unwrap();
    assert_eq!(a.open(&sealed).unwrap(), b"shared");
}

#[test]
fn key_sources_that_fail() {
    assert_eq!(
        StaticKeyProvider::from_sources(None, None).err(),
        Some(CryptoError::KeyMissing)
    );
    assert_eq!(
        StaticKeyProvider::from_sources(
            Some(KeyFileRead::Failed {
                path: "/k".into(),
                message: "gone".into()
            }),
            Some(ENCODED.to_string())
        )
        .err(),
        Some(CryptoError::KeyFile {
            path: "/k".into(),
            message: "gone".into()
        })
    );
    assert_eq!(
        StaticKeyProvider::from_sources(Some(KeyFileRead::Read(vec![1, 2, 3])), None).err(),
        Some(CryptoError::KeyLength {
            expected: 32,
            got: 3
        })
    );
    assert_eq!(
        StaticKeyProvider::from_sources(None, Some("aGk=".to_string())).err(),
        Some(CryptoError::KeyLength {
            expected: 32,
            got: 2
        })
    );
}

#[test]
fn base64_errors() {
    let err = |s: &str| StaticKeyProvider::from_sources(None, Some(s.to_string())).err();
    assert_eq!(
        err("a!==" ),
        Some(CryptoError::KeyEncoding(Base64Error::InvalidByte(1, b'!')))
    );
    assert_eq!(
        err("aaaaa"),
        Some(CryptoError::KeyEncoding(Base64Error::InvalidLength(5)))
    );
    assert_eq!(
        err("aGl="),
        Some(CryptoError::KeyEncoding(Base64Error::InvalidLastSymbol(2, b'l')))
    );
    assert_eq!(
        err("aGk"),
        Some(CryptoError::KeyEncoding(Base64Error::InvalidPadding))
    );
}

#[test]
fn key_file_line_end_makes_no_difference() {
    assert_eq!(trim_key_bytes(b"key".to_vec()), b"key");
    assert_eq!(trim_key_bytes(b"key\n".to_vec()), b"key");
    assert_eq!(trim_key_bytes(b"key\r\n".to_vec()), b"key");
    assert_eq!(trim_key_bytes(b"key\n\n".to_vec()), b"key\n");
    assert_eq!(trim_key_bytes(b"key\r".to_vec()), b"key\r");
    assert_eq!(trim_key_bytes(b"key\r\r\n".to_vec()), b"key\r");
    assert_eq!(trim_key_bytes(b"\n".to_vec()), b"");
    assert_eq!(trim_key_bytes(b"".to_vec()), b"");
}
