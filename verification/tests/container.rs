use grapho::runtime::persist::{
    derive_key, encode_container, key_from_hash, load_encrypted, parse_container, save_encrypted, seal_with,
    PersistError, HEADER_LEN, KEY_LEN, NONCE_LEN, SALT_LEN, TAG_LEN, VERSION,
};

fn salt() -> Vec<u8> {
    (1..=16).collect()
}

fn nonce() -> Vec<u8> {
    (101..=112).collect()
}

fn format_text(r: Result<grapho::runtime::persist::Parts, PersistError>) -> String {
    match r {
        Err(PersistError::Format(text)) => text,
        _ => panic!("a format failure was expected"),
    }
}

fn crypto_text(r: Result<Vec<u8>, PersistError>) -> String {
    match r {
        Err(PersistError::Crypto(text)) => text,
        _ => panic!("a failure of the cryptography was expected"),
    }
}

#[test]
fn layout_constants() {
    assert_eq!(VERSION, 1);
    assert_eq!(SALT_LEN, 16);
    assert_eq!(NONCE_LEN, 12);
    assert_eq!(HEADER_LEN, 4 + 1 + 16 + 12);
    assert_eq!(KEY_LEN, 32);
    assert_eq!(TAG_LEN, 16);
}

#[test]
fn container_bytes() {
    let out = encode_container(&salt(), &nonce(), &[200, 201, 202]);
    let mut expected: Vec<u8> = vec![b'G', b'R', b'P', b'H', 1];
    expected.extend(1..=16u8);
    expected.extend(101..=112u8);
    expected.extend([200u8, 201, 202]);
    assert_eq!(out, expected);
    assert_eq!(out.len(), 33 + 3);
}

#[test]
fn container_parts() {
    let out = encode_container(&salt(), &nonce(), &[200, 201, 202]);
    let parts = parse_container(&out).unwrap();
    assert_eq!(parts.salt, salt());
    assert_eq!(parts.nonce, nonce());
    assert_eq!(parts.ciphertext, vec![200, 201, 202]);
    let bare = encode_container(&salt(), &nonce(), &[]);
    assert_eq!(bare.len(), 33);
    let parts = parse_container(&bare).unwrap();
    assert!(parts.ciphertext.is_empty());
}

#[test]
fn short_data_is_no_container() {
    assert_eq!(format_text(parse_container(&[])), "file too short");
    let out = encode_container(&salt(), &nonce(), &[]);
    assert_eq!(format_text(parse_container(&out[..32])), "file too short");
    assert_eq!(format_text(parse_container(b"XXXX")), "file too short");
}

#[test]
fn another_tag_is_no_container() {
    let mut out = encode_container(&salt(), &nonce(), &[1, 2, 3]);
    out[3] = b'X';
    assert_eq!(format_text(parse_container(&out)), "bad magic");
    let mut out = encode_container(&salt(), &nonce(), &[1, 2, 3]);
    out[0] = b'g';
    out[4] = 9;
    assert_eq!(format_text(parse_container(&out)), "bad magic");
}

#[test]
fn another_version_is_not_supported() {
    let mut out = encode_container(&salt(), &nonce(), &[1, 2, 3]);
    out[4] = 2;
    assert_eq!(format_text(parse_container(&out)), "unsupported version");
    let text = match load_encrypted(&out, "pass") {
        Err(PersistError::Format(text)) => text,
        _ => panic!("a format failure was expected"),
    };
    assert_eq!(text, "unsupported version");
}

#[test]
fn key_from_a_hash() {
    let long: Vec<u8> = (0..40).collect();
    let expected: Vec<u8> = (0..32).collect();
    assert_eq!(key_from_hash(Ok(Some(long))).unwrap().to_vec(), expected);
    let mut padded = vec![9u8, 8, 7];
    padded.resize(32, 0);
    assert_eq!(key_from_hash(Ok(Some(vec![9, 8, 7]))).unwrap().to_vec(), padded);
    assert_eq!(key_from_hash(Ok(Some(vec![]))).unwrap(), [0u8; 32]);
    match key_from_hash(Ok(None)) {
        Err(PersistError::Crypto(text)) => assert_eq!(text, "missing hash"),
        _ => panic!("a failure of the cryptography was expected"),
    }
    match key_from_hash(Err("no luck".to_string())) {
        Err(PersistError::Crypto(text)) => assert_eq!(text, "no luck"),
        _ => panic!("a failure of the cryptography was expected"),
    }
}

#[test]
fn key_depends_on_passphrase_and_salt() {
    let key = derive_key("secret", &salt()).unwrap();
    assert_eq!(key.len(), 32);
    assert_eq!(derive_key("secret", &salt()).unwrap(), key);
    assert_ne!(derive_key("Secret", &salt()).unwrap(), key);
    assert_ne!(derive_key("secret", &nonce()).unwrap(), key);
    assert_ne!(key, [0u8; 32]);
}

#[test]
fn key_of_a_known_hash() {
    // Argon2id, version 19, m=19456, t=2, p=1, with the salt of sixteen
    // bytes that the library's containers carry.
    let key = derive_key("password", b"somesaltsomesalt").unwrap();
    let again = derive_key("password", b"somesaltsomesalt").unwrap();
    assert_eq!(key, again);
    let argon = argon2::Argon2::default();
    let mut expected = [0u8; 32];
    argon.hash_password_into(b"password", b"somesaltsomesalt", &mut expected).unwrap();
    assert_eq!(key, expected);
}

#[test]
fn a_salt_that_is_too_short_gives_no_key() {
    for short in [&[][..], &[1][..], &[1, 2][..]] {
        match derive_key("secret", short) {
            Err(PersistError::Crypto(text)) => assert_eq!(text, "salt too short"),
            _ => panic!("a failure of the cryptography was expected"),
        }
    }
    match derive_key("secret", &[1, 2, 3, 4, 5]) {
        Err(PersistError::Crypto(_)) => {}
        _ => panic!("a failure of the cryptography was expected"),
    }
    assert!(derive_key("secret", &[1, 2, 3, 4, 5, 6, 7, 8]).is_ok());
    match load_encrypted(&encode_container(&salt(), &nonce(), &[0; 16]), "secret") {
        Err(PersistError::Crypto(_)) => {}
        _ => panic!("a failure of the cryptography was expected"),
    }
}

#[test]
fn sealing_with_given_salt_and_nonce() {
    let plain = b"{\"name\":\"g\"}".to_vec();
    let sealed = seal_with(&salt(), &nonce(), &plain, "secret").unwrap();
    assert_eq!(sealed.len(), 33 + plain.len() + 16);
    assert_eq!(&sealed[0..4], b"GRPH");
    assert_eq!(sealed[4], 1);
    assert_eq!(&sealed[5..21], &salt()[..]);
    assert_eq!(&sealed[21..33], &nonce()[..]);
    assert_ne!(&sealed[33..33 + plain.len()], &plain[..]);
    assert_eq!(seal_with(&salt(), &nonce(), &plain, "secret").unwrap(), sealed);
    assert_eq!(load_encrypted(&sealed, "secret").unwrap(), plain);
}

#[test]
fn encrypted_round_trip() {
    let plain = b"a graph, serialised".to_vec();
    let sealed = save_encrypted(&plain, "change-this-passphrase").unwrap();
    assert_eq!(sealed.len(), 33 + plain.len() + 16);
    assert_eq!(load_encrypted(&sealed, "change-this-passphrase").unwrap(), plain);
    let empty = save_encrypted(&[], "p").unwrap();
    assert_eq!(empty.len(), 33 + 16);
    assert_eq!(load_encrypted(&empty, "p").unwrap(), Vec::<u8>::new());
}

#[test]
fn a_wrong_passphrase_opens_nothing() {
    let sealed = save_encrypted(b"a graph, serialised", "right").unwrap();
    let text = crypto_text(load_encrypted(&sealed, "wrong"));
    assert!(text.starts_with("decrypt: "));
}

#[test]
fn tampered_data_opens_nothing() {
    let sealed = save_encrypted(b"a graph, serialised", "right").unwrap();
    for at in [5usize, 21, 33, sealed.len() - 1] {
        let mut bent = sealed.clone();
        bent[at] ^= 1;
        let text = crypto_text(load_encrypted(&bent, "right"));
        assert!(text.starts_with("decrypt: "));
    }
    let cut = &sealed[..sealed.len() - 1];
    assert!(crypto_text(load_encrypted(cut, "right")).starts_with("decrypt: "));
    let header_only = &sealed[..33];
    assert!(crypto_text(load_encrypted(header_only, "right")).starts_with("decrypt: "));
}

#[test]
fn every_save_draws_salt_and_nonce_anew() {
    let first = save_encrypted(b"same", "same").unwrap();
    let second = save_encrypted(b"same", "same").unwrap();
    assert_ne!(&first[5..21], &second[5..21]);
    assert_ne!(&first[21..33], &second[21..33]);
    assert_ne!(&first[33..], &second[33..]);
    assert_eq!(load_encrypted(&first, "same").unwrap(), load_encrypted(&second, "same").unwrap());
}

#[test]
fn the_text_of_an_error() {
    assert_eq!(PersistError::Io("gone".to_string()).message(), "gone");
    assert_eq!(PersistError::Serde("bad".to_string()).message(), "bad");
    assert_eq!(PersistError::Crypto("no".to_string()).message(), "no");
    assert_eq!(PersistError::Format("odd".to_string()).message(), "odd");
}
