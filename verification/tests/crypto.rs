use ghostsnap::crypto::{hash_data, Encryptor, MasterKey};
use ghostsnap::error::Error;
use ghostsnap::types::{ChunkID, KdfParams};

fn quick_params() -> KdfParams {
    KdfParams {
        algorithm: String::from("argon2id"),
        iterations: 1,
        memory: 64,
        parallelism: 1,
        salt: vec![7u8; 32],
    }
}

#[test]
fn test_encryption_roundtrip() {
    let key = MasterKey::generate();
    let encryptor = Encryptor::new(key.as_bytes()).unwrap();

    let plaintext = b"Hello, Ghostsnap!";
    let ciphertext = encryptor.encrypt(plaintext).unwrap();
    let decrypted = encryptor.decrypt(&ciphertext).unwrap();

    assert_eq!(plaintext.to_vec(), decrypted);
}

#[test]
fn sealed_message_is_28_bytes_longer_and_differs_each_time() {
    let encryptor = Encryptor::new(&[3u8; 32]).unwrap();
    let first = encryptor.encrypt(b"same message").unwrap();
    let second = encryptor.encrypt(b"same message").unwrap();
    assert_eq!(first.len(), 12 + 28);
    assert_ne!(first, second);
    assert_ne!(&first[12..24], b"same message");
    assert_eq!(encryptor.decrypt(&second).unwrap(), b"same message");
    let empty = encryptor.encrypt(b"").unwrap();
    assert_eq!(empty.len(), 28);
    assert_eq!(encryptor.decrypt(&empty).unwrap(), Vec::<u8>::new());
}

#[test]
fn every_flipped_bit_is_rejected() {
    let encryptor = Encryptor::new(&[9u8; 32]).unwrap();
    let sealed = encryptor.encrypt(b"tamper with me").unwrap();
    for byte in 0..sealed.len() {
        for bit in 0..8 {
            let mut bad = sealed.clone();
            bad[byte] ^= 1 << bit;
            assert!(matches!(encryptor.decrypt(&bad), Err(Error::Encryption(_))));
        }
    }
}

#[test]
fn wrong_key_and_short_input_are_rejected() {
    let encryptor = Encryptor::new(&[1u8; 32]).unwrap();
    let other = Encryptor::new(&[2u8; 32]).unwrap();
    let sealed = encryptor.encrypt(b"secret").unwrap();
    assert!(matches!(other.decrypt(&sealed), Err(Error::Encryption(_))));
    assert_eq!(
        encryptor.decrypt(&sealed[..11]),
        Err(Error::Encryption(String::from("Ciphertext too short")))
    );
    assert!(matches!(encryptor.decrypt(&sealed[..27]), Err(Error::Encryption(_))));
    assert!(matches!(encryptor.decrypt(&[]), Err(Error::Encryption(_))));
}

#[test]
fn key_must_have_32_bytes() {
    assert!(matches!(
        Encryptor::new(&[0u8; 31]),
        Err(Error::Encryption(m)) if m == "Key must be 32 bytes"
    ));
    assert!(matches!(Encryptor::new(&[0u8; 33]), Err(Error::Encryption(_))));
    let encryptor = Encryptor::new(&[5u8; 32]).unwrap();
    assert_eq!(encryptor.key(), &[5u8; 32]);
}

#[test]
fn derivation_depends_on_password_salt_and_costs() {
    let params = quick_params();
    let key = MasterKey::derive_from_password("pw", &params.salt, &params).unwrap();
    assert_eq!(key.as_bytes().len(), 32);
    assert_ne!(key.as_bytes(), &params.salt[..]);
    let again = MasterKey::derive_from_password("pw", &params.salt, &params).unwrap();
    assert_eq!(key.as_bytes(), again.as_bytes());
    let other = MasterKey::derive_from_password("pw2", &params.salt, &params).unwrap();
    assert_ne!(key.as_bytes(), other.as_bytes());
    let salted = MasterKey::derive_from_password("pw", &[8u8; 32], &params).unwrap();
    assert_ne!(key.as_bytes(), salted.as_bytes());
    let mut slower = quick_params();
    slower.iterations = 2;
    let cost = MasterKey::derive_from_password("pw", &params.salt, &slower).unwrap();
    assert_ne!(key.as_bytes(), cost.as_bytes());
}

#[test]
fn derivation_refuses_bad_inputs() {
    let params = quick_params();
    for salt in [&[][..], &[1u8][..], &[1u8, 2][..], &[1u8; 7][..], &[1u8; 49][..]] {
        assert!(matches!(
            MasterKey::derive_from_password("pw", salt, &params),
            Err(Error::Encryption(_))
        ));
    }
    let mut lanes = quick_params();
    lanes.parallelism = u32::MAX;
    assert!(matches!(
        MasterKey::derive_from_password("pw", &lanes.salt, &lanes),
        Err(Error::Encryption(_))
    ));
    let mut memory = quick_params();
    memory.memory = 1;
    assert!(matches!(
        MasterKey::derive_from_password("pw", &memory.salt, &memory),
        Err(Error::Encryption(_))
    ));
    let mut iterations = quick_params();
    iterations.iterations = 0;
    assert!(matches!(
        MasterKey::derive_from_password("pw", &iterations.salt, &iterations),
        Err(Error::Encryption(_))
    ));
    assert_eq!(
        MasterKey::from_derivation(Err(String::from("why"))).err(),
        Some(Error::Encryption(String::from("why")))
    );
    assert_eq!(MasterKey::from_derivation(Ok(vec![1, 2, 3])).unwrap().as_bytes(), &[1, 2, 3]);
}

#[test]
fn generated_keys_differ() {
    let first = MasterKey::generate();
    let second = MasterKey::generate();
    assert_eq!(first.as_bytes().len(), 32);
    assert_ne!(first.as_bytes(), second.as_bytes());
}

#[test]
fn hash_data_is_the_chunk_identifier() {
    assert_eq!(hash_data(b"abc"), ChunkID::from_data(b"abc"));
    assert_eq!(
        hash_data(b"abc").to_hex(),
        "6437b3ac38465133ffb63b75273a8db548c558465d79db03fd359c6cd5bd9d85"
    );
}
