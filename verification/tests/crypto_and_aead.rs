use hkdf::Hkdf;
use sha2::Sha256;

use pq_chat::aead::{decrypt_data, decrypt_message, encrypt_data, encrypt_message, seal_with_leading_nonce, CipherError};
use pq_chat::crypto::{
    decrypt_with_aes, derive_aes_key, derive_node_secret, derive_secret, encrypt_with_aes,
    key_exchange, seal_with_appended_nonce, try_decrypt_with_aes,
};
use pq_chat::group_flow::{seal_for_key, UpdateError};
use pq_chat::group::GroupState;
use pq_chat::{hash_data, random_in_range, random_key};

fn hkdf_expand(ikm: &[u8], info: &[u8], len: usize) -> Vec<u8> {
    let hk = Hkdf::<Sha256>::new(None, ikm);
    let mut okm = vec![0u8; len];
    hk.expand(info, &mut okm).unwrap();
    okm
}

#[test]
fn hash_data_is_sha256() {
    assert_eq!(
        hex::encode(hash_data(b"abc")),
        "ba7816bf8f01cfea414140de5dae2223b00361a396177a9cb410ff61f20015ad"
    );
    assert_eq!(
        hex::encode(hash_data(b"")),
        "e3b0c44298fc1c149afbf4c8996fb92427ae41e4649b934ca495991b7852b855"
    );
}

#[test]
fn random_values_have_the_stated_shape() {
    assert_eq!(random_key().len(), 32);
    for _ in 0..50 {
        let v = random_in_range(3, 7);
        assert!(3 <= v && v < 7);
    }
    assert_eq!(random_in_range(5, 6), 5);
}

#[test]
fn derived_secrets_use_the_labelled_hkdf() {
    let secret = vec![9u8; 32];
    let expected = hkdf_expand(&secret, b"PQ-MLS 1.0 node", 64);
    assert_eq!(derive_secret(&secret, "node"), expected);
    assert_eq!(derive_node_secret(&secret), expected);
    assert_ne!(derive_node_secret(&secret), secret);
    assert_eq!(derive_secret(&secret, "path"), hkdf_expand(&secret, b"PQ-MLS 1.0 path", 64));
}

#[test]
fn aes_keys_are_derived_from_the_shared_secret() {
    let ss = vec![4u8; 32];
    let k = derive_aes_key(&ss);
    assert_eq!(k, hkdf_expand(&ss, b"aes-gcm key", 32));
    assert_ne!(k, ss);
    assert_eq!(key_exchange().len(), 32);
}

#[test]
fn appended_nonce_round_trip() {
    let key = vec![1u8; 32];
    let nonce = vec![2u8; 12];
    let sealed = seal_with_appended_nonce(&key, b"hello", &nonce);
    assert_eq!(sealed.len(), 5 + 28);
    assert_eq!(&sealed[sealed.len() - 12..], &nonce[..]);
    assert_eq!(decrypt_with_aes(&key, &sealed), b"hello".to_vec());
    let fresh = encrypt_with_aes(&key, b"payload");
    assert_eq!(fresh.len(), 7 + 28);
    assert_eq!(try_decrypt_with_aes(&key, &fresh), Some(b"payload".to_vec()));
    assert_eq!(try_decrypt_with_aes(&vec![3u8; 32], &fresh), None);
    assert_eq!(try_decrypt_with_aes(&key, &fresh[..12]), None);
}

#[test]
fn data_round_trip() {
    let key = vec![7u8; 32];
    let sealed = encrypt_data(b"some data", &key);
    assert_eq!(sealed.len(), 12 + 9 + 16);
    assert_eq!(decrypt_data(&sealed, &key), Ok(b"some data".to_vec()));
    let fixed = seal_with_leading_nonce(&key, &vec![0u8; 12], b"x");
    assert_eq!(&fixed[..12], &[0u8; 12]);
    assert_eq!(decrypt_data(&fixed, &key), Ok(b"x".to_vec()));
}

#[test]
fn decryption_errors() {
    let key = vec![7u8; 32];
    assert_eq!(decrypt_data(&vec![0u8; 11], &key), Err(CipherError::TooShort));
    let mut sealed = encrypt_data(b"some data", &key);
    let last = sealed.len() - 1;
    sealed[last] ^= 1;
    assert_eq!(decrypt_data(&sealed, &key), Err(CipherError::DecryptionFailed));
    let not_text = encrypt_data(&[0xff, 0xfe], &key);
    assert_eq!(decrypt_message(&not_text, &key), Err(CipherError::InvalidUtf8));
    assert_eq!(decrypt_message(&vec![1u8; 3], &key), Err(CipherError::TooShort));
}

#[test]
fn message_round_trip_turns_nbsp_into_spaces() {
    let key = vec![5u8; 32];
    let sealed = encrypt_message("salut&nbsp;toi", &key);
    assert_eq!(decrypt_message(&sealed, &key), Ok("salut toi".to_string()));
    let plain = encrypt_message("héllo", &key);
    assert_eq!(decrypt_message(&plain, &key), Ok("héllo".to_string()));
}

#[test]
fn sealed_updates_open_with_the_owner_key() {
    let mut rng = rand::thread_rng();
    let kp = pqc_kyber::keypair(&mut rng).unwrap();
    let (ct, enc) = seal_for_key(&kp.public, b"update bytes").unwrap();
    assert_eq!(ct.len(), 1568);
    let g = GroupState::new("g");
    assert_eq!(g.open_update(&ct, &enc, None, &kp.secret), Ok(b"update bytes".to_vec()));
    assert_eq!(g.open_update(&ct, &enc, None, &kp.secret[..10]), Err(UpdateError::Decapsulation));
    assert_eq!(g.open_update(&ct, &enc, Some(0), &kp.secret), Err(UpdateError::MissingNodeSecret));
    let mut tampered = enc.clone();
    tampered[20] ^= 1;
    assert_eq!(
        g.open_update(&ct, &tampered, None, &kp.secret),
        Err(UpdateError::Decryption(CipherError::DecryptionFailed))
    );
    assert!(seal_for_key(&kp.public[..100], b"x").is_none());
}

#[test]
fn updates_sealed_to_a_node_key_open_with_the_node_secret() {
    let mut g = GroupState::new("g");
    let ps = vec![1u8; 32];
    g.add_member(vec![1u8; 1568], vec![1u8; 1952], vec![1u8; 32], &format!("{:064x}", 1), ps, None);
    let node_pk = g.tree.nodes[0].as_ref().unwrap().public_key.clone();
    let (ct, enc) = seal_for_key(&node_pk, b"for node 0").unwrap();
    assert_eq!(g.open_update(&ct, &enc, Some(0), &[]), Ok(b"for node 0".to_vec()));
    let mut short = GroupState::new("g");
    short.secrets.add_node_secret(0, vec![1u8; 32]);
    assert_eq!(short.open_update(&ct, &enc, Some(0), &[]), Err(UpdateError::UnusableNodeSecret));
}
