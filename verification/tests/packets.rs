use ring::rand::SystemRandom;
use ring::signature::{Ed25519KeyPair, KeyPair};

use pq_chat::aead::{decrypt_data, decrypt_message};
use pq_chat::identity::{create_user_id_hash, Keys};
use pq_chat::wire::{
    authenticate_packet, classify_packet, create_accept_invite_packet, create_cyphertext_packet,
    create_get_nodes_packet, create_group_invite_packet, create_group_update_packet,
    create_hello_packet, create_kyber_key_packet, create_send_group_message_packet,
    create_send_message_packet, create_server_connect_packet, decode_user_id, frame_status,
    group_body_of_packet, group_id_of_packet, group_update_parts, source_id_from_packet,
    AuthError, FrameStatus, PacketError, PacketKind,
};

const GROUP_ID: &str = "0f8fad5b-d9cb-469f-a165-70867728950e";

fn keys(nonce: [u8; 16]) -> Keys {
    let rng = SystemRandom::new();
    let doc = Ed25519KeyPair::generate_pkcs8(&rng).unwrap();
    let ed = Ed25519KeyPair::from_pkcs8(doc.as_ref()).unwrap();
    let dil = pqc_dilithium::Keypair::generate();
    Keys::new(dil, ed, vec![0u8; 32], nonce)
}

fn dst_hex() -> String {
    "ab".repeat(32)
}

#[test]
fn user_ids_are_hex_sha256() {
    assert_eq!(
        create_user_id_hash(b"abc"),
        "ba7816bf8f01cfea414140de5dae2223b00361a396177a9cb410ff61f20015ad"
    );
    let k = keys([7u8; 16]);
    let mut input = k.dilithium_keys.public().clone();
    input.extend_from_slice(&k.ed25519_keys.public());
    input.extend_from_slice(&[7u8; 16]);
    assert_eq!(k.calculate_user_id(), create_user_id_hash(&input));
    assert_eq!(k.dilithium_keys.public().len(), 1952);
    assert_eq!(k.ed25519_keys.public().len(), 32);
    assert_eq!(k.nonce, [7u8; 16]);
}

#[test]
fn user_ids_decode_from_hex() {
    assert_eq!(decode_user_id("00ff10"), Ok(vec![0, 255, 16]));
    assert_eq!(decode_user_id("00FF"), Ok(vec![0, 255]));
    assert_eq!(decode_user_id("abc"), Err(PacketError::InvalidHex));
    assert_eq!(decode_user_id("zz"), Err(PacketError::InvalidHex));
}

#[test]
fn a_message_packet_authenticates_and_opens() {
    let k = keys([1u8; 16]);
    let ss = vec![3u8; 32];
    let packet = create_send_message_packet(&k, &dst_hex(), "bonjour", &ss, 1_700_000_000).unwrap();
    assert_eq!(packet[0], 0x04);
    assert_eq!(&packet[1..5], &[0, 0, 0, 0]);
    assert_eq!(&packet[5394..5402], &1_700_000_000u64.to_le_bytes());
    assert_eq!(source_id_from_packet(&packet), k.calculate_user_id());
    let a = authenticate_packet(&packet).unwrap();
    assert_eq!(a.source_id, k.calculate_user_id());
    assert_eq!(a.dst_id_hex, dst_hex());
    assert_eq!(decrypt_message(&a.payload, &ss), Ok("bonjour".to_string()));
    assert_eq!(classify_packet(packet[0]), PacketKind::Message);
}

#[test]
fn tampered_packets_are_dropped() {
    let k = keys([1u8; 16]);
    let ss = vec![3u8; 32];
    let mut packet = create_send_message_packet(&k, &dst_hex(), "bonjour", &ss, 5).unwrap();
    let last = packet.len() - 1;
    packet[last] ^= 1;
    assert_eq!(authenticate_packet(&packet).err(), Some(AuthError::InvalidDilithiumSignature));
    let mut packet2 = create_send_message_packet(&k, &dst_hex(), "bonjour", &ss, 5).unwrap();
    packet2[3300] ^= 1;
    assert_eq!(authenticate_packet(&packet2).err(), Some(AuthError::InvalidEd25519Signature));
}

#[test]
fn bad_receiver_ids_are_refused() {
    let k = keys([1u8; 16]);
    let ss = vec![3u8; 32];
    assert_eq!(create_send_message_packet(&k, "xyz", "m", &ss, 0).err(), Some(PacketError::InvalidHex));
    assert_eq!(
        create_group_invite_packet(&k, "123", GROUP_ID.as_bytes().to_vec(), b"n".to_vec(), 0).err(),
        Some(PacketError::InvalidHex)
    );
}

#[test]
fn node_packets_carry_their_length() {
    let k = keys([2u8; 16]);
    let p = create_get_nodes_packet(&k, 9);
    assert_eq!(p[0], 0x0a);
    assert_eq!(p.len(), 5 + 3293 + 64 + 1952 + 32 + 16 + 8);
    assert_eq!(p[1] as usize + 256 * p[2] as usize, p.len());
    let c = create_server_connect_packet(&k, 9);
    assert_eq!(c[0], 0x01);
    assert_eq!(c.len(), p.len());
}

#[test]
fn key_exchange_packets() {
    let k = keys([4u8; 16]);
    let dst = vec![0xab; 32];
    let ct = vec![9u8; 1568];
    let p = create_cyphertext_packet(&k, &dst, &ct, 1);
    assert_eq!(p[0], 0x03);
    assert_eq!(&p[5402..], &ct[..]);
    let a = authenticate_packet(&p).unwrap();
    assert_eq!(a.dst_id_hex, dst_hex());
    let pk = vec![8u8; 1568];
    let q = create_kyber_key_packet(&k, &dst, &pk, 2);
    assert_eq!(q[0], 0x02);
    assert_eq!(&q[5402..], &pk[..]);
}

#[test]
fn group_packets_lead_with_the_group_id() {
    let k = keys([5u8; 16]);
    let invite = create_group_invite_packet(&k, &dst_hex(), GROUP_ID.as_bytes().to_vec(), b"friends".to_vec(), 3).unwrap();
    assert_eq!(invite[0], 0xC0);
    assert_eq!(group_id_of_packet(&invite), Some(GROUP_ID.to_string()));
    assert_eq!(group_body_of_packet(&invite), b"friends".to_vec());

    let root = vec![6u8; 32];
    let msg = create_send_group_message_packet(&k, &dst_hex(), "hi all", GROUP_ID, &root, 4).unwrap();
    assert_eq!(msg[0], 0xC7);
    assert_eq!(group_id_of_packet(&msg), Some(GROUP_ID.to_string()));
    assert_eq!(decrypt_message(&group_body_of_packet(&msg), &root), Ok("hi all".to_string()));

    let enc = vec![1u8; 40];
    let ct = vec![2u8; 1568];
    let upd = create_group_update_packet(&k, &dst_hex(), &enc, &ct, GROUP_ID, 5).unwrap();
    assert_eq!(upd[0], 0xC5);
    let (c, e) = group_update_parts(&upd);
    assert_eq!(c, ct);
    assert_eq!(e, enc);
}

#[test]
fn accept_and_hello_packets() {
    let k = keys([6u8; 16]);
    let kp = pqc_kyber::keypair(&mut rand::thread_rng()).unwrap();
    let accept = create_accept_invite_packet(&k, GROUP_ID, &dst_hex(), &kp.public.to_vec(), 7).unwrap();
    assert_eq!(accept[0], 0xC1);
    assert_eq!(group_id_of_packet(&accept), Some(GROUP_ID.to_string()));
    assert_eq!(group_body_of_packet(&accept), kp.public.to_vec());

    let hello = create_hello_packet(&k, &b"hello data".to_vec(), &dst_hex(), &kp.public.to_vec(), GROUP_ID, 8).unwrap();
    assert_eq!(hello[0], 0xC2);
    let (ct, enc) = group_update_parts(&hello);
    let ss = pqc_kyber::decapsulate(&ct, &kp.secret).unwrap();
    assert_eq!(decrypt_data(&enc, &ss.to_vec()), Ok(b"hello data".to_vec()));
    assert_eq!(
        create_hello_packet(&k, &b"x".to_vec(), &dst_hex(), &vec![1u8; 10], GROUP_ID, 8).err(),
        Some(PacketError::EncapsulationFailed)
    );
}

#[test]
fn packet_kinds_by_type_byte() {
    assert_eq!(classify_packet(0x02), PacketKind::KyberKey);
    assert_eq!(classify_packet(0x03), PacketKind::Ciphertext);
    assert_eq!(classify_packet(0xC0), PacketKind::GroupInvite);
    assert_eq!(classify_packet(0xC1), PacketKind::GroupAccept);
    assert_eq!(classify_packet(0xC2), PacketKind::GroupHello);
    assert_eq!(classify_packet(0xC5), PacketKind::GroupUpdate);
    assert_eq!(classify_packet(0xC6), PacketKind::GroupDelete);
    assert_eq!(classify_packet(0xF0), PacketKind::Video);
    assert_eq!(classify_packet(0xFF), PacketKind::Disconnect);
    assert_eq!(classify_packet(0x55), PacketKind::Unknown);
}

#[test]
fn stream_frames() {
    assert_eq!(frame_status(&[1, 2]), FrameStatus::TooShort);
    assert_eq!(frame_status(&[4, 10, 0, 1]), FrameStatus::Incomplete);
    assert_eq!(frame_status(&[4, 4, 0, 1, 9]), FrameStatus::Ready { prefix: 4, size: 4 });
    let mut big = vec![0u8; 300];
    big[0] = 0xC7;
    big[1] = 0x2c;
    big[2] = 0x01;
    assert_eq!(frame_status(&big), FrameStatus::Ready { prefix: 0xC7, size: 300 });
}

#[test]
fn a_user_id_decodes_to_its_digest() {
    let k = keys([3u8; 16]);
    let mut input = k.dilithium_keys.public().clone();
    input.extend_from_slice(&k.ed25519_keys.public());
    input.extend_from_slice(&[3u8; 16]);
    let id = k.calculate_user_id();
    assert_eq!(id.len(), 64);
    assert_eq!(decode_user_id(&id), Ok(pq_chat::hash_data(&input)));
}

#[test]
fn the_sender_keys_are_read_from_the_packet() {
    let k = keys([3u8; 16]);
    let p = create_cyphertext_packet(&k, &vec![1u8; 32], &vec![2u8; 1568], 11);
    let (d, e) = pq_chat::wire::sender_public_keys(&p);
    assert_eq!(&d, k.dilithium_keys.public());
    assert_eq!(&e, k.ed25519_keys.public());
}

const PHRASE: &str = "abandon abandon abandon abandon abandon abandon abandon abandon abandon abandon abandon about";

#[test]
fn profile_seed_follows_bip39() {
    let seed = pq_chat::profile::profile_seed(PHRASE).unwrap();
    assert_eq!(
        hex::encode(&seed),
        "5eb00bbddcf069084889a8ab9155568165f5c453ccb85e70811aaed6f6da5fc19a5ac40b389cd370d086206dec8aa6c43daea6690f20ad3d8d48b2d2ce9e38e4"
    );
    assert_eq!(
        pq_chat::profile::profile_seed("abandon about"),
        Err(pq_chat::profile::ProfileError::InvalidPhrase)
    );
}

#[test]
fn profile_keys_come_from_the_phrase() {
    let (k, seed) = pq_chat::profile::create_profile_keys(PHRASE, vec![1u8; 32]).unwrap();
    let expected = Ed25519KeyPair::from_seed_unchecked(&seed[32..]).unwrap();
    assert_eq!(k.ed25519_keys.public(), &expected.public_key().as_ref().to_vec());
    assert_eq!(k.dilithium_keys.public().len(), 1952);
    assert_eq!(k.global_key, vec![1u8; 32]);
    let (k2, _) = pq_chat::profile::create_profile_keys(PHRASE, vec![1u8; 32]).unwrap();
    assert_eq!(k2.ed25519_keys.public(), k.ed25519_keys.public());
    assert!(pq_chat::profile::create_profile_keys("not a phrase", vec![]).is_err());
}

#[test]
fn passwords_are_stored_as_bcrypt_hashes() {
    let h = pq_chat::profile::hash_password("hunter2").unwrap();
    assert_eq!(h.len(), 60);
    assert!(bcrypt::verify("hunter2", &h).unwrap());
}

#[test]
fn every_built_packet_passes_the_signature_checks() {
    let (k, _) = pq_chat::profile::create_profile_keys(PHRASE, vec![1u8; 32]).unwrap();
    let id = k.calculate_user_id();
    let dst = vec![0xab; 32];
    let kp = pqc_kyber::keypair(&mut rand::thread_rng()).unwrap();
    let packets = vec![
        create_cyphertext_packet(&k, &dst, &vec![9u8; 1568], 1),
        create_kyber_key_packet(&k, &dst, &kp.public.to_vec(), 2),
        create_send_message_packet(&k, &dst_hex(), "m", &vec![3u8; 32], 3).unwrap(),
        create_group_invite_packet(&k, &dst_hex(), GROUP_ID.as_bytes().to_vec(), b"n".to_vec(), 4).unwrap(),
        create_accept_invite_packet(&k, GROUP_ID, &dst_hex(), &kp.public.to_vec(), 5).unwrap(),
        create_group_update_packet(&k, &dst_hex(), &vec![1u8; 40], &vec![2u8; 1568], GROUP_ID, 6).unwrap(),
        create_send_group_message_packet(&k, &dst_hex(), "hi", GROUP_ID, &vec![6u8; 32], 7).unwrap(),
        create_hello_packet(&k, &b"h".to_vec(), &dst_hex(), &kp.public.to_vec(), GROUP_ID, 8).unwrap(),
    ];
    for p in &packets {
        let a = authenticate_packet(p).unwrap();
        assert_eq!(a.source_id, id);
        assert_eq!(a.dst_id_hex, dst_hex());
    }
}
