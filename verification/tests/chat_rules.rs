use pq_chat::chat::{
    answer_kyber_key, has_shared_secret, need_for_rekey, open_message_history, seal_for_storage,
    secret_kind, shared_secret_from_ciphertext, usable_shared_secrets, HistoryError, Message,
    SecretKind,
};
use pq_chat::settings::PrivateChatSettings;

fn msg(id: &str, content: String) -> Message {
    Message {
        message_id: id.to_string(),
        chat_id: "chat".to_string(),
        sender_id: "me".to_string(),
        message_type: "sent".to_string(),
        content,
    }
}

#[test]
fn rekey_every_fourth_message() {
    assert!(need_for_rekey(Some(4)));
    assert!(need_for_rekey(Some(8)));
    assert!(!need_for_rekey(Some(0)));
    assert!(!need_for_rekey(Some(5)));
    assert!(!need_for_rekey(Some(-3)));
    assert!(need_for_rekey(Some(-4)));
    assert!(!need_for_rekey(None));
}

#[test]
fn shared_secret_status() {
    assert_eq!(has_shared_secret(Some((1, Some(vec![1, 2])))), Some(true));
    assert_eq!(has_shared_secret(Some((1, None))), Some(false));
    assert_eq!(has_shared_secret(Some((0, Some(vec![1])))), None);
    assert_eq!(has_shared_secret(None), None);
}

#[test]
fn secret_kinds_by_name() {
    assert_eq!(secret_kind("send_root_secret"), Some(SecretKind::Send));
    assert_eq!(secret_kind("recv_root_secret"), Some(SecretKind::Receive));
    assert_eq!(secret_kind("root_secret"), None);
    assert_eq!(secret_kind(""), None);
}

#[test]
fn only_full_length_shared_secrets_are_kept() {
    let rows = vec![
        (vec![1u8; 32], "alice".to_string()),
        (vec![2u8; 31], "bob".to_string()),
        (vec![3u8; 32], "carol".to_string()),
        (vec![], "dave".to_string()),
    ];
    let kept = usable_shared_secrets(rows);
    assert_eq!(kept, vec![("alice".to_string(), vec![1u8; 32]), ("carol".to_string(), vec![3u8; 32])]);
    assert_eq!(usable_shared_secrets(vec![]), vec![]);
}

#[test]
fn stored_messages_read_back_oldest_first() {
    let key = vec![9u8; 32];
    let stored = vec![
        msg("3", seal_for_storage("third", &key)),
        msg("2", seal_for_storage("a&nbsp;b", &key)),
        msg("1", seal_for_storage("first", &key)),
    ];
    let opened = open_message_history(stored, &key).unwrap();
    let ids: Vec<&str> = opened.iter().map(|m| m.message_id.as_str()).collect();
    let texts: Vec<&str> = opened.iter().map(|m| m.content.as_str()).collect();
    assert_eq!(ids, vec!["1", "2", "3"]);
    assert_eq!(texts, vec!["first", "a b", "third"]);
    assert_eq!(opened[0].chat_id, "chat");
    assert_eq!(open_message_history(vec![], &key).unwrap().len(), 0);
}

#[test]
fn stored_content_is_hex() {
    let key = vec![9u8; 32];
    let s = seal_for_storage("abc", &key);
    assert_eq!(s.len(), 2 * (12 + 3 + 16));
    assert!(s.chars().all(|c| c.is_ascii_hexdigit() && !c.is_ascii_uppercase()));
}

#[test]
fn history_errors() {
    let key = vec![9u8; 32];
    let bad_hex = vec![msg("2", seal_for_storage("ok", &key)), msg("1", "not hex".to_string())];
    assert_eq!(open_message_history(bad_hex, &key).err(), Some(HistoryError::InvalidHex));
    let other_key = vec![8u8; 32];
    let wrong = vec![msg("1", seal_for_storage("secret", &other_key))];
    assert_eq!(open_message_history(wrong, &key).err(), Some(HistoryError::DecryptionFailed));
    // the oldest failing message decides the error
    let both = vec![
        msg("2", "zz".to_string()),
        msg("1", seal_for_storage("x", &other_key)),
    ];
    assert_eq!(open_message_history(both, &key).err(), Some(HistoryError::DecryptionFailed));
}

#[test]
fn kyber_key_exchange_agrees() {
    let kp = pqc_kyber::keypair(&mut rand::thread_rng()).unwrap();
    let mut payload = kp.public.to_vec();
    payload.extend_from_slice(&[0u8; 4]);
    let (ct, ss) = answer_kyber_key(&payload).unwrap();
    assert_eq!(ct.len(), 1568);
    assert_eq!(ss.len(), 32);
    let received = shared_secret_from_ciphertext(&ct, &kp.secret.to_vec()).unwrap();
    assert_eq!(received, ss);
    assert_eq!(shared_secret_from_ciphertext(&ct, &vec![0u8; 5]), None);
}

#[test]
fn default_chat_settings() {
    let s = PrivateChatSettings::default();
    assert_eq!(s.bubble_color, "#FFFFFF");
    assert!(s.background_picture.is_empty());
    assert_eq!(s.packground_color, "#000000");
    assert_eq!(s.deletion_timer, 0);
    assert!(s.profile_picture.is_empty());
    assert_eq!(s.nickname, "Anonymous");
}
