//! The rules a private chat follows around its stored records: the records
//! themselves, when a chat re-keys, what the shared-secret column says,
//! which secret column a request names, and how messages are sealed for
//! storage and opened again.
use vstd::prelude::*;
use vstd::string::StringSliceAdditionalSpecFns;
use crate::aead::{
    decrypt_message, encrypt_message, message_text, nbsp_entity, opened, sealed_with_nonce,
};
use crate::laws::law_hex_round_trip;
use crate::crypto::slice_range;
use crate::primitives::{
    hex_decode, hex_decode_bytes, hex_encode, hex_lower, kyber_decapsulate, replace_all,
    AES_GCM_MAX_PLAINTEXT,
    kyber_decapsulate_secret, kyber_encapsulate, kyber_encapsulates, str_eq, KYBER_CIPHERTEXT_LEN,
    KYBER_PUBLIC_KEY_LEN, KYBER_SECRET_KEY_LEN,
};

verus! {

/// A stored profile.
#[derive(Debug, Clone)]
pub struct Profile {
    pub profile_id: String,
    pub profile_name: String,
}

/// A chat as listed.
#[derive(Debug, Clone)]
pub struct ChatInfo {
    pub chat_id: String,
    pub chat_name: String,
    pub chat_type: String,
}

/// A stored message; `content` holds the hex of the sealed text while
/// stored, and the text once opened.
#[derive(Debug, Clone)]
pub struct Message {
    pub message_id: String,
    pub chat_id: String,
    pub sender_id: String,
    pub message_type: String,
    pub content: String,
}

/// The Kyber key pair stored for a chat.
#[derive(Debug, Clone)]
pub struct KyberKeys {
    pub perso_kyber_public: Vec<u8>,
    pub perso_kyber_secret: Vec<u8>,
}

/// A chat re-keys after every fourth message sent in it.
pub open spec fn rekey_due(sent_count: Option<i64>) -> bool {
    match sent_count {
        Some(n) => n != 0 && n % 4 == 0,
        None => false,
    }
}

/// Whether the chat must re-key, given the number of messages sent in it
/// (when the count could be read).
pub fn need_for_rekey(sent_count: Option<i64>) -> (r: bool)
    ensures
        r == rekey_due(sent_count),
{
    match sent_count {
        Some(n) => n != 0 && n % 4 == 0,
        None => false,
    }
}

/// What the row read for a chat says of its shared secret: no such chat
/// (`None`), no secret yet (`Some(false)`) or a secret (`Some(true)`).
pub open spec fn secret_status(row: Option<(i64, Option<Seq<u8>>)>) -> Option<bool> {
    match row {
        Some((count, secret)) => if count == 0 {
            None
        } else {
            Some(secret is Some)
        },
        None => None,
    }
}

pub open spec fn row_view(row: Option<(i64, Option<Vec<u8>>)>) -> Option<(i64, Option<Seq<u8>>)> {
    match row {
        Some((count, Some(s))) => Some((count, Some(s@))),
        Some((count, None)) => Some((count, None)),
        None => None,
    }
}

/// Whether a shared secret was established, from the row of the chat.
pub fn has_shared_secret(row: Option<(i64, Option<Vec<u8>>)>) -> (r: Option<bool>)
    ensures
        r == secret_status(row_view(row)),
{
    match row {
        Some((0, _)) => None,
        Some((_, None)) => Some(false),
        Some((_, Some(_))) => Some(true),
        None => None,
    }
}

/// The two secrets a chat keeps, one per direction.
#[derive(Debug, Clone, Copy, PartialEq, Eq)]
pub enum SecretKind {
    Send,
    Receive,
}

/// The chars of `"send_root_secret"`.
pub open spec fn send_name() -> Seq<char> {
    seq!['s', 'e', 'n', 'd', '_', 'r', 'o', 'o', 't', '_', 's', 'e', 'c', 'r', 'e', 't']
}

/// The chars of `"recv_root_secret"`.
pub open spec fn recv_name() -> Seq<char> {
    seq!['r', 'e', 'c', 'v', '_', 'r', 'o', 'o', 't', '_', 's', 'e', 'c', 'r', 'e', 't']
}

/// The secret a request names: `send_root_secret` or `recv_root_secret`;
/// any other name is refused.
pub fn secret_kind(s_type: &str) -> (r: Option<SecretKind>)
    ensures
        s_type@ == send_name() ==> r == Some(SecretKind::Send),
        s_type@ == recv_name() ==> r == Some(SecretKind::Receive),
        s_type@ != send_name() && s_type@ != recv_name() ==> r is None,
{
    let send = "send_root_secret";
    let recv = "recv_root_secret";
    proof {
        reveal_strlit("send_root_secret");
        reveal_strlit("recv_root_secret");
        assert(send@ =~= send_name());
        assert(recv@ =~= recv_name());
    }
    if str_eq(s_type, send) {
        Some(SecretKind::Send)
    } else if str_eq(s_type, recv) {
        Some(SecretKind::Receive)
    } else {
        None
    }
}

/// The shared secrets worth keeping in memory: those of 32 bytes, keyed by
/// the other user's identifier, in row order.
pub open spec fn usable_secrets(rows: Seq<(Seq<u8>, Seq<char>)>) -> Seq<(Seq<char>, Seq<u8>)>
    decreases rows.len(),
{
    if rows.len() == 0 {
        seq![]
    } else {
        let rest = usable_secrets(rows.drop_last());
        if rows.last().0.len() == 32 {
            rest.push((rows.last().1, rows.last().0))
        } else {
            rest
        }
    }
}

pub open spec fn rows_view(rows: Seq<(Vec<u8>, String)>) -> Seq<(Seq<u8>, Seq<char>)> {
    rows.map_values(|r: (Vec<u8>, String)| (r.0@, r.1@))
}

pub open spec fn pairs_view(pairs: Seq<(String, Vec<u8>)>) -> Seq<(Seq<char>, Seq<u8>)> {
    pairs.map_values(|p: (String, Vec<u8>)| (p.0@, p.1@))
}

/// Keeps the 32-byte shared secrets of the rows read, with the identifier
/// of the other user.
pub fn usable_shared_secrets(rows: Vec<(Vec<u8>, String)>) -> (r: Vec<(String, Vec<u8>)>)
    ensures
        pairs_view(r@) == usable_secrets(rows_view(rows@)),
{
    let ghost rv = rows_view(rows@);
    let mut out: Vec<(String, Vec<u8>)> = Vec::new();
    let mut k: usize = 0;
    while k < rows.len()
        invariant
            rv == rows_view(rows@),
            k <= rows@.len(),
            pairs_view(out@) == usable_secrets(rv.take(k as int)),
        decreases rows@.len() - k,
    {
        proof {
            assert(rv.take(k as int + 1).drop_last() =~= rv.take(k as int));
        }
        if rows[k].0.len() == 32 {
            let entry = (rows[k].1.clone(), rows[k].0.clone());
            let ghost before = out@;
            out.push(entry);
            proof {
                assert(pairs_view(out@) =~= pairs_view(before).push((rv[k as int].1, rv[k as int].0)));
            }
        }
        k = k + 1;
    }
    proof {
        assert(rv.take(k as int) =~= rv);
    }
    out
}

/// A message sealed for storage: the hex of the encrypted text.
pub fn seal_for_storage(message: &str, key: &Vec<u8>) -> (r: String)
    requires
        key@.len() == 32,
    ensures
        exists|nonce: Seq<u8>|
            nonce.len() == 12 && r@ == hex_lower(sealed_with_nonce(key@, nonce, message.spec_bytes())),
        message.spec_bytes().len() <= AES_GCM_MAX_PLAINTEXT ==> opened_content(key@, r@) == Some(
            replace_all(message@, nbsp_entity(), seq![' ']),
        ),
{
    let sealed = encrypt_message(message, key);
    let r = hex_encode(sealed.as_slice());
    proof {
        law_hex_round_trip(sealed@);
        vstd::utf8::encode_utf8_valid_utf8(message@);
        vstd::utf8::encode_utf8_decode_utf8(message@);
    }
    r
}

/// Why the stored messages of a chat could not be opened.
#[derive(Debug, Clone, Copy, PartialEq, Eq)]
pub enum HistoryError {
    /// A stored content is not hex text.
    InvalidHex,
    /// A stored content did not decrypt into text.
    DecryptionFailed,
}

/// What opening one stored content gives.
pub open spec fn opened_content(key: Seq<u8>, content: Seq<char>) -> Option<Seq<char>> {
    match hex_decode(vstd::utf8::encode_utf8(content)) {
        Some(buf) => if buf.len() >= 12 {
            match opened(key, buf) {
                Some(p) => if vstd::utf8::valid_utf8(p) {
                    Some(message_text(p))
                } else {
                    None
                },
                None => None,
            }
        } else {
            None
        },
        None => None,
    }
}

/// The error a stored content that does not open gives: `InvalidHex` when
/// it is not hex text, `DecryptionFailed` otherwise.
pub open spec fn history_error(content: Seq<char>) -> HistoryError {
    if hex_decode(vstd::utf8::encode_utf8(content)) is None {
        HistoryError::InvalidHex
    } else {
        HistoryError::DecryptionFailed
    }
}

proof fn lemma_older_open(key: Seq<u8>, orig: Seq<Message>, idx: int, done: int)
    requires
        idx + done + 1 == orig.len(),
        0 <= idx,
        forall|k: int|
            0 <= k < done ==> opened_content(key, (#[trigger] orig[orig.len() - 1 - k]).content@)
                is Some,
    ensures
        forall|j: int| idx < j < orig.len() ==> opened_content(key, (#[trigger] orig[j]).content@)
            is Some,
{
    assert forall|j: int| idx < j < orig.len() implies opened_content(key, (#[trigger] orig[j]).content@)
        is Some by {
        let k = orig.len() - 1 - j;
        assert(orig[orig.len() - 1 - k] == orig[j]);
    }
}

/// Opens the messages of a chat, which the store lists newest first: they
/// come back oldest first with their text in place of the sealed content.
/// The first content that is not hex, or that does not open, stops it.
pub fn open_message_history(messages: Vec<Message>, key: &Vec<u8>) -> (r: Result<
    Vec<Message>,
    HistoryError,
>)
    requires
        key@.len() == 32,
    ensures
        r matches Ok(out) ==> out@.len() == messages@.len() && forall|k: int|
            0 <= k < out@.len() ==> {
                let src = #[trigger] messages@[messages@.len() - 1 - k];
                &&& opened_content(key@, src.content@) == Some(out@[k].content@)
                &&& out@[k].message_id@ == src.message_id@
                &&& out@[k].chat_id@ == src.chat_id@
                &&& out@[k].sender_id@ == src.sender_id@
                &&& out@[k].message_type@ == src.message_type@
            },
        r matches Err(e) ==> exists|k: int|
            0 <= k < messages@.len() && opened_content(key@, #[trigger] messages@[k].content@)
                is None && e == history_error(messages@[k].content@) && forall|j: int|
                k < j < messages@.len() ==> opened_content(key@, #[trigger] messages@[j].content@)
                    is Some,
{
    let ghost orig = messages@;
    let mut pending = messages;
    let mut out: Vec<Message> = Vec::new();
    while pending.len() > 0
        invariant
            key@.len() == 32,
            orig == messages@,
            pending@ == orig.take(pending@.len() as int),
            out@.len() + pending@.len() == orig.len(),
            forall|k: int|
                0 <= k < out@.len() ==> {
                    let src = #[trigger] orig[orig.len() - 1 - k];
                    &&& opened_content(key@, src.content@) == Some(out@[k].content@)
                    &&& out@[k].message_id@ == src.message_id@
                    &&& out@[k].chat_id@ == src.chat_id@
                    &&& out@[k].sender_id@ == src.sender_id@
                    &&& out@[k].message_type@ == src.message_type@
                },
        decreases pending@.len(),
    {
        let msg = match pending.pop() {
            Some(m) => m,
            None => {
                return Err(HistoryError::DecryptionFailed);
            },
        };
        let ghost idx = pending@.len() as int;
        proof {
            assert(msg == orig[idx]);
            assert(pending@ =~= orig.take(idx));
        }
        let encrypted = match hex_decode_bytes(msg.content.as_str().as_bytes()) {
            Some(b) => b,
            None => {
                proof {
                    assert(opened_content(key@, orig[idx].content@) is None);
                    assert(history_error(orig[idx].content@) == HistoryError::InvalidHex);
                    lemma_older_open(key@, orig, idx, out@.len() as int);
                }
                return Err(HistoryError::InvalidHex);
            },
        };
        match decrypt_message(&encrypted, key) {
            Ok(text) => {
                let ghost before = out@;
                let Message { message_id, chat_id, sender_id, message_type, content: _ } = msg;
                out.push(Message { message_id, chat_id, sender_id, message_type, content: text });
                proof {
                    assert forall|k: int| 0 <= k < out@.len() implies {
                        let src = #[trigger] orig[orig.len() - 1 - k];
                        &&& opened_content(key@, src.content@) == Some(out@[k].content@)
                        &&& out@[k].message_id@ == src.message_id@
                        &&& out@[k].chat_id@ == src.chat_id@
                        &&& out@[k].sender_id@ == src.sender_id@
                        &&& out@[k].message_type@ == src.message_type@
                    } by {
                        if k < before.len() {
                            assert(out@[k] == before[k]);
                        } else {
                            assert(orig.len() - 1 - k == idx);
                        }
                    }
                }
            },
            Err(_) => {
                proof {
                    assert(opened_content(key@, orig[idx].content@) is None);
                    assert(history_error(orig[idx].content@) == HistoryError::DecryptionFailed);
                    lemma_older_open(key@, orig, idx, out@.len() as int);
                }
                return Err(HistoryError::DecryptionFailed);
            },
        }
    }
    Ok(out)
}

/// The Kyber block that opens the payload of a key or ciphertext packet.
pub open spec fn kyber_block_of(payload: Seq<u8>) -> Seq<u8> {
    payload.subrange(0, KYBER_CIPHERTEXT_LEN as int)
}

/// The shared secret carried by the payload of a ciphertext packet, opened
/// with the Kyber secret key kept for the chat; `None` when that key does
/// not have the Kyber-1024 length.
pub fn shared_secret_from_ciphertext(payload: &Vec<u8>, kyber_secret: &Vec<u8>) -> (r: Option<
    Vec<u8>,
>)
    requires
        payload@.len() >= KYBER_CIPHERTEXT_LEN,
    ensures
        r is Some <==> kyber_secret@.len() == KYBER_SECRET_KEY_LEN,
        r matches Some(ss) ==> ss@ == kyber_decapsulate(kyber_block_of(payload@), kyber_secret@)
            && ss@.len() == 32,
{
    let ct = slice_range(payload.as_slice(), 0, KYBER_CIPHERTEXT_LEN);
    kyber_decapsulate_secret(ct.as_slice(), kyber_secret.as_slice())
}

/// The answer to the payload of a Kyber key packet: a ciphertext for the
/// key it opens with, and the shared secret that ciphertext carries.
/// `None` when the encapsulation fails.
pub fn answer_kyber_key(payload: &Vec<u8>) -> (r: Option<(Vec<u8>, Vec<u8>)>)
    requires
        payload@.len() >= KYBER_PUBLIC_KEY_LEN,
    ensures
        r matches Some(p) ==> p.0@.len() == KYBER_CIPHERTEXT_LEN && p.1@.len() == 32,
        r matches Some(p) ==> kyber_encapsulates(kyber_block_of(payload@), p.0@, p.1@),
{
    let pk = slice_range(payload.as_slice(), 0, KYBER_PUBLIC_KEY_LEN);
    kyber_encapsulate(pk.as_slice())
}

} // verus!
