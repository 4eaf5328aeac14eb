//! Encryption of chat messages and stored data with AES-256-GCM: a random
//! 12-byte nonce followed by the ciphertext and its tag.
use vstd::prelude::*;
use vstd::string::StringSliceAdditionalSpecFns;
use crate::crypto::slice_range;
use crate::primitives::{
    aes_gcm_decrypt, aes_gcm_encrypt, aes_gcm_open, aes_gcm_random_nonce, aes_gcm_seal,
    replace_all, str_replace, utf8_to_string, AES_GCM_MAX_PLAINTEXT,
};

verus! {

/// The sealed form of `data`: the nonce, then the ciphertext and tag; empty
/// when the data is too long to encrypt.
pub open spec fn sealed_with_nonce(key: Seq<u8>, nonce: Seq<u8>, data: Seq<u8>) -> Seq<u8> {
    if data.len() <= AES_GCM_MAX_PLAINTEXT {
        nonce + aes_gcm_seal(key, nonce, data)
    } else {
        seq![]
    }
}

/// Encrypts `data` under `key` with the given nonce, which leads the
/// result; empty when `data` is too long.
pub fn seal_with_leading_nonce(key: &Vec<u8>, nonce: &Vec<u8>, data: &[u8]) -> (r: Vec<u8>)
    requires
        key@.len() == 32,
        nonce@.len() == 12,
    ensures
        r@ == sealed_with_nonce(key@, nonce@, data@),
        data@.len() <= AES_GCM_MAX_PLAINTEXT ==> opened(key@, r@) == Some(data@),
        data@.len() <= AES_GCM_MAX_PLAINTEXT ==> r@.len() == 12 + data@.len() + 16,
{
    match aes_gcm_encrypt(key.as_slice(), nonce.as_slice(), data) {
        Some(mut encrypted) => {
            let ghost sealed = encrypted@;
            let mut result = nonce.clone();
            result.append(&mut encrypted);
            proof {
                assert(result@.subrange(0, 12) =~= nonce@);
                assert(result@.subrange(12, result@.len() as int) =~= sealed);
            }
            result
        },
        None => Vec::new(),
    }
}

/// Encrypts `data` under `key` with a fresh random nonce.
pub fn encrypt_data(data: &[u8], key_buffer: &Vec<u8>) -> (r: Vec<u8>)
    requires
        key_buffer@.len() == 32,
    ensures
        exists|nonce: Seq<u8>|
            nonce.len() == 12 && r@ == sealed_with_nonce(key_buffer@, nonce, data@),
        data@.len() <= AES_GCM_MAX_PLAINTEXT ==> decrypt_outcome(key_buffer@, r@) == Ok::<
            Seq<u8>,
            CipherError,
        >(data@),
        data@.len() <= AES_GCM_MAX_PLAINTEXT ==> r@.len() == 12 + data@.len() + 16,
{
    let nonce = aes_gcm_random_nonce();
    seal_with_leading_nonce(key_buffer, &nonce, data)
}

/// Encrypts the UTF-8 bytes of `plain_text` under `key` with a fresh random
/// nonce.
pub fn encrypt_message(plain_text: &str, key_buffer: &Vec<u8>) -> (r: Vec<u8>)
    requires
        key_buffer@.len() == 32,
    ensures
        exists|nonce: Seq<u8>|
            nonce.len() == 12 && r@ == sealed_with_nonce(key_buffer@, nonce, plain_text.spec_bytes()),
        plain_text.spec_bytes().len() <= AES_GCM_MAX_PLAINTEXT ==> decrypt_outcome(key_buffer@, r@)
            == Ok::<Seq<u8>, CipherError>(plain_text.spec_bytes()),
        plain_text.spec_bytes().len() <= AES_GCM_MAX_PLAINTEXT ==> r@.len() == 12
            + plain_text.spec_bytes().len() + 16,
{
    encrypt_data(plain_text.as_bytes(), key_buffer)
}

/// Why a stored or received message could not be decrypted.
#[derive(Debug, Clone, Copy, PartialEq, Eq)]
pub enum CipherError {
    /// Shorter than a nonce.
    TooShort,
    /// The tag does not authenticate.
    DecryptionFailed,
    /// The plaintext is not UTF-8.
    InvalidUtf8,
}

/// The plaintext of a sealed buffer, when it authenticates.
pub open spec fn opened(key: Seq<u8>, buffer: Seq<u8>) -> Option<Seq<u8>> {
    aes_gcm_open(key, buffer.subrange(0, 12), buffer.subrange(12, buffer.len() as int))
}

/// What decrypting `buffer` under `key` gives.
pub open spec fn decrypt_outcome(key: Seq<u8>, buffer: Seq<u8>) -> Result<Seq<u8>, CipherError> {
    if buffer.len() < 12 {
        Err(CipherError::TooShort)
    } else {
        match opened(key, buffer) {
            Some(p) => Ok(p),
            None => Err(CipherError::DecryptionFailed),
        }
    }
}

/// A result of bytes as plain values.
pub open spec fn bytes_result<E>(r: Result<Vec<u8>, E>) -> Result<Seq<u8>, E> {
    match r {
        Ok(v) => Ok(v@),
        Err(e) => Err(e),
    }
}

/// Decrypts a buffer made by `encrypt_data`.
pub fn decrypt_data(encrypted_buffer: &Vec<u8>, key_buffer: &Vec<u8>) -> (r: Result<Vec<u8>, CipherError>)
    requires
        key_buffer@.len() == 32,
    ensures
        encrypted_buffer@.len() < 12 ==> r == Err::<Vec<u8>, CipherError>(CipherError::TooShort),
        encrypted_buffer@.len() >= 12 ==> match opened(key_buffer@, encrypted_buffer@) {
            Some(p) => r matches Ok(v) && v@ == p,
            None => r == Err::<Vec<u8>, CipherError>(CipherError::DecryptionFailed),
        },
        forall|nonce: Seq<u8>, m: Seq<u8>|
            nonce.len() == 12 && m.len() <= AES_GCM_MAX_PLAINTEXT && encrypted_buffer@ == nonce
                + #[trigger] aes_gcm_seal(key_buffer@, nonce, m) ==> (r matches Ok(v) && v@ == m),
        bytes_result(r) == decrypt_outcome(key_buffer@, encrypted_buffer@),
{
    if encrypted_buffer.len() < 12 {
        proof {
            assert forall|nonce: Seq<u8>, m: Seq<u8>|
                nonce.len() == 12 && m.len() <= AES_GCM_MAX_PLAINTEXT && encrypted_buffer@ == nonce
                    + #[trigger] aes_gcm_seal(key_buffer@, nonce, m) implies false by {}
        }
        return Err(CipherError::TooShort);
    }
    let iv = slice_range(encrypted_buffer.as_slice(), 0, 12);
    let cipher_text = slice_range(encrypted_buffer.as_slice(), 12, encrypted_buffer.len());
    let result = aes_gcm_decrypt(key_buffer.as_slice(), iv.as_slice(), cipher_text.as_slice());
    proof {
        assert forall|nonce: Seq<u8>, m: Seq<u8>|
            nonce.len() == 12 && m.len() <= AES_GCM_MAX_PLAINTEXT && encrypted_buffer@ == nonce
                + #[trigger] aes_gcm_seal(key_buffer@, nonce, m) implies (result matches Some(v)
            && v@ == m) by {
            let b = encrypted_buffer@;
            assert(b.subrange(0, 12) =~= nonce);
            assert(b.subrange(12, b.len() as int) =~= aes_gcm_seal(key_buffer@, nonce, m));
        }
    }
    match result {
        Some(v) => Ok(v),
        None => Err(CipherError::DecryptionFailed),
    }
}

/// The bytes of `"&nbsp;"`, as characters.
pub open spec fn nbsp_entity() -> Seq<char> {
    seq!['&', 'n', 'b', 's', 'p', ';']
}

/// The text of a decrypted message, with every `&nbsp;` turned into a space.
pub open spec fn message_text(plaintext: Seq<u8>) -> Seq<char> {
    replace_all(vstd::utf8::decode_utf8(plaintext), nbsp_entity(), seq![' '])
}

/// Decrypts a buffer made by `encrypt_message` into text, turning every
/// `&nbsp;` into a space.
pub fn decrypt_message(encrypted_buffer: &Vec<u8>, key_buffer: &Vec<u8>) -> (r: Result<String, CipherError>)
    requires
        key_buffer@.len() == 32,
    ensures
        encrypted_buffer@.len() < 12 ==> r == Err::<String, CipherError>(CipherError::TooShort),
        encrypted_buffer@.len() >= 12 ==> match opened(key_buffer@, encrypted_buffer@) {
            Some(p) => if vstd::utf8::valid_utf8(p) {
                r matches Ok(s) && s@ == message_text(p)
            } else {
                r == Err::<String, CipherError>(CipherError::InvalidUtf8)
            },
            None => r == Err::<String, CipherError>(CipherError::DecryptionFailed),
        },
        forall|nonce: Seq<u8>, text: Seq<char>|
            nonce.len() == 12 && vstd::utf8::encode_utf8(text).len() <= AES_GCM_MAX_PLAINTEXT
                && encrypted_buffer@ == nonce + #[trigger] aes_gcm_seal(
                key_buffer@,
                nonce,
                vstd::utf8::encode_utf8(text),
            ) ==> (r matches Ok(s) && s@ == replace_all(text, nbsp_entity(), seq![' '])),
{
    let bytes = decrypt_data(encrypted_buffer, key_buffer)?;
    let ghost plain = bytes@;
    proof {
        assert forall|nonce: Seq<u8>, text: Seq<char>|
            nonce.len() == 12 && vstd::utf8::encode_utf8(text).len() <= AES_GCM_MAX_PLAINTEXT
                && encrypted_buffer@ == nonce + #[trigger] aes_gcm_seal(
                key_buffer@,
                nonce,
                vstd::utf8::encode_utf8(text),
            ) implies plain == vstd::utf8::encode_utf8(text) && vstd::utf8::valid_utf8(plain)
            && message_text(plain) == replace_all(text, nbsp_entity(), seq![' ']) by {
            let m = vstd::utf8::encode_utf8(text);
            assert(plain == m);
            vstd::utf8::encode_utf8_valid_utf8(text);
            vstd::utf8::encode_utf8_decode_utf8(text);
        }
    }
    match utf8_to_string(bytes) {
        Some(text) => {
            let pat = "&nbsp;";
            let rep = " ";
            proof {
                reveal_strlit("&nbsp;");
                reveal_strlit(" ");
                assert(pat@ =~= nbsp_entity());
                assert(rep@ =~= seq![' ']);
            }
            Ok(str_replace(text.as_str(), pat, rep))
        },
        None => Err(CipherError::InvalidUtf8),
    }
}

} // verus!
