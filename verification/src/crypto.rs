//! Key derivation and authenticated encryption of the group protocol.
use vstd::prelude::*;
use vstd::string::StringSliceAdditionalSpecFns;
use crate::primitives::{
    aes_gcm_decrypt, aes_gcm_encrypt, aes_gcm_open, aes_gcm_seal, hkdf_sha256, hkdf_sha256_expand,
    os_random_bytes, thread_random_bytes, AES_GCM_MAX_PLAINTEXT,
};

verus! {

/// The bytes of `"PQ-MLS 1.0 "`, prefixed to every derivation label.
pub open spec fn mls_label_prefix() -> Seq<u8> {
    seq![80u8, 81, 45, 77, 76, 83, 32, 49, 46, 48, 32]
}

/// The bytes of `"node"`, the label of node secrets.
pub open spec fn node_label() -> Seq<u8> {
    seq![110u8, 111, 100, 101]
}

/// The bytes of `"aes-gcm key"`, the HKDF info of message keys.
pub open spec fn aes_key_info() -> Seq<u8> {
    seq![97u8, 101, 115, 45, 103, 99, 109, 32, 107, 101, 121]
}

/// The 64-byte secret derived from `secret` under `label`.
pub open spec fn derived_secret(secret: Seq<u8>, label: Seq<u8>) -> Seq<u8> {
    hkdf_sha256(secret, mls_label_prefix() + label, 64)
}

/// The secret of the next node up a path.
pub open spec fn next_node_secret(secret: Seq<u8>) -> Seq<u8> {
    derived_secret(secret, node_label())
}

/// The AES-256 key derived from a shared secret.
pub open spec fn aes_key_from(shared_secret: Seq<u8>) -> Seq<u8> {
    hkdf_sha256(shared_secret, aes_key_info(), 32)
}

fn bytes_of(values: &[u8]) -> (r: Vec<u8>)
    ensures
        r@ == values@,
{
    let mut r: Vec<u8> = Vec::new();
    let mut k: usize = 0;
    while k < values.len()
        invariant
            k <= values@.len(),
            r@ == values@.take(k as int),
        decreases values@.len() - k,
    {
        r.push(values[k]);
        proof {
            assert(r@ =~= values@.take(k as int + 1));
        }
        k = k + 1;
    }
    proof {
        assert(values@.take(k as int) =~= values@);
    }
    r
}

/// The 64-byte secret derived from `secret` under `label`: HKDF-SHA256 with
/// info `"PQ-MLS 1.0 " ++ label`.
pub fn derive_secret(secret: &Vec<u8>, label: &str) -> (r: Vec<u8>)
    ensures
        r@ == derived_secret(secret@, label.spec_bytes()),
        r@.len() == 64,
{
    let mut info = bytes_of(&[80u8, 81, 45, 77, 76, 83, 32, 49, 46, 48, 32]);
    let label_bytes = label.as_bytes();
    let mut extra = bytes_of(label_bytes);
    let ghost prefix = info@;
    info.append(&mut extra);
    proof {
        assert(prefix =~= mls_label_prefix());
        assert(info@ =~= mls_label_prefix() + label.spec_bytes());
    }
    hkdf_sha256_expand(secret.as_slice(), info.as_slice(), 64)
}

/// The secret of the next node up a path: `derive_secret(secret, "node")`.
pub fn derive_node_secret(secret: &Vec<u8>) -> (r: Vec<u8>)
    ensures
        r@ == next_node_secret(secret@),
        r@.len() == 64,
{
    let info = bytes_of(&[80u8, 81, 45, 77, 76, 83, 32, 49, 46, 48, 32, 110, 111, 100, 101]);
    proof {
        assert(info@ =~= mls_label_prefix() + node_label());
    }
    hkdf_sha256_expand(secret.as_slice(), info.as_slice(), 64)
}

/// The AES-256 key derived from a shared secret: 32 bytes of HKDF-SHA256
/// with info `"aes-gcm key"`.
pub fn derive_aes_key(shared_secret: &[u8]) -> (r: Vec<u8>)
    ensures
        r@ == aes_key_from(shared_secret@),
        r@.len() == 32,
{
    let info = bytes_of(&[97u8, 101, 115, 45, 103, 99, 109, 32, 107, 101, 121]);
    proof {
        assert(info@ =~= aes_key_info());
    }
    hkdf_sha256_expand(shared_secret, info.as_slice(), 32)
}

/// A fresh AES-256 key: a random 32-byte secret put through `derive_aes_key`.
pub fn key_exchange() -> (r: Vec<u8>)
    ensures
        exists|secret: Seq<u8>| secret.len() == 32 && r@ == aes_key_from(secret),
        r@.len() == 32,
{
    let secret = os_random_bytes(32);
    derive_aes_key(secret.as_slice())
}

/// The sealed form of `plaintext` under `key` and `nonce`: the AES-256-GCM
/// ciphertext and tag, then the nonce.
pub fn seal_with_appended_nonce(key: &Vec<u8>, plaintext: &[u8], nonce: &Vec<u8>) -> (r: Vec<u8>)
    requires
        key@.len() == 32,
        nonce@.len() == 12,
        plaintext@.len() <= AES_GCM_MAX_PLAINTEXT,
    ensures
        r@ == aes_gcm_seal(key@, nonce@, plaintext@) + nonce@,
        r@.len() == plaintext@.len() + 28,
        aes_gcm_open(key@, sealed_nonce(r@), sealed_body(r@)) == Some(plaintext@),
{
    let sealed = aes_gcm_encrypt(key.as_slice(), nonce.as_slice(), plaintext);
    match sealed {
        Some(mut out) => {
            let mut tail = nonce.clone();
            let ghost before = out@;
            out.append(&mut tail);
            proof {
                assert(tail@ =~= Seq::<u8>::empty());
                assert(sealed_nonce(out@) =~= nonce@);
                assert(sealed_body(out@) =~= before);
            }
            out
        },
        None => {
            proof {
                assert(false);
            }
            Vec::new()
        },
    }
}

/// Encrypts `plaintext` under `key` with a fresh random nonce, which is
/// appended to the ciphertext.
pub fn encrypt_with_aes(key: &Vec<u8>, plaintext: &[u8]) -> (r: Vec<u8>)
    requires
        key@.len() == 32,
        plaintext@.len() <= AES_GCM_MAX_PLAINTEXT,
    ensures
        exists|nonce: Seq<u8>|
            nonce.len() == 12 && r@ == aes_gcm_seal(key@, nonce, plaintext@) + nonce,
        r@.len() == plaintext@.len() + 28,
        aes_gcm_open(key@, sealed_nonce(r@), sealed_body(r@)) == Some(plaintext@),
{
    let nonce = thread_random_bytes(12);
    seal_with_appended_nonce(key, plaintext, &nonce)
}

/// The nonce part of a sealed message (its last 12 bytes).
pub open spec fn sealed_nonce(data: Seq<u8>) -> Seq<u8> {
    data.subrange(data.len() - 12, data.len() as int)
}

/// The ciphertext part of a sealed message (all but its last 12 bytes).
pub open spec fn sealed_body(data: Seq<u8>) -> Seq<u8> {
    data.subrange(0, data.len() - 12)
}

/// Decrypts a message sealed by `encrypt_with_aes`; the message must be
/// longer than its nonce and must authenticate.
pub fn decrypt_with_aes(key: &Vec<u8>, ciphertext_with_nonce: &[u8]) -> (r: Vec<u8>)
    requires
        key@.len() == 32,
        ciphertext_with_nonce@.len() > 12,
        aes_gcm_open(
            key@,
            sealed_nonce(ciphertext_with_nonce@),
            sealed_body(ciphertext_with_nonce@),
        ) is Some,
    ensures
        aes_gcm_open(key@, sealed_nonce(ciphertext_with_nonce@), sealed_body(ciphertext_with_nonce@))
            == Some(r@),
{
    let len = ciphertext_with_nonce.len();
    let body = slice_range(ciphertext_with_nonce, 0, len - 12);
    let nonce = slice_range(ciphertext_with_nonce, len - 12, len);
    match aes_gcm_decrypt(key.as_slice(), nonce.as_slice(), body.as_slice()) {
        Some(pt) => pt,
        None => {
            proof {
                assert(false);
            }
            Vec::new()
        },
    }
}

/// Decrypts a message sealed by `encrypt_with_aes`, or `None` when it is too
/// short or does not authenticate. What `encrypt_with_aes` sealed under the
/// same key decrypts to the plaintext.
pub fn try_decrypt_with_aes(key: &Vec<u8>, ciphertext_with_nonce: &[u8]) -> (r: Option<Vec<u8>>)
    requires
        key@.len() == 32,
    ensures
        r matches Some(p) ==> ciphertext_with_nonce@.len() > 12 && aes_gcm_open(
            key@,
            sealed_nonce(ciphertext_with_nonce@),
            sealed_body(ciphertext_with_nonce@),
        ) == Some(p@),
        r is None ==> ciphertext_with_nonce@.len() <= 12 || aes_gcm_open(
            key@,
            sealed_nonce(ciphertext_with_nonce@),
            sealed_body(ciphertext_with_nonce@),
        ) is None,
        forall|nonce: Seq<u8>, m: Seq<u8>|
            nonce.len() == 12 && m.len() <= AES_GCM_MAX_PLAINTEXT && ciphertext_with_nonce@.len()
                > 12 && ciphertext_with_nonce@ == #[trigger] aes_gcm_seal(key@, nonce, m) + nonce
                ==> (r matches Some(p) && p@ == m),
{
    let len = ciphertext_with_nonce.len();
    if len <= 12 {
        return None;
    }
    let body = slice_range(ciphertext_with_nonce, 0, len - 12);
    let nonce = slice_range(ciphertext_with_nonce, len - 12, len);
    let probe = aes_gcm_decrypt(key.as_slice(), nonce.as_slice(), body.as_slice());
    proof {
        assert forall|n: Seq<u8>, m: Seq<u8>|
            n.len() == 12 && m.len() <= AES_GCM_MAX_PLAINTEXT && ciphertext_with_nonce@
                == #[trigger] aes_gcm_seal(key@, n, m) + n implies (probe matches Some(p) && p@
            == m) by {
            let s = aes_gcm_seal(key@, n, m);
            let d = ciphertext_with_nonce@;
            assert(d.subrange(d.len() - 12, d.len() as int) =~= n);
            assert(d.subrange(0, d.len() - 12) =~= s);
            assert(aes_gcm_seal(key@, nonce@, m) == body@);
        }
    }
    match probe {
        Some(_) => Some(decrypt_with_aes(key, ciphertext_with_nonce)),
        None => None,
    }
}

/// A copy of `data[start..end]`.
pub fn slice_range(data: &[u8], start: usize, end: usize) -> (r: Vec<u8>)
    requires
        start <= end <= data@.len(),
    ensures
        r@ == data@.subrange(start as int, end as int),
{
    let mut r: Vec<u8> = Vec::new();
    let mut k = start;
    while k < end
        invariant
            start <= k <= end <= data@.len(),
            r@ == data@.subrange(start as int, k as int),
        decreases end - k,
    {
        r.push(data[k]);
        proof {
            assert(r@ =~= data@.subrange(start as int, k as int + 1));
        }
        k = k + 1;
    }
    r
}

} // verus!
