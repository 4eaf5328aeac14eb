//! The cryptographic and encoding primitives the library takes from other
//! crates, each behind a small wrapper whose contract states what the
//! crate's source or documentation shows. Results that take pages to state
//! are given a name; random results only get what holds of every outcome.
use vstd::prelude::*;
use aes_gcm::aead::{Aead, AeadCore, KeyInit};
use rand::Rng;
use rand_core::RngCore;
use sha2::Digest;

verus! {

/// Length of a Kyber-1024 public key.
pub const KYBER_PUBLIC_KEY_LEN: usize = 1568;

/// Length of a Kyber-1024 secret key.
pub const KYBER_SECRET_KEY_LEN: usize = 3168;

/// Length of a Kyber-1024 ciphertext.
pub const KYBER_CIPHERTEXT_LEN: usize = 1568;

/// Length of a Dilithium3 public key.
pub const DILITHIUM_PUBLIC_KEY_LEN: usize = 1952;

/// Length of a Dilithium3 signature.
pub const DILITHIUM_SIGNATURE_LEN: usize = 3293;

/// Length of an Ed25519 public key.
pub const ED25519_PUBLIC_KEY_LEN: usize = 32;

/// Length of an Ed25519 signature.
pub const ED25519_SIGNATURE_LEN: usize = 64;

/// Longest plaintext AES-256-GCM accepts (`P_MAX` of the aes-gcm crate).
pub const AES_GCM_MAX_PLAINTEXT: u64 = 0x10_0000_0000;

// ---------------------------------------------------------------------------
// Names for results that depend on the arguments alone
// ---------------------------------------------------------------------------

/// HKDF-SHA256 (no salt) of `ikm`, expanded with `info` to `len` bytes.
pub uninterp spec fn hkdf_sha256(ikm: Seq<u8>, info: Seq<u8>, len: nat) -> Seq<u8>;

/// SHA-256 digest of `data`.
pub uninterp spec fn sha256(data: Seq<u8>) -> Seq<u8>;

/// The Kyber-1024 keypair (public, secret) derived from a 64-byte seed.
pub uninterp spec fn kyber_derive(seed: Seq<u8>) -> (Seq<u8>, Seq<u8>);

/// The Kyber-1024 shared secret decapsulated from a ciphertext.
pub uninterp spec fn kyber_decapsulate(ct: Seq<u8>, sk: Seq<u8>) -> Seq<u8>;

/// Whether `ct` and `ss` are a Kyber-1024 ciphertext and shared secret
/// that encapsulation to the public key `pk` gives for some random coins.
pub uninterp spec fn kyber_encapsulates(pk: Seq<u8>, ct: Seq<u8>, ss: Seq<u8>) -> bool;

/// Whether `sig` is a valid Dilithium3 signature of `msg` under `pk`.
pub uninterp spec fn dilithium_valid(sig: Seq<u8>, msg: Seq<u8>, pk: Seq<u8>) -> bool;

/// Whether `sig` is a valid Ed25519 signature of `msg` under `pk`.
pub uninterp spec fn ed25519_valid(pk: Seq<u8>, msg: Seq<u8>, sig: Seq<u8>) -> bool;

/// AES-256-GCM ciphertext-and-tag of `pt` (no associated data).
pub uninterp spec fn aes_gcm_seal(key: Seq<u8>, nonce: Seq<u8>, pt: Seq<u8>) -> Seq<u8>;

/// AES-256-GCM opening of `ct`: the plaintext, or `None` when the tag does
/// not authenticate.
pub uninterp spec fn aes_gcm_open(key: Seq<u8>, nonce: Seq<u8>, ct: Seq<u8>) -> Option<Seq<u8>>;

// ---------------------------------------------------------------------------
// Encodings stated in full
// ---------------------------------------------------------------------------

/// Lower-case hex digit for a value below 16.
pub open spec fn hex_digit(v: u8) -> char {
    if v < 10 {
        (48 + v) as char
    } else {
        (87 + v) as char
    }
}

/// Lower-case hex encoding, two digits per byte, high nibble first.
pub open spec fn hex_lower(data: Seq<u8>) -> Seq<char>
    decreases data.len(),
{
    if data.len() == 0 {
        seq![]
    } else {
        hex_lower(data.drop_last()) + seq![
            hex_digit((data.last() / 16) as u8),
            hex_digit((data.last() % 16) as u8),
        ]
    }
}

/// Value of an ASCII hex digit (either case).
pub open spec fn hex_value(c: u8) -> Option<u8> {
    if 48 <= c <= 57 {
        Some((c - 48) as u8)
    } else if 97 <= c <= 102 {
        Some((c - 97 + 10) as u8)
    } else if 65 <= c <= 70 {
        Some((c - 65 + 10) as u8)
    } else {
        None
    }
}

/// Decoding of hex text (given as its bytes): `None` for an odd length or a
/// byte that is not a hex digit.
pub open spec fn hex_decode(text: Seq<u8>) -> Option<Seq<u8>>
    decreases text.len(),
{
    if text.len() % 2 != 0 {
        None
    } else if text.len() == 0 {
        Some(seq![])
    } else {
        match (
            hex_decode(text.subrange(0, text.len() - 2)),
            hex_value(text[text.len() - 2]),
            hex_value(text[text.len() - 1]),
        ) {
            (Some(prefix), Some(hi), Some(lo)) => Some(prefix.push((hi * 16 + lo) as u8)),
            _ => None,
        }
    }
}

/// `s` with every non-overlapping occurrence of `pat`, scanned from the left,
/// replaced by `rep`.
pub open spec fn replace_all(s: Seq<char>, pat: Seq<char>, rep: Seq<char>) -> Seq<char>
    decreases s.len(),
{
    if pat.len() == 0 || s.len() < pat.len() {
        s
    } else if s.subrange(0, pat.len() as int) == pat {
        rep + replace_all(s.subrange(pat.len() as int, s.len() as int), pat, rep)
    } else {
        seq![s[0]] + replace_all(s.subrange(1, s.len() as int), pat, rep)
    }
}

// ---------------------------------------------------------------------------
// Wrappers
// ---------------------------------------------------------------------------

/// `Hkdf::<Sha256>::new(None, ikm)` followed by `expand(info, okm)` into `len`
/// bytes; `expand` fails only for `len` above 255 hash lengths.
#[verifier::external_body]
pub(crate) fn hkdf_sha256_expand(ikm: &[u8], info: &[u8], len: usize) -> (okm: Vec<u8>)
    requires
        len <= 255 * 32,
    ensures
        okm@ == hkdf_sha256(ikm@, info@, len as nat),
        okm@.len() == len,
{
    let hk = hkdf::Hkdf::<sha2::Sha256>::new(None, ikm);
    let mut okm = vec![0u8; len];
    hk.expand(info, &mut okm).expect("length is within the HKDF limit");
    okm
}

/// SHA-256 through `Sha256::new`, `update` and `finalize`; the digest has
/// 32 bytes.
#[verifier::external_body]
pub(crate) fn sha256_digest(data: &[u8]) -> (d: Vec<u8>)
    ensures
        d@ == sha256(data@),
        d@.len() == 32,
{
    let mut hasher = sha2::Sha256::new();
    hasher.update(data);
    hasher.finalize().to_vec()
}

/// `hex::encode`: lower-case hex digits, high nibble first.
#[verifier::external_body]
pub(crate) fn hex_encode(data: &[u8]) -> (s: String)
    ensures
        s@ == hex_lower(data@),
{
    hex::encode(data)
}

/// `hex::decode`: fails on an odd length or a non-hex byte, accepts both
/// cases of `a`..`f`.
#[verifier::external_body]
pub(crate) fn hex_decode_bytes(text: &[u8]) -> (r: Option<Vec<u8>>)
    ensures
        r matches Some(v) ==> hex_decode(text@) == Some(v@),
        r is None ==> hex_decode(text@) is None,
{
    hex::decode(text).ok()
}

/// `pqc_kyber::derive` on a 64-byte seed, which always succeeds; keys of the
/// Kyber-1024 sizes.
#[verifier::external_body]
pub(crate) fn kyber_derive_keypair(seed: &[u8]) -> (r: (Vec<u8>, Vec<u8>))
    requires
        seed@.len() == 64,
    ensures
        (r.0@, r.1@) == kyber_derive(seed@),
        r.0@.len() == KYBER_PUBLIC_KEY_LEN,
        r.1@.len() == KYBER_SECRET_KEY_LEN,
{
    let kp = pqc_kyber::derive(seed).expect("seed has 64 bytes");
    (kp.public.to_vec(), kp.secret.to_vec())
}

/// `pqc_kyber::decapsulate`: fails exactly when the ciphertext or the secret
/// key has the wrong length; the shared secret has 32 bytes.
#[verifier::external_body]
pub(crate) fn kyber_decapsulate_secret(ct: &[u8], sk: &[u8]) -> (r: Option<Vec<u8>>)
    ensures
        r is Some <==> (ct@.len() == KYBER_CIPHERTEXT_LEN && sk@.len() == KYBER_SECRET_KEY_LEN),
        r matches Some(ss) ==> ss@ == kyber_decapsulate(ct@, sk@) && ss@.len() == 32,
{
    match pqc_kyber::decapsulate(ct, sk) {
        Ok(ss) => Some(ss.to_vec()),
        Err(_) => None,
    }
}

/// `pqc_kyber::encapsulate` with the operating system's generator. The
/// ciphertext and the shared secret are random: what is stated is that it
/// fails on a public key of the wrong length, that what it returns is an
/// encapsulation to `pk`, and the output lengths. That decapsulation gives
/// the secret back is left unsaid: Kyber decapsulates correctly only with
/// overwhelming probability over the coins, not for every outcome.
#[verifier::external_body]
pub(crate) fn kyber_encapsulate(pk: &[u8]) -> (r: Option<(Vec<u8>, Vec<u8>)>)
    ensures
        pk@.len() != KYBER_PUBLIC_KEY_LEN ==> r is None,
        r matches Some(p) ==> p.0@.len() == KYBER_CIPHERTEXT_LEN && p.1@.len() == 32,
        r matches Some(p) ==> kyber_encapsulates(pk@, p.0@, p.1@),
{
    match pqc_kyber::encapsulate(pk, &mut rand::rngs::OsRng) {
        Ok((ct, ss)) => Some((ct.to_vec(), ss.to_vec())),
        Err(_) => None,
    }
}

/// `pqc_dilithium::verify(sig, msg, pk).is_ok()`; a signature of the wrong
/// length is rejected. The public key must have its full length: a shorter
/// one makes the unpacking index out of bounds.
#[verifier::external_body]
pub(crate) fn dilithium_verify(sig: &[u8], msg: &[u8], pk: &[u8]) -> (ok: bool)
    requires
        pk@.len() == DILITHIUM_PUBLIC_KEY_LEN,
    ensures
        ok == dilithium_valid(sig@, msg@, pk@),
        sig@.len() != DILITHIUM_SIGNATURE_LEN ==> !ok,
{
    pqc_dilithium::verify(sig, msg, pk).is_ok()
}

/// `UnparsedPublicKey::new(&ED25519, pk).verify(msg, sig).is_ok()` of ring.
#[verifier::external_body]
pub(crate) fn ed25519_verify(pk: &[u8], msg: &[u8], sig: &[u8]) -> (ok: bool)
    ensures
        ok == ed25519_valid(pk@, msg@, sig@),
{
    ring::signature::UnparsedPublicKey::new(&ring::signature::ED25519, pk).verify(msg, sig).is_ok()
}

/// `Aes256Gcm::new(key).encrypt(nonce, pt)`: fails only for a plaintext
/// longer than `P_MAX`; the output is the ciphertext followed by a 16-byte
/// tag, and decrypting it under the same key and nonce gives `pt` back.
#[verifier::external_body]
pub(crate) fn aes_gcm_encrypt(key: &[u8], nonce: &[u8], pt: &[u8]) -> (r: Option<Vec<u8>>)
    requires
        key@.len() == 32,
        nonce@.len() == 12,
    ensures
        r is Some <==> pt@.len() <= AES_GCM_MAX_PLAINTEXT,
        r matches Some(c) ==> c@ == aes_gcm_seal(key@, nonce@, pt@) && c@.len() == pt@.len() + 16,
        r matches Some(c) ==> aes_gcm_open(key@, nonce@, c@) == Some(pt@),
{
    let cipher = aes_gcm::Aes256Gcm::new(aes_gcm::Key::<aes_gcm::Aes256Gcm>::from_slice(key));
    cipher.encrypt(aes_gcm::Nonce::from_slice(nonce), pt).ok()
}

/// `Aes256Gcm::new(key).decrypt(nonce, ct)`: the plaintext when the tag
/// authenticates. Opening what `encrypt` sealed under the same key and nonce
/// gives the plaintext back.
#[verifier::external_body]
pub(crate) fn aes_gcm_decrypt(key: &[u8], nonce: &[u8], ct: &[u8]) -> (r: Option<Vec<u8>>)
    requires
        key@.len() == 32,
        nonce@.len() == 12,
    ensures
        r matches Some(p) ==> aes_gcm_open(key@, nonce@, ct@) == Some(p@),
        r is None ==> aes_gcm_open(key@, nonce@, ct@) is None,
        r is None ==> forall|pt: Seq<u8>|
            pt.len() <= AES_GCM_MAX_PLAINTEXT ==> #[trigger] aes_gcm_seal(key@, nonce@, pt) != ct@,
        r matches Some(p) ==> forall|pt: Seq<u8>|
            pt.len() <= AES_GCM_MAX_PLAINTEXT && #[trigger] aes_gcm_seal(key@, nonce@, pt) == ct@
                ==> p@ == pt,
{
    let cipher = aes_gcm::Aes256Gcm::new(aes_gcm::Key::<aes_gcm::Aes256Gcm>::from_slice(key));
    cipher.decrypt(aes_gcm::Nonce::from_slice(nonce), ct).ok()
}

/// `OsRng.fill_bytes` on `len` fresh bytes; the content is random.
#[verifier::external_body]
pub(crate) fn os_random_bytes(len: usize) -> (r: Vec<u8>)
    ensures
        r@.len() == len,
{
    let mut buf = vec![0u8; len];
    rand_core::OsRng.fill_bytes(&mut buf);
    buf
}

/// `rand::thread_rng().fill_bytes` on `len` fresh bytes; the content is
/// random.
#[verifier::external_body]
pub(crate) fn thread_random_bytes(len: usize) -> (r: Vec<u8>)
    ensures
        r@.len() == len,
{
    let mut buf = vec![0u8; len];
    rand::thread_rng().fill_bytes(&mut buf);
    buf
}

/// `Aes256Gcm::generate_nonce(&mut OsRng)`: 12 random bytes.
#[verifier::external_body]
pub(crate) fn aes_gcm_random_nonce() -> (r: Vec<u8>)
    ensures
        r@.len() == 12,
{
    aes_gcm::Aes256Gcm::generate_nonce(&mut rand::rngs::OsRng).to_vec()
}

/// `OsRng.gen_range(min..max)`: a random value in the half-open range,
/// which must not be empty.
#[verifier::external_body]
pub(crate) fn os_random_in_range(min: usize, max: usize) -> (r: usize)
    requires
        min < max,
    ensures
        min <= r < max,
{
    rand::rngs::OsRng.gen_range(min..max)
}

/// `String::from_utf8`: the text when the bytes are valid UTF-8.
#[verifier::external_body]
pub(crate) fn utf8_to_string(bytes: Vec<u8>) -> (r: Option<String>)
    ensures
        r is Some <==> vstd::utf8::valid_utf8(bytes@),
        r matches Some(s) ==> s@ == vstd::utf8::decode_utf8(bytes@),
{
    String::from_utf8(bytes).ok()
}

/// `str::replace`: every non-overlapping occurrence of `pat`, from the left,
/// replaced by `rep`.
#[verifier::external_body]
pub(crate) fn str_replace(s: &str, pat: &str, rep: &str) -> (r: String)
    requires
        pat@.len() > 0,
    ensures
        r@ == replace_all(s@, pat@, rep@),
{
    s.replace(pat, rep)
}

/// `==` on two string slices.
#[verifier::external_body]
pub(crate) fn str_eq(a: &str, b: &str) -> (r: bool)
    ensures
        r == (a@ == b@),
{
    a == b
}

} // verus!
