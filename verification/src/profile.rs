//! A new profile: its keys, from the recovery phrase where they are derived
//! from it, and the stored form of its password.
use vstd::prelude::*;
use vstd::string::StringSliceAdditionalSpecFns;
use rand::RngCore;
use crate::identity::{ed25519_seed_public, DilithiumSigner, Ed25519Signer, Keys};

verus! {

/// The 64-byte BIP-39 seed of a recovery phrase (with the empty
/// passphrase), or `None` when the phrase is not a valid mnemonic.
pub uninterp spec fn bip39_seed(phrase: Seq<char>) -> Option<Seq<u8>>;

/// Whether `hash` is a bcrypt hash of `password` (some salt, some cost).
pub uninterp spec fn bcrypt_hashes(password: Seq<u8>, hash: Seq<char>) -> bool;

/// `Mnemonic::parse_normalized(phrase)` of bip39 followed by `to_seed("")`:
/// the seed, or `None` when the phrase does not parse.
#[verifier::external_body]
fn mnemonic_seed(phrase: &str) -> (r: Option<Vec<u8>>)
    ensures
        r matches Some(s) ==> bip39_seed(phrase@) == Some(s@) && s@.len() == 64,
        r is None ==> bip39_seed(phrase@) is None,
{
    match bip39::Mnemonic::parse_normalized(phrase) {
        Ok(m) => Some(m.to_seed("").to_vec()),
        Err(_) => None,
    }
}

/// `OsRng.fill_bytes` on 16 fresh bytes; the content is random.
#[verifier::external_body]
fn random_nonce() -> (r: [u8; 16])
{
    let mut nonce = [0u8; 16];
    rand::rngs::OsRng.fill_bytes(&mut nonce);
    nonce
}

/// `bcrypt::hash(password, DEFAULT_COST)`: a 60-character hash of the
/// password under a random salt, or `None` when the operating system gives
/// no randomness for the salt.
#[verifier::external_body]
fn bcrypt_default_hash(password: &str) -> (r: Option<String>)
    ensures
        r matches Some(h) ==> h@.len() == 60 && bcrypt_hashes(password.spec_bytes(), h@),
{
    bcrypt::hash(password, bcrypt::DEFAULT_COST).ok()
}

/// Why a profile could not be made.
#[derive(Debug, Clone, Copy, PartialEq, Eq)]
pub enum ProfileError {
    /// The recovery phrase is not a valid mnemonic.
    InvalidPhrase,
}

/// The seed of a recovery phrase.
pub fn profile_seed(phrase: &str) -> (r: Result<Vec<u8>, ProfileError>)
    ensures
        r matches Ok(s) ==> bip39_seed(phrase@) == Some(s@) && s@.len() == 64,
        r is Err <==> bip39_seed(phrase@) is None,
        r is Err ==> r == Err::<Vec<u8>, ProfileError>(ProfileError::InvalidPhrase),
{
    match mnemonic_seed(phrase) {
        Some(s) => Ok(s),
        None => Err(ProfileError::InvalidPhrase),
    }
}

/// The keys of a new profile: the Ed25519 key pair from the second half of
/// the phrase's seed, a fresh Dilithium key pair and a random nonce, with
/// the given storage key. Returns the keys and the seed.
pub fn create_profile_keys(phrase: &str, global_key: Vec<u8>) -> (r: Result<
    (Keys, Vec<u8>),
    ProfileError,
>)
    ensures
        r is Err <==> bip39_seed(phrase@) is None,
        r is Err ==> r matches Err(ProfileError::InvalidPhrase),
        r matches Ok((k, s)) ==> {
            &&& bip39_seed(phrase@) == Some(s@)
            &&& s@.len() == 64
            &&& k.ed25519_public() == ed25519_seed_public(s@.subrange(32, 64))
            &&& k.wf()
            &&& k.global_key == global_key
        },
{
    let seed = profile_seed(phrase)?;
    let half = crate::crypto::slice_range(seed.as_slice(), 32, 64);
    let ed25519_keys = Ed25519Signer::from_seed(half.as_slice());
    let dilithium_keys = DilithiumSigner::generate();
    let nonce = random_nonce();
    let keys = Keys { dilithium_keys, ed25519_keys, global_key, nonce };
    Ok((keys, seed))
}

/// The stored form of a profile's password: its bcrypt hash, or `None`
/// when no salt could be drawn.
pub fn hash_password(password: &str) -> (r: Option<String>)
    ensures
        r matches Some(h) ==> h@.len() == 60 && bcrypt_hashes(password.spec_bytes(), h@),
{
    bcrypt_default_hash(password)
}

} // verus!
