//! A user's signing keys and the identifier derived from them.
use vstd::prelude::*;
use ring::signature::KeyPair;
use crate::primitives::{
    dilithium_valid, ed25519_valid, hex_encode, hex_lower, sha256, sha256_digest, DILITHIUM_PUBLIC_KEY_LEN,
    DILITHIUM_SIGNATURE_LEN, ED25519_PUBLIC_KEY_LEN, ED25519_SIGNATURE_LEN,
};

verus! {

#[verifier::external_type_specification]
#[verifier::external_body]
pub struct ExDilithiumKeypair(pqc_dilithium::Keypair);

#[verifier::external_type_specification]
#[verifier::external_body]
pub struct ExEd25519KeyPair(ring::signature::Ed25519KeyPair);

/// The Ed25519 public key of the key pair made from a 32-byte seed.
pub uninterp spec fn ed25519_seed_public(seed: Seq<u8>) -> Seq<u8>;

/// A Dilithium key pair kept together with its public key. The fields are
/// private, and the only ways to make one are `from_pair` and `generate`,
/// which read the public key from the pair they store.
pub struct DilithiumSigner {
    pair: pqc_dilithium::Keypair,
    public: Vec<u8>,
}

impl DilithiumSigner {
    /// The public key of the stored pair.
    pub closed spec fn public_key(&self) -> Seq<u8> {
        self.public@
    }

    /// Keeps `pair` with its `public` field, 1952 bytes.
    #[verifier::external_body]
    pub(crate) fn from_pair(pair: pqc_dilithium::Keypair) -> (r: Self)
        ensures
            r.public_key().len() == DILITHIUM_PUBLIC_KEY_LEN,
    {
        DilithiumSigner { public: pair.public.to_vec(), pair }
    }

    /// `Keypair::generate()` of pqc_dilithium, kept with its public key. The
    /// key pair is random; its public key has 1952 bytes.
    #[verifier::external_body]
    pub(crate) fn generate() -> (r: Self)
        ensures
            r.public_key().len() == DILITHIUM_PUBLIC_KEY_LEN,
    {
        let pair = pqc_dilithium::Keypair::generate();
        DilithiumSigner { public: pair.public.to_vec(), pair }
    }

    /// The public key.
    pub fn public(&self) -> (r: &Vec<u8>)
        ensures
            r@ == self.public_key(),
    {
        &self.public
    }

    /// `Keypair::sign` of pqc_dilithium: a 3293-byte signature of `msg`
    /// that `pqc_dilithium::verify` accepts under the pair's own public key
    /// (signing repeats until the signature verifies). Its bytes are not
    /// stated.
    #[verifier::external_body]
    pub(crate) fn sign(&self, msg: &[u8]) -> (sig: Vec<u8>)
        ensures
            sig@.len() == DILITHIUM_SIGNATURE_LEN,
            dilithium_valid(sig@, msg@, self.public_key()),
    {
        self.pair.sign(msg).to_vec()
    }
}

/// A ring Ed25519 key pair kept together with its public key. The fields
/// are private, and the only ways to make one are `from_pair` and
/// `from_seed`, which read the public key from the pair they store.
pub struct Ed25519Signer {
    pair: ring::signature::Ed25519KeyPair,
    public: Vec<u8>,
}

impl Ed25519Signer {
    /// The public key of the stored pair.
    pub closed spec fn public_key(&self) -> Seq<u8> {
        self.public@
    }

    /// Keeps `pair` with its public key, 32 bytes.
    #[verifier::external_body]
    pub(crate) fn from_pair(pair: ring::signature::Ed25519KeyPair) -> (r: Self)
        ensures
            r.public_key().len() == ED25519_PUBLIC_KEY_LEN,
    {
        Ed25519Signer { public: pair.public_key().as_ref().to_vec(), pair }
    }

    /// `Ed25519KeyPair::from_seed_unchecked` of ring, which fails only on a
    /// seed that is not 32 bytes long, kept with the pair's public key.
    #[verifier::external_body]
    pub(crate) fn from_seed(seed: &[u8]) -> (r: Self)
        requires
            seed@.len() == 32,
        ensures
            r.public_key() == ed25519_seed_public(seed@),
            r.public_key().len() == ED25519_PUBLIC_KEY_LEN,
    {
        let pair = ring::signature::Ed25519KeyPair::from_seed_unchecked(seed).expect("the seed has 32 bytes");
        Ed25519Signer { public: pair.public_key().as_ref().to_vec(), pair }
    }

    /// The public key.
    pub fn public(&self) -> (r: &Vec<u8>)
        ensures
            r@ == self.public_key(),
    {
        &self.public
    }

    /// `Ed25519KeyPair::sign` of ring: a 64-byte signature of `msg` that
    /// ring's Ed25519 verification accepts under the pair's own public key.
    /// Its bytes are not stated.
    #[verifier::external_body]
    pub(crate) fn sign(&self, msg: &[u8]) -> (sig: Vec<u8>)
        ensures
            sig@.len() == ED25519_SIGNATURE_LEN,
            ed25519_valid(self.public_key(), msg@, sig@),
    {
        self.pair.sign(msg).as_ref().to_vec()
    }
}

/// A user identifier: the lower-case hex of the SHA-256 digest of the
/// user's public keys and nonce.
pub open spec fn user_id_of(input: Seq<u8>) -> Seq<char> {
    hex_lower(sha256(input))
}

/// The identifier computed from `input`: hex of its SHA-256 digest.
pub fn create_user_id_hash(input: &[u8]) -> (r: String)
    ensures
        r@ == user_id_of(input@),
        r@.len() == 64,
{
    let digest = sha256_digest(input);
    proof {
        crate::laws::lemma_hex_lower_ascii(digest@);
    }
    hex_encode(digest.as_slice())
}

/// A user's keys: the two signing key pairs with their public keys, the key
/// that encrypts the local store, and the nonce that enters the identifier.
pub struct Keys {
    pub dilithium_keys: DilithiumSigner,
    pub ed25519_keys: Ed25519Signer,
    pub global_key: Vec<u8>,
    pub nonce: [u8; 16],
}

impl Keys {
    /// Bundles the key pairs with their public keys.
    pub fn new(
        dilithium_keys: pqc_dilithium::Keypair,
        ed25519_keys: ring::signature::Ed25519KeyPair,
        global_key: Vec<u8>,
        nonce: [u8; 16],
    ) -> (r: Self)
        ensures
            r.wf(),
            r.global_key == global_key,
            r.nonce == nonce,
    {
        Keys {
            dilithium_keys: DilithiumSigner::from_pair(dilithium_keys),
            ed25519_keys: Ed25519Signer::from_pair(ed25519_keys),
            global_key,
            nonce,
        }
    }

    /// The public keys have their algorithms' lengths.
    pub open spec fn wf(&self) -> bool {
        &&& self.dilithium_public().len() == DILITHIUM_PUBLIC_KEY_LEN
        &&& self.ed25519_public().len() == ED25519_PUBLIC_KEY_LEN
    }

    /// The Dilithium public key.
    pub open spec fn dilithium_public(&self) -> Seq<u8> {
        self.dilithium_keys.public_key()
    }

    /// The Ed25519 public key.
    pub open spec fn ed25519_public(&self) -> Seq<u8> {
        self.ed25519_keys.public_key()
    }

    /// The bytes the identifier is computed from.
    pub open spec fn id_input(&self) -> Seq<u8> {
        self.dilithium_public() + self.ed25519_public() + self.nonce@
    }

    /// This user's identifier: hex of SHA-256 over the Dilithium public
    /// key, the Ed25519 public key and the nonce.
    pub fn calculate_user_id(&self) -> (r: String)
        ensures
            r@ == user_id_of(self.id_input()),
            r@.len() == 64,
    {
        let mut input: Vec<u8> = self.dilithium_keys.public().clone();
        let mut ed = self.ed25519_keys.public().clone();
        input.append(&mut ed);
        let mut k: usize = 0;
        let ghost prefix = input@;
        while k < 16
            invariant
                k <= 16,
                prefix == self.dilithium_public() + self.ed25519_public(),
                input@ == prefix + self.nonce@.take(k as int),
            decreases 16 - k,
        {
            input.push(self.nonce[k]);
            proof {
                assert(input@ =~= prefix + self.nonce@.take(k as int + 1));
            }
            k = k + 1;
        }
        proof {
            assert(self.nonce@.take(16) =~= self.nonce@);
        }
        create_user_id_hash(input.as_slice())
    }
}

} // verus!
