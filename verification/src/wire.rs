//! The byte layout of the packets exchanged through the relay nodes.
//!
//! A packet starts with a five-byte header (a type byte and four bytes that
//! are zero, or the packet length for a node request), then a Dilithium
//! signature and an Ed25519 signature over everything that follows: the
//! sender's Dilithium and Ed25519 public keys, the receiver's identifier
//! (absent in packets addressed to a node), the sender's nonce, a
//! little-endian timestamp, and a payload.
use vstd::prelude::*;
use vstd::string::StringSliceAdditionalSpecFns;
use crate::aead::{encrypt_data, encrypt_message, sealed_with_nonce};
use crate::crypto::slice_range;
use crate::identity::{create_user_id_hash, user_id_of, Keys};
use crate::primitives::{
    dilithium_valid, dilithium_verify, ed25519_valid, ed25519_verify, hex_decode,
    aes_gcm_random_nonce, hex_decode_bytes, hex_encode, hex_lower, kyber_encapsulate,
    kyber_encapsulates, utf8_to_string, KYBER_CIPHERTEXT_LEN,
    KYBER_PUBLIC_KEY_LEN, DILITHIUM_SIGNATURE_LEN,
    ED25519_SIGNATURE_LEN,
};

verus! {

/// Length of the header.
pub const HEADER_LEN: usize = 5;

/// Start of the Dilithium signature.
pub const DILITHIUM_SIG_START: usize = 5;

/// Start of the Ed25519 signature.
pub const ED25519_SIG_START: usize = 3298;

/// Start of the signed data, which begins with the Dilithium public key.
pub const SIGNED_START: usize = 3362;

/// Start of the sender's Ed25519 public key.
pub const ED25519_PK_START: usize = 5314;

/// Start of the receiver's identifier.
pub const DST_ID_START: usize = 5346;

/// Start of the sender's nonce.
pub const NONCE_START: usize = 5378;

/// Start of the timestamp.
pub const TIMESTAMP_START: usize = 5394;

/// Start of the payload.
pub const PAYLOAD_START: usize = 5402;

/// Length of a group identifier (a textual UUID).
pub const GROUP_ID_LEN: usize = 36;

/// Start of what follows the group identifier in a group packet.
pub const GROUP_BODY_START: usize = 5438;

/// Length of a Kyber ciphertext inside a group packet.
pub const GROUP_CT_LEN: usize = 1568;

/// Start of the encrypted data after the ciphertext of a group packet.
pub const GROUP_DATA_START: usize = 7006;

/// The packet types.
pub const PREFIX_SERVER_CONNECT: u8 = 0x01;

pub const PREFIX_KYBER_KEY: u8 = 0x02;

pub const PREFIX_CIPHERTEXT: u8 = 0x03;

pub const PREFIX_MESSAGE: u8 = 0x04;

pub const PREFIX_GET_NODES: u8 = 0x0a;

pub const PREFIX_GROUP_INVITE: u8 = 0xC0;

pub const PREFIX_GROUP_ACCEPT: u8 = 0xC1;

pub const PREFIX_GROUP_HELLO: u8 = 0xC2;

pub const PREFIX_GROUP_UPDATE: u8 = 0xC5;

pub const PREFIX_GROUP_DELETE: u8 = 0xC6;

pub const PREFIX_GROUP_MESSAGE: u8 = 0xC7;

pub const PREFIX_VIDEO: u8 = 0xF0;

pub const PREFIX_DISCONNECT: u8 = 0xFF;

// ---------------------------------------------------------------------------
// Layout as plain values
// ---------------------------------------------------------------------------

/// `n` little-endian bytes of `t`.
pub open spec fn le_bytes(t: nat, n: nat) -> Seq<u8>
    decreases n,
{
    if n == 0 {
        seq![]
    } else {
        seq![(t % 256) as u8] + le_bytes(t / 256, (n - 1) as nat)
    }
}

/// The header of a packet of type `prefix`.
pub open spec fn header(prefix: u8) -> Seq<u8> {
    seq![prefix, 0u8, 0u8, 0u8, 0u8]
}

/// A framed packet: header, both signatures, signed data.
pub open spec fn framed(prefix: u8, dsig: Seq<u8>, esig: Seq<u8>, signed: Seq<u8>) -> Seq<u8> {
    header(prefix) + dsig + esig + signed
}

/// The signed data of a packet addressed to a user.
pub open spec fn signed_to_user(
    keys: &Keys,
    dst: Seq<u8>,
    timestamp: u64,
    payload: Seq<u8>,
) -> Seq<u8> {
    keys.dilithium_public() + keys.ed25519_public() + dst + keys.nonce@ + le_bytes(timestamp as nat, 8)
        + payload
}

/// The signed data of a packet addressed to a node.
pub open spec fn signed_to_node(keys: &Keys, timestamp: u64) -> Seq<u8> {
    keys.dilithium_public() + keys.ed25519_public() + keys.nonce@ + le_bytes(timestamp as nat, 8)
}

/// `data` is a framed packet of type `prefix` over `signed`, whose two
/// signatures have the lengths the algorithms give and verify over
/// `signed` under the public keys of `keys`.
pub open spec fn is_signed_packet(data: Seq<u8>, prefix: u8, keys: &Keys, signed: Seq<u8>) -> bool {
    exists|dsig: Seq<u8>, esig: Seq<u8>|
        dsig.len() == DILITHIUM_SIGNATURE_LEN && esig.len() == ED25519_SIGNATURE_LEN
            && dilithium_valid(dsig, signed, keys.dilithium_public())
            && ed25519_valid(keys.ed25519_public(), signed, esig)
            && data == #[trigger] framed(prefix, dsig, esig, signed)
}

/// The identifier of the sender of a packet addressed to a user, computed
/// from the keys and nonce it carries.
pub open spec fn source_id_of(packet: Seq<u8>) -> Seq<char> {
    user_id_of(
        packet.subrange(SIGNED_START as int, ED25519_PK_START as int) + packet.subrange(
            ED25519_PK_START as int,
            DST_ID_START as int,
        ) + packet.subrange(NONCE_START as int, TIMESTAMP_START as int),
    )
}

// ---------------------------------------------------------------------------
// Building
// ---------------------------------------------------------------------------

/// Appends `s` to `v`.
pub fn append_bytes(v: &mut Vec<u8>, s: &[u8])
    ensures
        final(v)@ == old(v)@ + s@,
{
    v.extend_from_slice(s);
    proof {
        assert(final(v)@ =~= old(v)@ + s@);
    }
}

/// The `n` low bytes of `t`, little-endian.
pub fn u64_to_le_bytes(t: u64) -> (r: Vec<u8>)
    ensures
        r@ == le_bytes(t as nat, 8),
{
    let mut r: Vec<u8> = Vec::new();
    let mut rest: u64 = t;
    let mut k: usize = 0;
    while k < 8
        invariant
            k <= 8,
            r@ + le_bytes(rest as nat, (8 - k) as nat) == le_bytes(t as nat, 8),
        decreases 8 - k,
    {
        let ghost before = r@;
        r.push((rest % 256) as u8);
        proof {
            assert(le_bytes(rest as nat, (8 - k) as nat) == seq![(rest % 256) as u8] + le_bytes(
                (rest / 256) as nat,
                (8 - k - 1) as nat,
            ));
            assert(r@ + le_bytes((rest / 256) as nat, (8 - k - 1) as nat) =~= before + le_bytes(
                rest as nat,
                (8 - k) as nat,
            ));
        }
        rest = rest / 256;
        k = k + 1;
    }
    proof {
        assert(r@ + le_bytes(rest as nat, 0) =~= r@);
    }
    r
}

/// Signs `signed` with both of the user's keys and frames it as a packet of
/// type `prefix`.
pub fn frame_signed(keys: &Keys, prefix: u8, signed: &Vec<u8>) -> (r: Vec<u8>)
    ensures
        is_signed_packet(r@, prefix, keys, signed@),
{
    let dsig = keys.dilithium_keys.sign(signed.as_slice());
    let esig = keys.ed25519_keys.sign(signed.as_slice());
    let mut packet: Vec<u8> = Vec::new();
    packet.push(prefix);
    packet.push(0);
    packet.push(0);
    packet.push(0);
    packet.push(0);
    append_bytes(&mut packet, dsig.as_slice());
    append_bytes(&mut packet, esig.as_slice());
    append_bytes(&mut packet, signed.as_slice());
    proof {
        assert(packet@ =~= framed(prefix, dsig@, esig@, signed@));
    }
    packet
}

/// The signed data of a packet to the user `dst`.
pub fn build_signed_to_user(keys: &Keys, dst: &[u8], timestamp: u64, payload: &[u8]) -> (r: Vec<
    u8,
>)
    ensures
        r@ == signed_to_user(keys, dst@, timestamp, payload@),
{
    let mut signed: Vec<u8> = Vec::new();
    append_bytes(&mut signed, keys.dilithium_keys.public().as_slice());
    append_bytes(&mut signed, keys.ed25519_keys.public().as_slice());
    append_bytes(&mut signed, dst);
    append_bytes(&mut signed, &keys.nonce);
    let ts = u64_to_le_bytes(timestamp);
    append_bytes(&mut signed, ts.as_slice());
    append_bytes(&mut signed, payload);
    signed
}

/// The signed data of a packet to a node.
pub fn build_signed_to_node(keys: &Keys, timestamp: u64) -> (r: Vec<u8>)
    ensures
        r@ == signed_to_node(keys, timestamp),
{
    let mut signed: Vec<u8> = Vec::new();
    append_bytes(&mut signed, keys.dilithium_keys.public().as_slice());
    append_bytes(&mut signed, keys.ed25519_keys.public().as_slice());
    append_bytes(&mut signed, &keys.nonce);
    let ts = u64_to_le_bytes(timestamp);
    append_bytes(&mut signed, ts.as_slice());
    signed
}

/// Why a packet could not be built.
#[derive(Debug, Clone, Copy, PartialEq, Eq)]
pub enum PacketError {
    /// The receiver's identifier is not hex text.
    InvalidHex,
    /// Kyber encapsulation to the given public key failed.
    EncapsulationFailed,
}

/// Decodes a hex identifier.
pub fn decode_user_id(id: &str) -> (r: Result<Vec<u8>, PacketError>)
    ensures
        r matches Ok(v) ==> hex_decode(id.spec_bytes()) == Some(v@),
        r is Err ==> hex_decode(id.spec_bytes()) is None && r == Err::<Vec<u8>, PacketError>(
            PacketError::InvalidHex,
        ),
{
    match hex_decode_bytes(id.as_bytes()) {
        Some(v) => Ok(v),
        None => Err(PacketError::InvalidHex),
    }
}

/// The request for the list of nodes: a signed packet to a node whose
/// header carries the packet length in bytes 1 and 2 (little-endian,
/// modulo 2^16).
pub fn create_get_nodes_packet(keys: &Keys, timestamp: u64) -> (r: Vec<u8>)
    ensures
        exists|p: Seq<u8>|
            is_signed_packet(p, PREFIX_GET_NODES, keys, signed_to_node(keys, timestamp)) && r@ == p.update(
                1,
                (p.len() % 256) as u8,
            ).update(2, ((p.len() / 256) % 256) as u8),
{
    let signed = build_signed_to_node(keys, timestamp);
    let mut packet = frame_signed(keys, PREFIX_GET_NODES, &signed);
    let ghost p = packet@;
    let total = packet.len();
    let low = (total % 256) as u8;
    let high = ((total / 256) % 256) as u8;
    packet.set(1, low);
    packet.set(2, high);
    packet
}

/// The packet announcing this user to the node it connects to.
pub fn create_server_connect_packet(keys: &Keys, timestamp: u64) -> (r: Vec<u8>)
    ensures
        is_signed_packet(r@, PREFIX_SERVER_CONNECT, keys, signed_to_node(keys, timestamp)),
{
    let signed = build_signed_to_node(keys, timestamp);
    frame_signed(keys, PREFIX_SERVER_CONNECT, &signed)
}

/// A signed packet of type `prefix` to the user with hex identifier `dst`,
/// carrying `payload`.
pub fn create_user_packet(
    keys: &Keys,
    prefix: u8,
    dst: &str,
    timestamp: u64,
    payload: &[u8],
) -> (r: Result<Vec<u8>, PacketError>)
    ensures
        r matches Ok(p) ==> exists|d: Seq<u8>|
            hex_decode(dst.spec_bytes()) == Some(d) && is_signed_packet(
                p@,
                prefix,
                keys,
                signed_to_user(keys, d, timestamp, payload@),
            ),
        r is Err ==> hex_decode(dst.spec_bytes()) is None && r == Err::<Vec<u8>, PacketError>(
            PacketError::InvalidHex,
        ),
{
    let dst_bytes = decode_user_id(dst)?;
    let signed = build_signed_to_user(keys, dst_bytes.as_slice(), timestamp, payload);
    Ok(frame_signed(keys, prefix, &signed))
}

/// A signed packet of type `prefix` to the user with identifier bytes
/// `dst`, carrying `payload`.
pub fn create_user_packet_to_bytes(
    keys: &Keys,
    prefix: u8,
    dst: &[u8],
    timestamp: u64,
    payload: &[u8],
) -> (r: Vec<u8>)
    ensures
        is_signed_packet(r@, prefix, keys, signed_to_user(keys, dst@, timestamp, payload@)),
{
    let signed = build_signed_to_user(keys, dst, timestamp, payload);
    frame_signed(keys, prefix, &signed)
}

/// The packet carrying a Kyber ciphertext to the user `dst_id_bytes`.
pub fn create_cyphertext_packet(keys: &Keys, dst_id_bytes: &[u8], cyphertext: &[u8], timestamp: u64) -> (r: Vec<u8>)
    ensures
        is_signed_packet(
            r@,
            PREFIX_CIPHERTEXT,
            keys,
            signed_to_user(keys, dst_id_bytes@, timestamp, cyphertext@),
        ),
{
    create_user_packet_to_bytes(keys, PREFIX_CIPHERTEXT, dst_id_bytes, timestamp, cyphertext)
}

/// The packet carrying this user's Kyber public key for a chat to the user
/// `dst_id_bytes`.
pub fn create_kyber_key_packet(keys: &Keys, dst_id_bytes: &[u8], kyber_public: &[u8], timestamp: u64) -> (r: Vec<u8>)
    ensures
        is_signed_packet(
            r@,
            PREFIX_KYBER_KEY,
            keys,
            signed_to_user(keys, dst_id_bytes@, timestamp, kyber_public@),
        ),
{
    create_user_packet_to_bytes(keys, PREFIX_KYBER_KEY, dst_id_bytes, timestamp, kyber_public)
}

/// `a ++ b` as a new vector.
pub fn concat_bytes(a: &[u8], b: &[u8]) -> (r: Vec<u8>)
    ensures
        r@ == a@ + b@,
{
    let mut r: Vec<u8> = Vec::new();
    append_bytes(&mut r, a);
    append_bytes(&mut r, b);
    proof {
        assert(r@ =~= a@ + b@);
    }
    r
}

/// The packet answering a group invitation: the group identifier and this
/// user's Kyber public key for the group.
pub fn create_accept_invite_packet(
    keys: &Keys,
    group_id: &str,
    dst_id: &str,
    kyber_pk: &Vec<u8>,
    timestamp: u64,
) -> (r: Result<Vec<u8>, PacketError>)
    ensures
        r matches Ok(p) ==> exists|d: Seq<u8>|
            hex_decode(dst_id.spec_bytes()) == Some(d) && is_signed_packet(
                p@,
                PREFIX_GROUP_ACCEPT,
                keys,
                signed_to_user(keys, d, timestamp, group_id.spec_bytes() + kyber_pk@),
            ),
        r is Err ==> hex_decode(dst_id.spec_bytes()) is None,
{
    let payload = concat_bytes(group_id.as_bytes(), kyber_pk.as_slice());
    create_user_packet(keys, PREFIX_GROUP_ACCEPT, dst_id, timestamp, payload.as_slice())
}

/// The packet inviting the user `user_id` to a group: the group identifier
/// and the group's name.
pub fn create_group_invite_packet(
    keys: &Keys,
    user_id: &str,
    group_id: Vec<u8>,
    group_name: Vec<u8>,
    timestamp: u64,
) -> (r: Result<Vec<u8>, PacketError>)
    ensures
        r matches Ok(p) ==> exists|d: Seq<u8>|
            hex_decode(user_id.spec_bytes()) == Some(d) && is_signed_packet(
                p@,
                PREFIX_GROUP_INVITE,
                keys,
                signed_to_user(keys, d, timestamp, group_id@ + group_name@),
            ),
        r is Err ==> hex_decode(user_id.spec_bytes()) is None,
{
    let payload = concat_bytes(group_id.as_slice(), group_name.as_slice());
    create_user_packet(keys, PREFIX_GROUP_INVITE, user_id, timestamp, payload.as_slice())
}

/// The packet carrying an encrypted group update: the group identifier, the
/// Kyber ciphertext of the key, and the encrypted update.
pub fn create_group_update_packet(
    keys: &Keys,
    dst_id: &str,
    enc_group_data: &Vec<u8>,
    ct: &Vec<u8>,
    group_id: &str,
    timestamp: u64,
) -> (r: Result<Vec<u8>, PacketError>)
    ensures
        r matches Ok(p) ==> exists|d: Seq<u8>|
            hex_decode(dst_id.spec_bytes()) == Some(d) && is_signed_packet(
                p@,
                PREFIX_GROUP_UPDATE,
                keys,
                signed_to_user(keys, d, timestamp, group_id.spec_bytes() + ct@ + enc_group_data@),
            ),
        r is Err ==> hex_decode(dst_id.spec_bytes()) is None,
{
    let head = concat_bytes(group_id.as_bytes(), ct.as_slice());
    let payload = concat_bytes(head.as_slice(), enc_group_data.as_slice());
    create_user_packet(keys, PREFIX_GROUP_UPDATE, dst_id, timestamp, payload.as_slice())
}

/// The packet carrying a chat message to the user `dst_id_hexs`, encrypted
/// under the chat's current key `ss` with a fresh nonce.
pub fn create_send_message_packet(
    keys: &Keys,
    dst_id_hexs: &str,
    message_string: &str,
    ss: &Vec<u8>,
    timestamp: u64,
) -> (r: Result<Vec<u8>, PacketError>)
    requires
        ss@.len() == 32,
    ensures
        r matches Ok(p) ==> exists|d: Seq<u8>, nonce: Seq<u8>|
            hex_decode(dst_id_hexs.spec_bytes()) == Some(d) && nonce.len() == 12
                && is_signed_packet(
                p@,
                PREFIX_MESSAGE,
                keys,
                signed_to_user(
                    keys,
                    d,
                    timestamp,
                    sealed_with_nonce(ss@, nonce, message_string.spec_bytes()),
                ),
            ),
        r is Err ==> hex_decode(dst_id_hexs.spec_bytes()) is None,
{
    let dst_bytes = decode_user_id(dst_id_hexs)?;
    let message = encrypt_message(message_string, ss);
    Ok(create_user_packet_to_bytes(keys, PREFIX_MESSAGE, dst_bytes.as_slice(), timestamp, message.as_slice()))
}

/// The packet carrying a message to one member of a group: the group
/// identifier and the message encrypted under the group's key.
pub fn create_send_group_message_packet(
    keys: &Keys,
    dst_id_hexs: &str,
    message_string: &str,
    group_id: &str,
    root_key: &Vec<u8>,
    timestamp: u64,
) -> (r: Result<Vec<u8>, PacketError>)
    requires
        root_key@.len() == 32,
    ensures
        r matches Ok(p) ==> exists|d: Seq<u8>, nonce: Seq<u8>|
            hex_decode(dst_id_hexs.spec_bytes()) == Some(d) && nonce.len() == 12
                && is_signed_packet(
                p@,
                PREFIX_GROUP_MESSAGE,
                keys,
                signed_to_user(
                    keys,
                    d,
                    timestamp,
                    group_id.spec_bytes() + sealed_with_nonce(
                        root_key@,
                        nonce,
                        message_string.spec_bytes(),
                    ),
                ),
            ),
        r is Err ==> hex_decode(dst_id_hexs.spec_bytes()) is None,
{
    let dst_bytes = decode_user_id(dst_id_hexs)?;
    let message = encrypt_message(message_string, root_key);
    let payload = concat_bytes(group_id.as_bytes(), message.as_slice());
    Ok(create_user_packet_to_bytes(keys, PREFIX_GROUP_MESSAGE, dst_bytes.as_slice(), timestamp, payload.as_slice()))
}

/// The packet welcoming a new member of a group: the group identifier, a
/// Kyber ciphertext to the member's key, and the serialized hello encrypted
/// under the encapsulated secret.
pub fn create_hello_packet(
    keys: &Keys,
    hello_data: &Vec<u8>,
    dst_id: &str,
    pk: &Vec<u8>,
    group_id: &str,
    timestamp: u64,
) -> (r: Result<Vec<u8>, PacketError>)
    ensures
        r matches Ok(p) ==> exists|d: Seq<u8>, ct: Seq<u8>, secret: Seq<u8>, nonce: Seq<u8>|
            hex_decode(dst_id.spec_bytes()) == Some(d) && nonce.len() == 12 && secret.len() == 32
                && ct.len() == KYBER_CIPHERTEXT_LEN && kyber_encapsulates(pk@, ct, secret) && (
            hello_data@.len() <= crate::primitives::AES_GCM_MAX_PLAINTEXT ==> crate::aead::opened(
                secret,
                sealed_with_nonce(secret, nonce, hello_data@),
            ) == Some(hello_data@)) && is_signed_packet(
                p@,
                PREFIX_GROUP_HELLO,
                keys,
                signed_to_user(
                    keys,
                    d,
                    timestamp,
                    group_id.spec_bytes() + ct + sealed_with_nonce(secret, nonce, hello_data@),
                ),
            ),
        hex_decode(dst_id.spec_bytes()) is None <==> r == Err::<Vec<u8>, PacketError>(
            PacketError::InvalidHex,
        ),
        hex_decode(dst_id.spec_bytes()) is Some && pk@.len() != KYBER_PUBLIC_KEY_LEN ==> r == Err::<
            Vec<u8>,
            PacketError,
        >(PacketError::EncapsulationFailed),
{
    let dst_bytes = decode_user_id(dst_id)?;
    let (ct, new_secret) = match kyber_encapsulate(pk.as_slice()) {
        Some(pair) => pair,
        None => {
            return Err(PacketError::EncapsulationFailed);
        },
    };
    let nonce = aes_gcm_random_nonce();
    Ok(
        create_hello_packet_from(
            keys,
            hello_data,
            dst_bytes.as_slice(),
            &ct,
            &new_secret,
            &nonce,
            group_id,
            timestamp,
        ),
    )
}

/// The hello packet for a Kyber ciphertext already made: the group
/// identifier, the ciphertext, and the hello sealed under the secret the
/// ciphertext carries with the given nonce.
pub fn create_hello_packet_from(
    keys: &Keys,
    hello_data: &Vec<u8>,
    dst: &[u8],
    ct: &Vec<u8>,
    secret: &Vec<u8>,
    nonce: &Vec<u8>,
    group_id: &str,
    timestamp: u64,
) -> (r: Vec<u8>)
    requires
        secret@.len() == 32,
        nonce@.len() == 12,
    ensures
        hello_data@.len() <= crate::primitives::AES_GCM_MAX_PLAINTEXT ==> crate::aead::opened(
            secret@,
            sealed_with_nonce(secret@, nonce@, hello_data@),
        ) == Some(hello_data@),
        is_signed_packet(
            r@,
            PREFIX_GROUP_HELLO,
            keys,
            signed_to_user(
                keys,
                dst@,
                timestamp,
                group_id.spec_bytes() + ct@ + sealed_with_nonce(secret@, nonce@, hello_data@),
            ),
        ),
{
    let hello_data_enc = crate::aead::seal_with_leading_nonce(secret, nonce, hello_data.as_slice());
    let head = concat_bytes(group_id.as_bytes(), ct.as_slice());
    let payload = concat_bytes(head.as_slice(), hello_data_enc.as_slice());
    create_user_packet_to_bytes(keys, PREFIX_GROUP_HELLO, dst, timestamp, payload.as_slice())
}

// ---------------------------------------------------------------------------
// Reading
// ---------------------------------------------------------------------------

/// The identifier of the sender of a packet addressed to a user.
pub fn source_id_from_packet(packet: &Vec<u8>) -> (r: String)
    requires
        packet@.len() >= TIMESTAMP_START,
    ensures
        r@ == source_id_of(packet@),
        r@.len() == 64,
{
    let dilithium_pub_key = slice_range(packet.as_slice(), SIGNED_START, ED25519_PK_START);
    let ed25519_pub_key = slice_range(packet.as_slice(), ED25519_PK_START, DST_ID_START);
    let src_id_nonce = slice_range(packet.as_slice(), NONCE_START, TIMESTAMP_START);
    let head = concat_bytes(dilithium_pub_key.as_slice(), ed25519_pub_key.as_slice());
    let full_hash_input = concat_bytes(head.as_slice(), src_id_nonce.as_slice());
    create_user_id_hash(full_hash_input.as_slice())
}

/// The sender's Dilithium and Ed25519 public keys, as a packet carries them.
pub fn sender_public_keys(packet: &Vec<u8>) -> (r: (Vec<u8>, Vec<u8>))
    requires
        packet@.len() >= DST_ID_START,
    ensures
        r.0@ == packet@.subrange(SIGNED_START as int, ED25519_PK_START as int),
        r.1@ == packet@.subrange(ED25519_PK_START as int, DST_ID_START as int),
{
    (
        slice_range(packet.as_slice(), SIGNED_START, ED25519_PK_START),
        slice_range(packet.as_slice(), ED25519_PK_START, DST_ID_START),
    )
}

/// A packet from a user whose signatures were checked.
pub struct AuthenticatedPacket {
    /// The sender's identifier.
    pub source_id: String,
    /// The receiver's identifier, as hex.
    pub dst_id_hex: String,
    /// Everything after the timestamp.
    pub payload: Vec<u8>,
}

/// Why a packet was dropped.
#[derive(Debug, Clone, Copy, PartialEq, Eq)]
pub enum AuthError {
    InvalidDilithiumSignature,
    InvalidEd25519Signature,
}

/// The Dilithium signature of a packet.
pub open spec fn dilithium_sig_of(packet: Seq<u8>) -> Seq<u8> {
    packet.subrange(DILITHIUM_SIG_START as int, ED25519_SIG_START as int)
}

/// The Ed25519 signature of a packet.
pub open spec fn ed25519_sig_of(packet: Seq<u8>) -> Seq<u8> {
    packet.subrange(ED25519_SIG_START as int, SIGNED_START as int)
}

/// The signed data of a packet.
pub open spec fn signed_of(packet: Seq<u8>) -> Seq<u8> {
    packet.subrange(SIGNED_START as int, packet.len() as int)
}

/// Both signatures of a packet verify over its signed data under the
/// public keys it carries.
pub open spec fn authenticates(packet: Seq<u8>) -> bool {
    &&& dilithium_valid(
        dilithium_sig_of(packet),
        signed_of(packet),
        packet.subrange(SIGNED_START as int, ED25519_PK_START as int),
    )
    &&& ed25519_valid(
        packet.subrange(ED25519_PK_START as int, DST_ID_START as int),
        signed_of(packet),
        ed25519_sig_of(packet),
    )
}

/// Checks both signatures of a packet from a user against the public keys
/// it carries, Dilithium first, and returns the sender, the receiver and the
/// payload.
pub fn authenticate_packet(buffer: &Vec<u8>) -> (r: Result<AuthenticatedPacket, AuthError>)
    requires
        buffer@.len() >= PAYLOAD_START,
    ensures
        !dilithium_valid(
            dilithium_sig_of(buffer@),
            signed_of(buffer@),
            buffer@.subrange(SIGNED_START as int, ED25519_PK_START as int),
        ) ==> r == Err::<AuthenticatedPacket, AuthError>(AuthError::InvalidDilithiumSignature),
        dilithium_valid(
            dilithium_sig_of(buffer@),
            signed_of(buffer@),
            buffer@.subrange(SIGNED_START as int, ED25519_PK_START as int),
        ) && !ed25519_valid(
            buffer@.subrange(ED25519_PK_START as int, DST_ID_START as int),
            signed_of(buffer@),
            ed25519_sig_of(buffer@),
        ) ==> r == Err::<AuthenticatedPacket, AuthError>(AuthError::InvalidEd25519Signature),
        r matches Ok(a) ==> dilithium_valid(
            dilithium_sig_of(buffer@),
            signed_of(buffer@),
            buffer@.subrange(SIGNED_START as int, ED25519_PK_START as int),
        ) && ed25519_valid(
            buffer@.subrange(ED25519_PK_START as int, DST_ID_START as int),
            signed_of(buffer@),
            ed25519_sig_of(buffer@),
        ) && a.source_id@ == source_id_of(buffer@) && a.dst_id_hex@ == hex_lower(
            buffer@.subrange(DST_ID_START as int, NONCE_START as int),
        ) && a.payload@ == buffer@.subrange(PAYLOAD_START as int, buffer@.len() as int),
{
    let len = buffer.len();
    let dilithium_signature = slice_range(buffer.as_slice(), DILITHIUM_SIG_START, ED25519_SIG_START);
    let ed25519_signature = slice_range(buffer.as_slice(), ED25519_SIG_START, SIGNED_START);
    let dilithium_pub_key = slice_range(buffer.as_slice(), SIGNED_START, ED25519_PK_START);
    let ed25519_pub_key = slice_range(buffer.as_slice(), ED25519_PK_START, DST_ID_START);
    let dst_id_bytes = slice_range(buffer.as_slice(), DST_ID_START, NONCE_START);
    let data_to_sign = slice_range(buffer.as_slice(), SIGNED_START, len);
    if !dilithium_verify(
        dilithium_signature.as_slice(),
        data_to_sign.as_slice(),
        dilithium_pub_key.as_slice(),
    ) {
        return Err(AuthError::InvalidDilithiumSignature);
    }
    if !ed25519_verify(ed25519_pub_key.as_slice(), data_to_sign.as_slice(), ed25519_signature.as_slice()) {
        return Err(AuthError::InvalidEd25519Signature);
    }
    let dst_id_hex = hex_encode(dst_id_bytes.as_slice());
    let source_id = source_id_from_packet(buffer);
    let payload = slice_range(buffer.as_slice(), PAYLOAD_START, len);
    Ok(AuthenticatedPacket { source_id, dst_id_hex, payload })
}

/// The group identifier of a group packet, when it is UTF-8.
pub fn group_id_of_packet(packet: &Vec<u8>) -> (r: Option<String>)
    requires
        packet@.len() >= GROUP_BODY_START,
    ensures
        r is Some <==> vstd::utf8::valid_utf8(
            packet@.subrange(PAYLOAD_START as int, GROUP_BODY_START as int),
        ),
        r matches Some(s) ==> s@ == vstd::utf8::decode_utf8(
            packet@.subrange(PAYLOAD_START as int, GROUP_BODY_START as int),
        ),
{
    let bytes = slice_range(packet.as_slice(), PAYLOAD_START, GROUP_BODY_START);
    utf8_to_string(bytes)
}

/// What follows the group identifier in a group packet.
pub fn group_body_of_packet(packet: &Vec<u8>) -> (r: Vec<u8>)
    requires
        packet@.len() >= GROUP_BODY_START,
    ensures
        r@ == packet@.subrange(GROUP_BODY_START as int, packet@.len() as int),
{
    slice_range(packet.as_slice(), GROUP_BODY_START, packet.len())
}

/// The Kyber ciphertext and the encrypted data of a group update or hello
/// packet.
pub fn group_update_parts(packet: &Vec<u8>) -> (r: (Vec<u8>, Vec<u8>))
    requires
        packet@.len() >= GROUP_DATA_START,
    ensures
        r.0@ == packet@.subrange(GROUP_BODY_START as int, GROUP_DATA_START as int),
        r.1@ == packet@.subrange(GROUP_DATA_START as int, packet@.len() as int),
{
    (
        slice_range(packet.as_slice(), GROUP_BODY_START, GROUP_DATA_START),
        slice_range(packet.as_slice(), GROUP_DATA_START, packet.len()),
    )
}

/// What a received packet is, by its type byte.
#[derive(Debug, Clone, Copy, PartialEq, Eq)]
pub enum PacketKind {
    KyberKey,
    Ciphertext,
    Message,
    GroupInvite,
    GroupAccept,
    GroupHello,
    GroupUpdate,
    GroupDelete,
    GroupMessage,
    Video,
    Disconnect,
    Unknown,
}

/// The kind of a packet, by its type byte.
pub open spec fn kind_of(prefix: u8) -> PacketKind {
    if prefix == PREFIX_KYBER_KEY {
        PacketKind::KyberKey
    } else if prefix == PREFIX_CIPHERTEXT {
        PacketKind::Ciphertext
    } else if prefix == PREFIX_MESSAGE {
        PacketKind::Message
    } else if prefix == PREFIX_GROUP_INVITE {
        PacketKind::GroupInvite
    } else if prefix == PREFIX_GROUP_ACCEPT {
        PacketKind::GroupAccept
    } else if prefix == PREFIX_GROUP_HELLO {
        PacketKind::GroupHello
    } else if prefix == PREFIX_GROUP_UPDATE {
        PacketKind::GroupUpdate
    } else if prefix == PREFIX_GROUP_DELETE {
        PacketKind::GroupDelete
    } else if prefix == PREFIX_GROUP_MESSAGE {
        PacketKind::GroupMessage
    } else if prefix == PREFIX_VIDEO {
        PacketKind::Video
    } else if prefix == PREFIX_DISCONNECT {
        PacketKind::Disconnect
    } else {
        PacketKind::Unknown
    }
}

/// Classifies a received packet by its type byte.
pub fn classify_packet(prefix: u8) -> (r: PacketKind)
    ensures
        r == kind_of(prefix),
{
    if prefix == PREFIX_KYBER_KEY {
        PacketKind::KyberKey
    } else if prefix == PREFIX_CIPHERTEXT {
        PacketKind::Ciphertext
    } else if prefix == PREFIX_MESSAGE {
        PacketKind::Message
    } else if prefix == PREFIX_GROUP_INVITE {
        PacketKind::GroupInvite
    } else if prefix == PREFIX_GROUP_ACCEPT {
        PacketKind::GroupAccept
    } else if prefix == PREFIX_GROUP_HELLO {
        PacketKind::GroupHello
    } else if prefix == PREFIX_GROUP_UPDATE {
        PacketKind::GroupUpdate
    } else if prefix == PREFIX_GROUP_DELETE {
        PacketKind::GroupDelete
    } else if prefix == PREFIX_GROUP_MESSAGE {
        PacketKind::GroupMessage
    } else if prefix == PREFIX_VIDEO {
        PacketKind::Video
    } else if prefix == PREFIX_DISCONNECT {
        PacketKind::Disconnect
    } else {
        PacketKind::Unknown
    }
}

/// Where a stream buffer stands: too short to hold a header, holding part
/// of a packet, or holding a whole packet of the given type and size.
#[derive(Debug, Clone, Copy, PartialEq, Eq)]
pub enum FrameStatus {
    TooShort,
    Incomplete,
    Ready { prefix: u8, size: usize },
}

/// Reads the type and the little-endian 16-bit size from the start of a
/// stream buffer.
pub fn frame_status(buffer: &[u8]) -> (r: FrameStatus)
    ensures
        buffer@.len() < 3 ==> r == FrameStatus::TooShort,
        buffer@.len() >= 3 ==> {
            let size = buffer@[1] as usize + 256 * (buffer@[2] as usize);
            if buffer@.len() < size {
                r == FrameStatus::Incomplete
            } else {
                r == FrameStatus::Ready { prefix: buffer@[0], size: size as usize }
            }
        },
{
    if buffer.len() < 3 {
        return FrameStatus::TooShort;
    }
    let size = buffer[1] as usize + 256 * (buffer[2] as usize);
    if buffer.len() < size {
        FrameStatus::Incomplete
    } else {
        FrameStatus::Ready { prefix: buffer[0], size }
    }
}

} // verus!
