//! The one-shot session handshake: each side generates a keypair, sends a
//! message carrying its public key and a bit of opaque data, and records
//! the peer's message.  It runs once, before any package traffic, over
//! the same transport.
//!
//! The exchange distributes key material only: nothing authenticates the
//! keys, and a session never reverts to the unkeyed state.
//!
//! Message layout: a three-byte length prefix and the PEM-encoded public
//! key, then a three-byte length prefix and the opaque data.

use crate::errors::TransferError;
use crate::utils::{
    copy_range, lemma_pow256_values, lemma_wire_decode_bound, lemma_wire_round_trip,
    u8_bytes_to_usize, usize_to_u8_bytes, wire_decode, wire_encode,
};
use vstd::prelude::*;

verus! {

#[verifier::external_type_specification]
#[verifier::external_body]
#[verifier::reject_recursive_types(T)]
pub struct ExRsa<T>(openssl::rsa::Rsa<T>);

#[verifier::external_type_specification]
#[verifier::external_body]
pub struct ExPrivate(openssl::pkey::Private);

#[verifier::external_type_specification]
#[verifier::external_body]
pub struct ExErrorStack(openssl::error::ErrorStack);

/// Whether openssl accepts `pem` as a PEM-encoded public key: what
/// `PKey::public_key_from_pem` decides, a function of the bytes alone.
pub uninterp spec fn is_valid_public_pem(pem: Seq<u8>) -> bool;

/// Relies on openssl's PKey::public_key_from_pem: whether the bytes parse
/// as a PEM-encoded SubjectPublicKeyInfo structure.  The call asserts that
/// its buffer length fits a C int, so it is only made on key material a
/// three-byte length prefix can carry, far below that bound.
#[verifier::external_body]
fn public_key_pem_is_valid(pem: &Vec<u8>) -> (r: bool)
    requires
        pem@.len() <= 0xFFFFFF,
    ensures
        r == is_valid_public_pem(pem@),
{
    openssl::pkey::PKey::public_key_from_pem(pem.as_slice()).is_ok()
}

/// Relies on openssl's Rsa::generate: a fresh RSA private key of the
/// asked-for size, or an error stack.  Nothing is promised of the key.
#[verifier::external_body]
fn generate_rsa_key(bits: u32) -> (r: Result<
    openssl::rsa::Rsa<openssl::pkey::Private>,
    openssl::error::ErrorStack,
>) {
    openssl::rsa::Rsa::generate(bits)
}

/// Relies on openssl's RsaRef::public_key_to_pem: the PEM-encoded
/// SubjectPublicKeyInfo structure of the key's public half, which is
/// exactly the form PKey::public_key_from_pem decodes, so the material it
/// emits is valid.
#[verifier::external_body]
fn rsa_public_key_pem(key: &openssl::rsa::Rsa<openssl::pkey::Private>) -> (r: Result<
    Vec<u8>,
    openssl::error::ErrorStack,
>)
    ensures
        r is Ok ==> is_valid_public_pem(r.unwrap()@),
{
    key.public_key_to_pem()
}

/// The wire bytes of a handshake message: a three-byte length prefix and
/// the public-key material, then a three-byte length prefix and the
/// opaque data.
pub open spec fn shake_bytes(public_key: Seq<u8>, data: Seq<u8>) -> Seq<u8> {
    wire_encode(public_key.len(), 3) + public_key + wire_encode(data.len(), 3) + data
}

/// Parses one handshake message at the front of `b`: the key material,
/// the opaque data, and how many bytes the message occupies.  `None` when
/// `b` is too short for what its length prefixes demand.
pub open spec fn parse_shake(b: Seq<u8>) -> Option<(Seq<u8>, Seq<u8>, int)> {
    if b.len() < 3 {
        None
    } else {
        let kl = wire_decode(b.subrange(0, 3)) as int;
        if b.len() < 3 + kl + 3 {
            None
        } else {
            let dl = wire_decode(b.subrange(3 + kl, 3 + kl + 3)) as int;
            if b.len() < 3 + kl + 3 + dl {
                None
            } else {
                Some(
                    (
                        b.subrange(3, 3 + kl),
                        b.subrange(3 + kl + 3, 3 + kl + 3 + dl),
                        3 + kl + 3 + dl,
                    ),
                )
            }
        }
    }
}

/// A handshake message: the sender's public-key material, PEM-encoded,
/// and a bit of opaque data.
#[derive(Clone, Debug)]
pub struct Shake {
    /// The opaque data the sender includes.
    pub data: Vec<u8>,
    /// The sender's public key, PEM-encoded.
    pub public_key: Vec<u8>,
}

impl Shake {
    /// A message whose two parts each fit behind a three-byte length
    /// prefix.
    pub open spec fn wf(self) -> bool {
        &&& self.public_key@.len() <= 0xFFFFFF
        &&& self.data@.len() <= 0xFFFFFF
    }

    /// Serializes the handshake message: length-prefixed key material,
    /// then length-prefixed data.
    pub fn to_buffer(self) -> (r: Vec<u8>)
        requires
            self.wf(),
        ensures
            r@ == shake_bytes(self.public_key@, self.data@),
    {
        let ghost key_view = self.public_key@;
        let ghost data_view = self.data@;
        let mut buffer = usize_to_u8_bytes(self.public_key.len(), 3);
        let mut public_key = self.public_key;
        buffer.append(&mut public_key);
        let mut data_length = usize_to_u8_bytes(self.data.len(), 3);
        buffer.append(&mut data_length);
        let mut data = self.data;
        buffer.append(&mut data);
        proof {
            assert(buffer@ =~= shake_bytes(key_view, data_view));
        }
        buffer
    }

    /// Reads one handshake message out of `buf` starting at `pos` and
    /// checks its key material: the message and the position just past
    /// it.  Fewer bytes than the length prefixes demand are a short read;
    /// key material openssl does not accept is invalid.
    pub fn from_buffer(buf: &Vec<u8>, pos: usize) -> (r: Result<(Shake, usize), TransferError>)
        requires
            pos <= buf@.len(),
        ensures
            match r {
                Ok(p) => {
                    &&& parse_shake(buf@.skip(pos as int)) == Some(
                        (p.0.public_key@, p.0.data@, p.1 - pos),
                    )
                    &&& is_valid_public_pem(p.0.public_key@)
                    &&& p.0.wf()
                    &&& pos <= p.1 <= buf@.len()
                },
                Err(e) => {
                    &&& (e == TransferError::ShortRead <==> parse_shake(
                        buf@.skip(pos as int),
                    ) is None)
                    &&& (e == TransferError::InvalidKeyMaterial <==> (parse_shake(
                        buf@.skip(pos as int),
                    ) is Some && !is_valid_public_pem(
                        parse_shake(buf@.skip(pos as int)).unwrap().0,
                    )))
                    &&& (e == TransferError::ShortRead || e == TransferError::InvalidKeyMaterial)
                },
            },
    {
        let ghost tail = buf@.skip(pos as int);
        proof {
            lemma_pow256_values();
        }
        let remaining = buf.len() - pos;
        if remaining < 3 {
            return Err(TransferError::ShortRead);
        }
        let key_length_bytes = copy_range(buf, pos, pos + 3);
        proof {
            assert(key_length_bytes@ =~= tail.subrange(0, 3));
            lemma_wire_decode_bound(key_length_bytes@);
        }
        let key_length = u8_bytes_to_usize(&key_length_bytes);
        if remaining - 3 < key_length {
            return Err(TransferError::ShortRead);
        }
        if remaining - 3 - key_length < 3 {
            return Err(TransferError::ShortRead);
        }
        let data_length_bytes = copy_range(buf, pos + 3 + key_length, pos + 3 + key_length + 3);
        proof {
            assert(data_length_bytes@ =~= tail.subrange(
                3 + key_length as int,
                3 + key_length as int + 3,
            ));
            lemma_wire_decode_bound(data_length_bytes@);
        }
        let data_length = u8_bytes_to_usize(&data_length_bytes);
        if remaining - 3 - key_length - 3 < data_length {
            return Err(TransferError::ShortRead);
        }
        let public_key = copy_range(buf, pos + 3, pos + 3 + key_length);
        let data = copy_range(
            buf,
            pos + 3 + key_length + 3,
            pos + 3 + key_length + 3 + data_length,
        );
        proof {
            assert(public_key@ =~= tail.subrange(3, 3 + key_length as int));
            assert(data@ =~= tail.subrange(
                3 + key_length as int + 3,
                3 + key_length as int + 3 + data_length as int,
            ));
        }
        if !public_key_pem_is_valid(&public_key) {
            return Err(TransferError::InvalidKeyMaterial);
        }
        Ok((Shake { data, public_key }, pos + 3 + key_length + 3 + data_length))
    }
}

/// A handshake message parses back to exactly the key material and data
/// it was built from, consuming the whole message.
pub proof fn lemma_shake_round_trip(public_key: Seq<u8>, data: Seq<u8>)
    requires
        public_key.len() <= 0xFFFFFF,
        data.len() <= 0xFFFFFF,
    ensures
        shake_bytes(public_key, data).len() == 6 + public_key.len() + data.len(),
        parse_shake(shake_bytes(public_key, data)) == Some(
            (public_key, data, 6 + public_key.len() as int + data.len() as int),
        ),
{
    lemma_pow256_values();
    lemma_wire_round_trip(public_key.len(), 3);
    lemma_wire_round_trip(data.len(), 3);
    let b = shake_bytes(public_key, data);
    let kl = public_key.len() as int;
    let dl = data.len() as int;
    assert(b.len() == 6 + kl + dl);
    assert(b.subrange(0, 3) =~= wire_encode(public_key.len(), 3));
    assert(b.subrange(3, 3 + kl) =~= public_key);
    assert(b.subrange(3 + kl, 3 + kl + 3) =~= wire_encode(data.len(), 3));
    assert(b.subrange(3 + kl + 3, 3 + kl + 3 + dl) =~= data);
}

/// Handshake exchange: after one round between two parties, each party's
/// recorded peer key material is byte-for-byte the other party's own
/// public key, and the recorded opaque data is what the other party
/// sent.  When the parties' key material is valid, the parsed material is
/// too, so completing the handshake on the other party's message is bound
/// to succeed and to key the session.
pub proof fn lemma_handshake_exchange(
    key_a: Seq<u8>,
    data_a: Seq<u8>,
    key_b: Seq<u8>,
    data_b: Seq<u8>,
)
    requires
        key_a.len() <= 0xFFFFFF,
        data_a.len() <= 0xFFFFFF,
        key_b.len() <= 0xFFFFFF,
        data_b.len() <= 0xFFFFFF,
    ensures
        parse_shake(shake_bytes(key_a, data_a)) == Some(
            (key_a, data_a, 6 + key_a.len() as int + data_a.len() as int),
        ),
        parse_shake(shake_bytes(key_b, data_b)) == Some(
            (key_b, data_b, 6 + key_b.len() as int + data_b.len() as int),
        ),
        is_valid_public_pem(key_a) ==> is_valid_public_pem(
            parse_shake(shake_bytes(key_a, data_a)).unwrap().0,
        ),
        is_valid_public_pem(key_b) ==> is_valid_public_pem(
            parse_shake(shake_bytes(key_b, data_b)).unwrap().0,
        ),
{
    lemma_shake_round_trip(key_a, data_a);
    lemma_shake_round_trip(key_b, data_b);
}

/// The session state of one connection, created unkeyed and keyed at most
/// once, by a successful handshake exchange.
pub enum Handshake {
    /// A keyed session: the peer's handshake message and the local
    /// private key.
    SHAKEN(Shake, openssl::rsa::Rsa<openssl::pkey::Private>),
    /// An unkeyed session: raw data transfer with no key material.
    UNSHAKEN,
}

/// The local half of a handshake, built before the transport is touched.
pub struct PreparedHandshake {
    /// The local private key, kept for the keyed session.
    pub key: openssl::rsa::Rsa<openssl::pkey::Private>,
    /// The PEM-encoded public half that went into the message.
    pub public_key: Vec<u8>,
    /// The serialized handshake message to write to the peer.
    pub message: Vec<u8>,
}

/// Generates a fresh 2048-bit RSA keypair and serializes the handshake
/// message carrying its public half and the caller's opaque `data`.
///
/// Data the three-byte length prefix cannot carry is the one caller
/// configuration error, rejected before anything is generated.  A keypair
/// that cannot be generated, or whose public half cannot be encoded or
/// framed, surfaces as invalid key material.
pub fn prepare_handshake(data: Vec<u8>) -> (r: Result<PreparedHandshake, TransferError>)
    ensures
        match r {
            Ok(p) => {
                &&& p.message@ == shake_bytes(p.public_key@, data@)
                &&& is_valid_public_pem(p.public_key@)
                &&& p.public_key@.len() <= 0xFFFFFF
                &&& data@.len() <= 0xFFFFFF
            },
            Err(e) => e == TransferError::PayloadTooLarge || e
                == TransferError::InvalidKeyMaterial,
        },
        r == Err::<PreparedHandshake, TransferError>(TransferError::PayloadTooLarge)
            <==> data@.len() > 0xFFFFFF,
{
    if data.len() > 0xFFFFFF {
        return Err(TransferError::PayloadTooLarge);
    }
    let key = match generate_rsa_key(2048) {
        Result::Ok(k) => k,
        Result::Err(_) => {
            return Err(TransferError::InvalidKeyMaterial);
        },
    };
    let public_key = match rsa_public_key_pem(&key) {
        Result::Ok(p) => p,
        Result::Err(_) => {
            return Err(TransferError::InvalidKeyMaterial);
        },
    };
    if public_key.len() > 0xFFFFFF {
        return Err(TransferError::InvalidKeyMaterial);
    }
    let public_key_copy = copy_range(&public_key, 0, public_key.len());
    proof {
        assert(public_key_copy@ =~= public_key@);
    }
    let shake = Shake { data, public_key: public_key_copy };
    let message = shake.to_buffer();
    Ok(PreparedHandshake { key, public_key, message })
}

/// Completes the handshake with the peer's bytes: parses and validates
/// the peer's message and keys the session with it and the private key
/// handed in.  Returns the keyed session and the position just past the
/// message.  Succeeds exactly when the peer's message parses and its key
/// material is valid.
pub fn complete_handshake(
    key: openssl::rsa::Rsa<openssl::pkey::Private>,
    buf: &Vec<u8>,
    pos: usize,
) -> (r: Result<(Handshake, usize), TransferError>)
    requires
        pos <= buf@.len(),
    ensures
        r is Ok <==> (parse_shake(buf@.skip(pos as int)) is Some && is_valid_public_pem(
            parse_shake(buf@.skip(pos as int)).unwrap().0,
        )),
        match r {
            Ok(p) => {
                &&& p.0 is SHAKEN
                &&& parse_shake(buf@.skip(pos as int)) == Some(
                    (p.0->SHAKEN_0.public_key@, p.0->SHAKEN_0.data@, p.1 - pos),
                )
                &&& is_valid_public_pem(p.0->SHAKEN_0.public_key@)
                &&& p.0->SHAKEN_1 == key
                &&& pos <= p.1 <= buf@.len()
            },
            Err(e) => {
                &&& (e == TransferError::ShortRead <==> parse_shake(
                    buf@.skip(pos as int),
                ) is None)
                &&& (e == TransferError::InvalidKeyMaterial <==> (parse_shake(
                    buf@.skip(pos as int),
                ) is Some && !is_valid_public_pem(parse_shake(buf@.skip(pos as int)).unwrap().0)))
                &&& (e == TransferError::ShortRead || e == TransferError::InvalidKeyMaterial)
            },
        },
{
    match Shake::from_buffer(buf, pos) {
        Result::Ok((shake, end)) => Ok((Handshake::SHAKEN(shake, key), end)),
        Result::Err(e) => Err(e),
    }
}

} // verus!
