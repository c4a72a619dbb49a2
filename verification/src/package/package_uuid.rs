//! The 16-byte meta identifier embedded in every package frame.
//!
//! Layout: bytes 0-2 hold a random per-transfer prefix (non-authoritative,
//! collisions are not checked), bytes 3-6 hold the 1-based item number in
//! the fixed-width layout of width 4, byte 7 is reserved, bytes 8-13 carry
//! caller-supplied free bytes (truncated to six, padded with zeroes),
//! byte 14 is the type marker and byte 15 the encryption flag.

use crate::utils::{
    lemma_pow256_values, lemma_wire_decode_bound, u8_bytes_to_usize, usize_to_u8_bytes,
    wire_decode, wire_encode,
};
use vstd::prelude::*;

verus! {

/// Type marker of a handshake frame.  It shares its value with
/// `TYPE_MARKER_PACKAGE`: the collision is kept for wire compatibility
/// with the identifier scheme as deployed.
pub const TYPE_MARKER_HANDSHAKE: u8 = 1;

/// Type marker of a single package frame.
pub const TYPE_MARKER_PACKAGE: u8 = 1;

/// Type marker of a packages-collection frame.
pub const TYPE_MARKER_PACKAGES: u8 = 2;

/// Encryption flag of an unencrypted frame.
pub const ENCRYPTION_UNENCRYPTED: u8 = 0;

/// Encryption flag of an encrypted frame.  The flag is carried on the wire
/// but never acted upon by the protocol core.
pub const ENCRYPTION_ENCRYPTED: u8 = 1;

/// What a well-formed meta identifier holds of the fields the protocol
/// writes: everything except the random three-byte prefix.
pub open spec fn is_meta_uuid(
    id: Seq<u8>,
    item_number: nat,
    free: Seq<u8>,
    marker: u8,
    flag: u8,
) -> bool {
    &&& id.len() == 16
    &&& id.subrange(3, 7) == wire_encode(item_number, 4)
    &&& id[7] == 0
    &&& (forall|i: int|
        8 <= i < 14 ==> id[i] == (if i - 8 < free.len() {
            free[i - 8]
        } else {
            0u8
        }))
    &&& id[14] == marker
    &&& id[15] == flag
}

/// Relies on rand::random: draws one value of a type the standard
/// distribution covers; nothing is promised of the outcome.
pub assume_specification<T>[ rand::random::<T> ]() -> (r: T)
    where
        rand::distributions::Standard: rand::distributions::Distribution<T>,
;

/// Builds a fresh meta identifier for the frame numbered `item_number`
/// within its transfer.  Bytes 0-2 are drawn at random; free bytes beyond
/// the sixth are truncated.
pub fn new_uuid(item_number: usize, free_data: Vec<u8>, type_marker: u8, encrypted: u8) -> (r: Vec<
    u8,
>)
    ensures
        is_meta_uuid(r@, item_number as nat, free_data@, type_marker, encrypted),
{
    let mut bytes: Vec<u8> = Vec::new();
    bytes.push(rand::random::<u8>());
    bytes.push(rand::random::<u8>());
    bytes.push(rand::random::<u8>());
    let item_number_bytes = usize_to_u8_bytes(item_number, 4);
    bytes.push(item_number_bytes[0]);
    bytes.push(item_number_bytes[1]);
    bytes.push(item_number_bytes[2]);
    bytes.push(item_number_bytes[3]);
    bytes.push(0);
    proof {
        assert(bytes@.subrange(3, 7) =~= item_number_bytes@);
    }
    let mut i: usize = 0;
    while i < 6
        invariant
            i <= 6,
            bytes@.len() == 8 + i,
            bytes@.subrange(3, 7) == wire_encode(item_number as nat, 4),
            bytes@[7] == 0,
            forall|j: int|
                8 <= j < 8 + i ==> bytes@[j] == (if j - 8 < free_data@.len() {
                    free_data@[j - 8]
                } else {
                    0u8
                }),
        decreases 6 - i,
    {
        let ghost before = bytes@;
        if i < free_data.len() {
            bytes.push(free_data[i]);
        } else {
            bytes.push(0);
        }
        i = i + 1;
        proof {
            assert(bytes@.subrange(3, 7) =~= before.subrange(3, 7));
            assert(forall|j: int| 0 <= j < before.len() ==> #[trigger] bytes@[j] == before[j]);
            assert(bytes@[8 + i - 1] == (if i - 1 < free_data@.len() {
                free_data@[i - 1]
            } else {
                0u8
            }));
        }
    }
    let ghost before_tail = bytes@;
    bytes.push(type_marker);
    bytes.push(encrypted);
    proof {
        assert(bytes@.subrange(3, 7) =~= before_tail.subrange(3, 7));
        assert(forall|j: int| 0 <= j < 14 ==> #[trigger] bytes@[j] == before_tail[j]);
        assert(bytes@[14] == type_marker);
        assert(bytes@[15] == encrypted);
    }
    bytes
}

/// Reads the 1-based item number back out of a meta identifier; the exact
/// inverse of the builder for that field.
pub fn read_item_number(uuid: &Vec<u8>) -> (r: usize)
    requires
        uuid@.len() == 16,
    ensures
        r as nat == wire_decode(uuid@.subrange(3, 7)),
{
    let field = crate::utils::copy_range(uuid, 3, 7);
    proof {
        lemma_wire_decode_bound(uuid@.subrange(3, 7));
        lemma_pow256_values();
        assert(usize::MAX >= 0xFFFFFFFF);
    }
    u8_bytes_to_usize(&field)
}

} // verus!
