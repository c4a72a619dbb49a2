//! A package: one framed unit of the transfer, an identifier plus a
//! length-prefixed payload.

pub mod package_uuid;
pub mod packages;

use crate::errors::TransferError;
use crate::utils::{
    copy_range, lemma_pow256_values, lemma_wire_decode_bound, lemma_wire_round_trip,
    u8_bytes_to_usize, usize_to_u8_bytes, wire_decode, wire_encode,
};
use vstd::prelude::*;

verus! {

/// The maximum payload a single package may carry.
///
/// The wire never carries the setting itself; it only bounds the chunks a
/// transfer is split into.
#[derive(Clone, Debug, PartialEq, Eq, Structural)]
pub enum PackageSize {
    /// 15 bytes.
    TINY,
    /// 255 bytes.
    SMALL,
    /// 4095 bytes.
    MEDIUM,
    /// 65535 bytes.
    LARGE,
    /// 16777215 bytes.
    MAX,
}

impl PackageSize {
    /// The payload limit in bytes that the setting stands for.
    pub open spec fn limit(self) -> nat {
        match self {
            PackageSize::TINY => 15,
            PackageSize::SMALL => 255,
            PackageSize::MEDIUM => 4095,
            PackageSize::LARGE => 65535,
            PackageSize::MAX => 16777215,
        }
    }

    /// The payload limit the setting stands for, in bytes.
    pub fn get_value(&self) -> (r: usize)
        ensures
            r as nat == self.limit(),
            1 <= r <= 0xFFFFFF,
    {
        match self {
            PackageSize::TINY => 15,
            PackageSize::SMALL => 255,
            PackageSize::MEDIUM => 4095,
            PackageSize::LARGE => 65535,
            PackageSize::MAX => 16777215,
        }
    }
}

impl Default for PackageSize {
    /// The default package size.
    fn default() -> (r: Self)
        ensures
            r == PackageSize::MEDIUM,
    {
        PackageSize::MEDIUM
    }
}

/// The bytes of one package frame: 16 bytes of identifier, 3 bytes of
/// payload length in the fixed-width layout, then the payload itself.
pub open spec fn frame_bytes(id: Seq<u8>, payload: Seq<u8>) -> Seq<u8> {
    id + wire_encode(payload.len(), 3) + payload
}

/// Parses one package frame at the front of `b`: the identifier, the
/// payload, and how many bytes the frame occupies.  `None` when `b` is too
/// short for what its length prefix demands.
pub open spec fn parse_frame(b: Seq<u8>) -> Option<(Seq<u8>, Seq<u8>, int)> {
    if b.len() < 19 {
        None
    } else {
        let l = wire_decode(b.subrange(16, 19)) as int;
        if b.len() < 19 + l {
            None
        } else {
            Some((b.subrange(0, 16), b.subrange(19, 19 + l), 19 + l))
        }
    }
}

/// A piece of the transferred data together with its meta identifier.
///
/// The payload is bounded by the three-byte length prefix of the frame:
/// at most 16777215 bytes.
#[derive(Clone, Debug)]
pub struct Package {
    /// The 16-byte meta identifier of the frame.
    pub meta_uuid: Vec<u8>,
    /// The payload the frame carries.
    pub data: Vec<u8>,
}

impl Package {
    /// A package that can go on the wire: the identifier has its fixed
    /// width and the payload fits behind a three-byte length prefix.
    pub open spec fn wf(self) -> bool {
        &&& self.meta_uuid@.len() == 16
        &&& self.data@.len() <= 0xFFFFFF
    }

    /// Pairs a payload with its meta identifier.
    pub fn new(data: Vec<u8>, meta_uuid: Vec<u8>) -> (r: Self)
        ensures
            r.data == data,
            r.meta_uuid == meta_uuid,
    {
        Package { meta_uuid, data }
    }

    /// Serializes the package into its frame: identifier, length prefix,
    /// payload.
    pub fn to_buffer(self) -> (r: Vec<u8>)
        requires
            self.wf(),
        ensures
            r@ == frame_bytes(self.meta_uuid@, self.data@),
    {
        let mut buffer = self.meta_uuid;
        let ghost id = buffer@;
        let mut length_bytes = usize_to_u8_bytes(self.data.len(), 3);
        buffer.append(&mut length_bytes);
        let mut data = self.data;
        let ghost payload = data@;
        buffer.append(&mut data);
        proof {
            assert(buffer@ =~= id + wire_encode(payload.len(), 3) + payload);
        }
        buffer
    }

    /// Reads one frame out of `buf` starting at `pos`: the package and the
    /// position just past its frame.  Fails with a short read when fewer
    /// bytes are there than the length prefix demands.
    pub fn from_buffer(buf: &Vec<u8>, pos: usize) -> (r: Result<(Package, usize), TransferError>)
        requires
            pos <= buf@.len(),
        ensures
            match r {
                Ok(p) => {
                    &&& parse_frame(buf@.skip(pos as int)) == Some(
                        (p.0.meta_uuid@, p.0.data@, p.1 - pos),
                    )
                    &&& p.0.wf()
                    &&& pos < p.1 <= buf@.len()
                },
                Err(e) => {
                    &&& e == TransferError::ShortRead
                    &&& parse_frame(buf@.skip(pos as int)) is None
                },
            },
    {
        let ghost tail = buf@.skip(pos as int);
        let remaining = buf.len() - pos;
        if remaining < 19 {
            return Err(TransferError::ShortRead);
        }
        let meta_uuid = copy_range(buf, pos, pos + 16);
        let length_bytes = copy_range(buf, pos + 16, pos + 19);
        proof {
            assert(length_bytes@ =~= tail.subrange(16, 19));
            lemma_wire_decode_bound(length_bytes@);
            lemma_pow256_values();
        }
        let data_length = u8_bytes_to_usize(&length_bytes);
        if remaining - 19 < data_length {
            return Err(TransferError::ShortRead);
        }
        let data = copy_range(buf, pos + 19, pos + 19 + data_length);
        proof {
            assert(meta_uuid@ =~= tail.subrange(0, 16));
            assert(data@ =~= tail.subrange(19, 19 + data_length as int));
        }
        Ok((Package { meta_uuid, data }, pos + 19 + data_length))
    }
}

/// Sent back to the package sender to inform which package was received
/// and how much data was read from it.
pub struct PackageArrival {
    /// The meta identifier of the package that arrived.
    pub uuid: Vec<u8>,
    /// How many payload bytes it carried.
    pub data_length: usize,
    /// Whether the package was marked encrypted.
    pub was_secured: bool,
}

/// Package round-trip: a frame built from any identifier and any payload
/// the length prefix can carry parses back to exactly that identifier and
/// payload, consuming exactly the frame.
pub proof fn lemma_frame_round_trip(id: Seq<u8>, payload: Seq<u8>)
    requires
        id.len() == 16,
        payload.len() < 0x1000000,
    ensures
        frame_bytes(id, payload).len() == 19 + payload.len(),
        parse_frame(frame_bytes(id, payload)) == Some(
            (id, payload, 19 + payload.len() as int),
        ),
{
    lemma_pow256_values();
    lemma_wire_round_trip(payload.len(), 3);
    let b = frame_bytes(id, payload);
    assert(b.len() == 19 + payload.len());
    assert(b.subrange(16, 19) =~= wire_encode(payload.len(), 3));
    assert(b.subrange(0, 16) =~= id);
    assert(b.subrange(19, 19 + payload.len() as int) =~= payload);
}

} // verus!
