//! The fixed-size header at the start of a save file.

use vstd::prelude::*;

use crate::bytes;
use crate::checksum;
use crate::error::SaveError;

verus! {

/// The version of the save format.
#[derive(Debug, Clone, Copy, PartialEq, Eq, Structural)]
pub struct SaveVersion {
    pub major: u8,
    pub minor: u8,
    pub patch: u8,
}

/// Version 1.0.0, the one that new saves have and the only one that can be decoded.
pub open spec fn current_version() -> SaveVersion {
    SaveVersion { major: 1, minor: 0, patch: 0 }
}

impl SaveVersion {
    /// Version 1.0.0, the one that new saves have and the only one that can be decoded.
    pub fn current() -> (version: Self)
        ensures
            version == current_version(),
    {
        Self { major: 1, minor: 0, patch: 0 }
    }

    pub fn new(major: u8, minor: u8, patch: u8) -> (version: Self)
        ensures
            version == (SaveVersion { major, minor, patch }),
    {
        Self { major, minor, patch }
    }
}

/// What stands before the payload of a save file.
#[derive(Debug, Clone, Copy, PartialEq, Eq, Structural)]
pub struct SaveHeader {
    pub version: SaveVersion,
    pub seed: u64,
    pub tick: u64,
    pub entity_count: u32,
    pub room_count: u32,
    /// The FNV-1a hash of the payload.
    pub checksum: u64,
}

/// The 36 bytes of a header:
/// version(3) | reserved(1) | seed(8) | tick(8) | entity_count(4) | room_count(4) | checksum(8).
pub open spec fn header_bytes(header: SaveHeader) -> Seq<u8> {
    seq![header.version.major, header.version.minor, header.version.patch, 0] + bytes::u64_bytes(
        header.seed,
    ) + bytes::u64_bytes(header.tick) + bytes::u32_bytes(header.entity_count) + bytes::u32_bytes(
        header.room_count,
    ) + bytes::u64_bytes(header.checksum)
}

/// The header whose fields stand in the first 36 bytes of `data`; the reserved byte is ignored.
pub open spec fn parse_header(data: Seq<u8>) -> SaveHeader {
    SaveHeader {
        version: SaveVersion { major: data[0], minor: data[1], patch: data[2] },
        seed: bytes::u64_at(data, 4),
        tick: bytes::u64_at(data, 12),
        entity_count: bytes::u32_at(data, 20),
        room_count: bytes::u32_at(data, 24),
        checksum: bytes::u64_at(data, 28),
    }
}

impl SaveHeader {
    /// The size of an encoded header.
    pub const ENCODED_SIZE: usize = 36;

    pub fn new(version: SaveVersion, seed: u64, tick: u64) -> (header: Self)
        ensures
            header == (SaveHeader {
                version,
                seed,
                tick,
                entity_count: 0,
                room_count: 0,
                checksum: 0,
            }),
    {
        Self { version, seed, tick, entity_count: 0, room_count: 0, checksum: 0 }
    }

    /// Encodes the header.
    pub fn encode(&self) -> (encoded: [u8; 36])
        ensures
            encoded@ == header_bytes(*self),
    {
        let mut out: Vec<u8> = Vec::new();
        out.push(self.version.major);
        out.push(self.version.minor);
        out.push(self.version.patch);
        out.push(0);  // reserved
        assert(out@ =~= seq![self.version.major, self.version.minor, self.version.patch, 0]);
        bytes::push_le(&mut out, self.seed, 8);
        bytes::push_le(&mut out, self.tick, 8);
        bytes::push_le(&mut out, self.entity_count as u64, 4);
        bytes::push_le(&mut out, self.room_count as u64, 4);
        bytes::push_le(&mut out, self.checksum, 8);
        proof {
            lemma_header_len(*self);
        }
        let mut encoded = [0u8;36];
        let mut i: usize = 0;
        while i < 36
            invariant
                i <= 36,
                out@.len() == 36,
                encoded@.take(i as int) == out@.take(i as int),
            decreases 36 - i,
        {
            encoded[i] = out[i];
            i = i + 1;
            assert(encoded@.take(i as int) =~= out@.take(i as int));
        }
        assert(encoded@ =~= encoded@.take(36));
        assert(out@ =~= out@.take(36));
        encoded
    }

    /// Decodes the header at the start of `data`.
    pub fn decode(data: &[u8]) -> (result: Result<Self, SaveError>)
        ensures
            match result {
                Ok(header) => data@.len() >= Self::ENCODED_SIZE && header == parse_header(data@),
                Err(error) => data@.len() < Self::ENCODED_SIZE && error is UnexpectedEof,
            },
    {
        if data.len() < Self::ENCODED_SIZE {
            return Err(SaveError::UnexpectedEof);
        }
        Ok(
            Self {
                version: SaveVersion { major: data[0], minor: data[1], patch: data[2] },
                seed: bytes::read_u64(data, 4),
                tick: bytes::read_u64(data, 12),
                entity_count: bytes::read_u32(data, 20),
                room_count: bytes::read_u32(data, 24),
                checksum: bytes::read_u64(data, 28),
            },
        )
    }

    /// The checksum of a payload: the FNV-1a hash of everything that follows the header.
    pub fn compute_checksum(payload: &[u8]) -> (hash: u64)
        ensures
            hash == checksum::fnv1a(payload@),
    {
        checksum::fnv1a_64(payload)
    }
}

/// Every header takes 36 bytes.
pub proof fn lemma_header_len(header: SaveHeader)
    ensures
        header_bytes(header).len() == SaveHeader::ENCODED_SIZE,
{
    broadcast use bytes::lemma_le_bytes_len;

}

/// What follows a header does not matter to it.
pub proof fn lemma_header_of_prefix(data: Seq<u8>, len: int)
    requires
        SaveHeader::ENCODED_SIZE <= len <= data.len(),
    ensures
        parse_header(data.take(len)) == parse_header(data),
{
    let cut = data.take(len);
    assert(cut.subrange(4, 12) =~= data.subrange(4, 12));
    assert(cut.subrange(12, 20) =~= data.subrange(12, 20));
    assert(cut.subrange(20, 24) =~= data.subrange(20, 24));
    assert(cut.subrange(24, 28) =~= data.subrange(24, 28));
    assert(cut.subrange(28, 36) =~= data.subrange(28, 36));
}

/// Decoding an encoded header, whatever follows it, gives the header back.
pub proof fn law_header_decodes_to_itself(header: SaveHeader, rest: Seq<u8>)
    ensures
        parse_header(header_bytes(header) + rest) == header,
{
    broadcast use bytes::lemma_le_bytes_len;

    let data = header_bytes(header) + rest;
    bytes::lemma_u64_stored(data, 4, header.seed);
    bytes::lemma_u64_stored(data, 12, header.tick);
    bytes::lemma_u32_stored(data, 20, header.entity_count);
    bytes::lemma_u32_stored(data, 24, header.room_count);
    bytes::lemma_u64_stored(data, 28, header.checksum);
}

/// Encoding a decoded header gives the bytes that it was decoded from, with the reserved byte
/// cleared.
pub proof fn law_decoded_header_encodes_to_its_bytes(data: Seq<u8>)
    requires
        data.len() >= SaveHeader::ENCODED_SIZE,
    ensures
        header_bytes(parse_header(data)) == data.take(36).update(3, 0),
{
    let header = parse_header(data);
    lemma_header_len(header);
    bytes::lemma_u64_loaded(data, 4);
    bytes::lemma_u64_loaded(data, 12);
    bytes::lemma_u32_loaded(data, 20);
    bytes::lemma_u32_loaded(data, 24);
    bytes::lemma_u64_loaded(data, 28);
    assert(header_bytes(header) =~= data.take(36).update(3, 0)) by {
        assert(data.take(36).update(3, 0) =~= seq![data[0], data[1], data[2], 0]
            + data.subrange(4, 12) + data.subrange(12, 20) + data.subrange(20, 24)
            + data.subrange(24, 28) + data.subrange(28, 36));
    }
}

/// Version 1.0.0 is the current one.
pub proof fn law_current_version()
    ensures
        current_version().major == 1,
        current_version().minor == 0,
        current_version().patch == 0,
{
}

/// Where each field of a header stands in its 36 bytes.
pub proof fn law_header_layout(header: SaveHeader)
    ensures
        SaveHeader::ENCODED_SIZE == 36,
        header_bytes(header).len() == 36,
        header_bytes(header)[0] == header.version.major,
        header_bytes(header)[1] == header.version.minor,
        header_bytes(header)[2] == header.version.patch,
        header_bytes(header)[3] == 0,
        header_bytes(header).subrange(4, 12) == bytes::le_bytes(header.seed as nat, 8),
        header_bytes(header).subrange(12, 20) == bytes::le_bytes(header.tick as nat, 8),
        header_bytes(header).subrange(20, 24) == bytes::le_bytes(header.entity_count as nat, 4),
        header_bytes(header).subrange(24, 28) == bytes::le_bytes(header.room_count as nat, 4),
        header_bytes(header).subrange(28, 36) == bytes::le_bytes(header.checksum as nat, 8),
{
    broadcast use bytes::lemma_le_bytes_len;

    let data = header_bytes(header);
    assert(data.subrange(4, 12) =~= bytes::le_bytes(header.seed as nat, 8));
    assert(data.subrange(12, 20) =~= bytes::le_bytes(header.tick as nat, 8));
    assert(data.subrange(20, 24) =~= bytes::le_bytes(header.entity_count as nat, 4));
    assert(data.subrange(24, 28) =~= bytes::le_bytes(header.room_count as nat, 4));
    assert(data.subrange(28, 36) =~= bytes::le_bytes(header.checksum as nat, 8));
}

/// Each field of a decoded header holds the number that its bytes make up.
pub proof fn law_header_fields(data: Seq<u8>)
    requires
        data.len() >= 36,
    ensures
        parse_header(data).version.major == data[0],
        parse_header(data).version.minor == data[1],
        parse_header(data).version.patch == data[2],
        bytes::le_bytes(parse_header(data).seed as nat, 8) == data.subrange(4, 12),
        bytes::le_bytes(parse_header(data).tick as nat, 8) == data.subrange(12, 20),
        bytes::le_bytes(parse_header(data).entity_count as nat, 4) == data.subrange(20, 24),
        bytes::le_bytes(parse_header(data).room_count as nat, 4) == data.subrange(24, 28),
        bytes::le_bytes(parse_header(data).checksum as nat, 8) == data.subrange(28, 36),
{
    bytes::lemma_u64_loaded(data, 4);
    bytes::lemma_u64_loaded(data, 12);
    bytes::lemma_u32_loaded(data, 20);
    bytes::lemma_u32_loaded(data, 24);
    bytes::lemma_u64_loaded(data, 28);
}

} // verus!
