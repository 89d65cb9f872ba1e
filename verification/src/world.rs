//! A whole saved world: header, entities, rooms and play statistics.

use vstd::prelude::*;
use vstd::slice::slice_subrange;
use vstd::std_specs::cmp::{PartialEqSpec, PartialEqSpecImpl};

use crate::bytes;
use crate::checksum;
use crate::entity;
use crate::entity::{EntityData, EntityView};
use crate::error::SaveError;
use crate::header;
use crate::header::{SaveHeader, SaveVersion};
use crate::record;
use crate::room;
use crate::room::{RoomData, RoomView};
use crate::text;

verus! {

/// A saved world.
///
/// `==` compares real numbers as such; see [`EntityData`] and [`RoomData`].
#[derive(Debug)]
pub struct WorldSave {
    /// The counts and the checksum in it are recomputed on encoding.
    pub header: SaveHeader,
    pub entities: Vec<EntityData>,
    pub rooms: Vec<RoomData>,
    pub player_name: String,
    pub world_seed: u64,
    pub total_play_ticks: u64,
}

/// A [`WorldSave`] with its lists and its name as sequences.
#[verifier::ext_equal]
pub struct WorldView {
    pub header: SaveHeader,
    pub entities: Seq<EntityView>,
    pub rooms: Seq<RoomView>,
    pub player_name: Seq<char>,
    pub world_seed: u64,
    pub total_play_ticks: u64,
}

impl View for WorldSave {
    type V = WorldView;

    open spec fn view(&self) -> WorldView {
        WorldView {
            header: self.header,
            entities: record::views(self.entities@),
            rooms: record::views(self.rooms@),
            player_name: self.player_name@,
            world_seed: self.world_seed,
            total_play_ticks: self.total_play_ticks,
        }
    }
}

impl Clone for WorldSave {
    fn clone(&self) -> (copy: Self)
        ensures
            copy@ == self@,
    {
        let entities = self.entities.clone();
        let rooms = self.rooms.clone();
        assert(record::views(entities@) =~= record::views(self.entities@));
        assert(record::views(rooms@) =~= record::views(self.rooms@));
        Self {
            header: self.header,
            entities,
            rooms,
            player_name: self.player_name.clone(),
            world_seed: self.world_seed,
            total_play_ticks: self.total_play_ticks,
        }
    }
}

/// Whether two worlds are equal: their real numbers as such, all else exactly.
pub open spec fn same_world(a: WorldView, b: WorldView) -> bool {
    &&& a.header == b.header
    &&& entity::same_entities(a.entities, b.entities)
    &&& room::same_rooms(a.rooms, b.rooms)
    &&& a.player_name == b.player_name
    &&& a.world_seed == b.world_seed
    &&& a.total_play_ticks == b.total_play_ticks
}

impl PartialEqSpecImpl for WorldSave {
    open spec fn obeys_eq_spec() -> bool {
        true
    }

    open spec fn eq_spec(&self, other: &Self) -> bool {
        same_world(self@, other@)
    }
}

impl PartialEq for WorldSave {
    fn eq(&self, other: &Self) -> (equal: bool) {
        self.header == other.header && entity::entities_equal(&self.entities, &other.entities)
            && room::rooms_equal(&self.rooms, &other.rooms) && self.player_name
            == other.player_name && self.world_seed == other.world_seed && self.total_play_ticks
            == other.total_play_ticks
    }
}

/// The end of a payload: player_name(4 + length) | world_seed(8) | total_play_ticks(8).
pub open spec fn stats_bytes(world: WorldView) -> Seq<u8> {
    text::text_bytes(world.player_name) + (bytes::u64_bytes(world.world_seed) + bytes::u64_bytes(
        world.total_play_ticks,
    ))
}

/// What follows the header: entities | rooms | player_name(4 + length) | world_seed(8) |
/// total_play_ticks(8), where each list is count(4), then for each record length(4) | record.
pub open spec fn payload_bytes(world: WorldView) -> Seq<u8> {
    record::list_bytes(world.entities) + (record::list_bytes(world.rooms) + stats_bytes(world))
}

/// The header that `world` is encoded with: its own, with the counts and the checksum recomputed.
pub open spec fn sealed_header(world: WorldView) -> SaveHeader {
    SaveHeader {
        entity_count: world.entities.len() as u32,
        room_count: world.rooms.len() as u32,
        checksum: checksum::fnv1a(payload_bytes(world)),
        ..world.header
    }
}

/// `world` with the header that it is encoded with.
pub open spec fn sealed(world: WorldView) -> WorldView {
    WorldView { header: sealed_header(world), ..world }
}

/// The bytes of a world: header(36) | payload.
pub open spec fn world_bytes(world: WorldView) -> Seq<u8> {
    header::header_bytes(sealed_header(world)) + payload_bytes(world)
}

/// The player's name, the seed of the world and the play time at the start of `data`, and how many
/// bytes they take.
pub open spec fn parse_stats(data: Seq<u8>) -> Result<
    (Seq<char>, u64, u64, nat),
    crate::error::SaveErrorView,
> {
    match text::parse_text(data, "invalid utf-8 in player name: "@) {
        Err(error) => Err(error),
        Ok((player_name, name_end)) => {
            let stats = data.skip(name_end as int);
            if stats.len() < 16 {
                Err(crate::error::SaveErrorView::UnexpectedEof)
            } else {
                Ok((player_name, bytes::u64_at(stats, 0), bytes::u64_at(stats, 8), name_end + 16))
            }
        },
    }
}

/// The world whose header is `header` and whose payload is at the start of `payload`, and how many
/// bytes the payload takes.
pub open spec fn parse_payload(header: SaveHeader, payload: Seq<u8>) -> Result<
    (WorldView, nat),
    crate::error::SaveErrorView,
> {
    match record::parse_list::<EntityView>(payload) {
        Err(error) => Err(error),
        Ok((entities, entities_end)) => {
            let after_entities = payload.skip(entities_end as int);
            match record::parse_list::<RoomView>(after_entities) {
                Err(error) => Err(error),
                Ok((rooms, rooms_end)) => match parse_stats(after_entities.skip(rooms_end as int)) {
                    Err(error) => Err(error),
                    Ok((player_name, world_seed, total_play_ticks, stats_end)) => Ok(
                        (
                            WorldView {
                                header,
                                entities,
                                rooms,
                                player_name,
                                world_seed,
                                total_play_ticks,
                            },
                            entities_end + rooms_end + stats_end,
                        ),
                    ),
                },
            }
        },
    }
}

/// The world that `data` is the encoded form of. The version is tested before the checksum, and
/// the checksum, which covers everything after the header, before the payload is read. Bytes after
/// the payload are ignored.
pub open spec fn parse_world(data: Seq<u8>) -> Result<WorldView, crate::error::SaveErrorView> {
    let header = header::parse_header(data);
    let payload = data.skip(36);
    if data.len() < 36 {
        Err(crate::error::SaveErrorView::UnexpectedEof)
    } else if header.version != header::current_version() {
        Err(crate::error::SaveErrorView::InvalidVersion)
    } else if header.checksum != checksum::fnv1a(payload) {
        Err(crate::error::SaveErrorView::ChecksumMismatch)
    } else {
        match parse_payload(header, payload) {
            Err(error) => Err(error),
            Ok((world, _)) => Ok(world),
        }
    }
}

/// The world at the start of `data`, and how many bytes it takes. The payload is read to its own
/// end, and the checksum has to be that of exactly what was read.
#[verifier::opaque]
pub open spec fn parse_world_prefix(data: Seq<u8>) -> Result<
    (WorldView, nat),
    crate::error::SaveErrorView,
> {
    let header = header::parse_header(data);
    let rest = data.skip(36);
    if data.len() < 36 {
        Err(crate::error::SaveErrorView::UnexpectedEof)
    } else if header.version != header::current_version() {
        Err(crate::error::SaveErrorView::InvalidVersion)
    } else {
        match parse_payload(header, rest) {
            Err(error) => Err(error),
            Ok((world, taken)) => if header.checksum != checksum::fnv1a(rest.take(taken as int)) {
                Err(crate::error::SaveErrorView::ChecksumMismatch)
            } else {
                Ok((world, 36 + taken))
            },
        }
    }
}

/// Whether the checksum in the header is that of the payload.
pub open spec fn checksum_holds(world: WorldView) -> bool {
    world.header.checksum == checksum::fnv1a(payload_bytes(world))
}

impl WorldSave {
    /// An empty world of the current version.
    pub fn new(seed: u64, player: &str) -> (world: Self)
        ensures
            world@ == (WorldView {
                header: SaveHeader {
                    version: header::current_version(),
                    seed,
                    tick: 0,
                    entity_count: 0,
                    room_count: 0,
                    checksum: 0,
                },
                entities: Seq::empty(),
                rooms: Seq::empty(),
                player_name: player@,
                world_seed: seed,
                total_play_ticks: 0,
            }),
    {
        Self {
            header: SaveHeader::new(SaveVersion::current(), seed, 0),
            entities: Vec::new(),
            rooms: Vec::new(),
            player_name: player.to_string(),
            world_seed: seed,
            total_play_ticks: 0,
        }
    }

    /// Adds an entity at the end. The header is left as it is.
    pub fn add_entity(&mut self, entity: EntityData)
        ensures
            final(self)@ == (WorldView {
                entities: old(self)@.entities.push(entity@),
                ..old(self)@
            }),
    {
        self.entities.push(entity);
        assert(self@.entities =~= old(self)@.entities.push(entity@));
    }

    /// Adds a room at the end. The header is left as it is.
    pub fn add_room(&mut self, room: RoomData)
        ensures
            final(self)@ == (WorldView { rooms: old(self)@.rooms.push(room@), ..old(self)@ }),
    {
        self.rooms.push(room);
        assert(self@.rooms =~= old(self)@.rooms.push(room@));
    }

    /// Encodes what follows the header.
    fn encode_payload(&self) -> (payload: Vec<u8>)
        ensures
            payload@ == payload_bytes(self@),
    {
        let mut payload: Vec<u8> = Vec::new();
        record::push_list(&mut payload, &self.entities);
        record::push_list(&mut payload, &self.rooms);
        text::push_text(&mut payload, self.player_name.as_str());
        bytes::push_le(&mut payload, self.world_seed, 8);
        bytes::push_le(&mut payload, self.total_play_ticks, 8);
        proof {
            let entities = record::list_bytes(self@.entities);
            let rooms = record::list_bytes(self@.rooms);
            let name = text::text_bytes(self@.player_name);
            let seed = bytes::u64_bytes(self@.world_seed);
            let ticks = bytes::u64_bytes(self@.total_play_ticks);
            assert(Seq::<u8>::empty() + entities =~= entities);
            bytes::lemma_regroup(entities + rooms + name, seed, ticks);
            bytes::lemma_regroup(entities + rooms, name, seed + ticks);
            bytes::lemma_regroup(entities, rooms, stats_bytes(self@));
        }
        payload
    }

    /// Encodes the world, with the counts and the checksum of its header recomputed.
    pub fn encode(&self) -> (encoded: Vec<u8>)
        ensures
            encoded@ == world_bytes(self@),
    {
        let payload = self.encode_payload();
        let mut header = self.header;
        header.entity_count = self.entities.len() as u32;
        header.room_count = self.rooms.len() as u32;
        header.checksum = SaveHeader::compute_checksum(payload.as_slice());
        let mut out: Vec<u8> = Vec::new();
        bytes::push_bytes(&mut out, &header.encode());
        bytes::push_bytes(&mut out, payload.as_slice());
        assert(out@ =~= world_bytes(self@));
        out
    }

    /// Decodes a world from the whole of `data`.
    pub fn decode(data: &[u8]) -> (result: Result<Self, SaveError>)
        ensures
            crate::error::whole_outcome(result) == parse_world(data@),
    {
        let header = match SaveHeader::decode(data) {
            Ok(header) => header,
            Err(error) => return Err(error),
        };
        if header.version != SaveVersion::current() {
            return Err(SaveError::InvalidVersion);
        }
        let payload = slice_subrange(data, SaveHeader::ENCODED_SIZE, data.len());
        assert(payload@ =~= data@.skip(36));
        if SaveHeader::compute_checksum(payload) != header.checksum {
            return Err(SaveError::ChecksumMismatch);
        }
        match Self::decode_payload(header, payload) {
            Ok((world, _)) => Ok(world),
            Err(error) => Err(error),
        }
    }

    /// Decodes the world at the start of `data`; also returns how many bytes it takes.
    pub fn decode_prefix(data: &[u8]) -> (result: Result<(Self, usize), SaveError>)
        ensures
            crate::error::outcome(result) == parse_world_prefix(data@),
            result matches Ok((_, taken)) ==> taken <= data.len(),
    {
        reveal(parse_world_prefix);
        let header = match SaveHeader::decode(data) {
            Ok(header) => header,
            Err(error) => return Err(error),
        };
        if header.version != SaveVersion::current() {
            return Err(SaveError::InvalidVersion);
        }
        let rest = slice_subrange(data, SaveHeader::ENCODED_SIZE, data.len());
        assert(rest@ =~= data@.skip(36));
        match Self::decode_payload(header, rest) {
            Ok((world, taken)) => {
                let payload = slice_subrange(rest, 0, taken);
                if SaveHeader::compute_checksum(payload) != header.checksum {
                    Err(SaveError::ChecksumMismatch)
                } else {
                    Ok((world, SaveHeader::ENCODED_SIZE + taken))
                }
            },
            Err(error) => Err(error),
        }
    }

    /// Decodes the payload that follows `header`; also returns how many bytes it takes.
    fn decode_payload(header: SaveHeader, payload: &[u8]) -> (result: Result<
        (Self, usize),
        SaveError,
    >)
        ensures
            crate::error::outcome(result) == parse_payload(header, payload@),
            result matches Ok((_, taken)) ==> taken <= payload.len(),
    {
        assert(payload@.skip(0) =~= payload@);
        let (entities, entities_end) = match record::read_list::<EntityData>(payload, 0) {
            Ok((entities, taken)) => (entities, taken),
            Err(error) => return Err(error),
        };
        let (rooms, rooms_end) = match record::read_list::<RoomData>(payload, entities_end) {
            Ok((rooms, taken)) => (rooms, entities_end + taken),
            Err(error) => return Err(error),
        };
        assert(payload@.skip(entities_end as int).skip(rooms_end - entities_end) =~= payload@.skip(
            rooms_end as int,
        ));
        match read_stats(payload, rooms_end) {
            Ok((player_name, world_seed, total_play_ticks, taken)) => Ok(
                (
                    Self { header, entities, rooms, player_name, world_seed, total_play_ticks },
                    rooms_end + taken,
                ),
            ),
            Err(error) => Err(error),
        }
    }

    /// Whether the checksum in the header is that of the payload.
    pub fn verify_checksum(&self) -> (holds: bool)
        ensures
            holds == checksum_holds(self@),
            holds == (self.header.checksum == checksum::fnv1a(payload_bytes(self@))),
    {
        let payload = self.encode_payload();
        SaveHeader::compute_checksum(payload.as_slice()) == self.header.checksum
    }
}

/// Reads the player's name, the seed of the world and the play time at offset `at`; also returns
/// how many bytes they take.
fn read_stats(data: &[u8], at: usize) -> (result: Result<(String, u64, u64, usize), SaveError>)
    requires
        at <= data.len(),
    ensures
        match result {
            Ok((player_name, world_seed, total_play_ticks, taken)) => at + taken <= data.len()
                && parse_stats(data@.skip(at as int)) == Ok::<_, crate::error::SaveErrorView>(
                (player_name@, world_seed, total_play_ticks, taken as nat),
            ),
            Err(error) => parse_stats(data@.skip(at as int)) == Err::<
                (Seq<char>, u64, u64, nat),
                _,
            >(error@),
        },
{
    let (player_name, name_end) = match text::read_text(
        data,
        at,
        "invalid utf-8 in player name: ",
    ) {
        Ok((player_name, taken)) => (player_name, at + taken),
        Err(error) => return Err(error),
    };
    let ghost stats = data@.skip(name_end as int);
    assert(data@.skip(at as int).skip(name_end - at) =~= stats);
    if data.len() - name_end < 16 {
        return Err(SaveError::UnexpectedEof);
    }
    assert(stats.subrange(0, 8) =~= data@.subrange(name_end as int, name_end + 8));
    assert(stats.subrange(8, 16) =~= data@.subrange(name_end + 8, name_end + 16));
    let world_seed: u64 = bytes::read_u64(data, name_end);
    let total_play_ticks: u64 = bytes::read_u64(data, name_end + 8);
    Ok((player_name, world_seed, total_play_ticks, name_end - at + 16))
}

/// Whether the payload of `world` is read back as it was written: its records are storable, and
/// every count and length fits in four bytes.
pub open spec fn payload_storable(world: WorldView) -> bool {
    &&& record::list_storable(world.entities)
    &&& record::list_storable(world.rooms)
    &&& vstd::utf8::encode_utf8(world.player_name).len() <= u32::MAX
}

/// Whether `world` is decoded as it was encoded, but for its recomputed header: it has the current
/// version, and its payload is read back as it was written.
pub open spec fn world_storable(world: WorldView) -> bool {
    world.header.version == header::current_version() && payload_storable(world)
}

/// The end of a payload is read back as it was written, whatever follows it.
proof fn lemma_stats_are_read_back(world: WorldView, rest: Seq<u8>)
    requires
        vstd::utf8::encode_utf8(world.player_name).len() <= u32::MAX,
    ensures
        parse_stats(stats_bytes(world) + rest) == Ok::<_, crate::error::SaveErrorView>(
            (
                world.player_name,
                world.world_seed,
                world.total_play_ticks,
                stats_bytes(world).len(),
            ),
        ),
{
    broadcast use bytes::lemma_le_bytes_len;

    let name = text::text_bytes(world.player_name);
    let numbers = bytes::u64_bytes(world.world_seed) + bytes::u64_bytes(world.total_play_ticks);
    let stats = numbers + rest;
    bytes::lemma_regroup(name, numbers, rest);
    text::lemma_text_is_read_back(world.player_name, stats, "invalid utf-8 in player name: "@);
    bytes::lemma_skip_front(name, stats);
    assert(stats.subrange(0, 8) =~= bytes::u64_bytes(world.world_seed));
    assert(stats.subrange(8, 16) =~= bytes::u64_bytes(world.total_play_ticks));
    bytes::lemma_u64_stored(stats, 0, world.world_seed);
    bytes::lemma_u64_stored(stats, 8, world.total_play_ticks);
}

/// The end of a payload that was cut short ends early.
proof fn lemma_cut_stats(world: WorldView, len: int)
    requires
        vstd::utf8::encode_utf8(world.player_name).len() <= u32::MAX,
        0 <= len < stats_bytes(world).len(),
    ensures
        parse_stats(stats_bytes(world).take(len)) == Err::<(Seq<char>, u64, u64, nat), _>(
            crate::error::SaveErrorView::UnexpectedEof,
        ),
{
    broadcast use bytes::lemma_le_bytes_len;

    let label = "invalid utf-8 in player name: "@;
    let name = text::text_bytes(world.player_name);
    let numbers = bytes::u64_bytes(world.world_seed) + bytes::u64_bytes(world.total_play_ticks);
    bytes::lemma_cut(name, numbers, len);
    if len < name.len() {
        text::lemma_cut_text(world.player_name, len, label);
    } else {
        let left = numbers.take(len - name.len());
        text::lemma_text_is_read_back(world.player_name, left, label);
        bytes::lemma_skip_front(name, left);
    }
}

/// The end of a payload that was read is written as the bytes that it was read from.
proof fn lemma_read_stats_are_written_back(data: Seq<u8>, world: WorldView, taken: nat)
    requires
        parse_stats(data) == Ok::<_, crate::error::SaveErrorView>(
            (world.player_name, world.world_seed, world.total_play_ticks, taken),
        ),
    ensures
        taken <= data.len(),
        stats_bytes(world) == data.take(taken as int),
        vstd::utf8::encode_utf8(world.player_name).len() <= u32::MAX,
{
    let label = "invalid utf-8 in player name: "@;
    let name_end = text::parse_text(data, label)->Ok_0.1 as int;
    let stats = data.skip(name_end);
    text::lemma_read_text_is_written_back(data, label);
    bytes::lemma_u64_loaded(stats, 0);
    bytes::lemma_u64_loaded(stats, 8);
    assert(stats.subrange(0, 8) + stats.subrange(8, 16) =~= stats.take(16));
    bytes::lemma_take_on(data, name_end, 16);
}

/// A world whose parts were read one after the other.
proof fn lemma_payload_from_parts(
    header: SaveHeader,
    world: WorldView,
    payload: Seq<u8>,
    entities_len: nat,
    rooms_len: nat,
    stats_len: nat,
)
    requires
        record::parse_list::<EntityView>(payload) == Ok::<_, crate::error::SaveErrorView>(
            (world.entities, entities_len),
        ),
        record::parse_list::<RoomView>(payload.skip(entities_len as int)) == Ok::<
            _,
            crate::error::SaveErrorView,
        >((world.rooms, rooms_len)),
        parse_stats(payload.skip(entities_len as int).skip(rooms_len as int)) == Ok::<
            _,
            crate::error::SaveErrorView,
        >((world.player_name, world.world_seed, world.total_play_ticks, stats_len)),
    ensures
        parse_payload(header, payload) == Ok::<_, crate::error::SaveErrorView>(
            (WorldView { header, ..world }, entities_len + rooms_len + stats_len),
        ),
{
}

/// What follows each of the lists of a payload.
proof fn lemma_after_lists(entities: Seq<u8>, rooms: Seq<u8>, stats: Seq<u8>, rest: Seq<u8>)
    ensures
        ({
            let data = entities + (rooms + stats) + rest;
            &&& data == entities + (rooms + (stats + rest))
            &&& data.skip(entities.len() as int) == rooms + (stats + rest)
            &&& data.skip(entities.len() as int).skip(rooms.len() as int) == stats + rest
        }),
{
    bytes::lemma_regroup(entities, rooms + stats, rest);
    bytes::lemma_regroup(rooms, stats, rest);
    bytes::lemma_skip_front(entities, rooms + (stats + rest));
    bytes::lemma_skip_front(rooms, stats + rest);
}

/// A payload is read back as it was written, whatever follows it.
proof fn lemma_payload_is_read_back(header: SaveHeader, world: WorldView, rest: Seq<u8>)
    requires
        payload_storable(world),
    ensures
        parse_payload(header, payload_bytes(world) + rest) == Ok::<
            _,
            crate::error::SaveErrorView,
        >((WorldView { header, ..world }, payload_bytes(world).len())),
{
    let entities = record::list_bytes(world.entities);
    let rooms = record::list_bytes(world.rooms);
    let stats = stats_bytes(world);
    let data = payload_bytes(world) + rest;
    lemma_after_lists(entities, rooms, stats, rest);
    record::lemma_list_is_read_back(world.entities, rooms + (stats + rest));
    record::lemma_list_is_read_back(world.rooms, stats + rest);
    lemma_stats_are_read_back(world, rest);
    lemma_payload_from_parts(header, world, data, entities.len(), rooms.len(), stats.len());
}

/// A payload that was cut short ends early.
proof fn lemma_cut_payload(header: SaveHeader, world: WorldView, len: int)
    requires
        payload_storable(world),
        0 <= len < payload_bytes(world).len(),
    ensures
        parse_payload(header, payload_bytes(world).take(len)) == Err::<(WorldView, nat), _>(
            crate::error::SaveErrorView::UnexpectedEof,
        ),
{
    let entities = record::list_bytes(world.entities);
    let rooms = record::list_bytes(world.rooms);
    let stats = stats_bytes(world);
    bytes::lemma_cut(entities, rooms + stats, len);
    if len < entities.len() {
        record::lemma_cut_list(world.entities, len);
    } else {
        let room_len = len - entities.len();
        let after_entities = (rooms + stats).take(room_len);
        record::lemma_list_is_read_back(world.entities, after_entities);
        bytes::lemma_skip_front(entities, after_entities);
        bytes::lemma_cut(rooms, stats, room_len);
        if room_len < rooms.len() {
            record::lemma_cut_list(world.rooms, room_len);
        } else {
            let after_rooms = stats.take(room_len - rooms.len());
            record::lemma_list_is_read_back(world.rooms, after_rooms);
            bytes::lemma_skip_front(rooms, after_rooms);
            lemma_cut_stats(world, room_len - rooms.len());
        }
    }
}

/// A payload that was read is written as the bytes that it was read from.
proof fn lemma_read_payload_is_written_back(header: SaveHeader, payload: Seq<u8>)
    ensures
        parse_payload(header, payload) matches Ok((world, taken)) ==> {
            &&& world.header == header
            &&& payload_storable(world)
            &&& taken <= payload.len()
            &&& payload_bytes(world) == payload.take(taken as int)
        },
{
    if let Ok((world, taken)) = parse_payload(header, payload) {
        record::lemma_read_list_is_written_back::<EntityView>(payload);
        let entities_len = record::parse_list::<EntityView>(payload)->Ok_0.1;
        let after_entities = payload.skip(entities_len as int);
        record::lemma_read_list_is_written_back::<RoomView>(after_entities);
        let rooms_len = record::parse_list::<RoomView>(after_entities)->Ok_0.1;
        let after_rooms = after_entities.skip(rooms_len as int);
        let stats_len = (taken - entities_len - rooms_len) as nat;
        lemma_read_stats_are_written_back(after_rooms, world, stats_len);
        bytes::lemma_take_on(after_entities, rooms_len as int, stats_len as int);
        bytes::lemma_take_on(payload, entities_len as int, (rooms_len + stats_len) as int);
    }
}

/// An encoded world starts with the header that it is encoded with, and its payload follows.
proof fn lemma_world_parts(world: WorldView, rest: Seq<u8>)
    ensures
        header::parse_header(world_bytes(world) + rest) == sealed_header(world),
        (world_bytes(world) + rest).skip(36) == payload_bytes(world) + rest,
        world_bytes(world).len() == 36 + payload_bytes(world).len(),
{
    let head = header::header_bytes(sealed_header(world));
    let payload = payload_bytes(world);
    header::lemma_header_len(sealed_header(world));
    bytes::lemma_regroup(head, payload, rest);
    header::law_header_decodes_to_itself(sealed_header(world), payload + rest);
    bytes::lemma_skip_front(head, payload + rest);
}

/// Decoding an encoded world gives the world back, with the header that it was encoded with.
pub proof fn law_world_decodes_to_itself(world: WorldView)
    requires
        world_storable(world),
    ensures
        parse_world(world_bytes(world)) == Ok::<_, crate::error::SaveErrorView>(sealed(world)),
{
    let none = Seq::<u8>::empty();
    assert(world_bytes(world) + none =~= world_bytes(world));
    assert(payload_bytes(world) + none =~= payload_bytes(world));
    lemma_world_parts(world, none);
    lemma_payload_is_read_back(sealed_header(world), world, none);
}

/// An encoded world is found at the start of whatever it is followed by, with the header that it
/// was encoded with.
pub proof fn law_world_delimits_itself(world: WorldView, rest: Seq<u8>)
    requires
        world_storable(world),
    ensures
        parse_world_prefix(world_bytes(world) + rest) == Ok::<_, crate::error::SaveErrorView>(
            (sealed(world), world_bytes(world).len()),
        ),
{
    reveal(parse_world_prefix);
    let payload = payload_bytes(world);
    lemma_world_parts(world, rest);
    lemma_payload_is_read_back(sealed_header(world), world, rest);
    assert((payload + rest).take(payload.len() as int) =~= payload);
}

/// The header that a world is encoded with does not depend on the counts and the checksum that it
/// had, so a world and its sealed form encode to the same bytes, and the sealed form has the right
/// checksum.
pub proof fn law_sealing_keeps_the_bytes(world: WorldView)
    ensures
        world_bytes(sealed(world)) == world_bytes(world),
        sealed(sealed(world)) == sealed(world),
        checksum_holds(sealed(world)),
{
}

/// A decoded world is storable, and its encoded payload stands at the start of the decoded one. If
/// nothing follows it there, the checksum of the decoded world is right.
pub proof fn law_decoded_world_encodes_to_its_payload(data: Seq<u8>)
    ensures
        parse_world(data) matches Ok(world) ==> {
            let payload = payload_bytes(world);
            &&& world_storable(world)
            &&& world.header == header::parse_header(data)
            &&& 36 + payload.len() <= data.len()
            &&& payload == data.subrange(36, 36 + payload.len() as int)
            &&& 36 + payload.len() == data.len() ==> checksum_holds(world)
        },
{
    if let Ok(world) = parse_world(data) {
        let rest = data.skip(36);
        let len = payload_bytes(world).len() as int;
        lemma_read_payload_is_written_back(header::parse_header(data), rest);
        assert(rest.take(len) =~= data.subrange(36, 36 + len));
        if len == rest.len() {
            assert(rest.take(len) =~= rest);
        }
    }
}

/// A world decoded from the start of some data is storable, has the right checksum, and its
/// encoded payload is the one that was read. The stretch that it takes decodes to it on its own.
pub proof fn law_decoded_prefix_is_a_world(data: Seq<u8>)
    ensures
        parse_world_prefix(data) matches Ok((world, taken)) ==> {
            &&& 36 <= taken <= data.len()
            &&& world_storable(world)
            &&& checksum_holds(world)
            &&& world.header == header::parse_header(data)
            &&& payload_bytes(world) == data.subrange(36, taken as int)
            &&& parse_world(data.take(taken as int)) == Ok::<_, crate::error::SaveErrorView>(world)
        },
{
    reveal(parse_world_prefix);
    if let Ok((world, taken)) = parse_world_prefix(data) {
        let header = header::parse_header(data);
        let rest = data.skip(36);
        let own = data.take(taken as int);
        let payload = payload_bytes(world);
        lemma_read_payload_is_written_back(header, rest);
        assert(rest.take(taken - 36) =~= data.subrange(36, taken as int));
        header::lemma_header_of_prefix(data, taken as int);
        assert(own.skip(36) =~= payload);
        assert(payload + Seq::<u8>::empty() =~= payload);
        lemma_payload_is_read_back(header, world, Seq::empty());
    }
}

/// Whether `data` has a whole header of the current version with the checksum of what follows it.
pub open spec fn intact(data: Seq<u8>) -> bool {
    &&& data.len() >= 36
    &&& header::parse_header(data).version == header::current_version()
    &&& header::parse_header(data).checksum == checksum::fnv1a(data.skip(36))
}

/// An encoded world of the current version is intact.
pub proof fn law_encoded_world_is_intact(world: WorldView)
    requires
        world.header.version == header::current_version(),
    ensures
        intact(world_bytes(world)),
{
    let none = Seq::<u8>::empty();
    assert(world_bytes(world) + none =~= world_bytes(world));
    assert(payload_bytes(world) + none =~= payload_bytes(world));
    lemma_world_parts(world, none);
}

/// Intact data in which any one byte of the payload or of the checksum was changed is refused.
pub proof fn law_changed_byte_is_refused(data: Seq<u8>, at: int, byte: u8)
    requires
        intact(data),
        28 <= at < data.len(),
        byte != data[at],
    ensures
        parse_world(data.update(at, byte)) == Err::<WorldView, _>(
            crate::error::SaveErrorView::ChecksumMismatch,
        ),
{
    let changed = data.update(at, byte);
    if at < 36 {
        assert(changed.skip(36) =~= data.skip(36));
        bytes::lemma_u64_loaded(changed, 28);
        bytes::lemma_u64_loaded(data, 28);
        assert(changed.subrange(28, 36)[at - 28] != data.subrange(28, 36)[at - 28]);
    } else {
        assert(changed.skip(36) =~= data.skip(36).update(at - 36, byte));
        checksum::law_single_byte_change_is_noticed(data.skip(36), at - 36, byte);
        assert(changed.subrange(28, 36) =~= data.subrange(28, 36));
    }
}

/// A world at the start of data in which any one byte of the payload or of the checksum was changed
/// is not accepted with the end that it had. A changed length can move the end.
pub proof fn law_changed_byte_moves_the_end(world: WorldView, rest: Seq<u8>, at: int, byte: u8)
    requires
        world_storable(world),
        28 <= at < world_bytes(world).len(),
        byte != world_bytes(world)[at],
    ensures
        parse_world_prefix((world_bytes(world) + rest).update(at, byte)) matches Ok((_, taken))
            ==> taken != world_bytes(world).len(),
{
    let encoded = world_bytes(world);
    let changed = (encoded + rest).update(at, byte);
    let refused = Err::<WorldView, _>(crate::error::SaveErrorView::ChecksumMismatch);
    if let Ok((found, taken)) = parse_world_prefix(changed) {
        assert(parse_world(changed.take(taken as int)) == Ok::<_, crate::error::SaveErrorView>(
            found,
        )) by {
            law_decoded_prefix_is_a_world(changed);
        }
        assert(parse_world(encoded.update(at, byte)) == refused) by {
            law_encoded_world_is_intact(world);
            law_changed_byte_is_refused(encoded, at, byte);
        }
        bytes::lemma_change_in_front(encoded, rest, at, byte);
    }
}

/// Intact data in which a byte of the version was changed is refused.
pub proof fn law_changed_version_is_refused(data: Seq<u8>, at: int, byte: u8)
    requires
        intact(data),
        0 <= at < 3,
        byte != data[at],
    ensures
        parse_world(data.update(at, byte)) == Err::<WorldView, _>(
            crate::error::SaveErrorView::InvalidVersion,
        ),
        parse_world_prefix(data.update(at, byte)) == Err::<(WorldView, nat), _>(
            crate::error::SaveErrorView::InvalidVersion,
        ),
{
    reveal(parse_world_prefix);
}

/// What is left of the parts of an encoded world that was cut short after its header.
proof fn lemma_cut_world_parts(world: WorldView, len: int)
    requires
        36 <= len <= world_bytes(world).len(),
    ensures
        header::parse_header(world_bytes(world).take(len)) == sealed_header(world),
        world_bytes(world).take(len).skip(36) == payload_bytes(world).take(len - 36),
        world_bytes(world).len() == 36 + payload_bytes(world).len(),
{
    let head = header::header_bytes(sealed_header(world));
    let payload = payload_bytes(world);
    header::lemma_header_len(sealed_header(world));
    bytes::lemma_cut(head, payload, len);
    header::law_header_decodes_to_itself(sealed_header(world), payload.take(len - 36));
    bytes::lemma_skip_front(head, payload.take(len - 36));
}

/// An encoded world that was cut short is refused, wherever it was cut: the decoder finds that it
/// ends early or, where the whole header is left, that the checksum is wrong.
pub proof fn law_truncated_world_is_refused(world: WorldView, len: int)
    requires
        world_storable(world),
        0 <= len < world_bytes(world).len(),
    ensures
        parse_world(world_bytes(world).take(len)) matches Err(error) && (error
            == crate::error::SaveErrorView::UnexpectedEof || (len >= 36 && error
            == crate::error::SaveErrorView::ChecksumMismatch)),
{
    if len >= 36 {
        lemma_cut_world_parts(world, len);
        lemma_cut_payload(sealed_header(world), world, len - 36);
    }
}

/// A world that is cut short at the end of some data ends early, wherever it was cut.
pub proof fn law_truncated_world_ends_early(world: WorldView, len: int)
    requires
        world_storable(world),
        0 <= len < world_bytes(world).len(),
    ensures
        parse_world_prefix(world_bytes(world).take(len)) == Err::<(WorldView, nat), _>(
            crate::error::SaveErrorView::UnexpectedEof,
        ),
{
    reveal(parse_world_prefix);
    if len >= 36 {
        lemma_cut_world_parts(world, len);
        lemma_cut_payload(sealed_header(world), world, len - 36);
    }
}

/// The view of a world holds its fields, and equality of worlds is that of all of them.
pub proof fn law_world_view(world: WorldSave, a: WorldView, b: WorldView)
    ensures
        world@.header == world.header,
        world@.entities == record::views(world.entities@),
        world@.rooms == record::views(world.rooms@),
        world@.player_name == world.player_name@,
        world@.world_seed == world.world_seed,
        world@.total_play_ticks == world.total_play_ticks,
        same_world(a, b) <==> a.header == b.header && entity::same_entities(a.entities, b.entities)
            && room::same_rooms(a.rooms, b.rooms) && a.player_name == b.player_name && a.world_seed
            == b.world_seed && a.total_play_ticks == b.total_play_ticks,
{
}

/// Where each part of a payload stands in its bytes.
pub proof fn law_payload_layout(world: WorldView)
    ensures
        ({
            let data = payload_bytes(world);
            let rooms = record::list_bytes(world.entities).len() as int;
            let name = rooms + record::list_bytes(world.rooms).len();
            let seed = name + 4 + vstd::utf8::encode_utf8(world.player_name).len();
            &&& data.len() == seed + 16
            &&& data.take(rooms) == record::list_bytes(world.entities)
            &&& data.subrange(rooms, name) == record::list_bytes(world.rooms)
            &&& data.subrange(name, seed) == text::text_bytes(world.player_name)
            &&& data.subrange(seed, seed + 8) == bytes::le_bytes(world.world_seed as nat, 8)
            &&& data.subrange(seed + 8, seed + 16) == bytes::le_bytes(
                world.total_play_ticks as nat,
                8,
            )
        }),
{
    broadcast use bytes::lemma_le_bytes_len;

    text::law_text_layout(world.player_name);
    lemma_five_parts(
        record::list_bytes(world.entities),
        record::list_bytes(world.rooms),
        text::text_bytes(world.player_name),
        bytes::le_bytes(world.world_seed as nat, 8),
        bytes::le_bytes(world.total_play_ticks as nat, 8),
    );
}

/// Where each of five stretches stands when they follow one another.
proof fn lemma_five_parts(a: Seq<u8>, b: Seq<u8>, c: Seq<u8>, d: Seq<u8>, e: Seq<u8>)
    ensures
        ({
            let data = a + (b + (c + (d + e)));
            let to_b = (a.len() + b.len()) as int;
            let to_c = to_b + c.len();
            let to_d = to_c + d.len();
            &&& data.len() == to_d + e.len()
            &&& data.take(a.len() as int) == a
            &&& data.subrange(a.len() as int, to_b) == b
            &&& data.subrange(to_b, to_c) == c
            &&& data.subrange(to_c, to_d) == d
            &&& data.subrange(to_d, to_d + e.len()) == e
        }),
{
    let data = a + (b + (c + (d + e)));
    let to_b = (a.len() + b.len()) as int;
    let to_c = to_b + c.len();
    let to_d = to_c + d.len();
    assert(data.take(a.len() as int) =~= a);
    assert(data.subrange(a.len() as int, to_b) =~= b);
    assert(data.subrange(to_b, to_c) =~= c);
    assert(data.subrange(to_c, to_d) =~= d);
    assert(data.subrange(to_d, to_d + e.len()) =~= e);
}

/// An encoded world is a header and the payload. The header keeps the version, the seed and the
/// tick of the world's own, states how many entities and rooms there are, and carries the hash of
/// the payload. The two lists of the payload start with the same counts.
pub proof fn law_encoded_header_states_the_counts(world: WorldView)
    requires
        world.entities.len() <= u32::MAX,
        world.rooms.len() <= u32::MAX,
    ensures
        ({
            let data = world_bytes(world);
            let header = header::parse_header(data);
            let rooms = 36 + record::list_bytes(world.entities).len() as int;
            &&& data.len() == 36 + payload_bytes(world).len()
            &&& data[3] == 0
            &&& data.skip(36) == payload_bytes(world)
            &&& header.version == world.header.version
            &&& header.seed == world.header.seed
            &&& header.tick == world.header.tick
            &&& header.entity_count == world.entities.len()
            &&& header.room_count == world.rooms.len()
            &&& header.checksum == checksum::fnv1a(data.skip(36))
            &&& bytes::u32_at(data, 36) == world.entities.len()
            &&& bytes::u32_at(data, rooms) == world.rooms.len()
        }),
{
    let none = Seq::<u8>::empty();
    let data = world_bytes(world);
    let payload = payload_bytes(world);
    let entities = record::list_bytes(world.entities);
    let rooms = record::list_bytes(world.rooms);
    let rooms_at = 36 + entities.len() as int;
    assert(data + none =~= data);
    assert(payload + none =~= payload);
    lemma_world_parts(world, none);
    header::law_header_layout(sealed_header(world));
    record::lemma_list_count(world.entities);
    record::lemma_list_count(world.rooms);
    law_payload_layout(world);
    assert(data.subrange(36, 40) =~= payload.take(entities.len() as int).take(4));
    assert(data.subrange(rooms_at, rooms_at + 4) =~= payload.subrange(
        entities.len() as int,
        (entities.len() + rooms.len()) as int,
    ).take(4));
    bytes::lemma_u32_stored(data, 36, world.entities.len() as u32);
    bytes::lemma_u32_stored(data, rooms_at, world.rooms.len() as u32);
}

/// A sealed world has the header that stands in its encoded form, and is otherwise as it was.
pub proof fn law_sealed_world_has_the_encoded_header(world: WorldView)
    ensures
        sealed(world).header == header::parse_header(world_bytes(world)),
        sealed(world).entities == world.entities,
        sealed(world).rooms == world.rooms,
        sealed(world).player_name == world.player_name,
        sealed(world).world_seed == world.world_seed,
        sealed(world).total_play_ticks == world.total_play_ticks,
{
    let none = Seq::<u8>::empty();
    assert(world_bytes(world) + none =~= world_bytes(world));
    lemma_world_parts(world, none);
}

/// The checksum of a world is right if and only if it is the hash of what follows the header in
/// the encoded form, which is to say that encoding the world leaves it as it is.
pub proof fn law_checksum_is_that_of_the_file(world: WorldView)
    ensures
        checksum_holds(world) <==> world.header.checksum == checksum::fnv1a(
            world_bytes(world).skip(36),
        ),
        checksum_holds(world) <==> world.header.checksum == header::parse_header(
            world_bytes(world),
        ).checksum,
{
    let none = Seq::<u8>::empty();
    assert(world_bytes(world) + none =~= world_bytes(world));
    assert(payload_bytes(world) + none =~= payload_bytes(world));
    lemma_world_parts(world, none);
}

/// A right checksum is wrong for every world whose encoded payload differs in one byte.
pub proof fn law_checksum_does_not_fit_a_changed_world(
    world: WorldView,
    changed: WorldView,
    at: int,
    byte: u8,
)
    requires
        checksum_holds(world),
        changed.header.checksum == world.header.checksum,
        0 <= at < payload_bytes(world).len(),
        byte != payload_bytes(world)[at],
        payload_bytes(changed) == payload_bytes(world).update(at, byte),
    ensures
        !checksum_holds(changed),
{
    checksum::law_single_byte_change_is_noticed(payload_bytes(world), at, byte);
}

/// The end of a payload is read as the player's name, then two numbers from where the name ends.
pub proof fn law_stats_are_read_in_turn(data: Seq<u8>)
    ensures
        match text::parse_text(data, "invalid utf-8 in player name: "@) {
            Err(error) => parse_stats(data) == Err::<(Seq<char>, u64, u64, nat), _>(error),
            Ok((name, len)) => if data.len() < len + 16 {
                parse_stats(data) == Err::<(Seq<char>, u64, u64, nat), _>(
                    crate::error::SaveErrorView::UnexpectedEof,
                )
            } else {
                parse_stats(data) == Ok::<_, crate::error::SaveErrorView>(
                    (
                        name,
                        bytes::u64_at(data, len as int),
                        bytes::u64_at(data, len + 8int),
                        len + 16,
                    ),
                )
            },
        },
{
    let label = "invalid utf-8 in player name: "@;
    if let Ok((_, len)) = text::parse_text(data, label) {
        let stats = data.skip(len as int);
        text::lemma_read_text_is_written_back(data, label);
        if data.len() >= len + 16 {
            assert(stats.subrange(0, 8) =~= data.subrange(len as int, len + 8int));
            assert(stats.subrange(8, 16) =~= data.subrange(len + 8int, len + 16int));
        }
    }
}

/// A payload is read part by part, each from where the one before it ends: the entities, the rooms,
/// and the end with the player's name. The first part that cannot be read decides the error.
pub proof fn law_payload_is_read_in_turn(header: SaveHeader, payload: Seq<u8>)
    ensures
        match record::parse_list::<EntityView>(payload) {
            Err(error) => parse_payload(header, payload) == Err::<(WorldView, nat), _>(error),
            Ok((entities, len1)) => match record::parse_list::<RoomView>(
                payload.skip(len1 as int),
            ) {
                Err(error) => parse_payload(header, payload) == Err::<(WorldView, nat), _>(error),
                Ok((rooms, len2)) => match parse_stats(
                    payload.skip(len1 as int).skip(len2 as int),
                ) {
                    Err(error) => parse_payload(header, payload) == Err::<(WorldView, nat), _>(
                        error,
                    ),
                    Ok((player_name, seed, ticks, len3)) => parse_payload(
                        header,
                        payload,
                    ) matches Ok((world, taken)) && taken == len1 + len2 + len3 && world.header
                        == header && world.entities == entities && world.rooms == rooms
                        && world.player_name == player_name && world.world_seed == seed
                        && world.total_play_ticks == ticks,
                },
            },
        },
{
}

/// What refuses a save file, in this order: that it is shorter than a header, that its version is
/// not 1.0.0, that its checksum is not the hash of all that follows the header, and what is wrong
/// with the payload. Nothing else does.
pub proof fn law_file_is_refused_for_a_reason(data: Seq<u8>)
    ensures
        data.len() < 36 ==> parse_world(data) == Err::<WorldView, _>(
            crate::error::SaveErrorView::UnexpectedEof,
        ),
        data.len() >= 36 ==> {
            let payload = data.skip(36);
            let current = data[0] == 1 && data[1] == 0 && data[2] == 0;
            let right = bytes::u64_at(data, 28) == checksum::fnv1a(payload);
            &&& !current ==> parse_world(data) == Err::<WorldView, _>(
                crate::error::SaveErrorView::InvalidVersion,
            )
            &&& current && !right ==> parse_world(data) == Err::<WorldView, _>(
                crate::error::SaveErrorView::ChecksumMismatch,
            )
            &&& current && right ==> match parse_payload(header::parse_header(data), payload) {
                Ok((world, _)) => parse_world(data) == Ok::<_, crate::error::SaveErrorView>(world),
                Err(error) => parse_world(data) == Err::<WorldView, _>(error),
            }
        },
{
}

/// What refuses a world at the start of some data, in this order: that there is less than a header,
/// that its version is not 1.0.0, what is wrong with the payload, and that its checksum is not the
/// hash of the payload. Nothing else does.
pub proof fn law_prefix_is_refused_for_a_reason(data: Seq<u8>)
    ensures
        data.len() < 36 ==> parse_world_prefix(data) == Err::<(WorldView, nat), _>(
            crate::error::SaveErrorView::UnexpectedEof,
        ),
        data.len() >= 36 ==> {
            let rest = data.skip(36);
            let current = data[0] == 1 && data[1] == 0 && data[2] == 0;
            &&& !current ==> parse_world_prefix(data) == Err::<(WorldView, nat), _>(
                crate::error::SaveErrorView::InvalidVersion,
            )
            &&& current ==> match parse_payload(header::parse_header(data), rest) {
                Err(error) => parse_world_prefix(data) == Err::<(WorldView, nat), _>(error),
                Ok((world, len)) => if bytes::u64_at(data, 28) == checksum::fnv1a(
                    rest.take(len as int),
                ) {
                    parse_world_prefix(data) == Ok::<_, crate::error::SaveErrorView>(
                        (world, 36 + len),
                    )
                } else {
                    parse_world_prefix(data) == Err::<(WorldView, nat), _>(
                        crate::error::SaveErrorView::ChecksumMismatch,
                    )
                },
            }
        },
{
    reveal(parse_world_prefix);
}

/// `==` on worlds is equality of what they stand for.
pub proof fn law_equality_of_worlds(a: WorldSave, b: WorldSave)
    ensures
        <WorldSave as PartialEqSpec>::obeys_eq_spec(),
        PartialEqSpec::eq_spec(&a, &b) <==> same_world(a@, b@),
{
}

} // verus!
