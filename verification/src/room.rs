//! Rooms.
//!
//! A real number is held as the bits of its IEEE 754 double.

use vstd::prelude::*;
use vstd::std_specs::cmp::{PartialEqSpec, PartialEqSpecImpl};

use crate::bytes;
use crate::double;
use crate::error::SaveError;
use crate::record;
use crate::text;

verus! {

/// A room of the world. Each real number stands as its 64 bits.
///
/// `==` compares the numbers, not the bits: a NaN equals nothing, and 0.0 equals -0.0.
#[derive(Debug)]
pub struct RoomData {
    pub id: u64,
    pub name: String,
    pub vibe: u64,
    pub energy_budget: u64,
    pub agent_ids: Vec<u64>,
    pub tick_created: u64,
}

/// A [`RoomData`] with its name and its agents as sequences.
#[verifier::ext_equal]
pub struct RoomView {
    pub id: u64,
    pub name: Seq<char>,
    pub vibe: u64,
    pub energy_budget: u64,
    pub agent_ids: Seq<u64>,
    pub tick_created: u64,
}

impl View for RoomData {
    type V = RoomView;

    open spec fn view(&self) -> RoomView {
        RoomView {
            id: self.id,
            name: self.name@,
            vibe: self.vibe,
            energy_budget: self.energy_budget,
            agent_ids: self.agent_ids@,
            tick_created: self.tick_created,
        }
    }
}

impl Clone for RoomData {
    fn clone(&self) -> (copy: Self)
        ensures
            copy@ == self@,
    {
        let agent_ids = self.agent_ids.clone();
        assert(agent_ids@ =~= self.agent_ids@);
        Self {
            id: self.id,
            name: self.name.clone(),
            vibe: self.vibe,
            energy_budget: self.energy_budget,
            agent_ids,
            tick_created: self.tick_created,
        }
    }
}

/// Whether two rooms are equal: their real numbers as such, all else exactly.
pub open spec fn same_room(a: RoomView, b: RoomView) -> bool {
    &&& a.id == b.id
    &&& a.name == b.name
    &&& double::same_real(a.vibe, b.vibe)
    &&& double::same_real(a.energy_budget, b.energy_budget)
    &&& a.agent_ids == b.agent_ids
    &&& a.tick_created == b.tick_created
}

impl PartialEqSpecImpl for RoomData {
    open spec fn obeys_eq_spec() -> bool {
        true
    }

    open spec fn eq_spec(&self, other: &Self) -> bool {
        same_room(self@, other@)
    }
}

impl PartialEq for RoomData {
    fn eq(&self, other: &Self) -> (equal: bool) {
        let same_agents = record::lists_equal(&self.agent_ids, &other.agent_ids);
        assert(same_agents == (self.agent_ids@ =~= other.agent_ids@));
        self.id == other.id && self.name == other.name && double::reals_equal(self.vibe, other.vibe)
            && double::reals_equal(self.energy_budget, other.energy_budget) && same_agents
            && self.tick_created == other.tick_created
    }
}

/// Whether two lists of rooms are equally long and equal item by item.
pub open spec fn same_rooms(a: Seq<RoomView>, b: Seq<RoomView>) -> bool {
    &&& a.len() == b.len()
    &&& forall|i: int| 0 <= i < a.len() ==> same_room(#[trigger] a[i], b[i])
}

/// Whether two lists of rooms are equally long and equal item by item.
pub fn rooms_equal(a: &Vec<RoomData>, b: &Vec<RoomData>) -> (equal: bool)
    ensures
        equal == same_rooms(record::views(a@), record::views(b@)),
{
    let equal = record::lists_equal(a, b);
    proof {
        let (views_a, views_b) = (record::views(a@), record::views(b@));
        if equal {
            assert forall|i: int| 0 <= i < views_a.len() implies same_room(
                #[trigger] views_a[i],
                views_b[i],
            ) by {
                assert(PartialEqSpec::eq_spec(&a@[i], &b@[i]));
            }
        } else if a@.len() == b@.len() {
            let i = choose|i: int| 0 <= i < a@.len() && !PartialEqSpec::eq_spec(
                &#[trigger] a@[i],
                &b@[i],
            );
            assert(!same_room(views_a[i], views_b[i]));
        }
    }
    equal
}

/// The eight bytes of each number, one after the other.
pub open spec fn numbers_bytes(numbers: Seq<u64>) -> Seq<u8>
    decreases numbers.len(),
{
    if numbers.len() == 0 {
        Seq::empty()
    } else {
        numbers_bytes(numbers.drop_last()) + bytes::u64_bytes(numbers.last())
    }
}

/// The `count` numbers at offset `at`.
pub open spec fn numbers_at(data: Seq<u8>, at: int, count: nat) -> Seq<u64> {
    Seq::new(count, |i: int| bytes::u64_at(data, at + 8 * i))
}

/// The bytes of a room: id(8) | name(4 + length) | vibe(8) | energy_budget(8) | agent_count(4) |
/// agent_ids(8 each) | tick_created(8).
pub open spec fn room_bytes(room: RoomView) -> Seq<u8> {
    bytes::u64_bytes(room.id) + text::text_bytes(room.name) + bytes::u64_bytes(room.vibe)
        + bytes::u64_bytes(room.energy_budget) + bytes::le_bytes(room.agent_ids.len(), 4)
        + numbers_bytes(room.agent_ids) + bytes::u64_bytes(room.tick_created)
}

/// The room at the start of `data`, and how many bytes it takes.
pub open spec fn parse_room(data: Seq<u8>) -> Result<
    (RoomView, nat),
    crate::error::SaveErrorView,
> {
    if data.len() < 8 {
        Err(crate::error::SaveErrorView::UnexpectedEof)
    } else {
        match text::parse_text(data.skip(8), "invalid utf-8 in room name: "@) {
            Ok((name, taken)) => parse_room_after_name(data, name, 8 + taken as int),
            Err(error) => Err(error),
        }
    }
}

/// The room at the start of `data` whose name is `name` and ends at offset `at`, and how many
/// bytes the room takes.
pub open spec fn parse_room_after_name(data: Seq<u8>, name: Seq<char>, at: int) -> Result<
    (RoomView, nat),
    crate::error::SaveErrorView,
> {
    let count = bytes::u32_at(data, at + 16);
    let tick_at = at + 20 + 8 * count;
    if data.len() < at + 20 || data.len() < tick_at + 8 {
        Err(crate::error::SaveErrorView::UnexpectedEof)
    } else {
        Ok(
            (
                RoomView {
                    id: bytes::u64_at(data, 0),
                    name,
                    vibe: bytes::u64_at(data, at),
                    energy_budget: bytes::u64_at(data, at + 8),
                    agent_ids: numbers_at(data, at + 20, count as nat),
                    tick_created: bytes::u64_at(data, tick_at),
                },
                (tick_at + 8) as nat,
            ),
        )
    }
}

/// Appends the eight bytes of each number.
fn push_numbers(out: &mut Vec<u8>, numbers: &Vec<u64>)
    ensures
        final(out)@ == old(out)@ + numbers_bytes(numbers@),
{
    let ghost before = out@;
    let mut i: usize = 0;
    assert(before =~= before + numbers_bytes(numbers@.take(0)));
    while i < numbers.len()
        invariant
            i <= numbers.len(),
            out@ == before + numbers_bytes(numbers@.take(i as int)),
        decreases numbers.len() - i,
    {
        bytes::push_le(out, numbers[i], 8);
        proof {
            let done = numbers@.take(i as int);
            assert(numbers@.take(i + 1).drop_last() =~= done);
            assert(before + numbers_bytes(done) + bytes::u64_bytes(numbers[i as int]) =~= before
                + numbers_bytes(numbers@.take(i + 1)));
        }
        i = i + 1;
    }
    assert(numbers@.take(i as int) =~= numbers@);
}

/// Reads the `count` numbers at offset `at`.
fn read_numbers(data: &[u8], at: usize, count: u32) -> (numbers: Vec<u64>)
    requires
        at + 8 * count <= data.len(),
    ensures
        numbers@ == numbers_at(data@, at as int, count as nat),
{
    let mut numbers: Vec<u64> = Vec::new();
    let mut offset: usize = at;
    let mut i: u32 = 0;
    while i < count
        invariant
            i <= count,
            at + 8 * count <= data.len(),
            offset == at + 8 * i,
            numbers@ =~= numbers_at(data@, at as int, i as nat),
        decreases count - i,
    {
        numbers.push(bytes::read_u64(data, offset));
        offset = offset + 8;
        i = i + 1;
    }
    numbers
}

impl RoomData {
    /// Encodes the room.
    pub fn encode(&self) -> (encoded: Vec<u8>)
        ensures
            encoded@ == room_bytes(self@),
    {
        let mut out: Vec<u8> = Vec::new();
        bytes::push_le(&mut out, self.id, 8);
        text::push_text(&mut out, self.name.as_str());
        bytes::push_le(&mut out, self.vibe, 8);
        bytes::push_le(&mut out, self.energy_budget, 8);
        bytes::push_le(&mut out, self.agent_ids.len() as u64, 4);
        push_numbers(&mut out, &self.agent_ids);
        bytes::push_le(&mut out, self.tick_created, 8);
        assert(out@ =~= room_bytes(self@));
        out
    }

    /// Decodes the room at the start of `data`; also returns how many bytes it takes.
    pub fn decode(data: &[u8]) -> (result: Result<(Self, usize), SaveError>)
        ensures
            crate::error::outcome(result) == parse_room(data@),
    {
        if data.len() < 8 {
            return Err(SaveError::UnexpectedEof);
        }
        let (name, at) = match text::read_text(data, 8, "invalid utf-8 in room name: ") {
            Ok((name, taken)) => (name, 8 + taken),
            Err(error) => return Err(error),
        };
        if data.len() - at < 20 {
            return Err(SaveError::UnexpectedEof);
        }
        let count: u32 = bytes::read_u32(data, at + 16);
        if ((data.len() - at - 20) as u64) < 8 * (count as u64) + 8 {
            return Err(SaveError::UnexpectedEof);
        }
        let tick_at: usize = at + 20 + 8 * (count as usize);
        let room = RoomData {
            id: bytes::read_u64(data, 0),
            name,
            vibe: bytes::read_u64(data, at),
            energy_budget: bytes::read_u64(data, at + 8),
            agent_ids: read_numbers(data, at + 20, count),
            tick_created: bytes::read_u64(data, tick_at),
        };
        Ok((room, tick_at + 8))
    }
}

proof fn lemma_numbers_len(numbers: Seq<u64>)
    ensures
        numbers_bytes(numbers).len() == 8 * numbers.len(),
    decreases numbers.len(),
{
    broadcast use bytes::lemma_le_bytes_len;

    if numbers.len() > 0 {
        lemma_numbers_len(numbers.drop_last());
    }
}

/// The numbers whose bytes stand at offset `at` are read back from there.
proof fn lemma_numbers_stored(data: Seq<u8>, at: int, numbers: Seq<u64>)
    requires
        0 <= at,
        at + 8 * numbers.len() <= data.len(),
        data.subrange(at, at + 8 * numbers.len()) == numbers_bytes(numbers),
    ensures
        numbers_at(data, at, numbers.len()) == numbers,
    decreases numbers.len(),
{
    broadcast use bytes::lemma_le_bytes_len;

    if numbers.len() > 0 {
        let init = numbers.drop_last();
        let stored = data.subrange(at, at + 8 * numbers.len());
        let last_at = at + 8 * init.len();
        lemma_numbers_len(init);
        assert(data.subrange(at, last_at) =~= stored.take(8 * init.len() as int));
        assert(stored.take(8 * init.len() as int) =~= numbers_bytes(init));
        lemma_numbers_stored(data, at, init);
        assert(data.subrange(last_at, last_at + 8) =~= stored.skip(8 * init.len() as int));
        assert(stored.skip(8 * init.len() as int) =~= bytes::u64_bytes(numbers.last()));
        bytes::lemma_u64_stored(data, last_at, numbers.last());
        assert forall|i: int| 0 <= i < numbers.len() implies numbers_at(data, at, numbers.len())[i]
            == numbers[i] by {
            if i < init.len() {
                assert(numbers_at(data, at, init.len())[i] == init[i]);
            }
        }
    }
    assert(numbers_at(data, at, numbers.len()) =~= numbers);
}

/// The bytes of the numbers read at offset `at` are the bytes there.
proof fn lemma_numbers_loaded(data: Seq<u8>, at: int, count: nat)
    requires
        0 <= at,
        at + 8 * count <= data.len(),
    ensures
        numbers_bytes(numbers_at(data, at, count)) == data.subrange(at, at + 8 * count),
    decreases count,
{
    let numbers = numbers_at(data, at, count);
    if count > 0 {
        let last_at = at + 8 * (count - 1);
        lemma_numbers_loaded(data, at, (count - 1) as nat);
        assert(numbers.drop_last() =~= numbers_at(data, at, (count - 1) as nat));
        bytes::lemma_u64_loaded(data, last_at);
        bytes::lemma_join(data, at, last_at, at + 8 * count);
    } else {
        assert(data.subrange(at, at) =~= Seq::<u8>::empty());
    }
}

/// Whether `room` is decoded as it was encoded: the length of its name and the number of its
/// agents fit in four bytes.
pub open spec fn room_storable(room: RoomView) -> bool {
    &&& vstd::utf8::encode_utf8(room.name).len() <= u32::MAX
    &&& room.agent_ids.len() <= u32::MAX
}

/// Decoding an encoded room, whatever follows it, gives the room back and takes exactly its bytes.
pub proof fn law_room_decodes_to_itself(room: RoomView, rest: Seq<u8>)
    requires
        room_storable(room),
    ensures
        parse_room(room_bytes(room) + rest) == Ok::<_, crate::error::SaveErrorView>(
            (room, room_bytes(room).len()),
        ),
{
    broadcast use bytes::lemma_le_bytes_len;

    let data = room_bytes(room) + rest;
    let count = room.agent_ids.len();
    let name = text::text_bytes(room.name);
    let at = 8 + name.len() as int;
    let tick_at = at + 20 + 8 * count;
    lemma_numbers_len(room.agent_ids);
    assert(data.subrange(0, 8) =~= bytes::u64_bytes(room.id));
    bytes::lemma_u64_stored(data, 0, room.id);
    let after_name = data.skip(at);
    assert(data.skip(8) =~= name + after_name);
    text::lemma_text_is_read_back(room.name, after_name, "invalid utf-8 in room name: "@);
    assert(data.subrange(at, at + 8) =~= bytes::u64_bytes(room.vibe));
    bytes::lemma_u64_stored(data, at, room.vibe);
    assert(data.subrange(at + 8, at + 16) =~= bytes::u64_bytes(room.energy_budget));
    bytes::lemma_u64_stored(data, at + 8, room.energy_budget);
    assert(data.subrange(at + 16, at + 20) =~= bytes::u32_bytes(count as u32));
    bytes::lemma_u32_stored(data, at + 16, count as u32);
    assert(data.subrange(at + 20, tick_at) =~= numbers_bytes(room.agent_ids));
    lemma_numbers_stored(data, at + 20, room.agent_ids);
    assert(data.subrange(tick_at, tick_at + 8) =~= bytes::u64_bytes(room.tick_created));
    bytes::lemma_u64_stored(data, tick_at, room.tick_created);
}

/// An encoded room that was cut short ends early, wherever it was cut.
pub proof fn law_truncated_room_ends_early(room: RoomView, len: int)
    requires
        room_storable(room),
        0 <= len < room_bytes(room).len(),
    ensures
        parse_room(room_bytes(room).take(len)) == Err::<(RoomView, nat), _>(
            crate::error::SaveErrorView::UnexpectedEof,
        ),
{
    broadcast use bytes::lemma_le_bytes_len;

    let label = "invalid utf-8 in room name: "@;
    let data = room_bytes(room);
    let cut = data.take(len);
    let count = room.agent_ids.len();
    let name = text::text_bytes(room.name);
    let at = 8 + name.len() as int;
    lemma_numbers_len(room.agent_ids);
    if len >= 8 {
        let after_name = data.skip(at);
        assert(data.skip(8) =~= name + after_name);
        assert(cut.skip(8) =~= data.skip(8).take(len - 8));
        bytes::lemma_cut(name, after_name, len - 8);
        if len < at {
            text::lemma_cut_text(room.name, len - 8, label);
        } else {
            text::lemma_text_is_read_back(room.name, after_name.take(len - at), label);
            if len >= at + 20 {
                assert(cut.subrange(at + 16, at + 20) =~= bytes::u32_bytes(count as u32));
                bytes::lemma_u32_stored(cut, at + 16, count as u32);
            }
        }
    }
}

/// A decoded room is storable, and encodes to exactly the bytes that it was decoded from.
pub proof fn law_decoded_room_encodes_to_its_bytes(data: Seq<u8>)
    ensures
        parse_room(data) matches Ok((room, taken)) ==> {
            &&& taken <= data.len()
            &&& room_bytes(room) == data.take(taken as int)
            &&& room_storable(room)
        },
{
    if let Ok((room, taken)) = parse_room(data) {
        let tail = data.skip(8);
        let label = "invalid utf-8 in room name: "@;
        let at = 8 + text::parse_text(tail, label)->Ok_0.1 as int;
        let tick_at = taken - 8;
        text::lemma_read_text_is_written_back(tail, label);
        assert(tail.take(at - 8) =~= data.subrange(8, at));
        bytes::lemma_u64_loaded(data, 0);
        bytes::lemma_u64_loaded(data, at);
        bytes::lemma_u64_loaded(data, at + 8);
        bytes::lemma_u32_loaded(data, at + 16);
        lemma_numbers_loaded(data, at + 20, room.agent_ids.len());
        bytes::lemma_u64_loaded(data, tick_at);
        bytes::lemma_join(data, 0, 8, at);
        bytes::lemma_join(data, 0, at, at + 8);
        bytes::lemma_join(data, 0, at + 8, at + 16);
        bytes::lemma_join(data, 0, at + 16, at + 20);
        bytes::lemma_join(data, 0, at + 20, tick_at);
        bytes::lemma_join(data, 0, tick_at, taken as int);
    }
}

impl record::RecordView for RoomView {
    open spec fn kind() -> Seq<char> {
        "room"@
    }

    open spec fn record_bytes(self) -> Seq<u8> {
        room_bytes(self)
    }

    open spec fn parse_record(data: Seq<u8>) -> Result<(Self, nat), crate::error::SaveErrorView> {
        parse_room(data)
    }

    open spec fn storable(self) -> bool {
        room_storable(self)
    }

    proof fn lemma_record_is_read_back(self, rest: Seq<u8>) {
        law_room_decodes_to_itself(self, rest);
    }

    proof fn lemma_read_record_is_written_back(data: Seq<u8>) {
        law_decoded_room_encodes_to_its_bytes(data);
    }
}

impl record::Record for RoomData {
    fn kind_name() -> (name: &'static str) {
        "room"
    }

    fn encode_record(&self) -> (encoded: Vec<u8>) {
        self.encode()
    }

    fn decode_record(data: &[u8]) -> (result: Result<(Self, usize), SaveError>) {
        RoomData::decode(data)
    }
}

/// The view of a room holds its fields, and equality of rooms is that of all of them.
pub proof fn law_room_view(room: RoomData, a: RoomView, b: RoomView)
    ensures
        room@.id == room.id,
        room@.name == room.name@,
        room@.vibe == room.vibe,
        room@.energy_budget == room.energy_budget,
        room@.agent_ids == room.agent_ids@,
        room@.tick_created == room.tick_created,
        same_room(a, b) <==> a.id == b.id && a.name == b.name && double::same_real(a.vibe, b.vibe)
            && double::same_real(a.energy_budget, b.energy_budget) && a.agent_ids == b.agent_ids
            && a.tick_created == b.tick_created,
{
}

/// Lists of rooms are equal if they are equally long and equal item by item.
pub proof fn law_equal_rooms(a: Seq<RoomView>, b: Seq<RoomView>)
    ensures
        same_rooms(a, b) <==> a.len() == b.len() && forall|i: int|
            0 <= i < a.len() ==> same_room(#[trigger] a[i], b[i]),
{
}

/// The bytes of number `i` stand after those of the numbers before it.
proof fn lemma_number_at(numbers: Seq<u64>, i: int)
    requires
        0 <= i < numbers.len(),
    ensures
        numbers_bytes(numbers).subrange(8 * i, 8 * i + 8) == bytes::le_bytes(numbers[i] as nat, 8),
    decreases numbers.len(),
{
    broadcast use bytes::lemma_le_bytes_len;

    let init = numbers.drop_last();
    lemma_numbers_len(numbers);
    lemma_numbers_len(init);
    if i < init.len() {
        lemma_number_at(init, i);
        assert(numbers_bytes(numbers).subrange(8 * i, 8 * i + 8) =~= numbers_bytes(init).subrange(
            8 * i,
            8 * i + 8,
        ));
    } else {
        assert(numbers_bytes(numbers).subrange(8 * i, 8 * i + 8) =~= bytes::le_bytes(
            numbers[i] as nat,
            8,
        ));
    }
}

/// Where each part of a room stands in its bytes.
pub proof fn law_room_layout(room: RoomView, i: int)
    ensures
        ({
            let data = room_bytes(room);
            let vibe = 12 + vstd::utf8::encode_utf8(room.name).len() as int;
            let count = room.agent_ids.len() as int;
            &&& data.len() == vibe + 28 + 8 * count
            &&& data.subrange(0, 8) == bytes::le_bytes(room.id as nat, 8)
            &&& data.subrange(8, vibe) == text::text_bytes(room.name)
            &&& data.subrange(vibe, vibe + 8) == bytes::le_bytes(room.vibe as nat, 8)
            &&& data.subrange(vibe + 8, vibe + 16) == bytes::le_bytes(room.energy_budget as nat, 8)
            &&& data.subrange(vibe + 16, vibe + 20) == bytes::le_bytes(count as nat, 4)
            &&& 0 <= i < count ==> data.subrange(vibe + 20 + 8 * i, vibe + 28 + 8 * i)
                == bytes::le_bytes(room.agent_ids[i] as nat, 8)
            &&& data.subrange(vibe + 20 + 8 * count, vibe + 28 + 8 * count) == bytes::le_bytes(
                room.tick_created as nat,
                8,
            )
        }),
{
    broadcast use bytes::lemma_le_bytes_len;

    let data = room_bytes(room);
    let name = text::text_bytes(room.name);
    let vibe = 8 + name.len() as int;
    let count = room.agent_ids.len() as int;
    text::law_text_layout(room.name);
    lemma_numbers_len(room.agent_ids);
    assert(data.subrange(0, 8) =~= bytes::le_bytes(room.id as nat, 8));
    assert(data.subrange(8, vibe) =~= name);
    assert(data.subrange(vibe, vibe + 8) =~= bytes::le_bytes(room.vibe as nat, 8));
    assert(data.subrange(vibe + 8, vibe + 16) =~= bytes::le_bytes(room.energy_budget as nat, 8));
    assert(data.subrange(vibe + 16, vibe + 20) =~= bytes::le_bytes(count as nat, 4));
    if 0 <= i < count {
        lemma_number_at(room.agent_ids, i);
        assert(data.subrange(vibe + 20 + 8 * i, vibe + 28 + 8 * i) =~= numbers_bytes(
            room.agent_ids,
        ).subrange(8 * i, 8 * i + 8));
    }
    assert(data.subrange(vibe + 20 + 8 * count, vibe + 28 + 8 * count) =~= bytes::le_bytes(
        room.tick_created as nat,
        8,
    ));
}

/// How many bytes a room takes goes by the length of its name and the number of its agents: data
/// that is shorter ends early, and of longer data only the name can be refused. The numbers of the
/// room are those that stand one after the other in its bytes.
pub proof fn law_room_is_read_by_its_counts(data: Seq<u8>, i: int)
    ensures
        data.len() < 8 ==> parse_room(data) == Err::<(RoomView, nat), _>(
            crate::error::SaveErrorView::UnexpectedEof,
        ),
        data.len() >= 8 ==> match text::parse_text(
            data.skip(8),
            "invalid utf-8 in room name: "@,
        ) {
            Err(error) => parse_room(data) == Err::<(RoomView, nat), _>(error),
            Ok((name, len)) => {
                let vibe = 8 + len as int;
                let count = bytes::u32_at(data, vibe + 16);
                let tick = vibe + 20 + 8 * count;
                &&& data.len() < vibe + 28 ==> parse_room(data) == Err::<(RoomView, nat), _>(
                    crate::error::SaveErrorView::UnexpectedEof,
                )
                &&& data.len() >= vibe + 28 && data.len() < tick + 8 ==> parse_room(data) == Err::<
                    (RoomView, nat),
                    _,
                >(crate::error::SaveErrorView::UnexpectedEof)
                &&& data.len() >= vibe + 28 && data.len() >= tick + 8 ==> (parse_room(
                    data,
                ) matches Ok((room, taken)) && taken == tick + 8 && room.name == name && room.id
                    == bytes::u64_at(data, 0) && room.vibe == bytes::u64_at(data, vibe)
                    && room.energy_budget == bytes::u64_at(data, vibe + 8) && room.agent_ids.len()
                    == count && (0 <= i < count ==> room.agent_ids[i] == bytes::u64_at(
                    data,
                    vibe + 20 + 8 * i,
                )) && room.tick_created == bytes::u64_at(data, tick))
            },
        },
{
}

/// In a list of records, rooms are written and read as such and called by their name.
pub proof fn law_rooms_are_records(room: RoomView, data: Seq<u8>)
    ensures
        <RoomView as record::RecordView>::kind() == "room"@,
        record::RecordView::record_bytes(room) == room_bytes(room),
        <RoomView as record::RecordView>::parse_record(data) == parse_room(data),
{
}

/// `==` on rooms is equality of what they stand for.
pub proof fn law_equality_of_rooms(a: RoomData, b: RoomData)
    ensures
        <RoomData as PartialEqSpec>::obeys_eq_spec(),
        PartialEqSpec::eq_spec(&a, &b) <==> same_room(a@, b@),
{
}

} // verus!
