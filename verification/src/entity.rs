//! Entities and their components.
//!
//! A component that is a real number is held as the bits of its IEEE 754 double.

use vstd::prelude::*;
use vstd::std_specs::cmp::{PartialEqSpec, PartialEqSpecImpl};

use crate::bytes;
use crate::double;
use crate::error::SaveError;
use crate::record;
use crate::text;

verus! {

/// The bit of a component mask that announces a position.
pub const COMPONENT_POSITION: u64 = 1;

/// The bit of a component mask that announces a velocity.
pub const COMPONENT_VELOCITY: u64 = 2;

/// The bit of a component mask that announces a vibe.
pub const COMPONENT_VIBE: u64 = 4;

/// The bit of a component mask that announces a health.
pub const COMPONENT_HEALTH: u64 = 8;

/// The bit of a component mask that announces a name.
pub const COMPONENT_NAME: u64 = 16;

/// An entity of the world. Each real number stands as its 64 bits.
///
/// `==` compares the numbers, not the bits: a NaN equals nothing, and 0.0 equals -0.0.
#[derive(Debug)]
pub struct EntityData {
    pub id: u64,
    /// Which components the encoded form holds; see [`EntityData::recompute_mask`].
    pub component_mask: u64,
    pub position: Option<(u64, u64, u64)>,
    pub velocity: Option<(u64, u64, u64)>,
    pub vibe: Option<u64>,
    pub health: Option<u64>,
    pub name: Option<String>,
}

/// An [`EntityData`] with its name as a sequence of characters.
#[verifier::ext_equal]
pub struct EntityView {
    pub id: u64,
    pub component_mask: u64,
    pub position: Option<(u64, u64, u64)>,
    pub velocity: Option<(u64, u64, u64)>,
    pub vibe: Option<u64>,
    pub health: Option<u64>,
    pub name: Option<Seq<char>>,
}

impl View for EntityData {
    type V = EntityView;

    open spec fn view(&self) -> EntityView {
        EntityView {
            id: self.id,
            component_mask: self.component_mask,
            position: self.position,
            velocity: self.velocity,
            vibe: self.vibe,
            health: self.health,
            name: match self.name {
                Some(name) => Some(name@),
                None => None,
            },
        }
    }
}

impl Clone for EntityData {
    fn clone(&self) -> (copy: Self)
        ensures
            copy@ == self@,
    {
        Self {
            id: self.id,
            component_mask: self.component_mask,
            position: self.position,
            velocity: self.velocity,
            vibe: self.vibe,
            health: self.health,
            name: self.name.clone(),
        }
    }
}

/// Whether two entities are equal: their real numbers as such, all else exactly.
pub open spec fn same_entity(a: EntityView, b: EntityView) -> bool {
    &&& a.id == b.id
    &&& a.component_mask == b.component_mask
    &&& double::same_optional_vector(a.position, b.position)
    &&& double::same_optional_vector(a.velocity, b.velocity)
    &&& double::same_optional_real(a.vibe, b.vibe)
    &&& double::same_optional_real(a.health, b.health)
    &&& a.name == b.name
}

impl PartialEqSpecImpl for EntityData {
    open spec fn obeys_eq_spec() -> bool {
        true
    }

    open spec fn eq_spec(&self, other: &Self) -> bool {
        same_entity(self@, other@)
    }
}

impl PartialEq for EntityData {
    fn eq(&self, other: &Self) -> (equal: bool) {
        let same_name = match (&self.name, &other.name) {
            (Some(name), Some(other_name)) => *name == *other_name,
            (None, None) => true,
            _ => false,
        };
        self.id == other.id && self.component_mask == other.component_mask
            && double::optional_vectors_equal(self.position, other.position)
            && double::optional_vectors_equal(self.velocity, other.velocity)
            && double::optional_reals_equal(self.vibe, other.vibe) && double::optional_reals_equal(
            self.health,
            other.health,
        ) && same_name
    }
}

/// Whether two lists of entities are equally long and equal item by item.
pub open spec fn same_entities(a: Seq<EntityView>, b: Seq<EntityView>) -> bool {
    &&& a.len() == b.len()
    &&& forall|i: int| 0 <= i < a.len() ==> same_entity(#[trigger] a[i], b[i])
}

/// Whether two lists of entities are equally long and equal item by item.
pub fn entities_equal(a: &Vec<EntityData>, b: &Vec<EntityData>) -> (equal: bool)
    ensures
        equal == same_entities(record::views(a@), record::views(b@)),
{
    let equal = record::lists_equal(a, b);
    proof {
        let (views_a, views_b) = (record::views(a@), record::views(b@));
        if equal {
            assert forall|i: int| 0 <= i < views_a.len() implies same_entity(
                #[trigger] views_a[i],
                views_b[i],
            ) by {
                assert(PartialEqSpec::eq_spec(&a@[i], &b@[i]));
            }
        } else if a@.len() == b@.len() {
            let i = choose|i: int| 0 <= i < a@.len() && !PartialEqSpec::eq_spec(
                &#[trigger] a@[i],
                &b@[i],
            );
            assert(!same_entity(views_a[i], views_b[i]));
        }
    }
    equal
}

/// Whether `mask` announces the component of `flag`.
pub open spec fn announces(mask: u64, flag: u64) -> bool {
    mask & flag != 0
}

/// The mask that announces exactly the components that `entity` has.
pub open spec fn mask_of_components(entity: EntityView) -> u64 {
    (if entity.position is Some { COMPONENT_POSITION } else { 0 })
        | (if entity.velocity is Some { COMPONENT_VELOCITY } else { 0 })
        | (if entity.vibe is Some { COMPONENT_VIBE } else { 0 })
        | (if entity.health is Some { COMPONENT_HEALTH } else { 0 })
        | (if entity.name is Some { COMPONENT_NAME } else { 0 })
}

/// Whether the mask of `entity` announces exactly the components that it has. Bits that belong to
/// no component are free.
pub open spec fn mask_agrees(entity: EntityView) -> bool {
    &&& announces(entity.component_mask, COMPONENT_POSITION) == entity.position is Some
    &&& announces(entity.component_mask, COMPONENT_VELOCITY) == entity.velocity is Some
    &&& announces(entity.component_mask, COMPONENT_VIBE) == entity.vibe is Some
    &&& announces(entity.component_mask, COMPONENT_HEALTH) == entity.health is Some
    &&& announces(entity.component_mask, COMPONENT_NAME) == entity.name is Some
}

/// Three numbers, one after the other.
pub open spec fn vector_bytes(vector: (u64, u64, u64)) -> Seq<u8> {
    bytes::u64_bytes(vector.0) + bytes::u64_bytes(vector.1) + bytes::u64_bytes(vector.2)
}

/// The bytes of an optional vector: none if it is absent.
pub open spec fn optional_vector_bytes(vector: Option<(u64, u64, u64)>) -> Seq<u8> {
    match vector {
        Some(vector) => vector_bytes(vector),
        None => Seq::empty(),
    }
}

/// The bytes of an optional number: none if it is absent.
pub open spec fn optional_number_bytes(number: Option<u64>) -> Seq<u8> {
    match number {
        Some(number) => bytes::u64_bytes(number),
        None => Seq::empty(),
    }
}

/// The bytes of an optional string: none if it is absent.
pub open spec fn optional_text_bytes(text: Option<Seq<char>>) -> Seq<u8> {
    match text {
        Some(text) => text::text_bytes(text),
        None => Seq::empty(),
    }
}

/// The bytes of an entity:
/// id(8) | mask(8) | position(24)? | velocity(24)? | vibe(8)? | health(8)? | name(4 + length)?.
pub open spec fn entity_bytes(entity: EntityView) -> Seq<u8> {
    bytes::u64_bytes(entity.id) + bytes::u64_bytes(entity.component_mask) + optional_vector_bytes(
        entity.position,
    ) + optional_vector_bytes(entity.velocity) + optional_number_bytes(entity.vibe)
        + optional_number_bytes(entity.health) + optional_text_bytes(entity.name)
}

/// Where the velocity of an encoded entity with this mask stands.
pub open spec fn velocity_at(mask: u64) -> int {
    16 + if announces(mask, COMPONENT_POSITION) { 24int } else { 0 }
}

/// Where the vibe of an encoded entity with this mask stands.
pub open spec fn vibe_at(mask: u64) -> int {
    velocity_at(mask) + if announces(mask, COMPONENT_VELOCITY) { 24int } else { 0 }
}

/// Where the health of an encoded entity with this mask stands.
pub open spec fn health_at(mask: u64) -> int {
    vibe_at(mask) + if announces(mask, COMPONENT_VIBE) { 8int } else { 0 }
}

/// Where the name of an encoded entity with this mask stands, after all that has a fixed size.
pub open spec fn name_at(mask: u64) -> int {
    health_at(mask) + if announces(mask, COMPONENT_HEALTH) { 8int } else { 0 }
}

/// The three numbers at offset `at`.
pub open spec fn vector_at(data: Seq<u8>, at: int) -> (u64, u64, u64) {
    (bytes::u64_at(data, at), bytes::u64_at(data, at + 8), bytes::u64_at(data, at + 16))
}

/// The entity at the start of `data`, but for its name.
pub open spec fn parse_nameless_entity(data: Seq<u8>) -> EntityView {
    let mask = bytes::u64_at(data, 8);
    EntityView {
        id: bytes::u64_at(data, 0),
        component_mask: mask,
        position: if announces(mask, COMPONENT_POSITION) {
            Some(vector_at(data, 16))
        } else {
            None
        },
        velocity: if announces(mask, COMPONENT_VELOCITY) {
            Some(vector_at(data, velocity_at(mask)))
        } else {
            None
        },
        vibe: if announces(mask, COMPONENT_VIBE) {
            Some(bytes::u64_at(data, vibe_at(mask)))
        } else {
            None
        },
        health: if announces(mask, COMPONENT_HEALTH) {
            Some(bytes::u64_at(data, health_at(mask)))
        } else {
            None
        },
        name: None,
    }
}

/// The entity at the start of `data`, and how many bytes it takes.
pub open spec fn parse_entity(data: Seq<u8>) -> Result<
    (EntityView, nat),
    crate::error::SaveErrorView,
> {
    let mask = bytes::u64_at(data, 8);
    if data.len() < 16 || data.len() < name_at(mask) {
        Err(crate::error::SaveErrorView::UnexpectedEof)
    } else if !announces(mask, COMPONENT_NAME) {
        Ok((parse_nameless_entity(data), name_at(mask) as nat))
    } else {
        match text::parse_text(data.skip(name_at(mask)), "invalid utf-8 in entity name: "@) {
            Ok((name, taken)) => Ok(
                (
                    EntityView { name: Some(name), ..parse_nameless_entity(data) },
                    (name_at(mask) + taken) as nat,
                ),
            ),
            Err(error) => Err(error),
        }
    }
}

/// Appends three numbers.
fn push_vector(out: &mut Vec<u8>, vector: (u64, u64, u64))
    ensures
        final(out)@ == old(out)@ + vector_bytes(vector),
{
    let ghost before = out@;
    bytes::push_le(out, vector.0, 8);
    bytes::push_le(out, vector.1, 8);
    bytes::push_le(out, vector.2, 8);
    assert(out@ =~= before + vector_bytes(vector));
}

/// Reads the three numbers at offset `at`.
fn read_vector(data: &[u8], at: usize) -> (vector: (u64, u64, u64))
    requires
        at + 24 <= data.len(),
    ensures
        vector == vector_at(data@, at as int),
{
    let x: u64 = bytes::read_u64(data, at);
    let y: u64 = bytes::read_u64(data, at + 8);
    let z: u64 = bytes::read_u64(data, at + 16);
    (x, y, z)
}

impl EntityData {
    /// An entity without components.
    pub fn new(id: u64) -> (entity: Self)
        ensures
            entity@ == (EntityView {
                id,
                component_mask: 0,
                position: None,
                velocity: None,
                vibe: None,
                health: None,
                name: None,
            }),
    {
        Self {
            id,
            component_mask: 0,
            position: None,
            velocity: None,
            vibe: None,
            health: None,
            name: None,
        }
    }

    /// Makes the component mask announce exactly the components that are present.
    pub fn recompute_mask(&mut self)
        ensures
            final(self)@ == (EntityView {
                component_mask: mask_of_components(old(self)@),
                ..old(self)@
            }),
    {
        let mut mask: u64 = 0;
        if self.position.is_some() {
            mask = mask | COMPONENT_POSITION;
        }
        if self.velocity.is_some() {
            mask = mask | COMPONENT_VELOCITY;
        }
        if self.vibe.is_some() {
            mask = mask | COMPONENT_VIBE;
        }
        if self.health.is_some() {
            mask = mask | COMPONENT_HEALTH;
        }
        if self.name.is_some() {
            mask = mask | COMPONENT_NAME;
        }
        proof {
            assert(forall|a: u64| a | 0 == a && 0 | a == a) by (bit_vector);
        }
        self.component_mask = mask;
    }

    /// Encodes the entity: its mask as it stands, then the components that are present.
    pub fn encode(&self) -> (encoded: Vec<u8>)
        ensures
            encoded@ == entity_bytes(self@),
    {
        let mut out: Vec<u8> = Vec::new();
        bytes::push_le(&mut out, self.id, 8);
        bytes::push_le(&mut out, self.component_mask, 8);
        if let Some(vector) = self.position {
            push_vector(&mut out, vector);
        }
        if let Some(vector) = self.velocity {
            push_vector(&mut out, vector);
        }
        if let Some(number) = self.vibe {
            bytes::push_le(&mut out, number, 8);
        }
        if let Some(number) = self.health {
            bytes::push_le(&mut out, number, 8);
        }
        if let Some(name) = &self.name {
            text::push_text(&mut out, name.as_str());
        }
        assert(out@ =~= entity_bytes(self@));
        out
    }

    /// Decodes the entity at the start of `data`; also returns how many bytes it takes.
    pub fn decode(data: &[u8]) -> (result: Result<(Self, usize), SaveError>)
        ensures
            crate::error::outcome(result) == parse_entity(data@),
    {
        if data.len() < 16 {
            return Err(SaveError::UnexpectedEof);
        }
        let mask: u64 = bytes::read_u64(data, 8);
        let mut entity = EntityData::new(bytes::read_u64(data, 0));
        entity.component_mask = mask;
        let mut offset: usize = 16;
        if mask & COMPONENT_POSITION != 0 {
            if data.len() - offset < 24 {
                return Err(SaveError::UnexpectedEof);
            }
            entity.position = Some(read_vector(data, offset));
            offset = offset + 24;
        }
        if mask & COMPONENT_VELOCITY != 0 {
            if data.len() - offset < 24 {
                return Err(SaveError::UnexpectedEof);
            }
            entity.velocity = Some(read_vector(data, offset));
            offset = offset + 24;
        }
        if mask & COMPONENT_VIBE != 0 {
            if data.len() - offset < 8 {
                return Err(SaveError::UnexpectedEof);
            }
            entity.vibe = Some(bytes::read_u64(data, offset));
            offset = offset + 8;
        }
        if mask & COMPONENT_HEALTH != 0 {
            if data.len() - offset < 8 {
                return Err(SaveError::UnexpectedEof);
            }
            entity.health = Some(bytes::read_u64(data, offset));
            offset = offset + 8;
        }
        if mask & COMPONENT_NAME != 0 {
            match text::read_text(data, offset, "invalid utf-8 in entity name: ") {
                Ok((name, taken)) => {
                    entity.name = Some(name);
                    offset = offset + taken;
                },
                Err(error) => return Err(error),
            }
        }
        Ok((entity, offset))
    }
}

/// The length of the parts of an encoded entity is what its mask announces, if the two agree.
proof fn lemma_part_lens(entity: EntityView)
    requires
        mask_agrees(entity),
    ensures
        16 + optional_vector_bytes(entity.position).len() == velocity_at(entity.component_mask),
        velocity_at(entity.component_mask) + optional_vector_bytes(entity.velocity).len()
            == vibe_at(entity.component_mask),
        vibe_at(entity.component_mask) + optional_number_bytes(entity.vibe).len() == health_at(
            entity.component_mask,
        ),
        health_at(entity.component_mask) + optional_number_bytes(entity.health).len() == name_at(
            entity.component_mask,
        ),
{
    broadcast use bytes::lemma_le_bytes_len;

}

/// The three numbers whose bytes stand at offset `at` are read back from there.
proof fn lemma_vector_stored(data: Seq<u8>, at: int, vector: (u64, u64, u64))
    requires
        0 <= at,
        at + 24 <= data.len(),
        data.subrange(at, at + 24) =~= vector_bytes(vector),
    ensures
        vector_at(data, at) == vector,
{
    broadcast use bytes::lemma_le_bytes_len;

    let stored = data.subrange(at, at + 24);
    assert(stored.subrange(0, 8) =~= bytes::u64_bytes(vector.0));
    assert(stored.subrange(8, 16) =~= bytes::u64_bytes(vector.1));
    assert(stored.subrange(16, 24) =~= bytes::u64_bytes(vector.2));
    assert(data.subrange(at, at + 8) =~= stored.subrange(0, 8));
    assert(data.subrange(at + 8, at + 16) =~= stored.subrange(8, 16));
    assert(data.subrange(at + 16, at + 24) =~= stored.subrange(16, 24));
    bytes::lemma_u64_stored(data, at, vector.0);
    bytes::lemma_u64_stored(data, at + 8, vector.1);
    bytes::lemma_u64_stored(data, at + 16, vector.2);
}

/// The bytes of the three numbers read at offset `at` are the bytes there.
proof fn lemma_vector_loaded(data: Seq<u8>, at: int)
    requires
        0 <= at,
        at + 24 <= data.len(),
    ensures
        vector_bytes(vector_at(data, at)) == data.subrange(at, at + 24),
{
    bytes::lemma_u64_loaded(data, at);
    bytes::lemma_u64_loaded(data, at + 8);
    bytes::lemma_u64_loaded(data, at + 16);
    assert(vector_bytes(vector_at(data, at)) =~= data.subrange(at, at + 24));
}

/// Where each of the parts of an encoded entity stands when they follow one another.
proof fn lemma_parts(
    id: Seq<u8>,
    mask: Seq<u8>,
    position: Seq<u8>,
    velocity: Seq<u8>,
    vibe: Seq<u8>,
    health: Seq<u8>,
    name: Seq<u8>,
    rest: Seq<u8>,
)
    requires
        id.len() == 8,
        mask.len() == 8,
    ensures
        ({
            let data = id + mask + position + velocity + vibe + health + name + rest;
            let velocity_at = 16 + position.len() as int;
            let vibe_at = velocity_at + velocity.len();
            let health_at = vibe_at + vibe.len();
            let name_at = health_at + health.len();
            &&& data.subrange(0, 8) == id
            &&& data.subrange(8, 16) == mask
            &&& data.subrange(16, velocity_at) == position
            &&& data.subrange(velocity_at, vibe_at) == velocity
            &&& data.subrange(vibe_at, health_at) == vibe
            &&& data.subrange(health_at, name_at) == health
            &&& data.skip(name_at) == name + rest
        }),
{
    let to_mask = id + mask;
    let to_position = to_mask + position;
    let to_velocity = to_position + velocity;
    let to_vibe = to_velocity + vibe;
    let to_health = to_vibe + health;
    bytes::lemma_regroup(to_health, name, rest);
    bytes::lemma_skip_front(to_health, name + rest);
    bytes::lemma_regroup(to_vibe, health, name + rest);
    bytes::lemma_middle(to_vibe, health, name + rest);
    bytes::lemma_regroup(to_velocity, vibe, health + (name + rest));
    bytes::lemma_middle(to_velocity, vibe, health + (name + rest));
    let from_vibe = vibe + (health + (name + rest));
    bytes::lemma_regroup(to_position, velocity, from_vibe);
    bytes::lemma_middle(to_position, velocity, from_vibe);
    bytes::lemma_regroup(to_mask, position, velocity + from_vibe);
    bytes::lemma_middle(to_mask, position, velocity + from_vibe);
    let from_position = position + (velocity + from_vibe);
    bytes::lemma_middle(id, mask, from_position);
    assert((id + mask + from_position).subrange(0, 8) =~= id);
}

/// A recomputed mask agrees with the components that are present.
pub proof fn law_recomputed_mask_agrees(entity: EntityView)
    ensures
        mask_agrees(EntityView { component_mask: mask_of_components(entity), ..entity }),
{
    let p = if entity.position is Some { COMPONENT_POSITION } else { 0 };
    let v = if entity.velocity is Some { COMPONENT_VELOCITY } else { 0 };
    let b = if entity.vibe is Some { COMPONENT_VIBE } else { 0 };
    let h = if entity.health is Some { COMPONENT_HEALTH } else { 0 };
    let n = if entity.name is Some { COMPONENT_NAME } else { 0 };
    assert({
        &&& (p | v | b | h | n) & 1 != 0 <==> p == 1
        &&& (p | v | b | h | n) & 2 != 0 <==> v == 2
        &&& (p | v | b | h | n) & 4 != 0 <==> b == 4
        &&& (p | v | b | h | n) & 8 != 0 <==> h == 8
        &&& (p | v | b | h | n) & 16 != 0 <==> n == 16
    }) by (bit_vector)
        requires
            p == 0 || p == 1,
            v == 0 || v == 2,
            b == 0 || b == 4,
            h == 0 || h == 8,
            n == 0 || n == 16,
    ;
}

/// Whether `entity` is decoded as it was encoded: its mask agrees with its components, and the
/// length of its name fits in four bytes.
pub open spec fn entity_storable(entity: EntityView) -> bool {
    &&& mask_agrees(entity)
    &&& entity.name matches Some(name) ==> vstd::utf8::encode_utf8(name).len() <= u32::MAX
}

/// Decoding an encoded entity, whatever follows it, gives the entity back and takes exactly its
/// bytes.
pub proof fn law_entity_decodes_to_itself(entity: EntityView, rest: Seq<u8>)
    requires
        entity_storable(entity),
    ensures
        parse_entity(entity_bytes(entity) + rest) == Ok::<_, crate::error::SaveErrorView>(
            (entity, entity_bytes(entity).len()),
        ),
{
    broadcast use bytes::lemma_le_bytes_len;

    let mask = entity.component_mask;
    let data = entity_bytes(entity) + rest;
    lemma_part_lens(entity);
    lemma_parts(
        bytes::u64_bytes(entity.id),
        bytes::u64_bytes(mask),
        optional_vector_bytes(entity.position),
        optional_vector_bytes(entity.velocity),
        optional_number_bytes(entity.vibe),
        optional_number_bytes(entity.health),
        optional_text_bytes(entity.name),
        rest,
    );
    bytes::lemma_u64_stored(data, 0, entity.id);
    bytes::lemma_u64_stored(data, 8, mask);
    if let Some(position) = entity.position {
        lemma_vector_stored(data, 16, position);
    }
    if let Some(velocity) = entity.velocity {
        lemma_vector_stored(data, velocity_at(mask), velocity);
    }
    if let Some(vibe) = entity.vibe {
        bytes::lemma_u64_stored(data, vibe_at(mask), vibe);
    }
    if let Some(health) = entity.health {
        bytes::lemma_u64_stored(data, health_at(mask), health);
    }
    if let Some(name) = entity.name {
        text::lemma_text_is_read_back(name, rest, "invalid utf-8 in entity name: "@);
    }
}

/// An encoded entity that was cut short ends early, wherever it was cut.
pub proof fn law_truncated_entity_ends_early(entity: EntityView, len: int)
    requires
        entity_storable(entity),
        0 <= len < entity_bytes(entity).len(),
    ensures
        parse_entity(entity_bytes(entity).take(len)) == Err::<(EntityView, nat), _>(
            crate::error::SaveErrorView::UnexpectedEof,
        ),
{
    broadcast use bytes::lemma_le_bytes_len;

    let mask = entity.component_mask;
    let data = entity_bytes(entity);
    let cut = data.take(len);
    let none = Seq::<u8>::empty();
    assert(data + none =~= data);
    lemma_part_lens(entity);
    lemma_parts(
        bytes::u64_bytes(entity.id),
        bytes::u64_bytes(mask),
        optional_vector_bytes(entity.position),
        optional_vector_bytes(entity.velocity),
        optional_number_bytes(entity.vibe),
        optional_number_bytes(entity.health),
        optional_text_bytes(entity.name),
        none,
    );
    if len >= 16 {
        assert(cut.subrange(8, 16) =~= data.subrange(8, 16));
        bytes::lemma_u64_stored(cut, 8, mask);
        if len >= name_at(mask) {
            let tail = optional_text_bytes(entity.name);
            assert(tail + none =~= tail);
            assert(cut.skip(name_at(mask)) =~= tail.take(len - name_at(mask)));
            text::lemma_cut_text(
                entity.name->0,
                len - name_at(mask),
                "invalid utf-8 in entity name: "@,
            );
        }
    }
}

/// A decoded entity is storable, and encodes to exactly the bytes that it was decoded from.
pub proof fn law_decoded_entity_encodes_to_its_bytes(data: Seq<u8>)
    ensures
        parse_entity(data) matches Ok((entity, taken)) ==> {
            &&& taken <= data.len()
            &&& entity_bytes(entity) == data.take(taken as int)
            &&& entity_storable(entity)
        },
{
    if let Ok((entity, taken)) = parse_entity(data) {
        let mask = entity.component_mask;
        bytes::lemma_u64_loaded(data, 0);
        bytes::lemma_u64_loaded(data, 8);
        if entity.position is Some {
            lemma_vector_loaded(data, 16);
        }
        if entity.velocity is Some {
            lemma_vector_loaded(data, velocity_at(mask));
        }
        if entity.vibe is Some {
            bytes::lemma_u64_loaded(data, vibe_at(mask));
        }
        if entity.health is Some {
            bytes::lemma_u64_loaded(data, health_at(mask));
        }
        assert(optional_vector_bytes(entity.position) =~= data.subrange(16, velocity_at(mask)));
        assert(optional_vector_bytes(entity.velocity) =~= data.subrange(
            velocity_at(mask),
            vibe_at(mask),
        ));
        assert(optional_number_bytes(entity.vibe) =~= data.subrange(
            vibe_at(mask),
            health_at(mask),
        ));
        assert(optional_number_bytes(entity.health) =~= data.subrange(
            health_at(mask),
            name_at(mask),
        ));
        let tail = data.skip(name_at(mask));
        if entity.name is Some {
            text::lemma_read_text_is_written_back(tail, "invalid utf-8 in entity name: "@);
            assert(tail.take(taken - name_at(mask)) =~= data.subrange(name_at(mask), taken as int));
        } else {
            assert(data.subrange(name_at(mask), taken as int) =~= Seq::<u8>::empty());
        }
        bytes::lemma_join(data, 0, 8, 16);
        bytes::lemma_join(data, 0, 16, velocity_at(mask));
        bytes::lemma_join(data, 0, velocity_at(mask), vibe_at(mask));
        bytes::lemma_join(data, 0, vibe_at(mask), health_at(mask));
        bytes::lemma_join(data, 0, health_at(mask), name_at(mask));
        bytes::lemma_join(data, 0, name_at(mask), taken as int);
    }
}

impl record::RecordView for EntityView {
    open spec fn kind() -> Seq<char> {
        "entity"@
    }

    open spec fn record_bytes(self) -> Seq<u8> {
        entity_bytes(self)
    }

    open spec fn parse_record(data: Seq<u8>) -> Result<(Self, nat), crate::error::SaveErrorView> {
        parse_entity(data)
    }

    open spec fn storable(self) -> bool {
        entity_storable(self)
    }

    proof fn lemma_record_is_read_back(self, rest: Seq<u8>) {
        law_entity_decodes_to_itself(self, rest);
    }

    proof fn lemma_read_record_is_written_back(data: Seq<u8>) {
        law_decoded_entity_encodes_to_its_bytes(data);
    }
}

impl record::Record for EntityData {
    fn kind_name() -> (name: &'static str) {
        "entity"
    }

    fn encode_record(&self) -> (encoded: Vec<u8>) {
        self.encode()
    }

    fn decode_record(data: &[u8]) -> (result: Result<(Self, usize), SaveError>) {
        EntityData::decode(data)
    }
}

/// The view of an entity holds its fields, and equality of entities is that of all of them.
pub proof fn law_entity_view(entity: EntityData, a: EntityView, b: EntityView)
    ensures
        entity@.id == entity.id,
        entity@.component_mask == entity.component_mask,
        entity@.position == entity.position,
        entity@.velocity == entity.velocity,
        entity@.vibe == entity.vibe,
        entity@.health == entity.health,
        entity.name is Some <==> entity@.name is Some,
        entity.name matches Some(name) ==> entity@.name == Some(name@),
        same_entity(a, b) <==> a.id == b.id && a.component_mask == b.component_mask
            && double::same_optional_vector(a.position, b.position) && double::same_optional_vector(
            a.velocity,
            b.velocity,
        ) && double::same_optional_real(a.vibe, b.vibe) && double::same_optional_real(
            a.health,
            b.health,
        ) && a.name == b.name,
{
}

/// Lists of entities are equal if they are equally long and equal item by item.
pub proof fn law_equal_entities(a: Seq<EntityView>, b: Seq<EntityView>)
    ensures
        same_entities(a, b) <==> a.len() == b.len() && forall|i: int|
            0 <= i < a.len() ==> same_entity(#[trigger] a[i], b[i]),
{
}

/// The recomputed mask is the sum of one power of two for each component that is present.
pub proof fn law_mask_is_a_sum(entity: EntityView)
    ensures
        mask_of_components(entity) == (if entity.position is Some { 1int } else { 0 }) + (
        if entity.velocity is Some { 2int } else { 0 }) + (if entity.vibe is Some { 4int } else {
            0
        }) + (if entity.health is Some { 8int } else { 0 }) + (if entity.name is Some {
            16int
        } else {
            0
        }),
{
    let p = if entity.position is Some { COMPONENT_POSITION } else { 0 };
    let v = if entity.velocity is Some { COMPONENT_VELOCITY } else { 0 };
    let b = if entity.vibe is Some { COMPONENT_VIBE } else { 0 };
    let h = if entity.health is Some { COMPONENT_HEALTH } else { 0 };
    let n = if entity.name is Some { COMPONENT_NAME } else { 0 };
    assert((p | v | b | h | n) == p + v + b + h + n) by (bit_vector)
        requires
            p == 0 || p == 1,
            v == 0 || v == 2,
            b == 0 || b == 4,
            h == 0 || h == 8,
            n == 0 || n == 16,
    ;
}

/// Where each part of an entity stands in its bytes. The mask is written as it stands; what is
/// written after it goes by the components that are present.
pub proof fn law_entity_layout(entity: EntityView)
    ensures
        ({
            let data = entity_bytes(entity);
            let velocity = 16 + if entity.position is Some { 24int } else { 0 };
            let vibe = velocity + if entity.velocity is Some { 24int } else { 0 };
            let health = vibe + if entity.vibe is Some { 8int } else { 0 };
            let name = health + if entity.health is Some { 8int } else { 0 };
            &&& data.subrange(0, 8) == bytes::le_bytes(entity.id as nat, 8)
            &&& data.subrange(8, 16) == bytes::le_bytes(entity.component_mask as nat, 8)
            &&& entity.position matches Some((x, y, z)) ==> data.subrange(16, 40)
                == bytes::le_bytes(x as nat, 8) + bytes::le_bytes(y as nat, 8) + bytes::le_bytes(
                z as nat,
                8,
            )
            &&& entity.velocity matches Some((x, y, z)) ==> data.subrange(velocity, velocity + 24)
                == bytes::le_bytes(x as nat, 8) + bytes::le_bytes(y as nat, 8) + bytes::le_bytes(
                z as nat,
                8,
            )
            &&& entity.vibe matches Some(x) ==> data.subrange(vibe, vibe + 8) == bytes::le_bytes(
                x as nat,
                8,
            )
            &&& entity.health matches Some(x) ==> data.subrange(health, health + 8)
                == bytes::le_bytes(x as nat, 8)
            &&& entity.name matches Some(x) ==> data.skip(name) == text::text_bytes(x)
            &&& entity.name is None ==> data.len() == name
        }),
{
    broadcast use bytes::lemma_le_bytes_len;

    let none = Seq::<u8>::empty();
    let tail = optional_text_bytes(entity.name);
    lemma_parts(
        bytes::u64_bytes(entity.id),
        bytes::u64_bytes(entity.component_mask),
        optional_vector_bytes(entity.position),
        optional_vector_bytes(entity.velocity),
        optional_number_bytes(entity.vibe),
        optional_number_bytes(entity.health),
        tail,
        none,
    );
    assert(entity_bytes(entity) + none =~= entity_bytes(entity));
    assert(tail + none =~= tail);
}

/// The bits of a mask that announce components.
proof fn lemma_bits(mask: u64)
    ensures
        announces(mask, COMPONENT_POSITION) <==> mask % 2 == 1,
        announces(mask, COMPONENT_VELOCITY) <==> mask / 2 % 2 == 1,
        announces(mask, COMPONENT_VIBE) <==> mask / 4 % 2 == 1,
        announces(mask, COMPONENT_HEALTH) <==> mask / 8 % 2 == 1,
        announces(mask, COMPONENT_NAME) <==> mask / 16 % 2 == 1,
{
    assert((mask & 1 != 0) <==> mask % 2 == 1) by (bit_vector);
    assert((mask & 2 != 0) <==> mask / 2 % 2 == 1) by (bit_vector);
    assert((mask & 4 != 0) <==> mask / 4 % 2 == 1) by (bit_vector);
    assert((mask & 8 != 0) <==> mask / 8 % 2 == 1) by (bit_vector);
    assert((mask & 16 != 0) <==> mask / 16 % 2 == 1) by (bit_vector);
}

/// How many bytes an entity takes goes by its mask: data that is shorter ends early, and of longer
/// data only the name can be refused.
pub proof fn law_entity_is_read_by_its_mask(data: Seq<u8>)
    ensures
        data.len() < 16 ==> parse_entity(data) == Err::<(EntityView, nat), _>(
            crate::error::SaveErrorView::UnexpectedEof,
        ),
        data.len() >= 16 ==> {
            let mask = bytes::u64_at(data, 8);
            let size = 16 + 24 * (mask % 2) + 24 * (mask / 2 % 2) + 8 * (mask / 4 % 2) + 8 * (mask
                / 8 % 2);
            let name = text::parse_text(data.skip(size), "invalid utf-8 in entity name: "@);
            &&& data.len() < size ==> parse_entity(data) == Err::<(EntityView, nat), _>(
                crate::error::SaveErrorView::UnexpectedEof,
            )
            &&& data.len() >= size && mask / 16 % 2 == 0 ==> (parse_entity(data) matches Ok(
                (entity, taken),
            ) && entity.name is None && taken == size)
            &&& data.len() >= size && mask / 16 % 2 == 1 ==> match name {
                Ok((text, len)) => parse_entity(data) matches Ok((entity, taken)) && entity.name
                    == Some(text) && taken == size + len,
                Err(error) => parse_entity(data) == Err::<(EntityView, nat), _>(error),
            }
        },
{
    lemma_bits(bytes::u64_at(data, 8));
}

/// The numbers of a decoded entity are those that stand one after the other in its bytes, as far
/// as its mask announces them.
pub proof fn law_entity_fields(data: Seq<u8>)
    ensures
        parse_entity(data) matches Ok((entity, _)) ==> {
            let mask = entity.component_mask;
            let velocity = 16 + 24 * (mask % 2);
            let vibe = velocity + 24 * (mask / 2 % 2);
            let health = vibe + 8 * (mask / 4 % 2);
            &&& entity.id == bytes::u64_at(data, 0)
            &&& mask == bytes::u64_at(data, 8)
            &&& entity.position is Some <==> mask % 2 == 1
            &&& entity.velocity is Some <==> mask / 2 % 2 == 1
            &&& entity.vibe is Some <==> mask / 4 % 2 == 1
            &&& entity.health is Some <==> mask / 8 % 2 == 1
            &&& entity.position matches Some((x, y, z)) ==> x == bytes::u64_at(data, 16) && y
                == bytes::u64_at(data, 24) && z == bytes::u64_at(data, 32)
            &&& entity.velocity matches Some((x, y, z)) ==> x == bytes::u64_at(data, velocity) && y
                == bytes::u64_at(data, velocity + 8) && z == bytes::u64_at(data, velocity + 16)
            &&& entity.vibe matches Some(x) ==> x == bytes::u64_at(data, vibe)
            &&& entity.health matches Some(x) ==> x == bytes::u64_at(data, health)
        },
{
    lemma_bits(bytes::u64_at(data, 8));
}

/// In a list of records, entities are written and read as such and called by their name.
pub proof fn law_entities_are_records(entity: EntityView, data: Seq<u8>)
    ensures
        <EntityView as record::RecordView>::kind() == "entity"@,
        record::RecordView::record_bytes(entity) == entity_bytes(entity),
        <EntityView as record::RecordView>::parse_record(data) == parse_entity(data),
{
}

/// `==` on entities is equality of what they stand for.
pub proof fn law_equality_of_entities(a: EntityData, b: EntityData)
    ensures
        <EntityData as PartialEqSpec>::obeys_eq_spec(),
        PartialEqSpec::eq_spec(&a, &b) <==> same_entity(a@, b@),
{
}

} // verus!
