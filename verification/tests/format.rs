//! Headers, checksums, entities and rooms.

use std::hash::Hasher;

use world_save::double::reals_equal;
use world_save::text::text_outcome;
use world_save::{fnv1a_64, EntityData, RoomData, SaveError, SaveHeader, SaveVersion};

/// The bits of each of three real numbers.
fn vector(x: f64, y: f64, z: f64) -> (u64, u64, u64) {
    (x.to_bits(), y.to_bits(), z.to_bits())
}

/// The sentence of the standard library about bytes that are not UTF-8.
fn utf8_complaint(bytes: &[u8]) -> String {
    String::from_utf8(bytes.to_vec()).unwrap_err().to_string()
}

#[test]
fn test_save_version_current() {
    assert_eq!(SaveVersion::current(), SaveVersion::new(1, 0, 0));
}

#[test]
fn test_header_roundtrip() {
    let h = SaveHeader {
        version: SaveVersion::new(1, 2, 3),
        seed: 12345,
        tick: 999,
        entity_count: 5,
        room_count: 3,
        checksum: 0xdeadbeef,
    };
    let enc = h.encode();
    let dec = SaveHeader::decode(&enc).unwrap();
    assert_eq!(h, dec);
}

#[test]
fn test_header_short_decode() {
    assert_eq!(SaveHeader::decode(&[0u8; 10]), Err(SaveError::UnexpectedEof));
}

#[test]
fn test_fnv1a_empty() {
    assert_eq!(fnv1a_64(b""), 0xcbf29ce484222325);
}

#[test]
fn test_fnv1a_known() {
    let h = fnv1a_64(b"hello");
    let expected = {
        let mut hasher = fnv::FnvHasher::default();
        hasher.write(b"hello");
        hasher.finish()
    };
    assert_eq!(h, expected);
}

#[test]
fn test_entity_minimal() {
    let e = EntityData::new(42);
    let enc = e.encode();
    let (dec, consumed) = EntityData::decode(&enc).unwrap();
    assert_eq!(consumed, enc.len());
    assert_eq!(e, dec);
}

#[test]
fn test_entity_full() {
    let mut e = EntityData::new(7);
    e.position = Some(vector(1.0, 2.0, 3.0));
    e.velocity = Some(vector(4.0, 5.0, 6.0));
    e.vibe = Some(0.5f64.to_bits());
    e.health = Some(100.0f64.to_bits());
    e.name = Some("hero".to_string());
    e.recompute_mask();
    let enc = e.encode();
    let (dec, consumed) = EntityData::decode(&enc).unwrap();
    assert_eq!(consumed, enc.len());
    assert_eq!(e, dec);
}

#[test]
fn test_entity_partial() {
    let mut e = EntityData::new(99);
    e.vibe = Some(0.8f64.to_bits());
    e.health = Some(75.0f64.to_bits());
    e.recompute_mask();
    let enc = e.encode();
    let (dec, consumed) = EntityData::decode(&enc).unwrap();
    assert_eq!(consumed, enc.len());
    assert_eq!(e, dec);
}

#[test]
fn test_entity_invalid_utf8_name() {
    let mut e = EntityData::new(1);
    e.name = Some("valid".into());
    e.recompute_mask();
    let mut enc = e.encode();
    // enc[16..20] is the length of the name, enc[20..25] the name.
    if enc.len() > 20 {
        enc[20] = 0xff;
    }
    match EntityData::decode(&enc) {
        Err(SaveError::CorruptedData(_)) => {}
        r => panic!("expected CorruptedData, got {r:?}"),
    }
}

#[test]
fn test_room_roundtrip() {
    let r = RoomData {
        id: 10,
        name: "dungeon".to_string(),
        vibe: 0.7f64.to_bits(),
        energy_budget: 1000.0f64.to_bits(),
        agent_ids: vec![1, 2, 3],
        tick_created: 500,
    };
    let enc = r.encode();
    let (dec, consumed) = RoomData::decode(&enc).unwrap();
    assert_eq!(consumed, enc.len());
    assert_eq!(r, dec);
}

#[test]
fn test_room_no_agents() {
    let r = RoomData {
        id: 0,
        name: "start".to_string(),
        vibe: 0.0f64.to_bits(),
        energy_budget: 0.0f64.to_bits(),
        agent_ids: vec![],
        tick_created: 0,
    };
    let enc = r.encode();
    let (dec, consumed) = RoomData::decode(&enc).unwrap();
    assert_eq!(consumed, enc.len());
    assert_eq!(r, dec);
}

#[test]
fn test_room_empty_name() {
    let r = RoomData {
        id: 1,
        name: "".to_string(),
        vibe: 1.0f64.to_bits(),
        energy_budget: 500.0f64.to_bits(),
        agent_ids: vec![42],
        tick_created: 100,
    };
    let enc = r.encode();
    let (dec, consumed) = RoomData::decode(&enc).unwrap();
    assert_eq!(consumed, enc.len());
    assert_eq!(r, dec);
}

#[test]
fn header_bytes_stand_in_order() {
    let h = SaveHeader {
        version: SaveVersion::new(1, 2, 3),
        seed: 0x1122334455667788,
        tick: 0x99aabbccddeeff00,
        entity_count: 0x01020304,
        room_count: 0x05060708,
        checksum: 0xcafebabedeadbeef,
    };
    let mut expected: Vec<u8> = vec![1, 2, 3, 0];
    expected.extend_from_slice(&h.seed.to_le_bytes());
    expected.extend_from_slice(&h.tick.to_le_bytes());
    expected.extend_from_slice(&h.entity_count.to_le_bytes());
    expected.extend_from_slice(&h.room_count.to_le_bytes());
    expected.extend_from_slice(&h.checksum.to_le_bytes());
    assert_eq!(h.encode().to_vec(), expected);
    assert_eq!(expected.len(), SaveHeader::ENCODED_SIZE);
}

#[test]
fn new_header_has_no_counts() {
    let h = SaveHeader::new(SaveVersion::new(4, 5, 6), 7, 8);
    assert_eq!(h.version, SaveVersion { major: 4, minor: 5, patch: 6 });
    assert_eq!((h.seed, h.tick), (7, 8));
    assert_eq!((h.entity_count, h.room_count, h.checksum), (0, 0, 0));
}

#[test]
fn decoded_header_is_encoded_with_the_reserved_byte_cleared() {
    let mut data: Vec<u8> = Vec::new();
    for i in 0..40u8 {
        data.push(i.wrapping_mul(37).wrapping_add(11));
    }
    let decoded = SaveHeader::decode(&data).unwrap();
    let mut expected = data[..36].to_vec();
    expected[3] = 0;
    assert_eq!(decoded.encode().to_vec(), expected);
    assert_eq!(SaveHeader::decode(&data[..36]), Ok(decoded));
    assert_eq!(SaveHeader::decode(&data[..35]), Err(SaveError::UnexpectedEof));
}

#[test]
fn checksum_has_the_published_values() {
    assert_eq!(fnv1a_64(b"a"), 0xaf63dc4c8601ec8c);
    assert_eq!(fnv1a_64(b"hello"), 0xa430d84680aabd0b);
    assert_eq!(fnv1a_64(b"foobar"), 0x85944171f73967e8);
    assert_eq!(SaveHeader::compute_checksum(b"foobar"), 0x85944171f73967e8);
}

#[test]
fn checksum_notices_every_single_byte() {
    let data = b"sixteen bytes...".to_vec();
    let hash = fnv1a_64(&data);
    for at in 0..data.len() {
        for byte in 0..=255u8 {
            let mut changed = data.clone();
            changed[at] = byte;
            assert_eq!(fnv1a_64(&changed) == hash, byte == data[at]);
        }
    }
}

#[test]
fn mask_has_one_bit_per_component() {
    let mut e = EntityData::new(1);
    e.component_mask = 0xffff;
    e.recompute_mask();
    assert_eq!(e.component_mask, 0);
    e.position = Some((0, 0, 0));
    e.recompute_mask();
    assert_eq!(e.component_mask, 1);
    e.velocity = Some((0, 0, 0));
    e.recompute_mask();
    assert_eq!(e.component_mask, 3);
    e.vibe = Some(0);
    e.recompute_mask();
    assert_eq!(e.component_mask, 7);
    e.health = Some(0);
    e.recompute_mask();
    assert_eq!(e.component_mask, 15);
    e.name = Some(String::new());
    e.recompute_mask();
    assert_eq!(e.component_mask, 31);
    e.position = None;
    e.health = None;
    e.recompute_mask();
    assert_eq!(e.component_mask, 22);
}

#[test]
fn entity_bytes_stand_in_order() {
    let mut e = EntityData::new(0x0102030405060708);
    e.position = Some(vector(1.5, -2.5, 1e300));
    e.velocity = Some(vector(-0.0, f64::INFINITY, f64::MIN_POSITIVE));
    e.vibe = Some(0.25f64.to_bits());
    e.health = Some(f64::NAN.to_bits());
    e.name = Some("h\u{e9}ros".to_string());
    e.recompute_mask();
    let mut expected: Vec<u8> = Vec::new();
    expected.extend_from_slice(&e.id.to_le_bytes());
    expected.extend_from_slice(&31u64.to_le_bytes());
    for number in [1.5f64, -2.5, 1e300, -0.0, f64::INFINITY, f64::MIN_POSITIVE, 0.25, f64::NAN] {
        expected.extend_from_slice(&number.to_le_bytes());
    }
    expected.extend_from_slice(&6u32.to_le_bytes());
    expected.extend_from_slice("h\u{e9}ros".as_bytes());
    assert_eq!(e.encode(), expected);
    let (decoded, taken) = EntityData::decode(&expected).unwrap();
    assert_eq!(taken, expected.len());
    assert_eq!(decoded.health, e.health);
    assert_eq!(decoded.encode(), expected);
}

#[test]
fn entity_ignores_what_follows() {
    let mut e = EntityData::new(3);
    e.vibe = Some(17);
    e.name = Some("x".to_string());
    e.recompute_mask();
    let mut data = e.encode();
    let len = data.len();
    data.extend_from_slice(b"trailing");
    assert_eq!(EntityData::decode(&data), Ok((e, len)));
}

#[test]
fn entity_cut_short_ends_early() {
    let mut e = EntityData::new(3);
    e.position = Some((1, 2, 3));
    e.velocity = Some((4, 5, 6));
    e.vibe = Some(7);
    e.health = Some(8);
    e.name = Some("name".to_string());
    e.recompute_mask();
    let data = e.encode();
    assert_eq!(data.len(), 16 + 24 + 24 + 8 + 8 + 4 + 4);
    for len in 0..data.len() {
        assert_eq!(EntityData::decode(&data[..len]), Err(SaveError::UnexpectedEof));
    }
}

#[test]
fn entity_is_encoded_with_its_mask_as_it_stands() {
    // The mask announces nothing, so the decoder stops after it.
    let mut e = EntityData::new(5);
    e.health = Some(9);
    let data = e.encode();
    assert_eq!(data.len(), 24);
    assert_eq!(EntityData::decode(&data), Ok((EntityData::new(5), 16)));
}

#[test]
fn bits_compare_as_the_numbers_do() {
    let numbers = [
        0.0f64,
        -0.0,
        1.0,
        -1.0,
        f64::MIN_POSITIVE,
        5e-324,
        -5e-324,
        f64::MAX,
        f64::INFINITY,
        f64::NEG_INFINITY,
        f64::NAN,
        -f64::NAN,
        f64::from_bits(0x7ff0_0000_0000_0001),
        f64::from_bits(0xffff_ffff_ffff_ffff),
    ];
    for a in numbers {
        for b in numbers {
            assert_eq!(reals_equal(a.to_bits(), b.to_bits()), a == b);
        }
    }
}

#[test]
fn entities_compare_by_their_numbers() {
    let mut zero = EntityData::new(1);
    zero.position = Some(vector(0.0, 1.0, 2.0));
    zero.vibe = Some(0.0f64.to_bits());
    zero.name = Some("n".to_string());
    let mut minus_zero = zero.clone();
    minus_zero.position = Some(vector(-0.0, 1.0, 2.0));
    minus_zero.vibe = Some((-0.0f64).to_bits());
    assert_eq!(zero, minus_zero);
    let mut other = zero.clone();
    other.velocity = Some(vector(0.0, 0.0, 0.0));
    assert_ne!(zero, other);
    let mut other = zero.clone();
    other.position = Some(vector(0.0, 1.0, 3.0));
    assert_ne!(zero, other);
    let mut other = zero.clone();
    other.name = None;
    assert_ne!(zero, other);
    let mut other = zero.clone();
    other.component_mask = 1;
    assert_ne!(zero, other);
    let mut nan = zero.clone();
    nan.health = Some(f64::NAN.to_bits());
    assert!(nan != nan.clone());
}

#[test]
fn rooms_compare_by_their_numbers() {
    let r = RoomData {
        id: 1,
        name: "hall".to_string(),
        vibe: 0.0f64.to_bits(),
        energy_budget: 1.0f64.to_bits(),
        agent_ids: vec![4, 5],
        tick_created: 6,
    };
    let mut same = r.clone();
    same.vibe = (-0.0f64).to_bits();
    assert_eq!(r, same);
    let mut other = r.clone();
    other.agent_ids = vec![4];
    assert_ne!(r, other);
    let mut other = r.clone();
    other.agent_ids = vec![4, 6];
    assert_ne!(r, other);
    let mut nan = r.clone();
    nan.energy_budget = f64::NAN.to_bits();
    assert!(nan != nan.clone());
}

#[test]
fn bits_of_no_component_are_kept() {
    let mut data = EntityData::new(6).encode();
    data[15] = 0x80;
    let (e, taken) = EntityData::decode(&data).unwrap();
    assert_eq!(e.component_mask, 0x80 << 56);
    assert_eq!(taken, 16);
    assert_eq!(e.encode(), data);
}

#[test]
fn entity_name_error_is_worded() {
    let mut e = EntityData::new(1);
    e.name = Some("ab".to_string());
    e.recompute_mask();
    let mut data = e.encode();
    data[21] = 0xc3;
    let text = format!("invalid utf-8 in entity name: {}", utf8_complaint(&[b'a', 0xc3]));
    assert_eq!(EntityData::decode(&data), Err(SaveError::CorruptedData(text)));
}

#[test]
fn room_bytes_stand_in_order() {
    let r = RoomData {
        id: 0xa1b2c3d4e5f60718,
        name: "caf\u{e9}".to_string(),
        vibe: 0.75f64.to_bits(),
        energy_budget: (-1.0f64).to_bits(),
        agent_ids: vec![9, u64::MAX],
        tick_created: 77,
    };
    let mut expected: Vec<u8> = Vec::new();
    expected.extend_from_slice(&r.id.to_le_bytes());
    expected.extend_from_slice(&5u32.to_le_bytes());
    expected.extend_from_slice("caf\u{e9}".as_bytes());
    expected.extend_from_slice(&0.75f64.to_le_bytes());
    expected.extend_from_slice(&(-1.0f64).to_le_bytes());
    expected.extend_from_slice(&2u32.to_le_bytes());
    expected.extend_from_slice(&9u64.to_le_bytes());
    expected.extend_from_slice(&u64::MAX.to_le_bytes());
    expected.extend_from_slice(&77u64.to_le_bytes());
    assert_eq!(r.encode(), expected);
    let len = expected.len();
    expected.push(1);
    assert_eq!(RoomData::decode(&expected), Ok((r, len)));
}

#[test]
fn room_cut_short_ends_early() {
    let r = RoomData {
        id: 1,
        name: "hall".to_string(),
        vibe: 2,
        energy_budget: 3,
        agent_ids: vec![4, 5],
        tick_created: 6,
    };
    let data = r.encode();
    for len in 0..data.len() {
        assert_eq!(RoomData::decode(&data[..len]), Err(SaveError::UnexpectedEof));
    }
}

#[test]
fn room_with_absurd_counts_ends_early() {
    let r = RoomData {
        id: 1,
        name: "hall".to_string(),
        vibe: 2,
        energy_budget: 3,
        agent_ids: vec![],
        tick_created: 6,
    };
    let data = r.encode();
    let mut long_name = data.clone();
    long_name[8..12].copy_from_slice(&[0xff; 4]);
    assert_eq!(RoomData::decode(&long_name), Err(SaveError::UnexpectedEof));
    let mut many_agents = data.clone();
    many_agents[32..36].copy_from_slice(&[0xff; 4]);
    assert_eq!(RoomData::decode(&many_agents), Err(SaveError::UnexpectedEof));
}

#[test]
fn room_name_error_is_worded() {
    let r = RoomData {
        id: 1,
        name: "hall".to_string(),
        vibe: 2,
        energy_budget: 3,
        agent_ids: vec![],
        tick_created: 6,
    };
    let mut data = r.encode();
    data[13] = 0xff;
    let text = format!("invalid utf-8 in room name: {}", utf8_complaint(&[b'h', 0xff, b'l', b'l']));
    assert_eq!(RoomData::decode(&data), Err(SaveError::CorruptedData(text)));
    // The name is looked at before what follows it.
    assert!(matches!(RoomData::decode(&data[..16]), Err(SaveError::CorruptedData(_))));
}

#[test]
fn errors_say_what_is_wrong() {
    assert_eq!(SaveError::InvalidVersion.message(), "invalid save version");
    assert_eq!(SaveError::ChecksumMismatch.message(), "checksum mismatch");
    assert_eq!(SaveError::UnexpectedEof.message(), "unexpected end of data");
    assert_eq!(
        SaveError::CorruptedData("why".to_string()).message(),
        "corrupted data: why"
    );
}

#[test]
fn string_or_complaint_is_passed_on() {
    assert_eq!(text_outcome(Ok("abc".to_string()), 7, "why: "), Ok(("abc".to_string(), 7)));
    assert_eq!(
        text_outcome(Err("odd byte".to_string()), 7, "why: "),
        Err(SaveError::CorruptedData("why: odd byte".to_string()))
    );
}
