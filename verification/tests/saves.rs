//! Whole worlds and archives of them.

use world_save::{EntityData, RoomData, SaveError, SaveHeader, SaveManager, SaveVersion, WorldSave};

/// The bits of each of three real numbers.
fn vector(x: f64, y: f64, z: f64) -> (u64, u64, u64) {
    (x.to_bits(), y.to_bits(), z.to_bits())
}

/// The sentence of the standard library about bytes that are not UTF-8.
fn utf8_complaint(bytes: &[u8]) -> String {
    String::from_utf8(bytes.to_vec()).unwrap_err().to_string()
}

/// A room without agents.
fn room(id: u64, name: &str) -> RoomData {
    RoomData {
        id,
        name: name.to_string(),
        vibe: 0.5f64.to_bits(),
        energy_budget: 100.0f64.to_bits(),
        agent_ids: vec![],
        tick_created: 42,
    }
}

/// A world with an entity and a room.
fn furnished_world() -> WorldSave {
    let mut world = WorldSave::new(42, "player1");
    let mut e = EntityData::new(1);
    e.position = Some(vector(10.0, 20.0, 30.0));
    e.recompute_mask();
    world.add_entity(e);
    world.add_room(room(100, "main_hall"));
    world.total_play_ticks = 12345;
    world
}

/// A payload behind a header of the current version with the right checksum.
fn sealed(payload: &[u8]) -> Vec<u8> {
    let mut header = SaveHeader::new(SaveVersion::current(), 0, 0);
    header.checksum = SaveHeader::compute_checksum(payload);
    let mut data = header.encode().to_vec();
    data.extend_from_slice(payload);
    data
}

#[test]
fn test_world_save_roundtrip() {
    let mut world = WorldSave::new(42, "player1");

    let mut e1 = EntityData::new(1);
    e1.position = Some(vector(10.0, 20.0, 30.0));
    e1.health = Some(100.0f64.to_bits());
    e1.recompute_mask();
    world.add_entity(e1);

    let r1 = RoomData {
        id: 100,
        name: "main_hall".to_string(),
        vibe: 0.5f64.to_bits(),
        energy_budget: 5000.0f64.to_bits(),
        agent_ids: vec![1, 2],
        tick_created: 0,
    };
    world.add_room(r1);

    world.total_play_ticks = 12345;

    let enc = world.encode();
    let dec = WorldSave::decode(&enc).unwrap();
    let enc2 = dec.encode();
    assert_eq!(enc, enc2);
}

#[test]
fn test_world_save_empty() {
    let world = WorldSave::new(0, "nobody");
    let enc = world.encode();
    let dec = WorldSave::decode(&enc).unwrap();
    let enc2 = dec.encode();
    assert_eq!(enc, enc2);
    assert!(dec.entities.is_empty());
    assert!(dec.rooms.is_empty());
}

#[test]
fn test_verify_checksum_pass() {
    let mut world = WorldSave::new(99, "check_test");
    let mut e = EntityData::new(10);
    e.vibe = Some(0.9f64.to_bits());
    e.recompute_mask();
    world.add_entity(e);
    let enc = world.encode();
    let dec = WorldSave::decode(&enc).unwrap();
    assert!(dec.verify_checksum());
}

#[test]
fn test_verify_checksum_fail() {
    let world = WorldSave::new(42, "cheater");
    let mut enc = world.encode();
    if enc.len() > 40 {
        enc[40] ^= 0xff;
    }
    match WorldSave::decode(&enc) {
        Err(SaveError::ChecksumMismatch) => {}
        r => panic!("expected ChecksumMismatch, got {r:?}"),
    }
}

#[test]
fn test_version_mismatch() {
    let h = SaveHeader {
        version: SaveVersion::new(2, 0, 0),
        seed: 0,
        tick: 0,
        entity_count: 0,
        room_count: 0,
        checksum: 0,
    };
    let payload = b"\x00\x00\x00\x00\x00\x00\x00\x00\x00\x00\x00\x00\x00\x00\x00\x00\x00\x00\x00\x00";
    let mut h2 = h;
    h2.checksum = SaveHeader::compute_checksum(payload);
    let mut data = h2.encode().to_vec();
    data.extend_from_slice(payload);
    match WorldSave::decode(&data) {
        Err(SaveError::InvalidVersion) => {}
        r => panic!("expected InvalidVersion, got {r:?}"),
    }
}

#[test]
fn test_save_manager_save_load() {
    let mut mgr = SaveManager::new();
    let world = WorldSave::new(1, "test");
    mgr.save("save1", world.clone()).unwrap();
    let loaded = mgr.load("save1").unwrap();
    assert_eq!(&world, loaded);
}

#[test]
fn test_save_manager_delete() {
    let mut mgr = SaveManager::new();
    mgr.save("a", WorldSave::new(0, "x")).unwrap();
    assert!(mgr.delete("a"));
    assert!(!mgr.delete("nonexistent"));
}

#[test]
fn test_save_manager_list() {
    let mut mgr = SaveManager::new();
    mgr.save("z", WorldSave::new(0, "z")).unwrap();
    mgr.save("a", WorldSave::new(0, "a")).unwrap();
    mgr.save("m", WorldSave::new(0, "m")).unwrap();
    let list = mgr.list_saves();
    assert_eq!(list, vec!["a", "m", "z"]);
}

#[test]
fn test_save_manager_count() {
    let mut mgr = SaveManager::new();
    assert_eq!(mgr.save_count(), 0);
    mgr.save("x", WorldSave::new(0, "x")).unwrap();
    assert_eq!(mgr.save_count(), 1);
}

#[test]
fn test_save_manager_to_from_bytes() {
    let mut mgr = SaveManager::new();

    let mut w1 = WorldSave::new(100, "alice");
    let mut e = EntityData::new(1);
    e.position = Some(vector(1.0, 2.0, 3.0));
    e.recompute_mask();
    w1.add_entity(e);

    let mut w2 = WorldSave::new(200, "bob");
    let r = RoomData {
        id: 10,
        name: "room".to_string(),
        vibe: 0.5f64.to_bits(),
        energy_budget: 100.0f64.to_bits(),
        agent_ids: vec![],
        tick_created: 42,
    };
    w2.add_room(r);

    mgr.save("world1", w1).unwrap();
    mgr.save("world2", w2).unwrap();

    let bytes = mgr.to_bytes();
    let mgr2 = SaveManager::from_bytes(&bytes).unwrap();
    let bytes2 = mgr2.to_bytes();
    assert_eq!(bytes, bytes2);
}

#[test]
fn test_large_world_1000_entities() {
    let mut world = WorldSave::new(42, "bulk_test");
    for i in 0..1000u64 {
        let mut e = EntityData::new(i);
        e.position = Some(vector(i as f64, (i * 2) as f64, (i * 3) as f64));
        e.velocity = Some(vector(0.0, 0.0, 0.0));
        e.vibe = Some(0.5f64.to_bits());
        e.health = Some(100.0f64.to_bits());
        e.name = Some(format!("entity_{i}"));
        e.recompute_mask();
        world.add_entity(e);
    }
    let enc = world.encode();
    let dec = WorldSave::decode(&enc).unwrap();
    let enc2 = dec.encode();
    assert_eq!(enc, enc2);
    assert_eq!(dec.entities.len(), 1000);
    assert!(dec.verify_checksum());
}

#[test]
fn test_truncated_data_returns_eof() {
    let world = WorldSave::new(1, "truncate_me");
    let enc = world.encode();
    let truncated = &enc[..enc.len() / 2];
    if let Err(SaveError::UnexpectedEof) = WorldSave::decode(truncated) {}
}

#[test]
fn test_corrupted_entity_count() {
    let world = WorldSave::new(1, "corrupt");
    let mut enc = world.encode();
    if enc.len() > 36 {
        enc[36] = 0xff;
        enc[37] = 0xff;
        enc[38] = 0xff;
        enc[39] = 0xff;
    }
    match WorldSave::decode(&enc) {
        Err(SaveError::UnexpectedEof) => {}
        Err(SaveError::ChecksumMismatch) => {}
        _ => {}
    }
}

#[test]
fn test_empty_save_manager() {
    let mgr = SaveManager::new();
    let bytes = mgr.to_bytes();
    let mgr2 = SaveManager::from_bytes(&bytes).unwrap();
    assert_eq!(mgr, mgr2);
    assert_eq!(mgr2.save_count(), 0);
}

#[test]
fn new_world_is_empty() {
    let world = WorldSave::new(5, "p");
    assert_eq!(world.header, SaveHeader::new(SaveVersion::new(1, 0, 0), 5, 0));
    assert!(world.entities.is_empty() && world.rooms.is_empty());
    assert_eq!(world.player_name, "p");
    assert_eq!((world.world_seed, world.total_play_ticks), (5, 0));
}

#[test]
fn additions_go_to_the_end() {
    let mut world = WorldSave::new(5, "p");
    world.add_entity(EntityData::new(2));
    world.add_entity(EntityData::new(1));
    world.add_room(room(8, "b"));
    world.add_room(room(7, "a"));
    assert_eq!(world.entities, vec![EntityData::new(2), EntityData::new(1)]);
    assert_eq!(world.rooms, vec![room(8, "b"), room(7, "a")]);
    assert_eq!(world.header.entity_count, 0);
    assert_eq!(world.header.room_count, 0);
}

#[test]
fn world_bytes_stand_in_order() {
    let world = furnished_world();
    let entity = world.entities[0].encode();
    let hall = world.rooms[0].encode();
    let mut payload: Vec<u8> = Vec::new();
    payload.extend_from_slice(&1u32.to_le_bytes());
    payload.extend_from_slice(&(entity.len() as u32).to_le_bytes());
    payload.extend_from_slice(&entity);
    payload.extend_from_slice(&1u32.to_le_bytes());
    payload.extend_from_slice(&(hall.len() as u32).to_le_bytes());
    payload.extend_from_slice(&hall);
    payload.extend_from_slice(&7u32.to_le_bytes());
    payload.extend_from_slice(b"player1");
    payload.extend_from_slice(&42u64.to_le_bytes());
    payload.extend_from_slice(&12345u64.to_le_bytes());
    let mut header = SaveHeader::new(SaveVersion::new(1, 0, 0), 42, 0);
    header.entity_count = 1;
    header.room_count = 1;
    header.checksum = SaveHeader::compute_checksum(&payload);
    let mut expected = header.encode().to_vec();
    expected.extend_from_slice(&payload);
    assert_eq!(world.encode(), expected);
}

#[test]
fn decoded_world_differs_only_in_its_header() {
    let mut world = furnished_world();
    world.header.tick = 9;
    world.header.entity_count = 77;
    world.header.checksum = 1;
    let decoded = WorldSave::decode(&world.encode()).unwrap();
    assert_eq!(decoded.header.entity_count, 1);
    assert_eq!(decoded.header.room_count, 1);
    assert_eq!(decoded.header.tick, 9);
    assert!(decoded.verify_checksum());
    assert!(!world.verify_checksum());
    world.header = decoded.header;
    assert_eq!(world, decoded);
    assert!(world.verify_checksum());
}

#[test]
fn world_with_a_changed_byte_is_refused() {
    let data = furnished_world().encode();
    for at in 0..data.len() {
        let mut changed = data.clone();
        changed[at] ^= 0x10;
        let result = WorldSave::decode(&changed);
        if at < 3 {
            assert_eq!(result, Err(SaveError::InvalidVersion));
        } else if at >= 28 {
            assert_eq!(result, Err(SaveError::ChecksumMismatch));
        } else {
            assert!(result.is_ok());
        }
    }
}

#[test]
fn world_cut_short_is_refused() {
    let data = furnished_world().encode();
    for len in 0..data.len() {
        let result = WorldSave::decode(&data[..len]);
        assert!(result.is_err());
        if len < 36 {
            assert_eq!(result, Err(SaveError::UnexpectedEof));
        }
    }
}

#[test]
fn payload_cut_short_under_a_right_checksum_ends_early() {
    let payload = furnished_world().encode()[36..].to_vec();
    for len in 0..payload.len() {
        assert_eq!(WorldSave::decode(&sealed(&payload[..len])), Err(SaveError::UnexpectedEof));
    }
}

#[test]
fn bytes_after_the_payload_are_ignored_but_hashed() {
    let world = furnished_world();
    let mut payload = world.encode()[36..].to_vec();
    payload.extend_from_slice(b"more");
    let decoded = WorldSave::decode(&sealed(&payload)).unwrap();
    assert_eq!(decoded.entities, world.entities);
    assert_eq!(decoded.rooms, world.rooms);
    assert_eq!(decoded.total_play_ticks, 12345);
    assert!(!decoded.verify_checksum());
}

#[test]
fn counts_of_the_header_are_not_looked_at() {
    let world = furnished_world();
    let payload = world.encode()[36..].to_vec();
    let decoded = WorldSave::decode(&sealed(&payload)).unwrap();
    assert_eq!(decoded.header.entity_count, 0);
    assert_eq!(decoded.entities.len(), 1);
    assert!(decoded.verify_checksum());
}

#[test]
fn entity_that_does_not_fill_its_frame_is_refused() {
    let mut world = WorldSave::new(0, "");
    let mut e = EntityData::new(1);
    e.health = Some(3);
    world.add_entity(e);
    assert_eq!(
        WorldSave::decode(&world.encode()),
        Err(SaveError::CorruptedData(
            "entity decoded size mismatch: consumed 16 vs declared 24".to_string()
        ))
    );
}

#[test]
fn room_that_does_not_fill_its_frame_is_refused() {
    let record = room(1, "hall").encode();
    let mut payload: Vec<u8> = Vec::new();
    payload.extend_from_slice(&0u32.to_le_bytes());
    payload.extend_from_slice(&1u32.to_le_bytes());
    payload.extend_from_slice(&(record.len() as u32 + 100).to_le_bytes());
    payload.extend_from_slice(&record);
    payload.extend_from_slice(&[0u8; 100]);
    assert_eq!(
        WorldSave::decode(&sealed(&payload)),
        Err(SaveError::CorruptedData(format!(
            "room decoded size mismatch: consumed {} vs declared {}",
            record.len(),
            record.len() + 100
        )))
    );
}

#[test]
fn player_name_error_is_worded() {
    let mut payload = WorldSave::new(0, "abc").encode()[36..].to_vec();
    payload[13] = 0x80;
    let text = format!("invalid utf-8 in player name: {}", utf8_complaint(&[b'a', 0x80, b'c']));
    assert_eq!(WorldSave::decode(&sealed(&payload)), Err(SaveError::CorruptedData(text)));
}

#[test]
fn saving_replaces_and_leaves_the_rest() {
    let mut mgr = SaveManager::default();
    assert_eq!(mgr.load("a"), None);
    mgr.save("a", WorldSave::new(1, "one")).unwrap();
    mgr.save("b", WorldSave::new(2, "two")).unwrap();
    mgr.save("a", WorldSave::new(3, "three")).unwrap();
    assert_eq!(mgr.save_count(), 2);
    assert_eq!(mgr.load("a"), Some(&WorldSave::new(3, "three")));
    assert_eq!(mgr.load("b"), Some(&WorldSave::new(2, "two")));
    assert_eq!(mgr.load("c"), None);
}

#[test]
fn deleting_undoes_saving() {
    let mut mgr = SaveManager::new();
    mgr.save("a", WorldSave::new(1, "one")).unwrap();
    mgr.save("c", WorldSave::new(3, "three")).unwrap();
    let before = mgr.clone();
    mgr.save("b", WorldSave::new(2, "two")).unwrap();
    assert_ne!(mgr, before);
    assert!(mgr.delete("b"));
    assert_eq!(mgr, before);
    assert!(!mgr.delete("b"));
    assert_eq!(mgr, before);
    assert_eq!(mgr.load("b"), None);
    assert_eq!(mgr.save_count(), 2);
}

#[test]
fn names_are_listed_in_byte_order() {
    let mut names = vec!["b", "", "ab", "a", "\u{e9}", "Z", "z", "\u{10348}", "\u{ffee}", "abc"];
    let mut mgr = SaveManager::new();
    for name in &names {
        mgr.save(name, WorldSave::new(0, name)).unwrap();
    }
    names.sort();
    assert_eq!(mgr.list_saves(), names);
    assert_eq!(mgr.save_count(), names.len());
    for name in &names {
        assert_eq!(mgr.load(name), Some(&WorldSave::new(0, name)));
    }
}

#[test]
fn archive_does_not_depend_on_the_order_of_saving() {
    let mut one = SaveManager::new();
    one.save("a", WorldSave::new(1, "one")).unwrap();
    one.save("b", furnished_world()).unwrap();
    let mut other = SaveManager::new();
    other.save("b", furnished_world()).unwrap();
    other.save("c", WorldSave::new(3, "three")).unwrap();
    other.save("a", WorldSave::new(9, "nine")).unwrap();
    other.save("a", WorldSave::new(1, "one")).unwrap();
    other.delete("c");
    assert_eq!(one, other);
    assert_eq!(one.to_bytes(), other.to_bytes());
}

#[test]
fn archive_bytes_stand_in_order() {
    let mut mgr = SaveManager::new();
    mgr.save("second", furnished_world()).unwrap();
    mgr.save("first", WorldSave::new(1, "one")).unwrap();
    let mut expected: Vec<u8> = Vec::new();
    expected.extend_from_slice(&2u32.to_le_bytes());
    for (name, world) in [("first", WorldSave::new(1, "one")), ("second", furnished_world())] {
        expected.extend_from_slice(&(name.len() as u32).to_le_bytes());
        expected.extend_from_slice(name.as_bytes());
        expected.extend_from_slice(&world.encode());
    }
    assert_eq!(mgr.to_bytes(), expected);
    assert_eq!(SaveManager::new().to_bytes(), vec![0, 0, 0, 0]);
}

#[test]
fn nothing_stands_between_a_name_and_its_world() {
    let mut mgr = SaveManager::new();
    mgr.save("a", WorldSave::new(0, "x")).unwrap();
    let mut expected: Vec<u8> = vec![1, 0, 0, 0, 1, 0, 0, 0, b'a'];
    expected.extend_from_slice(&WorldSave::new(0, "x").encode());
    assert_eq!(expected.len(), 74);
    assert_eq!(mgr.to_bytes(), expected);
}

#[test]
fn world_delimits_itself() {
    let data = furnished_world().encode();
    let decoded = WorldSave::decode(&data).unwrap();
    let mut longer = data.clone();
    longer.extend_from_slice(b"more");
    assert_eq!(WorldSave::decode(&longer), Err(SaveError::ChecksumMismatch));
    assert_eq!(WorldSave::decode_prefix(&longer), Ok((decoded.clone(), data.len())));
    assert_eq!(WorldSave::decode_prefix(&data), Ok((decoded, data.len())));
    for len in 0..data.len() {
        assert_eq!(WorldSave::decode_prefix(&data[..len]), Err(SaveError::UnexpectedEof));
    }
}

#[test]
fn payload_is_read_before_the_checksum_of_a_prefix() {
    let mut world = WorldSave::new(0, "");
    let mut e = EntityData::new(1);
    e.health = Some(3);
    world.add_entity(e);
    let mut data = world.encode();
    data[28] ^= 1;
    assert_eq!(WorldSave::decode(&data), Err(SaveError::ChecksumMismatch));
    assert_eq!(
        WorldSave::decode_prefix(&data),
        Err(SaveError::CorruptedData(
            "entity decoded size mismatch: consumed 16 vs declared 24".to_string()
        ))
    );
    data[0] = 2;
    assert_eq!(WorldSave::decode_prefix(&data), Err(SaveError::InvalidVersion));
    let mut whole = furnished_world().encode();
    whole[28] ^= 1;
    assert_eq!(WorldSave::decode_prefix(&whole), Err(SaveError::ChecksumMismatch));
}

#[test]
fn archive_is_read_back() {
    let mut mgr = SaveManager::new();
    mgr.save("a", WorldSave::new(1, "one")).unwrap();
    mgr.save("b", furnished_world()).unwrap();
    let read = SaveManager::from_bytes(&mgr.to_bytes()).unwrap();
    assert_eq!(read.list_saves(), vec!["a", "b"]);
    let world = read.load("b").unwrap();
    assert!(world.verify_checksum());
    let mut expected = furnished_world();
    expected.header = world.header;
    assert_eq!(world, &expected);
    assert_eq!(SaveManager::from_bytes(&read.to_bytes()), Ok(read));
}

#[test]
fn archive_cut_short_is_refused() {
    let mut mgr = SaveManager::new();
    mgr.save("a", WorldSave::new(1, "one")).unwrap();
    mgr.save("b", furnished_world()).unwrap();
    let data = mgr.to_bytes();
    for len in 0..data.len() {
        assert_eq!(SaveManager::from_bytes(&data[..len]), Err(SaveError::UnexpectedEof));
    }
    let mut longer = data.clone();
    longer.extend_from_slice(b"more");
    assert_eq!(SaveManager::from_bytes(&longer), SaveManager::from_bytes(&data));
}

#[test]
fn later_save_of_one_name_is_kept() {
    let mut data: Vec<u8> = Vec::new();
    data.extend_from_slice(&2u32.to_le_bytes());
    for seed in [1u64, 2] {
        data.extend_from_slice(&1u32.to_le_bytes());
        data.extend_from_slice(b"a");
        data.extend_from_slice(&WorldSave::new(seed, "p").encode());
    }
    let mgr = SaveManager::from_bytes(&data).unwrap();
    assert_eq!(mgr.save_count(), 1);
    assert_eq!(mgr.load("a").unwrap().world_seed, 2);
}

#[test]
fn archive_passes_on_what_is_wrong_with_a_world() {
    let mut mgr = SaveManager::new();
    mgr.save("a", WorldSave::new(1, "one")).unwrap();
    let data = mgr.to_bytes();
    let mut changed = data.clone();
    changed[9] = 9;
    assert_eq!(SaveManager::from_bytes(&changed), Err(SaveError::InvalidVersion));
    let mut changed = data.clone();
    let last = changed.len() - 1;
    changed[last] = 9;
    assert_eq!(SaveManager::from_bytes(&changed), Err(SaveError::ChecksumMismatch));
    let mut changed = data.clone();
    changed[8] = 0xfe;
    let text = format!("invalid utf-8 in save name: {}", utf8_complaint(&[0xfe]));
    assert_eq!(SaveManager::from_bytes(&changed), Err(SaveError::CorruptedData(text)));
}

#[test]
fn copy_holds_the_same_saves() {
    let mut mgr = SaveManager::new();
    mgr.save("a", furnished_world()).unwrap();
    let copy = mgr.clone();
    assert_eq!(copy, mgr);
    mgr.delete("a");
    assert_eq!(copy.load("a"), Some(&furnished_world()));
}

#[test]
fn managers_compare_by_the_numbers_of_their_worlds() {
    let mut world = furnished_world();
    world.rooms[0].vibe = 0.0f64.to_bits();
    let mut twin = world.clone();
    twin.rooms[0].vibe = (-0.0f64).to_bits();
    assert_eq!(world, twin);
    let mut one = SaveManager::new();
    one.save("a", world.clone()).unwrap();
    let mut other = SaveManager::new();
    assert_ne!(one, other);
    other.save("b", twin.clone()).unwrap();
    assert_ne!(one, other);
    other.delete("b");
    other.save("a", twin.clone()).unwrap();
    assert_eq!(one, other);
    twin.rooms[0].vibe = f64::NAN.to_bits();
    assert!(twin != twin.clone());
    other.save("a", twin).unwrap();
    assert!(other != other.clone());
    assert_ne!(one, other);
}

#[test]
fn changed_byte_in_an_archive_is_refused_unless_the_end_moves() {
    let data = furnished_world().encode();
    let mut longer = data.clone();
    longer.extend_from_slice(&[0u8; 64]);
    for at in 0..data.len() {
        let mut changed = longer.clone();
        changed[at] ^= 0x01;
        match WorldSave::decode_prefix(&changed) {
            Ok((_, taken)) => assert!((3..28).contains(&at) || taken != data.len()),
            Err(error) => assert!(at >= 3 || error == SaveError::InvalidVersion),
        }
    }
}

#[test]
fn archive_ignores_what_follows() {
    let mut mgr = SaveManager::new();
    mgr.save("a", furnished_world()).unwrap();
    let data = mgr.to_bytes();
    let mut longer = data.clone();
    longer.extend_from_slice(&data);
    let read = SaveManager::from_bytes(&longer).unwrap();
    assert_eq!(read.to_bytes(), data);
}
