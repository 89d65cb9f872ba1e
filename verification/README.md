# world_save

Binary save files for a game world, with proofs in Verus.

A world is a header of 36 bytes (version, seed, tick, counts and an FNV-1a checksum) and a payload:
a list of entities, a list of rooms, the player's name and two statistics. Records stand in frames
that start with their length; all numbers are little-endian. An archive is a count, then for each
save its name and its world, which is read to its own end.

- `src/bytes.rs`: little-endian numbers, and stretches of bytes that follow one another
- `src/checksum.rs`: the FNV-1a hash
- `src/frame.rs`: stretches of bytes behind their length
- `src/double.rs`: when two real numbers are equal
- `src/text.rs`: strings
- `src/record.rs`: lists of records
- `src/header.rs`, `src/entity.rs`, `src/room.rs`, `src/world.rs`: the parts of a save file
- `src/order.rs`, `src/manager.rs`: named save slots and their archive
- `src/error.rs`: why a file is refused
- `app/`: the same types with floating-point numbers and the standard error traits

Each format is stated twice over sequences of bytes: what a value is written as (`*_bytes`), and
what is read from arbitrary data (`parse_*`). The encoders and decoders are proved equal to these,
and the public `law_*` functions relate the two: what is written is read back, what was read is
written as it was, and a cut file is refused. A world in which one byte of the version, the checksum
or the payload was changed is refused. In an archive, where a world is read to its own end, that
holds of a payload unless the change moves this end.

Real numbers are held as the bits of their IEEE 754 doubles, and compare as those do. The one
thing taken on trust is `String::from_utf8`.
