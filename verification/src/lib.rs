//! Binary save files for a game world: entities, rooms and named save slots.
//!
//! A save file is a fixed-size header, which carries a version and a checksum, and a payload of
//! length-framed records. An archive holds any number of save files under their names. All numbers
//! are little-endian, and all strings are UTF-8 behind their length.

pub mod bytes;
pub mod checksum;
pub mod double;
pub mod entity;
pub mod error;
pub mod frame;
pub mod header;
pub mod manager;
pub mod order;
pub mod record;
pub mod room;
pub mod text;
pub mod world;

pub use crate::checksum::fnv1a_64;
pub use crate::entity::EntityData;
pub use crate::error::SaveError;
pub use crate::header::{SaveHeader, SaveVersion};
pub use crate::manager::SaveManager;
pub use crate::room::RoomData;
pub use crate::world::WorldSave;
