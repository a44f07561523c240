//! In-memory poll registry for a chat room bot.
//!
//! The core is a slot allocator (`UniqueIdList`) that hands out the lowest
//! available numeric id and keeps a tight upper bound on the ids in use, and a
//! per-room registry of polls built on top of it, with the four poll commands
//! (new, vote, close, list) as verified functions from registry state and
//! command text to the response text shown in the room.

pub mod text;
pub mod poll;
pub mod registry;
pub mod roll;
pub mod unique_id_list;
