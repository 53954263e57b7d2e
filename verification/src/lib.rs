//! Course survival simulator, record keeping and ranking for an arcade
//! rhythm-game chat bot, together with the plain data types the bot relays.
//!
//! The core is the `maimai` course subsystem: a life-point survival
//! simulation over per-song judgment counts (`simulate`), a per-user,
//! per-level record store with overwrite-on-submit semantics (`store`),
//! and ranking and listing queries over that store.

pub mod arcana;
pub mod commands;
pub mod course;
pub mod keymap;
pub mod record;
pub mod simulate;
pub mod store;
pub mod submission;
