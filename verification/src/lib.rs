//! Retsend's verified core: peer-name and file-name hygiene, the path model the
//! transfer code works on, folder walks and the expansion of a send, the
//! outbound send, input mapping for keyboard and gamepad, and the file
//! browser's state machine.

pub mod text;
pub mod fspath;
pub mod files;
mod disk;
pub mod command;
pub mod keyboard;
pub mod gamepad;
pub mod protocol;
pub mod selection;
pub mod browser;
pub mod walk;
pub mod outbound;
pub mod expand;
