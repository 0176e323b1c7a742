//! Locating addresses in a program image by byte signatures: a signature
//! compiler, a wildcard-aware scan engine over borrowed memory, and
//! first-match and uniqueness-checked address resolution.

pub mod memory_utils;
pub mod pattern;
pub mod resolver;
pub mod scan;

pub use memory_utils::{space_hex_to_bytes, MemoryError, MemoryUtils};
pub use pattern::{CompileError, Matcher, Pattern};
pub use resolver::{AddressProvider, AddressRecord, Error};
