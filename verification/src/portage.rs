//! Portage's configuration text: lines, tokens and package atoms.
pub mod order;
pub mod package;
pub mod roundtrip;
pub mod syntax;
pub mod version;
