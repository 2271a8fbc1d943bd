//! Sorting of Portage `package.use` entries.
//!
//! A line of a `package.use` file names a package and the USE flags that are
//! switched on or off for it. This library reads such lines into package
//! atoms, groups and orders them, and says which files to write for them.
//! It touches no file itself: the caller reads the USE files and carries out
//! what the library says.
//!
//! Every function is verified against the contract written above its body,
//! but for the two in `portage::version` that call the `regex` crate: their
//! contracts are taken on trust.
pub mod args;
pub mod commands;
pub mod portage;
pub mod sequences;
