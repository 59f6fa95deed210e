//! Merging modular shell-alias files into one managed block of a shell
//! startup file.
//!
//! The library holds the rules: how the managed block is found in and cut out
//! of a text, how an alias line is read, how aliases from several files and
//! from the block already on disk are reconciled, and what the new block looks
//! like. Reading files, asking the user and writing the result are left to the
//! caller, who is told at each step what is needed next.
//!
//! - `text`: searching, trimming, splitting and ordering of character
//!   sequences.
//! - `section`: the span between two markers, and its removal.
//! - `alias`, `alias_map`: one alias, and a set of them keyed by name.
//! - `conflict`: what happens when a name meets a second value.
//! - `collector`: taking the alias files in, with their inclusions.
//! - `merge`: merging what was collected into what is on disk.
//! - `block`: reading and writing the managed block.
//! - `plan`: the options of a run and the order of the files.
//! - `prompt`, `paint`: what is shown to the user.
//! - `round_trip`: why a second run leaves the file as the first wrote it.

use vstd::prelude::*;

pub mod alias;
pub mod alias_map;
pub mod block;
pub mod collector;
pub mod conflict;
pub mod merge;
pub mod paint;
pub mod plan;
pub mod prompt;
pub mod round_trip;
pub mod section;
pub mod text;

verus! {

} // verus!
