//! Conversion of GTA V mod archives into FiveM resources.

pub mod text;
pub mod path;
pub mod sorted;
pub mod manifest;
pub mod rpf;
pub mod web;
pub mod convert;
pub mod audio;
pub mod archive;
