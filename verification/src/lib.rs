//! Reads the resource files of a SCUMM game and plans what is to be written when they are unpacked.

pub mod bytes;
pub mod dump;
pub mod dump_laws;
pub mod error;
pub mod extract;
pub mod files;
pub mod index;
pub mod index_laws;
pub mod laws;
pub mod layout;
pub mod lookup;
pub mod names;
pub mod numbering;
pub mod output;
pub mod publishing;
pub mod rebuild;
pub mod steps;
pub mod text;
pub mod walk;
pub mod writing;
