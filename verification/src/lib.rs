//! # NEXORA
//!
//! Voxel storage, chunk lifecycle, world identity and deterministic terrain
//! generation for the world runtime; saves that store identifiers rather
//! than runtime ids, in a container of named sections or spread over region
//! files; and, for the texture forge, the byte-level encoders (deflate, zlib,
//! PNG framing, checksums), the command line, where files go, and the parts
//! of the forge that decide rather than draw.
//!
//! Every function here carries a contract that Verus proves: what a read
//! gives back of a write, what a compaction keeps, what a decoder makes of
//! its encoder's bytes, and what a loaded world holds of the world that was
//! saved.

pub mod spatial;
pub mod error;
pub mod time;
pub mod voxel;
pub mod chunk;
pub mod ident;
pub mod hashing;
pub mod world;
pub mod deflate;
pub mod texture;
pub mod png;
pub mod color;
pub mod noise;
pub mod cli;
pub mod forge;
pub mod batch;
pub mod preview;
pub mod procedural;
pub mod layout;
pub mod validator;
pub mod recipe_book;
pub mod codec;
pub mod container;
pub mod persist;
pub mod recovery;
pub mod region;
