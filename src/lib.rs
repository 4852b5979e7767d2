//! A framed, optionally compressed request/response protocol that hands
//! physics-world simulation to a separate server process, and the server's
//! persistent world bookkeeping.
pub mod frame;
pub mod zlib;
pub mod compressor;
pub mod decompressor;
pub mod physics;
pub mod world;
pub mod accounting;
pub mod settings;
pub mod telemetry;
pub mod input;
pub mod client;
