//! Client-side engine of the Valve Source / GoldSrc server query protocol:
//! split-packet reassembly, payload decompression, the challenge handshake
//! and the decoders of the info, players and rules responses.
pub mod types;
pub mod cursor;
pub mod compress;
pub mod packet;
pub mod decode;
pub mod info;
pub mod truncation;
pub mod link;
pub mod client;
