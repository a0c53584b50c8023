//! Shielded Gradido transfers after the Orchard model, with decay inside the proof: keys,
//! addresses, notes and their encryption, signatures, the commitment tree, bundles, the wire
//! format, the signing device, and what the circuits prove.

pub mod address;
pub mod bundle;
pub mod bytes;
pub mod certificate;
pub mod cipher;
pub mod circuit;
pub mod decay;
pub mod ffi;
pub mod hash;
pub mod keys;
pub mod memo;
pub mod note;
pub mod note_encryption;
pub mod pallas;
pub mod primality;
pub mod protobuf;
pub mod prover;
pub mod signature;
pub mod signer;
pub mod tree;
pub mod wasm;
pub mod wire;
