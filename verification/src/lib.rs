//! A rotor cipher machine with its stepping mechanism, reflector and
//! plugboard, and two simple alphabet ciphers beside it. Every function is
//! verified against its contract, but for the calls into other crates and
//! into the standard library whose contracts are taken on trust: they
//! stand in `random`, `json` and `text`.

pub mod error;
pub mod text;
pub mod number;
pub mod alphabet;
pub mod cipher;
pub mod caesar;
pub mod polyalphabetic;
pub mod symbol_map;
pub mod random;
pub mod json;
pub mod rotor;
pub mod rotor_bank;
pub mod reflector;
pub mod plugboard;
pub mod enigma;
pub mod setup;
pub mod laws;
