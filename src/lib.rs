//! Time-ordered 64-bit identifiers and their base-62 token form.
pub mod base62;
pub mod id_generator;
pub mod packet;
