//! Decoder for a packed, in-memory JSON-like value format.
//!
//! A packed value is a 16-byte tagged union whose pointer fields carry
//! metadata in their upper 16 bits. This crate reads such values out of a
//! [`memory::Memory`] image and rebuilds them as a [`value::Value`] tree.
//!
//! * [`address`]: pointer fields and the one place where they are resolved.
//! * [`bw`]: the byte layout of a packed value.
//! * [`memory`]: the memory image that decoding reads from.
//! * [`value`]: the decoded tree and its model.
//! * [`text`]: text from raw bytes.
//! * [`decode`]: what a packed value stands for, and the decoder.
//! * [`theorems`]: what holds of every decoding.
//! * [`encode`]: the inverse of decoding, and the proof that it is one.
//! * [`snapshot`]: decoding against an image that is filled in on demand.
//! * [`selected_race`]: the race-change request carried by a lobby message.

pub mod address;
pub mod bw;
pub mod decode;
pub mod encode;
pub mod memory;
pub mod selected_race;
pub mod snapshot;
pub mod text;
pub mod theorems;
pub mod value;
