//! Decoding against a memory image that is filled in on demand.
//!
//! The caller starts with an empty image and calls `advance`. While the
//! answer is `Fetch`, the caller maps the bytes asked for and calls again.

use crate::decode::{decode_value, decode_value_spec, DecodeError, MAX_DEPTH};
use crate::memory::{read, Memory};
use crate::theorems::lemma_unreadable_is_unread;
use crate::value::Value;
use vstd::prelude::*;

verus! {

/// What decoding has come to with the memory mapped so far.
#[derive(Debug, PartialEq, Eq)]
pub enum Step {
    /// The value is decoded.
    Done(Value),
    /// The `len` bytes at `addr` are needed and not all mapped.
    Fetch { addr: u64, len: u64 },
    /// The value does not decode, whatever else is mapped.
    Failed(DecodeError),
}

/// Whether the `len` bytes at `addr` lie within the 64-bit address space.
pub open spec fn in_address_space(addr: u64, len: u64) -> bool {
    addr + len <= u64::MAX + 1
}

/// Decodes the packed value at `root` as far as the mapped memory allows.
///
/// A range that is asked for is not wholly mapped yet, and mapping that
/// many bytes there makes it readable, so no range is asked for twice.
pub fn advance(mem: &Memory, root: u64) -> (s: Step)
    ensures
        match decode_value_spec(mem@, root as int, MAX_DEPTH as nat) {
            Ok(tree) => s matches Step::Done(v) && v@ == tree,
            Err(DecodeError::Unreadable { addr, len }) => if in_address_space(addr, len) {
                s == (Step::Fetch { addr, len })
            } else {
                s == Step::Failed(DecodeError::Unreadable { addr, len })
            },
            Err(e) => s == Step::Failed(e),
        },
        s matches Step::Fetch { addr, len } ==> read(mem@, addr as int, len as nat) is None,
{
    proof {
        lemma_unreadable_is_unread(mem@, root as int, MAX_DEPTH as nat);
    }
    match decode_value(mem, root, MAX_DEPTH) {
        Ok(v) => Step::Done(v),
        Err(DecodeError::Unreadable { addr, len }) => {
            if len <= u64::MAX - addr || (len > 0 && len - 1 <= u64::MAX - addr) {
                Step::Fetch { addr, len }
            } else {
                Step::Failed(DecodeError::Unreadable { addr, len })
            }
        },
        Err(e) => Step::Failed(e),
    }
}

} // verus!
