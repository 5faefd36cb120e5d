//! Decoding packed values out of a memory image.
//!
//! `decode_value_spec` says what a packed value at an address stands for;
//! `decode_value` computes it.

use crate::address::ADDRESS_SPACE;
use crate::bw::{
    count_of, inline_bytes_of, inline_of, integer_of, tag_of, target_of, JsonValue, TAG_ARRAY,
    TAG_FALSE, TAG_NUMBER, TAG_OBJECT, TAG_STRING, TAG_TRUE, VALUE_SIZE,
};
use crate::memory::{read, Memory};
use crate::text::{from_utf8_lossy, text_of};
use crate::theorems::lemma_decoded_wf;
use crate::value::{
    insert_member, items_view, lemma_items_view_push, members_view, put, Member, Tree, Value,
};
use vstd::prelude::*;
use vstd::slice::slice_subrange;

verus! {

/// Why a packed value could not be decoded.
#[derive(Clone, Copy, Debug, PartialEq, Eq)]
pub enum DecodeError {
    /// A packed value carries a tag other than 1 to 6.
    UnknownTag,
    /// Not all of the `len` bytes at `addr` are mapped.
    Unreadable { addr: u64, len: u64 },
    /// Containers are nested deeper than the limit allows.
    TooDeep,
}

/// Number of containers that may be nested in one another.
pub const MAX_DEPTH: usize = 256;

/// The key that stands in for an object key that is not a string.
pub open spec fn placeholder_key() -> Seq<char> {
    seq!['?', '?']
}

/// What the string variant `b` stands for: the text of its inline bytes, or
/// of the bytes its pointer refers to.
pub open spec fn decode_string_spec(mem: Map<int, u8>, b: Seq<u8>) -> Result<Tree, DecodeError> {
    if inline_of(b) {
        Ok(Tree::String(text_of(inline_bytes_of(b))))
    } else {
        match read(mem, target_of(b), count_of(b) as nat) {
            Some(bytes) => Ok(Tree::String(text_of(bytes))),
            None => Err(
                DecodeError::Unreadable { addr: target_of(b) as u64, len: count_of(b) as u64 },
            ),
        }
    }
}

/// The key that a decoded key slot contributes. A string is its own key.
/// Any other value, and a slot with an unknown tag in it, gives the
/// placeholder. Unreadable memory and excessive depth are passed on.
pub open spec fn key_of(decoded: Result<Tree, DecodeError>) -> Result<Seq<char>, DecodeError> {
    match decoded {
        Ok(Tree::String(s)) => Ok(s),
        Ok(_) => Ok(placeholder_key()),
        Err(DecodeError::UnknownTag) => Ok(placeholder_key()),
        Err(e) => Err(e),
    }
}

/// What the packed value at `addr` stands for, with at most `depth`
/// containers nested below it.
pub open spec fn decode_value_spec(mem: Map<int, u8>, addr: int, depth: nat) -> Result<
    Tree,
    DecodeError,
>
    decreases depth, 0nat,
{
    match read(mem, addr, 16) {
        None => Err(DecodeError::Unreadable { addr: addr as u64, len: 16 }),
        Some(b) => {
            let tag = tag_of(b);
            if tag == 1 {
                Ok(Tree::Boolean(true))
            } else if tag == 2 {
                Ok(Tree::Boolean(false))
            } else if tag == 3 {
                if depth == 0 {
                    Err(DecodeError::TooDeep)
                } else {
                    match decode_members_spec(
                        mem,
                        target_of(b),
                        count_of(b) as nat,
                        (depth - 1) as nat,
                    ) {
                        Ok(entries) => Ok(Tree::Object(entries)),
                        Err(e) => Err(e),
                    }
                }
            } else if tag == 4 {
                if depth == 0 {
                    Err(DecodeError::TooDeep)
                } else {
                    match decode_items_spec(
                        mem,
                        target_of(b),
                        count_of(b) as nat,
                        (depth - 1) as nat,
                    ) {
                        Ok(items) => Ok(Tree::Array(items)),
                        Err(e) => Err(e),
                    }
                }
            } else if tag == 5 {
                decode_string_spec(mem, b)
            } else if tag == 6 {
                Ok(Tree::Number(integer_of(b)))
            } else {
                Err(DecodeError::UnknownTag)
            }
        },
    }
}

/// What the first `count` packed values of the run at `base` stand for, in
/// order. The first slot that fails decides the error.
pub open spec fn decode_items_spec(mem: Map<int, u8>, base: int, count: nat, depth: nat) -> Result<
    Seq<Tree>,
    DecodeError,
>
    decreases depth, count + 1,
{
    if count == 0 {
        Ok(Seq::empty())
    } else {
        match decode_items_spec(mem, base, (count - 1) as nat, depth) {
            Err(e) => Err(e),
            Ok(items) => match decode_value_spec(mem, base + 16 * (count - 1), depth) {
                Err(e) => Err(e),
                Ok(item) => Ok(items.push(item)),
            },
        }
    }
}

/// The object that the first `count` key/value slot pairs of the run at
/// `base` build, inserted in order. The first slot that fails decides the
/// error, a key before its value.
pub open spec fn decode_members_spec(
    mem: Map<int, u8>,
    base: int,
    count: nat,
    depth: nat,
) -> Result<Seq<(Seq<char>, Tree)>, DecodeError>
    decreases depth, count + 1,
{
    if count == 0 {
        Ok(Seq::empty())
    } else {
        match decode_members_spec(mem, base, (count - 1) as nat, depth) {
            Err(e) => Err(e),
            Ok(entries) => match key_of(decode_value_spec(mem, base + 32 * (count - 1), depth)) {
                Err(e) => Err(e),
                Ok(key) => match decode_value_spec(mem, base + 32 * (count - 1) + 16, depth) {
                    Err(e) => Err(e),
                    Ok(value) => Ok(put(entries, key, value)),
                },
            },
        }
    }
}

/// The model of a decoding outcome.
pub open spec fn value_result(r: Result<Value, DecodeError>) -> Result<Tree, DecodeError> {
    match r {
        Ok(v) => Ok(v@),
        Err(e) => Err(e),
    }
}

/// A slot that fails makes every longer run of slots fail the same way.
pub proof fn lemma_items_error(mem: Map<int, u8>, base: int, failed: nat, count: nat, depth: nat)
    requires
        failed <= count,
        decode_items_spec(mem, base, failed, depth) is Err,
    ensures
        decode_items_spec(mem, base, count, depth) == decode_items_spec(mem, base, failed, depth),
    decreases count,
{
    if failed < count {
        lemma_items_error(mem, base, failed, (count - 1) as nat, depth);
    }
}

/// A slot pair that fails makes every longer run of slot pairs fail the
/// same way.
pub proof fn lemma_members_error(mem: Map<int, u8>, base: int, failed: nat, count: nat, depth: nat)
    requires
        failed <= count,
        decode_members_spec(mem, base, failed, depth) is Err,
    ensures
        decode_members_spec(mem, base, count, depth) == decode_members_spec(
            mem,
            base,
            failed,
            depth,
        ),
    decreases count,
{
    if failed < count {
        lemma_members_error(mem, base, failed, (count - 1) as nat, depth);
    }
}

/// The text `"??"` as an owned string.
fn placeholder() -> (s: String)
    ensures
        s@ == placeholder_key(),
{
    proof {
        reveal_strlit("??");
    }
    let s = "??".to_owned();
    assert(s@ =~= placeholder_key());
    s
}

/// Decodes a packed value that carries the string tag.
pub fn decode_string(mem: &Memory, packed: &JsonValue) -> (r: Result<Value, DecodeError>)
    ensures
        value_result(r) == decode_string_spec(mem@, packed@),
{
    let flags = packed.type_flags();
    if flags.is_inline() {
        let inline = packed.inline_string();
        let n: usize = inline.len();
        let bytes = slice_subrange(inline.data.as_slice(), 0, n);
        assert(bytes@ =~= inline_bytes_of(packed@));
        Ok(Value::String(from_utf8_lossy(bytes)))
    } else {
        let heap = packed.string();
        let at: u64 = heap.data.address();
        match mem.read_bytes(at, heap.len as usize) {
            Some(bytes) => Ok(Value::String(from_utf8_lossy(bytes.as_slice()))),
            None => Err(DecodeError::Unreadable { addr: at, len: heap.len as u64 }),
        }
    }
}

/// Decodes the packed value at `addr`, allowing `depth` containers to be
/// nested below it.
pub fn decode_value(mem: &Memory, addr: u64, depth: usize) -> (r: Result<Value, DecodeError>)
    ensures
        value_result(r) == decode_value_spec(mem@, addr as int, depth as nat),
        r matches Ok(v) ==> v@.wf(),
    decreases depth, 0nat,
{
    proof {
        lemma_decoded_wf(mem@, addr as int, depth as nat);
    }
    let bytes = match mem.read_bytes(addr, 16) {
        Some(bytes) => bytes,
        None => {
            return Err(DecodeError::Unreadable { addr, len: VALUE_SIZE });
        },
    };
    let packed = JsonValue::from_bytes(&bytes);
    assert(packed@ =~= bytes@);
    let tag: u16 = packed.type_flags().tag();
    if tag == TAG_TRUE {
        Ok(Value::Boolean(true))
    } else if tag == TAG_FALSE {
        Ok(Value::Boolean(false))
    } else if tag == TAG_OBJECT {
        if depth == 0 {
            return Err(DecodeError::TooDeep);
        }
        let header = packed.object();
        match decode_members(mem, header.kv_pairs.address(), header.entries, depth - 1) {
            Ok(members) => Ok(Value::Object(members)),
            Err(e) => Err(e),
        }
    } else if tag == TAG_ARRAY {
        if depth == 0 {
            return Err(DecodeError::TooDeep);
        }
        let header = packed.object();
        match decode_items(mem, header.kv_pairs.address(), header.entries, depth - 1) {
            Ok(items) => Ok(Value::Array(items)),
            Err(e) => Err(e),
        }
    } else if tag == TAG_STRING {
        decode_string(mem, &packed)
    } else if tag == TAG_NUMBER {
        Ok(Value::Number(packed.integer()))
    } else {
        Err(DecodeError::UnknownTag)
    }
}

/// Decodes the `count` packed values of the run at `base`, in order.
pub fn decode_items(mem: &Memory, base: u64, count: u32, depth: usize) -> (r: Result<
    Vec<Value>,
    DecodeError,
>)
    requires
        base < ADDRESS_SPACE,
    ensures
        match r {
            Ok(items) => decode_items_spec(mem@, base as int, count as nat, depth as nat) == Ok::<
                Seq<Tree>,
                DecodeError,
            >(items_view(items@)),
            Err(e) => decode_items_spec(mem@, base as int, count as nat, depth as nat) == Err::<
                Seq<Tree>,
                DecodeError,
            >(e),
        },
    decreases depth, 1nat,
{
    let mut items: Vec<Value> = Vec::new();
    let mut i: u32 = 0;
    while i < count
        invariant
            i <= count,
            base < ADDRESS_SPACE,
            decode_items_spec(mem@, base as int, i as nat, depth as nat) == Ok::<
                Seq<Tree>,
                DecodeError,
            >(items_view(items@)),
        decreases count - i,
    {
        let at: u64 = base + 16 * (i as u64);
        match decode_value(mem, at, depth) {
            Ok(item) => {
                proof {
                    lemma_items_view_push(items@, item);
                }
                items.push(item);
            },
            Err(e) => {
                proof {
                    lemma_items_error(
                        mem@,
                        base as int,
                        (i + 1) as nat,
                        count as nat,
                        depth as nat,
                    );
                }
                return Err(e);
            },
        }
        i = i + 1;
    }
    Ok(items)
}

/// Decodes the `count` key/value slot pairs of the run at `base` and builds
/// the object's members from them, in order.
pub fn decode_members(mem: &Memory, base: u64, count: u32, depth: usize) -> (r: Result<
    Vec<Member>,
    DecodeError,
>)
    requires
        base < ADDRESS_SPACE,
    ensures
        match r {
            Ok(members) => decode_members_spec(mem@, base as int, count as nat, depth as nat)
                == Ok::<Seq<(Seq<char>, Tree)>, DecodeError>(members_view(members@)),
            Err(e) => decode_members_spec(mem@, base as int, count as nat, depth as nat) == Err::<
                Seq<(Seq<char>, Tree)>,
                DecodeError,
            >(e),
        },
    decreases depth, 1nat,
{
    let mut members: Vec<Member> = Vec::new();
    let mut i: u32 = 0;
    while i < count
        invariant
            i <= count,
            base < ADDRESS_SPACE,
            decode_members_spec(mem@, base as int, i as nat, depth as nat) == Ok::<
                Seq<(Seq<char>, Tree)>,
                DecodeError,
            >(members_view(members@)),
        decreases count - i,
    {
        let key_at: u64 = base + 32 * (i as u64);
        let key: String = match decode_value(mem, key_at, depth) {
            Ok(Value::String(text)) => text,
            Ok(_) => placeholder(),
            Err(DecodeError::UnknownTag) => placeholder(),
            Err(e) => {
                proof {
                    lemma_members_error(
                        mem@,
                        base as int,
                        (i + 1) as nat,
                        count as nat,
                        depth as nat,
                    );
                }
                return Err(e);
            },
        };
        match decode_value(mem, key_at + 16, depth) {
            Ok(value) => {
                insert_member(&mut members, key, value);
            },
            Err(e) => {
                proof {
                    lemma_members_error(
                        mem@,
                        base as int,
                        (i + 1) as nat,
                        count as nat,
                        depth as nat,
                    );
                }
                return Err(e);
            },
        }
        i = i + 1;
    }
    Ok(members)
}

/// Decodes the packed value at `addr`. Nothing is returned where the value
/// or anything it refers to cannot be decoded.
pub fn json_value_from_bw(mem: &Memory, addr: u64) -> (r: Option<Value>)
    ensures
        match r {
            Some(v) => decode_value_spec(mem@, addr as int, MAX_DEPTH as nat) == Ok::<
                Tree,
                DecodeError,
            >(v@) && v@.wf(),
            None => decode_value_spec(mem@, addr as int, MAX_DEPTH as nat) is Err,
        },
{
    match decode_value(mem, addr, MAX_DEPTH) {
        Ok(v) => Some(v),
        Err(_) => None,
    }
}

} // verus!
