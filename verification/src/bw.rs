//! Layout of a packed value: a 16-byte tagged union, little-endian.
//!
//! The last two bytes are a 16-bit flags field whose low three bits select
//! the variant. The other bytes are read according to that variant.

use crate::address::TaggedAddress;
use vstd::arithmetic::div_mod::lemma_fundamental_div_mod_converse;
use vstd::prelude::*;

verus! {

/// Size of a packed value in bytes.
pub const VALUE_SIZE: u64 = 16;

/// Capacity of the inline string buffer in bytes.
pub const INLINE_CAPACITY: u8 = 13;

/// Flag bit that marks a string as stored inline.
pub const INLINE_FLAG: u16 = 0x1000;

pub const TAG_TRUE: u16 = 1;

pub const TAG_FALSE: u16 = 2;

pub const TAG_OBJECT: u16 = 3;

pub const TAG_ARRAY: u16 = 4;

pub const TAG_STRING: u16 = 5;

pub const TAG_NUMBER: u16 = 6;

/// The unsigned number that the two bytes at `at` spell, low byte first.
pub open spec fn le16(b: Seq<u8>, at: int) -> int {
    b[at] as int + 0x100 * (b[at + 1] as int)
}

/// The unsigned number that the four bytes at `at` spell, low byte first.
pub open spec fn le32(b: Seq<u8>, at: int) -> int {
    le16(b, at) + 0x1_0000 * le16(b, at + 2)
}

/// The unsigned number that the eight bytes at `at` spell, low byte first.
pub open spec fn le64(b: Seq<u8>, at: int) -> int {
    le32(b, at) + 0x1_0000_0000 * le32(b, at + 4)
}

/// The signed number whose two's complement form is the 64-bit word `word`.
pub open spec fn signed64(word: int) -> int {
    if word < 0x8000_0000_0000_0000 {
        word
    } else {
        word - 0x1_0000_0000_0000_0000
    }
}

/// The flags field of the packed value `b`: its last two bytes.
pub open spec fn flags_of(b: Seq<u8>) -> int {
    le16(b, 14)
}

/// The tag of the packed value `b`: the low three bits of its flags.
pub open spec fn tag_of(b: Seq<u8>) -> int {
    flags_of(b) % 8
}

/// Whether the flags of `b` mark an inline string.
pub open spec fn inline_of(b: Seq<u8>) -> bool {
    (flags_of(b) / 0x1000) % 2 == 1
}

/// The signed integer payload of `b`: its first eight bytes.
pub open spec fn integer_of(b: Seq<u8>) -> int {
    signed64(le64(b, 0))
}

/// The entry count of a container, or the length of a heap string: the
/// first four bytes of `b`.
pub open spec fn count_of(b: Seq<u8>) -> int {
    le32(b, 0)
}

/// The raw pointer field of `b`: its last eight bytes, flags included.
pub open spec fn pointer_of(b: Seq<u8>) -> int {
    le64(b, 8)
}

/// The address that the pointer field of `b` refers to: the field with its
/// upper 16 bits cleared.
pub open spec fn target_of(b: Seq<u8>) -> int {
    pointer_of(b) % 0x1_0000_0000_0000
}

/// The length of the inline string in `b`. The byte after the buffer holds
/// the capacity minus the length; a byte above the capacity gives length 0.
pub open spec fn inline_len_of(b: Seq<u8>) -> int {
    if b[13] <= 13 {
        13 - b[13]
    } else {
        0
    }
}

/// The bytes of the inline string in `b`.
pub open spec fn inline_bytes_of(b: Seq<u8>) -> Seq<u8> {
    b.subrange(0, inline_len_of(b))
}

/// The flags view of a packed value: fourteen bytes that belong to the
/// other views, then the flags.
#[derive(Clone, Copy, Debug, PartialEq, Eq)]
pub struct JsonTypeFlags {
    pub _x: [u8; 14],
    pub value: u16,
}

impl JsonTypeFlags {
    /// The variant tag: the low three bits.
    pub fn tag(&self) -> (t: u16)
        ensures
            t == self.value % 8,
            t == self.value & 0x7,
            t < 8,
    {
        let v: u16 = self.value;
        assert(v & 0x7 == v % 8) by (bit_vector);
        v & 0x7
    }

    /// Whether the inline-string bit is set.
    pub fn is_inline(&self) -> (r: bool)
        ensures
            r == ((self.value / 0x1000) % 2 == 1),
            r == (self.value & INLINE_FLAG != 0),
    {
        let v: u16 = self.value;
        assert((v & 0x1000 != 0) == ((v / 0x1000) % 2 == 1)) by (bit_vector);
        v & INLINE_FLAG != 0
    }
}

/// The heap-string view of a packed value.
#[derive(Clone, Copy, Debug, PartialEq, Eq)]
pub struct JsonString {
    pub len: u32,
    pub data: TaggedAddress,
}

/// The inline-string view of a packed value.
#[derive(Clone, Copy, Debug, PartialEq, Eq)]
pub struct JsonInlineString {
    pub data: [u8; 13],
    /// Capacity minus length, so that a full buffer ends in a zero byte.
    pub length: u8,
}

impl JsonInlineString {
    /// The length of the string: capacity minus the stored byte, or 0 where
    /// the stored byte exceeds the capacity.
    pub fn len(&self) -> (n: usize)
        ensures
            n == (if self.length <= 13 {
                13 - self.length
            } else {
                0
            }),
            n <= 13,
    {
        if self.length <= INLINE_CAPACITY {
            (INLINE_CAPACITY - self.length) as usize
        } else {
            0
        }
    }
}

/// The container view of a packed value, shared by objects and arrays.
#[derive(Clone, Copy, Debug, PartialEq, Eq)]
pub struct JsonObject {
    pub entries: u32,
    pub capacity: u32,
    pub kv_pairs: TaggedAddress,
}

/// A packed value: sixteen bytes, read through one of its views.
#[derive(Clone, Copy, Debug, PartialEq, Eq)]
pub struct JsonValue {
    pub bytes: [u8; 16],
}

impl View for JsonValue {
    type V = Seq<u8>;

    open spec fn view(&self) -> Seq<u8> {
        self.bytes@
    }
}

fn read_u16(b: &[u8; 16], at: usize) -> (r: u16)
    requires
        at + 2 <= 16,
    ensures
        r == le16(b@, at as int),
{
    b[at] as u16 + 0x100 * (b[at + 1] as u16)
}

fn read_u32(b: &[u8; 16], at: usize) -> (r: u32)
    requires
        at + 4 <= 16,
    ensures
        r == le32(b@, at as int),
{
    read_u16(b, at) as u32 + 0x1_0000 * (read_u16(b, at + 2) as u32)
}

fn read_u64(b: &[u8; 16], at: usize) -> (r: u64)
    requires
        at + 8 <= 16,
    ensures
        r == le64(b@, at as int),
{
    read_u32(b, at) as u64 + 0x1_0000_0000 * (read_u32(b, at + 4) as u64)
}

/// The low and the high byte of `x`.
fn split_u16(x: u16) -> (r: (u8, u8))
    ensures
        r.0 + 0x100 * r.1 == x,
{
    ((x % 0x100) as u8, (x / 0x100) as u8)
}

/// The low and the high half of `x`.
fn split_u32(x: u32) -> (r: (u16, u16))
    ensures
        r.0 + 0x1_0000 * r.1 == x,
{
    ((x % 0x1_0000) as u16, (x / 0x1_0000) as u16)
}

/// The low and the high half of `x`.
fn split_u64(x: u64) -> (r: (u32, u32))
    ensures
        r.0 + 0x1_0000_0000 * r.1 == x,
{
    ((x % 0x1_0000_0000) as u32, (x / 0x1_0000_0000) as u32)
}

/// The two bytes that spell `x`, low byte first.
fn bytes_of_u16(x: u16) -> (b: [u8; 2])
    ensures
        le16(b@, 0) == x,
{
    let (b0, b1) = split_u16(x);
    [b0, b1]
}

/// The four bytes that spell `x`, low byte first.
fn bytes_of_u32(x: u32) -> (b: [u8; 4])
    ensures
        le32(b@, 0) == x,
{
    let (w0, w1) = split_u32(x);
    let (b0, b1) = split_u16(w0);
    let (b2, b3) = split_u16(w1);
    [b0, b1, b2, b3]
}

impl JsonValue {
    /// The packed value whose first four bytes spell `low`, whose next four
    /// spell `high`, whose next six spell `address` and whose last two spell
    /// `flags`.
    fn assemble(low: u32, high: u32, address: u64, flags: u16) -> (p: JsonValue)
        requires
            address < 0x1_0000_0000_0000,
        ensures
            le32(p@, 0) == low,
            le32(p@, 4) == high,
            pointer_of(p@) == address + 0x1_0000_0000_0000 * flags,
            target_of(p@) == address,
            flags_of(p@) == flags,
    {
        let (near, far) = split_u64(address);
        let first = bytes_of_u32(low);
        let second = bytes_of_u32(high);
        let third = bytes_of_u32(near);
        let fourth = bytes_of_u16(far as u16);
        let last = bytes_of_u16(flags);
        let p = JsonValue {
            bytes: [
                first[0],
                first[1],
                first[2],
                first[3],
                second[0],
                second[1],
                second[2],
                second[3],
                third[0],
                third[1],
                third[2],
                third[3],
                fourth[0],
                fourth[1],
                last[0],
                last[1],
            ],
        };
        proof {
            assert(le32(p@, 0) == le32(first@, 0));
            assert(le32(p@, 4) == le32(second@, 0));
            assert(le32(p@, 8) == le32(third@, 0));
            assert(le16(p@, 12) == le16(fourth@, 0));
            assert(le16(p@, 14) == le16(last@, 0));
            assert(pointer_of(p@) == near + 0x1_0000_0000 * (far + 0x1_0000 * flags));
            assert(pointer_of(p@) == flags * 0x1_0000_0000_0000 + address);
            lemma_fundamental_div_mod_converse(
                pointer_of(p@),
                0x1_0000_0000_0000,
                flags as int,
                address as int,
            );
        }
        p
    }

    /// The packed form of a boolean.
    pub fn boolean(v: bool) -> (p: JsonValue)
        ensures
            tag_of(p@) == (if v {
                1int
            } else {
                2int
            }),
    {
        JsonValue::assemble(
            0,
            0,
            0,
            if v {
                TAG_TRUE
            } else {
                TAG_FALSE
            },
        )
    }

    /// The packed form of a number.
    pub fn number(n: i64) -> (p: JsonValue)
        ensures
            tag_of(p@) == 6,
            integer_of(p@) == n,
    {
        let word: u64 = if n >= 0 {
            n as u64
        } else {
            (n - i64::MIN) as u64 + 0x8000_0000_0000_0000
        };
        let (low, high) = split_u64(word);
        JsonValue::assemble(low, high, 0, TAG_NUMBER)
    }

    /// The packed header of a container: `tag` 3 for an object, 4 for an
    /// array, with `entries` entries in the run of slots at `address`.
    pub fn container(tag: u16, entries: u32, address: u64) -> (p: JsonValue)
        requires
            tag == TAG_OBJECT || tag == TAG_ARRAY,
            address < 0x1_0000_0000_0000,
        ensures
            tag_of(p@) == tag,
            count_of(p@) == entries,
            le32(p@, 4) == entries,
            target_of(p@) == address,
    {
        JsonValue::assemble(entries, entries, address, tag)
    }

    /// The packed form of a string whose `len` bytes stand at `address`.
    pub fn heap_text(len: u32, address: u64) -> (p: JsonValue)
        requires
            address < 0x1_0000_0000_0000,
        ensures
            tag_of(p@) == 5,
            !inline_of(p@),
            count_of(p@) == len,
            target_of(p@) == address,
    {
        JsonValue::assemble(len, 0, address, TAG_STRING)
    }

    /// The packed form of a string of at most 13 bytes, held inline.
    pub fn inline_text(text: &[u8]) -> (p: JsonValue)
        requires
            text@.len() <= 13,
        ensures
            tag_of(p@) == 5,
            inline_of(p@),
            p@[13] == 13 - text@.len(),
            inline_bytes_of(p@) == text@,
    {
        let mut bytes: Vec<u8> = Vec::new();
        let mut i: usize = 0;
        while i < 13
            invariant
                i <= 13,
                text@.len() <= 13,
                bytes@.len() == i,
                forall|k: int| 0 <= k < i && k < text@.len() ==> bytes@[k] == text@[k],
            decreases 13 - i,
        {
            let b: u8 = if i < text.len() {
                text[i]
            } else {
                0
            };
            bytes.push(b);
            i = i + 1;
        }
        bytes.push((13 - text.len()) as u8);
        bytes.push(0x05);
        bytes.push(0x10);
        let p = JsonValue::from_bytes(&bytes);
        assert(inline_bytes_of(p@) =~= text@);
        p
    }

    /// The packed value made of the first sixteen bytes of `bytes`.
    pub fn from_bytes(bytes: &Vec<u8>) -> (v: JsonValue)
        requires
            bytes@.len() >= 16,
        ensures
            v@ == bytes@.subrange(0, 16),
    {
        let v = JsonValue {
            bytes: [
                bytes[0],
                bytes[1],
                bytes[2],
                bytes[3],
                bytes[4],
                bytes[5],
                bytes[6],
                bytes[7],
                bytes[8],
                bytes[9],
                bytes[10],
                bytes[11],
                bytes[12],
                bytes[13],
                bytes[14],
                bytes[15],
            ],
        };
        assert(v@ =~= bytes@.subrange(0, 16));
        v
    }

    /// The payload read as the flags view.
    pub fn type_flags(&self) -> (f: JsonTypeFlags)
        ensures
            f._x@ == self@.subrange(0, 14),
            f.value == flags_of(self@),
            f.value % 8 == tag_of(self@),
            ((f.value / 0x1000) % 2 == 1) == inline_of(self@),
    {
        let b = &self.bytes;
        let f = JsonTypeFlags {
            _x: [
                b[0],
                b[1],
                b[2],
                b[3],
                b[4],
                b[5],
                b[6],
                b[7],
                b[8],
                b[9],
                b[10],
                b[11],
                b[12],
                b[13],
            ],
            value: read_u16(b, 14),
        };
        assert(f._x@ =~= self@.subrange(0, 14));
        f
    }

    /// The payload read as a signed 64-bit integer.
    pub fn integer(&self) -> (n: i64)
        ensures
            n == integer_of(self@),
    {
        let word: u64 = read_u64(&self.bytes, 0);
        if word < 0x8000_0000_0000_0000 {
            word as i64
        } else {
            let low: u64 = word - 0x8000_0000_0000_0000;
            low as i64 + i64::MIN
        }
    }

    /// The payload read as a heap string.
    pub fn string(&self) -> (s: JsonString)
        ensures
            s.len == count_of(self@),
            s.data.raw == pointer_of(self@),
    {
        JsonString {
            len: read_u32(&self.bytes, 0),
            data: TaggedAddress { raw: read_u64(&self.bytes, 8) },
        }
    }

    /// The payload read as an inline string.
    pub fn inline_string(&self) -> (s: JsonInlineString)
        ensures
            s.data@ == self@.subrange(0, 13),
            s.length == self@[13],
    {
        let b = &self.bytes;
        let s = JsonInlineString {
            data: [
                b[0],
                b[1],
                b[2],
                b[3],
                b[4],
                b[5],
                b[6],
                b[7],
                b[8],
                b[9],
                b[10],
                b[11],
                b[12],
            ],
            length: b[13],
        };
        assert(s.data@ =~= self@.subrange(0, 13));
        s
    }

    /// The payload read as a container header.
    pub fn object(&self) -> (o: JsonObject)
        ensures
            o.entries == count_of(self@),
            o.capacity == le32(self@, 4),
            o.kv_pairs.raw == pointer_of(self@),
    {
        JsonObject {
            entries: read_u32(&self.bytes, 0),
            capacity: read_u32(&self.bytes, 4),
            kv_pairs: TaggedAddress { raw: read_u64(&self.bytes, 8) },
        }
    }
}

} // verus!
