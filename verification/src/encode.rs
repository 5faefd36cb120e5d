//! Writing a value tree into a memory image in the packed layout.
//!
//! `stored` says when the bytes at an address spell a given tree. The
//! encoder lays a tree out so that `stored` holds, and whatever is stored
//! decodes to the tree it was written from.

use crate::address::ADDRESS_SPACE;
use crate::bw::{
    count_of, inline_bytes_of, inline_of, integer_of, tag_of, target_of, JsonValue, TAG_ARRAY,
    TAG_OBJECT,
};
use crate::decode::{decode_items_spec, decode_members_spec, decode_value_spec, DecodeError};
use crate::memory::{bytes_at, extends, lemma_read_extends, read, Memory};
use crate::text::lemma_text_of_encoded;
use crate::theorems::{
    lemma_items_each, lemma_members_each, lemma_members_in_order, slot_item, slot_key,
    slot_value,
};
use crate::value::{
    items_view, lemma_items_view, lemma_members_view, members_view, Member, Tree, Value,
};
use vstd::pervasive::unreached;
use vstd::prelude::*;
use vstd::slice::slice_to_vec;
use vstd::utf8::encode_utf8;

verus! {

/// Whether the string variant `b` spells `text`: inline with a length byte
/// within the capacity, or on the heap, and in either case with the UTF-8
/// bytes of `text`.
pub open spec fn spells_text(mem: Map<int, u8>, b: Seq<u8>, text: Seq<char>) -> bool {
    &&& tag_of(b) == 5
    &&& if inline_of(b) {
        b[13] <= 13 && inline_bytes_of(b) == encode_utf8(text)
    } else {
        read(mem, target_of(b), count_of(b) as nat) == Some(encode_utf8(text))
    }
}

/// Whether the packed value at `addr` spells `text`.
pub open spec fn text_stored(mem: Map<int, u8>, addr: int, text: Seq<char>) -> bool {
    match read(mem, addr, 16) {
        Some(b) => spells_text(mem, b, text),
        None => false,
    }
}

/// Whether the packed value `b`, with what it refers to in `mem`, spells
/// `tree`. Nothing spells `Null`.
pub open spec fn spells(mem: Map<int, u8>, b: Seq<u8>, tree: Tree) -> bool
    decreases tree, 0nat,
{
    match tree {
        Tree::Null => false,
        Tree::Boolean(v) => tag_of(b) == (if v {
            1int
        } else {
            2int
        }),
        Tree::Number(n) => tag_of(b) == 6 && integer_of(b) == n,
        Tree::String(text) => spells_text(mem, b, text),
        Tree::Array(items) => {
            &&& tag_of(b) == 4
            &&& count_of(b) == items.len()
            &&& forall|i: int|
                0 <= i < items.len() ==> stored(mem, target_of(b) + 16 * i, #[trigger] items[i])
        },
        Tree::Object(entries) => {
            &&& tag_of(b) == 3
            &&& count_of(b) == entries.len()
            &&& forall|i: int|
                0 <= i < entries.len() ==> text_stored(
                    mem,
                    target_of(b) + 32 * i,
                    (#[trigger] entries[i]).0,
                ) && stored(mem, target_of(b) + 32 * i + 16, entries[i].1)
        },
    }
}

/// Whether the packed value at `addr` spells `tree`.
pub open spec fn stored(mem: Map<int, u8>, addr: int, tree: Tree) -> bool
    decreases tree, 1nat,
{
    match read(mem, addr, 16) {
        Some(b) => spells(mem, b, tree),
        None => false,
    }
}

/// Whether `tree` nests at most `depth` containers in one another.
pub open spec fn nests_within(tree: Tree, depth: nat) -> bool
    decreases tree,
{
    match tree {
        Tree::Array(items) => depth > 0 && forall|i: int|
            0 <= i < items.len() ==> nests_within(#[trigger] items[i], (depth - 1) as nat),
        Tree::Object(entries) => depth > 0 && forall|i: int|
            0 <= i < entries.len() ==> nests_within(
                (#[trigger] entries[i]).1,
                (depth - 1) as nat,
            ),
        _ => true,
    }
}

/// A stored text decodes to that text, at any depth.
pub proof fn lemma_text_round_trip(mem: Map<int, u8>, addr: int, text: Seq<char>, depth: nat)
    requires
        text_stored(mem, addr, text),
    ensures
        decode_value_spec(mem, addr, depth) == Ok::<Tree, DecodeError>(Tree::String(text)),
{
    lemma_text_of_encoded(text);
}

/// Decoding undoes encoding: wherever a well-formed tree is stored, and the
/// depth limit admits its nesting, decoding yields that tree.
pub proof fn lemma_round_trip(mem: Map<int, u8>, addr: int, tree: Tree, depth: nat)
    requires
        stored(mem, addr, tree),
        tree.wf(),
        nests_within(tree, depth),
    ensures
        decode_value_spec(mem, addr, depth) == Ok::<Tree, DecodeError>(tree),
    decreases tree,
{
    let b = read(mem, addr, 16)->Some_0;
    match tree {
        Tree::Null => {},
        Tree::Boolean(_) => {},
        Tree::Number(_) => {},
        Tree::String(text) => {
            lemma_text_round_trip(mem, addr, text, depth);
        },
        Tree::Array(items) => {
            let base = target_of(b);
            let below = (depth - 1) as nat;
            assert forall|i: int| 0 <= i < items.len() implies (#[trigger] slot_item(
                mem,
                base,
                i,
                below,
            )) == Ok::<Tree, DecodeError>(items[i]) by {
                assert(stored(mem, base + 16 * i, items[i]));
                lemma_round_trip(mem, base + 16 * i, items[i], below);
            }
            lemma_items_each(mem, base, items.len(), below);
            let decoded = decode_items_spec(mem, base, items.len(), below)->Ok_0;
            assert forall|i: int| 0 <= i < items.len() implies decoded[i] == items[i] by {
                assert(slot_item(mem, base, i, below) == Ok::<Tree, DecodeError>(decoded[i]));
            }
            assert(decoded =~= items);
        },
        Tree::Object(entries) => {
            let base = target_of(b);
            let below = (depth - 1) as nat;
            assert forall|i: int| 0 <= i < entries.len() implies (#[trigger] slot_key(
                mem,
                base,
                i,
                below,
            )) == Ok::<Seq<char>, DecodeError>(entries[i].0) && slot_value(mem, base, i, below)
                == Ok::<Tree, DecodeError>(entries[i].1) by {
                assert(text_stored(mem, base + 32 * i, entries[i].0));
                lemma_text_round_trip(mem, base + 32 * i, entries[i].0, below);
                lemma_round_trip(mem, base + 32 * i + 16, entries[i].1, below);
            }
            lemma_members_each(mem, base, entries.len(), below);
            assert forall|i: int, j: int| 0 <= i < j < entries.len() implies (#[trigger] slot_key(
                mem,
                base,
                i,
                below,
            )) != (#[trigger] slot_key(mem, base, j, below)) by {
                assert(entries[i].0 != entries[j].0);
            }
            lemma_members_in_order(mem, base, entries.len(), below);
            let decoded = decode_members_spec(mem, base, entries.len(), below)->Ok_0;
            assert forall|i: int| 0 <= i < entries.len() implies decoded[i] == entries[i] by {
                assert(slot_key(mem, base, i, below) == Ok::<Seq<char>, DecodeError>(
                    decoded[i].0,
                ));
            }
            assert(decoded =~= entries);
        },
    }
}

/// Whether `tree` can be written in the packed layout: it holds no `Null`,
/// its numbers fit 64 bits, and every count and every length in bytes fits
/// 32 bits.
pub open spec fn encodable(tree: Tree) -> bool
    decreases tree,
{
    match tree {
        Tree::Null => false,
        Tree::Boolean(_) => true,
        Tree::Number(n) => i64::MIN <= n <= i64::MAX,
        Tree::String(text) => encode_utf8(text).len() <= u32::MAX,
        Tree::Array(items) => items.len() <= u32::MAX && forall|i: int|
            0 <= i < items.len() ==> encodable(#[trigger] items[i]),
        Tree::Object(entries) => entries.len() <= u32::MAX && forall|i: int|
            0 <= i < entries.len() ==> encode_utf8((#[trigger] entries[i]).0).len() <= u32::MAX
                && encodable(entries[i].1),
    }
}

/// Bytes that a text occupies outside its packed value: none where it fits
/// the inline buffer.
pub open spec fn text_footprint(text: Seq<char>) -> nat {
    if encode_utf8(text).len() <= 13 {
        0
    } else {
        encode_utf8(text).len()
    }
}

/// Bytes that `tree` occupies outside its packed value.
pub open spec fn footprint(tree: Tree) -> nat
    decreases tree,
{
    match tree {
        Tree::String(text) => text_footprint(text),
        Tree::Array(items) => items_footprint(items) + 16 * items.len(),
        Tree::Object(entries) => entries_footprint(entries) + 32 * entries.len(),
        _ => 0,
    }
}

/// Bytes that the items of an array occupy outside their slots.
pub open spec fn items_footprint(items: Seq<Tree>) -> nat
    decreases items,
{
    if items.len() == 0 {
        0
    } else {
        items_footprint(items.drop_last()) + footprint(items.last())
    }
}

/// Bytes that the keys and values of an object occupy outside their slots.
pub open spec fn entries_footprint(entries: Seq<(Seq<char>, Tree)>) -> nat
    decreases entries,
{
    if entries.len() == 0 {
        0
    } else {
        entries_footprint(entries.drop_last()) + text_footprint(entries.last().0) + footprint(
            entries.last().1,
        )
    }
}

/// `n`, or the size of the address space where `n` is no less.
pub open spec fn capped(n: nat) -> nat {
    if n < ADDRESS_SPACE {
        n
    } else {
        ADDRESS_SPACE as nat
    }
}

/// Whether `mem` holds `bytes` at `addr`.
pub open spec fn holds(mem: Map<int, u8>, addr: int, bytes: Seq<u8>) -> bool {
    forall|i: int|
        0 <= i < bytes.len() ==> #[trigger] mem.dom().contains(addr + i) && mem[addr + i]
            == bytes[i]
}

/// Any part of bytes that a memory holds can be read from it.
pub proof fn lemma_holds_read(mem: Map<int, u8>, addr: int, bytes: Seq<u8>, from: int, len: nat)
    requires
        holds(mem, addr, bytes),
        0 <= from,
        from + len <= bytes.len(),
    ensures
        read(mem, addr + from, len) == Some(bytes.subrange(from, from + len)),
{
    assert forall|i: int| 0 <= i < len implies #[trigger] mem.dom().contains((addr + from) + i) by {
        assert(mem.dom().contains(addr + (from + i)));
    }
    let got = bytes_at(mem, addr + from, len);
    assert forall|i: int| 0 <= i < len implies #[trigger] got[i] == bytes.subrange(
        from,
        from + len,
    )[i] by {
        assert(mem.dom().contains(addr + (from + i)));
    }
    assert(bytes_at(mem, addr + from, len) =~= bytes.subrange(from, from + len));
}

/// Extending a memory that extends another extends the other.
pub proof fn lemma_extends_trans(m2: Map<int, u8>, m1: Map<int, u8>, m0: Map<int, u8>)
    requires
        extends(m2, m1),
        extends(m1, m0),
    ensures
        extends(m2, m0),
{
    assert forall|a: int| #[trigger] m0.dom().contains(a) implies m2.dom().contains(a) && m2[a]
        == m0[a] by {
        assert(m1.dom().contains(a));
    }
}

/// A text that a packed value spells in a memory is spelt by it in every
/// memory that extends it.
pub proof fn lemma_spells_text_extends(
    larger: Map<int, u8>,
    smaller: Map<int, u8>,
    b: Seq<u8>,
    text: Seq<char>,
)
    requires
        extends(larger, smaller),
        spells_text(smaller, b, text),
    ensures
        spells_text(larger, b, text),
{
    if !inline_of(b) {
        lemma_read_extends(larger, smaller, target_of(b), count_of(b) as nat);
    }
}

/// A tree that a packed value spells in a memory is spelt by it in every
/// memory that extends it.
pub proof fn lemma_spells_extends(
    larger: Map<int, u8>,
    smaller: Map<int, u8>,
    b: Seq<u8>,
    tree: Tree,
)
    requires
        extends(larger, smaller),
        spells(smaller, b, tree),
    ensures
        spells(larger, b, tree),
    decreases tree,
{
    match tree {
        Tree::String(text) => {
            lemma_spells_text_extends(larger, smaller, b, text);
        },
        Tree::Array(items) => {
            assert forall|i: int| 0 <= i < items.len() implies stored(
                larger,
                target_of(b) + 16 * i,
                #[trigger] items[i],
            ) by {
                let at = target_of(b) + 16 * i;
                assert(stored(smaller, at, items[i]));
                lemma_read_extends(larger, smaller, at, 16);
                lemma_spells_extends(larger, smaller, read(smaller, at, 16)->Some_0, items[i]);
            }
        },
        Tree::Object(entries) => {
            assert forall|i: int| 0 <= i < entries.len() implies text_stored(
                larger,
                target_of(b) + 32 * i,
                (#[trigger] entries[i]).0,
            ) && stored(larger, target_of(b) + 32 * i + 16, entries[i].1) by {
                let at = target_of(b) + 32 * i;
                assert(text_stored(smaller, at, entries[i].0));
                assert(stored(smaller, at + 16, entries[i].1));
                lemma_read_extends(larger, smaller, at, 16);
                lemma_read_extends(larger, smaller, at + 16, 16);
                lemma_spells_text_extends(
                    larger,
                    smaller,
                    read(smaller, at, 16)->Some_0,
                    entries[i].0,
                );
                lemma_spells_extends(
                    larger,
                    smaller,
                    read(smaller, at + 16, 16)->Some_0,
                    entries[i].1,
                );
            }
        },
        _ => {},
    }
}

/// The footprint of one more item adds to that of the items before it.
pub proof fn lemma_items_footprint_step(items: Seq<Tree>, i: int)
    requires
        0 <= i < items.len(),
    ensures
        items_footprint(items.take(i + 1)) == items_footprint(items.take(i)) + footprint(items[i]),
{
    assert(items.take(i + 1).drop_last() =~= items.take(i));
}

/// The first items of an array occupy no more than all of them.
pub proof fn lemma_items_footprint_prefix(items: Seq<Tree>, i: int)
    requires
        0 <= i <= items.len(),
    ensures
        items_footprint(items.take(i)) <= items_footprint(items),
    decreases items.len() - i,
{
    if i < items.len() {
        lemma_items_footprint_step(items, i);
        lemma_items_footprint_prefix(items, i + 1);
    } else {
        assert(items.take(i) =~= items);
    }
}

/// The footprint of one more pair adds to that of the pairs before it.
pub proof fn lemma_entries_footprint_step(entries: Seq<(Seq<char>, Tree)>, i: int)
    requires
        0 <= i < entries.len(),
    ensures
        entries_footprint(entries.take(i + 1)) == entries_footprint(entries.take(i))
            + text_footprint(entries[i].0) + footprint(entries[i].1),
{
    assert(entries.take(i + 1).drop_last() =~= entries.take(i));
}

/// The first pairs of an object occupy no more than all of them.
pub proof fn lemma_entries_footprint_prefix(entries: Seq<(Seq<char>, Tree)>, i: int)
    requires
        0 <= i <= entries.len(),
    ensures
        entries_footprint(entries.take(i)) <= entries_footprint(entries),
    decreases entries.len() - i,
{
    if i < entries.len() {
        lemma_entries_footprint_step(entries, i);
        lemma_entries_footprint_prefix(entries, i + 1);
    } else {
        assert(entries.take(i) =~= entries);
    }
}

/// The sum of two capped sizes, capped.
fn capped_add(a: u64, b: u64) -> (r: u64)
    requires
        a <= ADDRESS_SPACE,
        b <= ADDRESS_SPACE,
    ensures
        r == capped((a + b) as nat),
        r <= ADDRESS_SPACE,
{
    let sum: u64 = a + b;
    if sum < ADDRESS_SPACE {
        sum
    } else {
        ADDRESS_SPACE
    }
}

/// Why a value could not be encoded.
#[derive(Clone, Copy, Debug, PartialEq, Eq)]
pub enum EncodeError {
    /// The value holds a `Null`, or a count or a length that does not fit
    /// 32 bits.
    Unencodable,
    /// The value does not fit between the base address and the end of the
    /// 48-bit address space.
    OutOfSpace,
}

/// The size of a text outside its packed value, provided its length in
/// bytes fits 32 bits.
pub fn measure_text(text: &str) -> (r: Option<u64>)
    ensures
        match r {
            Some(n) => encode_utf8(text@).len() <= u32::MAX && n == text_footprint(text@),
            None => encode_utf8(text@).len() > u32::MAX,
        },
{
    let len: usize = text.as_bytes().len();
    if len > 0xffff_ffff {
        None
    } else if len <= 13 {
        Some(0)
    } else {
        Some(len as u64)
    }
}

/// The size of a value outside its packed value, capped at the size of the
/// address space, provided the value can be encoded.
pub fn measure(v: &Value) -> (r: Option<u64>)
    ensures
        match r {
            Some(n) => encodable(v@) && n == capped(footprint(v@)),
            None => !encodable(v@),
        },
    decreases v,
{
    match v {
        Value::Null => None,
        Value::Boolean(_) => Some(0),
        Value::Number(_) => Some(0),
        Value::String(text) => measure_text(text.as_str()),
        Value::Array(items) => {
            let ghost trees = items_view(items@);
            proof {
                lemma_items_view(items@);
            }
            if items.len() > 0xffff_ffff {
                return None;
            }
            let mut total: u64 = 0;
            let mut i: usize = 0;
            while i < items.len()
                invariant
                    i <= items@.len(),
                    *v == Value::Array(*items),
                    v@ == Tree::Array(trees),
                    trees.len() == items@.len(),
                    forall|j: int| 0 <= j < items@.len() ==> (#[trigger] trees[j]) == items@[j]@,
                    forall|j: int| 0 <= j < i ==> encodable(#[trigger] trees[j]),
                    total == capped(items_footprint(trees.take(i as int))),
                decreases items@.len() - i,
            {
                let n: u64 = match measure(&items[i]) {
                    Some(n) => n,
                    None => {
                        assert(!encodable(trees[i as int]));
                        return None;
                    },
                };
                proof {
                    lemma_items_footprint_step(trees, i as int);
                }
                total = capped_add(total, n);
                i = i + 1;
            }
            assert(trees.take(i as int) =~= trees);
            Some(capped_add(total, 16 * (items.len() as u64)))
        },
        Value::Object(members) => {
            let ghost entries = members_view(members@);
            proof {
                lemma_members_view(members@);
            }
            if members.len() > 0xffff_ffff {
                return None;
            }
            let mut total: u64 = 0;
            let mut i: usize = 0;
            while i < members.len()
                invariant
                    i <= members@.len(),
                    *v == Value::Object(*members),
                    v@ == Tree::Object(entries),
                    entries.len() == members@.len(),
                    forall|j: int|
                        0 <= j < members@.len() ==> (#[trigger] entries[j]) == (
                            members@[j].key@,
                            members@[j].value@,
                        ),
                    forall|j: int|
                        0 <= j < i ==> encode_utf8((#[trigger] entries[j]).0).len() <= u32::MAX
                            && encodable(entries[j].1),
                    total == capped(entries_footprint(entries.take(i as int))),
                decreases members@.len() - i,
            {
                let k: u64 = match measure_text(members[i].key.as_str()) {
                    Some(k) => k,
                    None => {
                        assert(encode_utf8(entries[i as int].0).len() > u32::MAX);
                        return None;
                    },
                };
                let n: u64 = match measure(&members[i].value) {
                    Some(n) => n,
                    None => {
                        assert(!encodable(entries[i as int].1));
                        return None;
                    },
                };
                proof {
                    lemma_entries_footprint_step(entries, i as int);
                }
                total = capped_add(capped_add(total, k), n);
                i = i + 1;
            }
            assert(entries.take(i as int) =~= entries);
            Some(capped_add(total, 32 * (members.len() as u64)))
        },
    }
}

/// A memory image under construction. Regions are placed one after another
/// from a base address upwards.
pub struct Encoder {
    pub memory: Memory,
    /// The lowest address not yet used.
    pub next: u64,
}

impl Encoder {
    /// Whether every mapped address lies below `next`, and `next` within
    /// the 48-bit address space.
    pub open spec fn wf(&self) -> bool {
        &&& self.next <= ADDRESS_SPACE
        &&& forall|a: int| #[trigger] self.memory@.dom().contains(a) ==> a < self.next
    }

    /// An encoder with nothing mapped, which places its first region at
    /// `base`.
    pub fn new(base: u64) -> (e: Encoder)
        requires
            base <= ADDRESS_SPACE,
        ensures
            e.wf(),
            e.next == base,
            e.memory@ == Map::<int, u8>::empty(),
    {
        Encoder { memory: Memory::new(), next: base }
    }

    /// Maps `bytes` at the lowest unused address and returns that address.
    pub fn place(&mut self, bytes: Vec<u8>) -> (addr: u64)
        requires
            old(self).wf(),
            old(self).next + bytes@.len() <= ADDRESS_SPACE,
        ensures
            final(self).wf(),
            addr == old(self).next,
            final(self).next == old(self).next + bytes@.len(),
            extends(final(self).memory@, old(self).memory@),
            holds(final(self).memory@, addr as int, bytes@),
    {
        let addr: u64 = self.next;
        let len: usize = bytes.len();
        let ghost content = bytes@;
        let ghost before = self.memory@;
        self.memory.map(addr, bytes);
        self.next = addr + len as u64;
        proof {
            assert forall|i: int| 0 <= i < content.len() implies #[trigger] self.memory@.dom().contains(
                addr + i,
            ) && self.memory@[addr + i] == content[i] by {
                assert(!before.dom().contains(addr + i));
            }
        }
        addr
    }

    /// Writes the bytes of `text` where they do not fit inline, and returns
    /// the packed string.
    fn write_text(&mut self, text: &str) -> (p: JsonValue)
        requires
            old(self).wf(),
            encode_utf8(text@).len() <= u32::MAX,
            old(self).next + text_footprint(text@) <= ADDRESS_SPACE,
        ensures
            final(self).wf(),
            final(self).next == old(self).next + text_footprint(text@),
            extends(final(self).memory@, old(self).memory@),
            spells_text(final(self).memory@, p@, text@),
    {
        let bytes = text.as_bytes();
        let len: usize = bytes.len();
        if len <= 13 {
            JsonValue::inline_text(bytes)
        } else {
            let addr: u64 = self.place(slice_to_vec(bytes));
            proof {
                lemma_holds_read(self.memory@, addr as int, bytes@, 0, bytes@.len());
                assert(bytes@.subrange(0, bytes@.len() as int) =~= bytes@);
            }
            JsonValue::heap_text(len as u32, addr)
        }
    }

    /// Writes everything that `v` refers to and returns the packed value
    /// that spells `v`.
    pub fn write(&mut self, v: &Value) -> (p: JsonValue)
        requires
            old(self).wf(),
            encodable(v@),
            old(self).next + footprint(v@) <= ADDRESS_SPACE,
        ensures
            final(self).wf(),
            final(self).next == old(self).next + footprint(v@),
            extends(final(self).memory@, old(self).memory@),
            spells(final(self).memory@, p@, v@),
        decreases v,
    {
        match v {
            Value::Null => unreached(),
            Value::Boolean(b) => JsonValue::boolean(*b),
            Value::Number(n) => JsonValue::number(*n),
            Value::String(text) => self.write_text(text.as_str()),
            Value::Array(items) => {
                proof {
                    lemma_items_view(items@);
                }
                self.write_items(items)
            },
            Value::Object(members) => {
                proof {
                    lemma_members_view(members@);
                }
                self.write_members(members)
            },
        }
    }

    /// Writes the items of an array and their run of slots, and returns the
    /// packed array.
    fn write_items(&mut self, items: &Vec<Value>) -> (p: JsonValue)
        requires
            old(self).wf(),
            encodable(Tree::Array(items_view(items@))),
            old(self).next + footprint(Tree::Array(items_view(items@))) <= ADDRESS_SPACE,
        ensures
            final(self).wf(),
            final(self).next == old(self).next + footprint(Tree::Array(items_view(items@))),
            extends(final(self).memory@, old(self).memory@),
            spells(final(self).memory@, p@, Tree::Array(items_view(items@))),
        decreases items,
    {
        let ghost trees = items_view(items@);
        let ghost start = self.next;
        let ghost origin = self.memory@;
        proof {
            lemma_items_view(items@);
        }
        if items.len() == 0 {
            return JsonValue::container(TAG_ARRAY, 0, 0);
        }
        let mut slots: Vec<u8> = Vec::new();
        let mut i: usize = 0;
        while i < items.len()
            invariant
                i <= items@.len(),
                    0 < items@.len() <= u32::MAX,
                trees.len() == items@.len(),
                forall|j: int|
                    0 <= j < items@.len() ==> (#[trigger] trees[j]) == items@[j]@,
                forall|j: int| 0 <= j < trees.len() ==> encodable(#[trigger] trees[j]),
                self.wf(),
                extends(self.memory@, origin),
                self.next == start + items_footprint(trees.take(i as int)),
                start + items_footprint(trees) + 16 * trees.len() <= ADDRESS_SPACE,
                slots@.len() == 16 * i,
                forall|j: int|
                    0 <= j < i ==> spells(
                        self.memory@,
                        slots@.subrange(16 * j, 16 * j + 16),
                        #[trigger] trees[j],
                    ),
            decreases items@.len() - i,
        {
            proof {
                lemma_items_footprint_step(trees, i as int);
                lemma_items_footprint_prefix(trees, i + 1);
            }
            let ghost before = self.memory@;
            let ghost filled = slots@;
                        let p = self.write(&items[i]);
            slots.extend_from_slice(p.bytes.as_slice());
            proof {
                lemma_extends_trans(self.memory@, before, origin);
                assert forall|j: int| 0 <= j < i + 1 implies spells(
                    self.memory@,
                    slots@.subrange(16 * j, 16 * j + 16),
                    #[trigger] trees[j],
                ) by {
                    if j < i {
                        assert(slots@.subrange(16 * j, 16 * j + 16) =~= filled.subrange(
                            16 * j,
                            16 * j + 16,
                        ));
                        lemma_spells_extends(
                            self.memory@,
                            before,
                            filled.subrange(16 * j, 16 * j + 16),
                            trees[j],
                        );
                    } else {
                        assert(slots@.subrange(16 * j, 16 * j + 16) =~= p@);
                    }
                }
            }
            i = i + 1;
        }
        assert(trees.take(i as int) =~= trees);
        let ghost before = self.memory@;
        let ghost filled = slots@;
        let base: u64 = self.place(slots);
        let p = JsonValue::container(TAG_ARRAY, items.len() as u32, base);
        proof {
            assert forall|j: int| 0 <= j < trees.len() implies stored(
                self.memory@,
                target_of(p@) + 16 * j,
                #[trigger] trees[j],
            ) by {
                lemma_holds_read(self.memory@, base as int, filled, 16 * j, 16);
                lemma_spells_extends(
                    self.memory@,
                    before,
                    filled.subrange(16 * j, 16 * j + 16),
                    trees[j],
                );
            }
            lemma_extends_trans(self.memory@, before, origin);
        }
        p
    }

    /// Writes the keys and values of an object and their run of slots, and
    /// returns the packed object.
    fn write_members(&mut self, members: &Vec<Member>) -> (p: JsonValue)
        requires
            old(self).wf(),
            encodable(Tree::Object(members_view(members@))),
            old(self).next + footprint(Tree::Object(members_view(members@))) <= ADDRESS_SPACE,
        ensures
            final(self).wf(),
            final(self).next == old(self).next + footprint(Tree::Object(members_view(members@))),
            extends(final(self).memory@, old(self).memory@),
            spells(final(self).memory@, p@, Tree::Object(members_view(members@))),
        decreases members,
    {
        let ghost entries = members_view(members@);
        let ghost start = self.next;
        let ghost origin = self.memory@;
        proof {
            lemma_members_view(members@);
        }
        if members.len() == 0 {
            return JsonValue::container(TAG_OBJECT, 0, 0);
        }
        let mut slots: Vec<u8> = Vec::new();
        let mut i: usize = 0;
        while i < members.len()
            invariant
                i <= members@.len(),
                    0 < members@.len() <= u32::MAX,
                entries.len() == members@.len(),
                forall|j: int|
                    0 <= j < members@.len() ==> (#[trigger] entries[j]) == (
                        members@[j].key@,
                        members@[j].value@,
                    ),
                forall|j: int|
                    0 <= j < entries.len() ==> encode_utf8(
                        (#[trigger] entries[j]).0,
                    ).len() <= u32::MAX && encodable(entries[j].1),
                self.wf(),
                extends(self.memory@, origin),
                self.next == start + entries_footprint(entries.take(i as int)),
                start + entries_footprint(entries) + 32 * entries.len() <= ADDRESS_SPACE,
                slots@.len() == 32 * i,
                forall|j: int|
                    0 <= j < i ==> spells_text(
                        self.memory@,
                        slots@.subrange(32 * j, 32 * j + 16),
                        (#[trigger] entries[j]).0,
                    ) && spells(
                        self.memory@,
                        slots@.subrange(32 * j + 16, 32 * j + 32),
                        entries[j].1,
                    ),
            decreases members@.len() - i,
        {
            proof {
                lemma_entries_footprint_step(entries, i as int);
                lemma_entries_footprint_prefix(entries, i + 1);
            }
            let ghost before = self.memory@;
            let ghost filled = slots@;
            let k = self.write_text(members[i].key.as_str());
            let ghost between = self.memory@;
                        let p = self.write(&members[i].value);
            slots.extend_from_slice(k.bytes.as_slice());
            slots.extend_from_slice(p.bytes.as_slice());
            proof {
                lemma_extends_trans(self.memory@, between, before);
                lemma_extends_trans(self.memory@, before, origin);
                assert forall|j: int| 0 <= j < i + 1 implies spells_text(
                    self.memory@,
                    slots@.subrange(32 * j, 32 * j + 16),
                    (#[trigger] entries[j]).0,
                ) && spells(
                    self.memory@,
                    slots@.subrange(32 * j + 16, 32 * j + 32),
                    entries[j].1,
                ) by {
                    if j < i {
                        assert(slots@.subrange(32 * j, 32 * j + 16) =~= filled.subrange(
                            32 * j,
                            32 * j + 16,
                        ));
                        assert(slots@.subrange(32 * j + 16, 32 * j + 32)
                            =~= filled.subrange(32 * j + 16, 32 * j + 32));
                        lemma_spells_text_extends(
                            self.memory@,
                            before,
                            filled.subrange(32 * j, 32 * j + 16),
                            entries[j].0,
                        );
                        lemma_spells_extends(
                            self.memory@,
                            before,
                            filled.subrange(32 * j + 16, 32 * j + 32),
                            entries[j].1,
                        );
                    } else {
                        assert(slots@.subrange(32 * j, 32 * j + 16) =~= k@);
                        assert(slots@.subrange(32 * j + 16, 32 * j + 32) =~= p@);
                        lemma_spells_text_extends(self.memory@, between, k@, entries[j].0);
                    }
                }
            }
            i = i + 1;
        }
        assert(entries.take(i as int) =~= entries);
        let ghost before = self.memory@;
        let ghost filled = slots@;
        let base: u64 = self.place(slots);
        let p = JsonValue::container(TAG_OBJECT, members.len() as u32, base);
        proof {
            assert forall|j: int| 0 <= j < entries.len() implies text_stored(
                self.memory@,
                target_of(p@) + 32 * j,
                (#[trigger] entries[j]).0,
            ) && stored(self.memory@, target_of(p@) + 32 * j + 16, entries[j].1) by {
                lemma_holds_read(self.memory@, base as int, filled, 32 * j, 16);
                lemma_holds_read(self.memory@, base as int, filled, 32 * j + 16, 16);
                lemma_spells_text_extends(
                    self.memory@,
                    before,
                    filled.subrange(32 * j, 32 * j + 16),
                    entries[j].0,
                );
                lemma_spells_extends(
                    self.memory@,
                    before,
                    filled.subrange(32 * j + 16, 32 * j + 32),
                    entries[j].1,
                );
            }
            lemma_extends_trans(self.memory@, before, origin);
        }
        p
    }
}

/// Lays `v` out in a fresh memory image from `base` upwards, the packed
/// value of `v` itself last, and returns the image with the address of that
/// packed value. Decoding there gives `v` back.
pub fn encode(v: &Value, base: u64) -> (r: Result<(Memory, u64), EncodeError>)
    ensures
        match r {
            Ok((mem, root)) => {
                &&& encodable(v@)
                &&& base + footprint(v@) + 16 <= ADDRESS_SPACE
                &&& root == base + footprint(v@)
                &&& stored(mem@, root as int, v@)
                &&& forall|depth: nat|
                    v@.wf() && nests_within(v@, depth) ==> #[trigger] decode_value_spec(
                        mem@,
                        root as int,
                        depth,
                    ) == Ok::<Tree, DecodeError>(v@)
            },
            Err(EncodeError::Unencodable) => !encodable(v@),
            Err(EncodeError::OutOfSpace) => encodable(v@) && base + footprint(v@) + 16
                > ADDRESS_SPACE,
        },
{
    let needed: u64 = match measure(v) {
        Some(n) => n,
        None => {
            return Err(EncodeError::Unencodable);
        },
    };
    if base > ADDRESS_SPACE || needed > ADDRESS_SPACE - base || ADDRESS_SPACE - base - needed
        < 16 {
        return Err(EncodeError::OutOfSpace);
    }
    let mut encoder = Encoder::new(base);
    let p = encoder.write(v);
    let ghost before = encoder.memory@;
    let root: u64 = encoder.place(slice_to_vec(p.bytes.as_slice()));
    proof {
        lemma_holds_read(encoder.memory@, root as int, p@, 0, 16);
        assert(p@.subrange(0, 16) =~= p@);
        lemma_spells_extends(encoder.memory@, before, p@, v@);
        assert forall|depth: nat| v@.wf() && nests_within(v@, depth) implies #[trigger] decode_value_spec(
            encoder.memory@,
            root as int,
            depth,
        ) == Ok::<Tree, DecodeError>(v@) by {
            lemma_round_trip(encoder.memory@, root as int, v@, depth);
        }
    }
    Ok((encoder.memory, root))
}

} // verus!
