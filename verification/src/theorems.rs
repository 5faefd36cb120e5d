//! What holds of every decoding, stated over `decode_value_spec` and the
//! functions it is made of.

use crate::bw::{count_of, inline_of, tag_of, target_of};
use crate::decode::{
    decode_items_spec, decode_members_spec, decode_value_spec, key_of, placeholder_key,
    DecodeError,
};
use crate::memory::{extends, lemma_read_extends, read};
use crate::text::{lemma_text_of_valid, text_of};
use crate::value::{distinct_keys, lemma_key_absent, lemma_put_distinct, put, Tree};
use vstd::prelude::*;
use vstd::utf8::{encode_utf8, valid_utf8};

verus! {

/// A packed value with tag 1 decodes to `true` and one with tag 2 to
/// `false`, whatever its other bytes hold and at any depth.
pub proof fn lemma_boolean_tags(mem: Map<int, u8>, addr: int, depth: nat)
    requires
        read(mem, addr, 16) is Some,
    ensures
        tag_of(read(mem, addr, 16)->Some_0) == 1 ==> decode_value_spec(mem, addr, depth) == Ok::<
            Tree,
            DecodeError,
        >(Tree::Boolean(true)),
        tag_of(read(mem, addr, 16)->Some_0) == 2 ==> decode_value_spec(mem, addr, depth) == Ok::<
            Tree,
            DecodeError,
        >(Tree::Boolean(false)),
{
}

/// A packed value whose tag is none of 1 to 6 does not decode.
pub proof fn lemma_unknown_tag(mem: Map<int, u8>, addr: int, depth: nat)
    requires
        read(mem, addr, 16) is Some,
        !(1 <= tag_of(read(mem, addr, 16)->Some_0) <= 6),
    ensures
        decode_value_spec(mem, addr, depth) == Err::<Tree, DecodeError>(DecodeError::UnknownTag),
{
}

/// An inline string whose stored length byte is `l`, at most 13, decodes to
/// the text of the first `13 - l` bytes of the buffer. Where those bytes are
/// valid UTF-8, the text encodes to exactly those bytes.
pub proof fn lemma_inline_string(mem: Map<int, u8>, addr: int, depth: nat)
    requires
        read(mem, addr, 16) is Some,
        tag_of(read(mem, addr, 16)->Some_0) == 5,
        inline_of(read(mem, addr, 16)->Some_0),
        (read(mem, addr, 16)->Some_0)[13] <= 13,
    ensures
        ({
            let b = read(mem, addr, 16)->Some_0;
            let stored = b.subrange(0, 13 - b[13]);
            &&& stored.len() == 13 - b[13]
            &&& decode_value_spec(mem, addr, depth) == Ok::<Tree, DecodeError>(
                Tree::String(text_of(stored)),
            )
            &&& valid_utf8(stored) ==> encode_utf8(text_of(stored)) == stored
        }),
{
    let b = read(mem, addr, 16)->Some_0;
    let stored = b.subrange(0, 13 - b[13]);
    if valid_utf8(stored) {
        lemma_text_of_valid(stored);
    }
}

/// A heap string of length `n` decodes to the text of the `n` bytes at its
/// pointer with the upper 16 bits cleared. Where those bytes are valid
/// UTF-8, the text encodes to exactly those bytes.
pub proof fn lemma_heap_string(mem: Map<int, u8>, addr: int, depth: nat)
    requires
        read(mem, addr, 16) is Some,
        tag_of(read(mem, addr, 16)->Some_0) == 5,
        !inline_of(read(mem, addr, 16)->Some_0),
        read(
            mem,
            target_of(read(mem, addr, 16)->Some_0),
            count_of(read(mem, addr, 16)->Some_0) as nat,
        ) is Some,
    ensures
        ({
            let b = read(mem, addr, 16)->Some_0;
            let stored = read(mem, target_of(b), count_of(b) as nat)->Some_0;
            &&& stored.len() == count_of(b)
            &&& decode_value_spec(mem, addr, depth) == Ok::<Tree, DecodeError>(
                Tree::String(text_of(stored)),
            )
            &&& valid_utf8(stored) ==> encode_utf8(text_of(stored)) == stored
        }),
{
    let b = read(mem, addr, 16)->Some_0;
    let stored = read(mem, target_of(b), count_of(b) as nat)->Some_0;
    if valid_utf8(stored) {
        lemma_text_of_valid(stored);
    }
}

/// What slot `i` of the run at `base` decodes to.
pub open spec fn slot_item(mem: Map<int, u8>, base: int, i: int, depth: nat) -> Result<
    Tree,
    DecodeError,
> {
    decode_value_spec(mem, base + 16 * i, depth)
}

/// A run of slots decodes exactly when each of its slots does, and then to
/// as many items as there are slots, each the decoding of its slot.
pub proof fn lemma_items_each(mem: Map<int, u8>, base: int, count: nat, depth: nat)
    ensures
        decode_items_spec(mem, base, count, depth) is Ok <==> forall|i: int|
            0 <= i < count ==> (#[trigger] slot_item(mem, base, i, depth)) is Ok,
        decode_items_spec(mem, base, count, depth) matches Ok(items) ==> {
            &&& items.len() == count
            &&& forall|i: int|
                0 <= i < count ==> (#[trigger] slot_item(mem, base, i, depth)) == Ok::<
                    Tree,
                    DecodeError,
                >(items[i])
        },
    decreases count,
{
    if count > 0 {
        lemma_items_each(mem, base, (count - 1) as nat, depth);
        assert(slot_item(mem, base, count - 1, depth) == decode_value_spec(
            mem,
            base + 16 * (count - 1),
            depth,
        ));
        if decode_items_spec(mem, base, count, depth) is Ok {
            assert forall|i: int| 0 <= i < count implies (#[trigger] slot_item(
                mem,
                base,
                i,
                depth,
            )) is Ok by {
                if i == count - 1 {
                }
            }
        }
    }
}

/// A run of slots in which one slot does not decode does not decode: one
/// failing item fails the whole array, whatever its siblings hold.
pub proof fn lemma_items_fail_fast(mem: Map<int, u8>, base: int, count: nat, depth: nat, i: int)
    requires
        0 <= i < count,
        slot_item(mem, base, i, depth) is Err,
    ensures
        decode_items_spec(mem, base, count, depth) is Err,
{
    lemma_items_each(mem, base, count, depth);
}

/// The key that slot pair `i` of the run at `base` contributes.
pub open spec fn slot_key(mem: Map<int, u8>, base: int, i: int, depth: nat) -> Result<
    Seq<char>,
    DecodeError,
> {
    key_of(decode_value_spec(mem, base + 32 * i, depth))
}

/// The value that slot pair `i` of the run at `base` contributes.
pub open spec fn slot_value(mem: Map<int, u8>, base: int, i: int, depth: nat) -> Result<
    Tree,
    DecodeError,
> {
    decode_value_spec(mem, base + 32 * i + 16, depth)
}

/// A run of slot pairs decodes exactly when each key slot yields a key and
/// each value slot decodes. The object built then has at most one pair per
/// slot pair and no key twice, and every pair of it holds the value of some
/// slot pair under that slot pair's key.
pub proof fn lemma_members_each(mem: Map<int, u8>, base: int, count: nat, depth: nat)
    ensures
        decode_members_spec(mem, base, count, depth) is Ok <==> forall|i: int|
            0 <= i < count ==> (#[trigger] slot_key(mem, base, i, depth)) is Ok && slot_value(
                mem,
                base,
                i,
                depth,
            ) is Ok,
        decode_members_spec(mem, base, count, depth) matches Ok(entries) ==> {
            &&& entries.len() <= count
            &&& distinct_keys(entries)
            &&& forall|j: int|
                0 <= j < entries.len() ==> exists|i: int|
                    0 <= i < count && slot_key(mem, base, i, depth) == Ok::<
                        Seq<char>,
                        DecodeError,
                    >((#[trigger] entries[j]).0) && slot_value(mem, base, i, depth) == Ok::<
                        Tree,
                        DecodeError,
                    >(entries[j].1)
        },
    decreases count,
{
    if count > 0 {
        let before = (count - 1) as nat;
        lemma_members_each(mem, base, before, depth);
        assert(slot_key(mem, base, count - 1, depth) == key_of(
            decode_value_spec(mem, base + 32 * (count - 1), depth),
        ));
        assert(slot_value(mem, base, count - 1, depth) == decode_value_spec(
            mem,
            base + 32 * (count - 1) + 16,
            depth,
        ));
        match decode_members_spec(mem, base, count, depth) {
            Ok(entries) => {
                let prefix = decode_members_spec(mem, base, before, depth)->Ok_0;
                let key = slot_key(mem, base, count - 1, depth)->Ok_0;
                let value = slot_value(mem, base, count - 1, depth)->Ok_0;
                assert(entries == put(prefix, key, value));
                lemma_put_distinct(prefix, key, value);
                assert forall|i: int| 0 <= i < count implies (#[trigger] slot_key(
                    mem,
                    base,
                    i,
                    depth,
                )) is Ok && slot_value(mem, base, i, depth) is Ok by {
                    if i == count - 1 {
                    }
                }
                assert forall|j: int| 0 <= j < entries.len() implies exists|i: int|
                    0 <= i < count && slot_key(mem, base, i, depth) == Ok::<
                        Seq<char>,
                        DecodeError,
                    >((#[trigger] entries[j]).0) && slot_value(mem, base, i, depth) == Ok::<
                        Tree,
                        DecodeError,
                    >(entries[j].1) by {
                    if entries[j] == (key, value) {
                        let i = count - 1;
                        assert(0 <= i < count && slot_key(mem, base, i, depth) == Ok::<
                            Seq<char>,
                            DecodeError,
                        >(entries[j].0) && slot_value(mem, base, i, depth) == Ok::<
                            Tree,
                            DecodeError,
                        >(entries[j].1));
                    } else {
                        assert(entries[j] == prefix[j]);
                        let i = choose|i: int|
                            0 <= i < before && slot_key(mem, base, i, depth) == Ok::<
                                Seq<char>,
                                DecodeError,
                            >(prefix[j].0) && slot_value(mem, base, i, depth) == Ok::<
                                Tree,
                                DecodeError,
                            >(prefix[j].1);
                        assert(0 <= i < count && slot_key(mem, base, i, depth) == Ok::<
                            Seq<char>,
                            DecodeError,
                        >(entries[j].0) && slot_value(mem, base, i, depth) == Ok::<
                            Tree,
                            DecodeError,
                        >(entries[j].1));
                    }
                }
            },
            Err(_) => {},
        }
    }
}

/// A run of no slot pairs builds the empty object. A run of `count` slot
/// pairs whose keys all differ builds an object of exactly `count` pairs,
/// pair `i` holding the key and the value of slot pair `i`.
pub proof fn lemma_members_in_order(mem: Map<int, u8>, base: int, count: nat, depth: nat)
    requires
        decode_members_spec(mem, base, count, depth) is Ok,
        forall|i: int, j: int|
            0 <= i < j < count ==> (#[trigger] slot_key(mem, base, i, depth)) != (
            #[trigger] slot_key(mem, base, j, depth)),
    ensures
        decode_members_spec(mem, base, 0, depth) == Ok::<Seq<(Seq<char>, Tree)>, DecodeError>(
            Seq::empty(),
        ),
        ({
            let entries = decode_members_spec(mem, base, count, depth)->Ok_0;
            &&& entries.len() == count
            &&& forall|i: int|
                0 <= i < count ==> (#[trigger] slot_key(mem, base, i, depth)) == Ok::<
                    Seq<char>,
                    DecodeError,
                >(entries[i].0) && slot_value(mem, base, i, depth) == Ok::<Tree, DecodeError>(
                    entries[i].1,
                )
        }),
    decreases count,
{
    if count > 0 {
        let before = (count - 1) as nat;
        lemma_members_in_order(mem, base, before, depth);
        let prefix = decode_members_spec(mem, base, before, depth)->Ok_0;
        let entries = decode_members_spec(mem, base, count, depth)->Ok_0;
        let key = slot_key(mem, base, count - 1, depth)->Ok_0;
        let value = slot_value(mem, base, count - 1, depth)->Ok_0;
        assert(entries == put(prefix, key, value));
        assert forall|j: int| 0 <= j < prefix.len() implies (#[trigger] prefix[j]).0 != key by {
            assert(slot_key(mem, base, j, depth) != slot_key(mem, base, count - 1, depth));
        }
        lemma_key_absent(prefix, key);
        assert forall|i: int| 0 <= i < count implies (#[trigger] slot_key(mem, base, i, depth))
            == Ok::<Seq<char>, DecodeError>(entries[i].0) && slot_value(mem, base, i, depth)
            == Ok::<Tree, DecodeError>(entries[i].1) by {
            if i < count - 1 {
                assert(entries[i] == prefix[i]);
            }
        }
    }
}

/// A key slot that decodes to anything but a string, or that holds an
/// unknown tag, contributes the placeholder key, and the object goes on
/// being built: the pair is inserted under that key.
pub proof fn lemma_placeholder_key(mem: Map<int, u8>, base: int, count: nat, depth: nat)
    requires
        decode_members_spec(mem, base, count, depth) is Ok,
        match decode_value_spec(mem, base + 32 * count, depth) {
            Ok(key) => !(key is String),
            Err(e) => e == DecodeError::UnknownTag,
        },
        decode_value_spec(mem, base + 32 * count + 16, depth) is Ok,
    ensures
        slot_key(mem, base, count as int, depth) == Ok::<Seq<char>, DecodeError>(
            placeholder_key(),
        ),
        decode_members_spec(mem, base, count + 1, depth) == Ok::<
            Seq<(Seq<char>, Tree)>,
            DecodeError,
        >(
            put(
                decode_members_spec(mem, base, count, depth)->Ok_0,
                placeholder_key(),
                decode_value_spec(mem, base + 32 * count + 16, depth)->Ok_0,
            ),
        ),
{
}

/// A run of slot pairs in which one value slot does not decode does not
/// decode: one failing member fails the whole object.
pub proof fn lemma_members_fail_fast(mem: Map<int, u8>, base: int, count: nat, depth: nat, i: int)
    requires
        0 <= i < count,
        slot_value(mem, base, i, depth) is Err,
    ensures
        decode_members_spec(mem, base, count, depth) is Err,
{
    lemma_members_each(mem, base, count, depth);
    if decode_members_spec(mem, base, count, depth) is Ok {
        assert(slot_key(mem, base, i, depth) is Ok && slot_value(mem, base, i, depth) is Ok);
    }
}

/// An array with an item that does not decode does not decode, whatever
/// its other items hold. The array may itself be an item or a member of a
/// container, which then fails in turn, and so on up to the root.
pub proof fn lemma_array_fail_fast(mem: Map<int, u8>, addr: int, below: nat, i: int)
    requires
        read(mem, addr, 16) is Some,
        tag_of(read(mem, addr, 16)->Some_0) == 4,
        0 <= i < count_of(read(mem, addr, 16)->Some_0),
        slot_item(mem, target_of(read(mem, addr, 16)->Some_0), i, below) is Err,
    ensures
        decode_value_spec(mem, addr, below + 1) is Err,
{
    let b = read(mem, addr, 16)->Some_0;
    lemma_items_fail_fast(mem, target_of(b), count_of(b) as nat, below, i);
}

/// An object with a member whose value does not decode does not decode,
/// whatever its other members hold. The object may itself be an item or a
/// member of a container, which then fails in turn, and so on up to the
/// root.
pub proof fn lemma_object_fail_fast(mem: Map<int, u8>, addr: int, below: nat, i: int)
    requires
        read(mem, addr, 16) is Some,
        tag_of(read(mem, addr, 16)->Some_0) == 3,
        0 <= i < count_of(read(mem, addr, 16)->Some_0),
        slot_value(mem, target_of(read(mem, addr, 16)->Some_0), i, below) is Err,
    ensures
        decode_value_spec(mem, addr, below + 1) is Err,
{
    let b = read(mem, addr, 16)->Some_0;
    lemma_members_fail_fast(mem, target_of(b), count_of(b) as nat, below, i);
}

/// Every decoded tree is well formed: no object in it holds a key twice.
pub proof fn lemma_decoded_wf(mem: Map<int, u8>, addr: int, depth: nat)
    ensures
        decode_value_spec(mem, addr, depth) matches Ok(tree) ==> tree.wf(),
    decreases depth,
{
    match decode_value_spec(mem, addr, depth) {
        Ok(Tree::Array(items)) => {
            let b = read(mem, addr, 16)->Some_0;
            let below = (depth - 1) as nat;
            lemma_items_each(mem, target_of(b), count_of(b) as nat, below);
            assert forall|i: int| 0 <= i < items.len() implies (#[trigger] items[i]).wf() by {
                assert(slot_item(mem, target_of(b), i, below) == Ok::<Tree, DecodeError>(items[i]));
                lemma_decoded_wf(mem, target_of(b) + 16 * i, below);
            }
        },
        Ok(Tree::Object(entries)) => {
            let b = read(mem, addr, 16)->Some_0;
            let below = (depth - 1) as nat;
            lemma_members_each(mem, target_of(b), count_of(b) as nat, below);
            assert forall|j: int| 0 <= j < entries.len() implies (#[trigger] entries[j]).1.wf() by {
                let i = choose|i: int|
                    0 <= i < count_of(b) as nat && slot_key(mem, target_of(b), i, below) == Ok::<
                        Seq<char>,
                        DecodeError,
                    >(entries[j].0) && slot_value(mem, target_of(b), i, below) == Ok::<
                        Tree,
                        DecodeError,
                    >(entries[j].1);
                lemma_decoded_wf(mem, target_of(b) + 32 * i + 16, below);
            }
        },
        _ => {},
    }
}

/// The depth limit refuses, it never alters: an outcome other than
/// `TooDeep` is the outcome at every greater depth.
pub proof fn lemma_depth_monotone(mem: Map<int, u8>, addr: int, depth: nat, deeper: nat)
    requires
        depth <= deeper,
        decode_value_spec(mem, addr, depth) != Err::<Tree, DecodeError>(DecodeError::TooDeep),
    ensures
        decode_value_spec(mem, addr, deeper) == decode_value_spec(mem, addr, depth),
    decreases depth, 0nat,
{
    match read(mem, addr, 16) {
        Some(b) => {
            if depth > 0 && tag_of(b) == 4 {
                lemma_items_depth_monotone(
                    mem,
                    target_of(b),
                    count_of(b) as nat,
                    (depth - 1) as nat,
                    (deeper - 1) as nat,
                );
            }
            if depth > 0 && tag_of(b) == 3 {
                lemma_members_depth_monotone(
                    mem,
                    target_of(b),
                    count_of(b) as nat,
                    (depth - 1) as nat,
                    (deeper - 1) as nat,
                );
            }
        },
        None => {},
    }
}

/// A run of slots whose outcome is not `TooDeep` has that outcome at every
/// greater depth.
pub proof fn lemma_items_depth_monotone(
    mem: Map<int, u8>,
    base: int,
    count: nat,
    depth: nat,
    deeper: nat,
)
    requires
        depth <= deeper,
        decode_items_spec(mem, base, count, depth) != Err::<Seq<Tree>, DecodeError>(
            DecodeError::TooDeep,
        ),
    ensures
        decode_items_spec(mem, base, count, deeper) == decode_items_spec(mem, base, count, depth),
    decreases depth, count + 1,
{
    if count > 0 {
        lemma_items_depth_monotone(mem, base, (count - 1) as nat, depth, deeper);
        if decode_items_spec(mem, base, (count - 1) as nat, depth) is Ok {
            lemma_depth_monotone(mem, base + 16 * (count - 1), depth, deeper);
        }
    }
}

/// A run of slot pairs whose outcome is not `TooDeep` has that outcome at
/// every greater depth.
pub proof fn lemma_members_depth_monotone(
    mem: Map<int, u8>,
    base: int,
    count: nat,
    depth: nat,
    deeper: nat,
)
    requires
        depth <= deeper,
        decode_members_spec(mem, base, count, depth) != Err::<
            Seq<(Seq<char>, Tree)>,
            DecodeError,
        >(DecodeError::TooDeep),
    ensures
        decode_members_spec(mem, base, count, deeper) == decode_members_spec(
            mem,
            base,
            count,
            depth,
        ),
    decreases depth, count + 1,
{
    if count > 0 {
        lemma_members_depth_monotone(mem, base, (count - 1) as nat, depth, deeper);
        if decode_members_spec(mem, base, (count - 1) as nat, depth) is Ok {
            lemma_depth_monotone(mem, base + 32 * (count - 1), depth, deeper);
            if key_of(decode_value_spec(mem, base + 32 * (count - 1), depth)) is Ok {
                lemma_depth_monotone(mem, base + 32 * (count - 1) + 16, depth, deeper);
            }
        }
    }
}

/// Whether an outcome is the report of unreadable memory.
pub open spec fn is_unreadable<T>(r: Result<T, DecodeError>) -> bool {
    r matches Err(DecodeError::Unreadable { .. })
}

/// Decoding looks at nothing but the bytes it reads: an outcome other than
/// `Unreadable` is the outcome in every memory that extends this one.
pub proof fn lemma_decode_extends(
    larger: Map<int, u8>,
    smaller: Map<int, u8>,
    addr: int,
    depth: nat,
)
    requires
        extends(larger, smaller),
        !is_unreadable(decode_value_spec(smaller, addr, depth)),
    ensures
        decode_value_spec(larger, addr, depth) == decode_value_spec(smaller, addr, depth),
    decreases depth, 0nat,
{
    match read(smaller, addr, 16) {
        Some(b) => {
            lemma_read_extends(larger, smaller, addr, 16);
            if depth > 0 && tag_of(b) == 4 {
                lemma_items_extend(
                    larger,
                    smaller,
                    target_of(b),
                    count_of(b) as nat,
                    (depth - 1) as nat,
                );
            }
            if depth > 0 && tag_of(b) == 3 {
                lemma_members_extend(
                    larger,
                    smaller,
                    target_of(b),
                    count_of(b) as nat,
                    (depth - 1) as nat,
                );
            }
            if tag_of(b) == 5 && !inline_of(b) {
                lemma_read_extends(larger, smaller, target_of(b), count_of(b) as nat);
            }
        },
        None => {},
    }
}

/// A run of slots whose outcome is not `Unreadable` has that outcome in
/// every memory that extends this one.
pub proof fn lemma_items_extend(
    larger: Map<int, u8>,
    smaller: Map<int, u8>,
    base: int,
    count: nat,
    depth: nat,
)
    requires
        extends(larger, smaller),
        !is_unreadable(decode_items_spec(smaller, base, count, depth)),
    ensures
        decode_items_spec(larger, base, count, depth) == decode_items_spec(
            smaller,
            base,
            count,
            depth,
        ),
    decreases depth, count + 1,
{
    if count > 0 {
        lemma_items_extend(larger, smaller, base, (count - 1) as nat, depth);
        if decode_items_spec(smaller, base, (count - 1) as nat, depth) is Ok {
            lemma_decode_extends(larger, smaller, base + 16 * (count - 1), depth);
        }
    }
}

/// A run of slot pairs whose outcome is not `Unreadable` has that outcome
/// in every memory that extends this one.
pub proof fn lemma_members_extend(
    larger: Map<int, u8>,
    smaller: Map<int, u8>,
    base: int,
    count: nat,
    depth: nat,
)
    requires
        extends(larger, smaller),
        !is_unreadable(decode_members_spec(smaller, base, count, depth)),
    ensures
        decode_members_spec(larger, base, count, depth) == decode_members_spec(
            smaller,
            base,
            count,
            depth,
        ),
    decreases depth, count + 1,
{
    if count > 0 {
        lemma_members_extend(larger, smaller, base, (count - 1) as nat, depth);
        if decode_members_spec(smaller, base, (count - 1) as nat, depth) is Ok {
            lemma_decode_extends(larger, smaller, base + 32 * (count - 1), depth);
            if key_of(decode_value_spec(smaller, base + 32 * (count - 1), depth)) is Ok {
                lemma_decode_extends(larger, smaller, base + 32 * (count - 1) + 16, depth);
            }
        }
    }
}

/// A range that decoding reports as unreadable is not wholly mapped.
pub proof fn lemma_unreadable_is_unread(mem: Map<int, u8>, addr: int, depth: nat)
    requires
        0 <= addr <= u64::MAX,
    ensures
        decode_value_spec(mem, addr, depth) matches Err(DecodeError::Unreadable { addr: at, len })
            ==> read(mem, at as int, len as nat) is None,
    decreases depth, 0nat,
{
    match read(mem, addr, 16) {
        Some(b) => {
            assert(0 <= count_of(b) <= u32::MAX);
            if depth > 0 && tag_of(b) == 4 {
                lemma_items_unreadable_is_unread(
                    mem,
                    target_of(b),
                    count_of(b) as nat,
                    (depth - 1) as nat,
                );
            }
            if depth > 0 && tag_of(b) == 3 {
                lemma_members_unreadable_is_unread(
                    mem,
                    target_of(b),
                    count_of(b) as nat,
                    (depth - 1) as nat,
                );
            }
        },
        None => {},
    }
}

/// A range that decoding a run of slots reports as unreadable is not
/// wholly mapped.
pub proof fn lemma_items_unreadable_is_unread(mem: Map<int, u8>, base: int, count: nat, depth: nat)
    requires
        0 <= base < 0x1_0000_0000_0000,
        count <= u32::MAX,
    ensures
        decode_items_spec(mem, base, count, depth) matches Err(
            DecodeError::Unreadable { addr: at, len },
        ) ==> read(mem, at as int, len as nat) is None,
    decreases depth, count + 1,
{
    if count > 0 {
        lemma_items_unreadable_is_unread(mem, base, (count - 1) as nat, depth);
        lemma_unreadable_is_unread(mem, base + 16 * (count - 1), depth);
    }
}

/// A range that decoding a run of slot pairs reports as unreadable is not
/// wholly mapped.
pub proof fn lemma_members_unreadable_is_unread(
    mem: Map<int, u8>,
    base: int,
    count: nat,
    depth: nat,
)
    requires
        0 <= base < 0x1_0000_0000_0000,
        count <= u32::MAX,
    ensures
        decode_members_spec(mem, base, count, depth) matches Err(
            DecodeError::Unreadable { addr: at, len },
        ) ==> read(mem, at as int, len as nat) is None,
    decreases depth, count + 1,
{
    if count > 0 {
        lemma_members_unreadable_is_unread(mem, base, (count - 1) as nat, depth);
        lemma_unreadable_is_unread(mem, base + 32 * (count - 1), depth);
        lemma_unreadable_is_unread(mem, base + 32 * (count - 1) + 16, depth);
    }
}

} // verus!
