use bw_json::decode::{
    decode_items, decode_members, decode_string, decode_value, json_value_from_bw, DecodeError,
    MAX_DEPTH,
};
use bw_json::bw::JsonValue;
use bw_json::memory::Memory;
use bw_json::value::{Member, Value};

/// Sixteen bytes: fourteen of payload, then the flags, low byte first.
fn packed(payload: [u8; 14], flags: u16) -> Vec<u8> {
    let mut bytes = payload.to_vec();
    bytes.extend_from_slice(&flags.to_le_bytes());
    bytes
}

/// A container header or heap string: count, capacity, 48-bit address, flags.
fn header(count: u32, address: u64, flags: u16) -> Vec<u8> {
    let mut bytes = count.to_le_bytes().to_vec();
    bytes.extend_from_slice(&count.to_le_bytes());
    bytes.extend_from_slice(&address.to_le_bytes()[..6]);
    bytes.extend_from_slice(&flags.to_le_bytes());
    bytes
}

fn with_flags(flags: u16) -> Vec<u8> {
    packed([0; 14], flags)
}

fn number(n: i64) -> Vec<u8> {
    let mut payload = [0u8; 14];
    payload[..8].copy_from_slice(&n.to_le_bytes());
    packed(payload, 6)
}

fn inline(text: &[u8]) -> Vec<u8> {
    let mut payload = [0u8; 14];
    payload[..text.len()].copy_from_slice(text);
    payload[13] = 13 - text.len() as u8;
    packed(payload, 0x1005)
}

fn text(s: &str) -> Value {
    Value::String(s.to_string())
}

fn member(key: &str, value: Value) -> Member {
    Member { key: key.to_string(), value }
}

fn memory_of(regions: Vec<(u64, Vec<u8>)>) -> Memory {
    let mut mem = Memory::new();
    for (base, bytes) in regions {
        mem.map(base, bytes);
    }
    mem
}

#[test]
fn tag_one_is_true() {
    let mem = memory_of(vec![(0x1000, with_flags(1))]);
    assert_eq!(json_value_from_bw(&mem, 0x1000), Some(Value::Boolean(true)));
}

#[test]
fn tag_two_is_false() {
    let mem = memory_of(vec![(0x1000, with_flags(2))]);
    assert_eq!(json_value_from_bw(&mem, 0x1000), Some(Value::Boolean(false)));
}

#[test]
fn booleans_ignore_payload_and_upper_flag_bits() {
    let mem = memory_of(vec![
        (0x1000, packed([0xAB; 14], 0xFFF9)),
        (0x2000, packed([0xCD; 14], 0x0F0A)),
    ]);
    assert_eq!(json_value_from_bw(&mem, 0x1000), Some(Value::Boolean(true)));
    assert_eq!(json_value_from_bw(&mem, 0x2000), Some(Value::Boolean(false)));
}

#[test]
fn tag_zero_is_unknown() {
    let mem = memory_of(vec![(0x1000, with_flags(0))]);
    assert_eq!(decode_value(&mem, 0x1000, 4), Err(DecodeError::UnknownTag));
    assert_eq!(json_value_from_bw(&mem, 0x1000), None);
}

#[test]
fn tag_seven_is_unknown() {
    let mem = memory_of(vec![(0x1000, with_flags(7))]);
    assert_eq!(decode_value(&mem, 0x1000, 4), Err(DecodeError::UnknownTag));
    assert_eq!(json_value_from_bw(&mem, 0x1000), None);
}

#[test]
fn unknown_tag_with_upper_flag_bits() {
    let mem = memory_of(vec![(0x1000, with_flags(0x1008)), (0x2000, with_flags(0xFFFF))]);
    assert_eq!(json_value_from_bw(&mem, 0x1000), None);
    assert_eq!(json_value_from_bw(&mem, 0x2000), None);
}

#[test]
fn numbers_are_signed_64_bit() {
    for n in [0i64, 1, -1, 7, 255, 256, -256, i64::MAX, i64::MIN, 0x0123_4567_89AB_CDEF] {
        let mem = memory_of(vec![(0x40, number(n))]);
        assert_eq!(json_value_from_bw(&mem, 0x40), Some(Value::Number(n)));
    }
}

#[test]
fn number_ignores_bytes_after_payload() {
    let mut bytes = number(-2);
    bytes[8] = 0x77;
    bytes[13] = 0x99;
    let mem = memory_of(vec![(0x40, bytes)]);
    assert_eq!(json_value_from_bw(&mem, 0x40), Some(Value::Number(-2)));
}

#[test]
fn inline_string_lengths() {
    let source = b"abcdefghijklm";
    for len in 0..=13usize {
        let mem = memory_of(vec![(0x100, inline(&source[..len]))]);
        let expected = String::from_utf8(source[..len].to_vec()).unwrap();
        assert_eq!(json_value_from_bw(&mem, 0x100), Some(Value::String(expected)));
    }
}

#[test]
fn inline_string_of_thirteen_bytes_is_not_truncated() {
    let bytes = inline(b"0123456789abc");
    assert_eq!(bytes[13], 0);
    let mem = memory_of(vec![(0x100, bytes)]);
    match json_value_from_bw(&mem, 0x100) {
        Some(Value::String(s)) => {
            assert_eq!(s.len(), 13);
            assert_eq!(s, "0123456789abc");
        }
        other => panic!("unexpected {:?}", other),
    }
}

#[test]
fn inline_string_reads_only_its_length() {
    let mut payload = [b'x'; 14];
    payload[13] = 10;
    let mem = memory_of(vec![(0x100, packed(payload, 0x1005))]);
    assert_eq!(json_value_from_bw(&mem, 0x100), Some(text("xxx")));
}

#[test]
fn inline_length_byte_above_capacity_gives_empty_string() {
    for stored in [14u8, 15, 200, 255] {
        let mut payload = [b'x'; 14];
        payload[13] = stored;
        let mem = memory_of(vec![(0x100, packed(payload, 0x1005))]);
        assert_eq!(json_value_from_bw(&mem, 0x100), Some(text("")));
    }
}

#[test]
fn inline_string_with_multibyte_text() {
    let mem = memory_of(vec![(0x100, inline("héllo ✓".as_bytes()))]);
    assert_eq!(json_value_from_bw(&mem, 0x100), Some(text("héllo ✓")));
}

#[test]
fn inline_string_with_invalid_utf8_is_repaired() {
    let mem = memory_of(vec![(0x100, inline(&[b'a', 0xFF, b'b']))]);
    assert_eq!(json_value_from_bw(&mem, 0x100), Some(text("a\u{FFFD}b")));
}

#[test]
fn heap_string_reads_length_bytes_at_pointer() {
    let mem = memory_of(vec![
        (0x100, header(26, 0x5000, 5)),
        (0x5000, b"abcdefghijklmnopqrstuvwxyz and more".to_vec()),
    ]);
    assert_eq!(json_value_from_bw(&mem, 0x100), Some(text("abcdefghijklmnopqrstuvwxyz")));
}

#[test]
fn heap_string_pointer_is_masked() {
    // The flags overlay the top 16 bits of the pointer word.
    let bytes = header(5, 0x0000_1234_5678_9ABC, 0xA505);
    let raw = u64::from_le_bytes(bytes[8..16].try_into().unwrap());
    assert_eq!(raw >> 48, 0xA505);
    let mem = memory_of(vec![(0x100, bytes), (0x0000_1234_5678_9ABC, b"hello".to_vec())]);
    assert_eq!(json_value_from_bw(&mem, 0x100), Some(text("hello")));
}

#[test]
fn heap_string_of_length_zero_reads_nothing() {
    let mem = memory_of(vec![(0x100, header(0, 0xDEAD_0000, 5))]);
    assert_eq!(json_value_from_bw(&mem, 0x100), Some(text("")));
}

#[test]
fn heap_string_with_invalid_utf8_is_repaired() {
    let mem = memory_of(vec![(0x100, header(4, 0x5000, 5)), (0x5000, vec![0xC3, 0x28, b'o', b'k'])]);
    assert_eq!(json_value_from_bw(&mem, 0x100), Some(text("\u{FFFD}(ok")));
}

#[test]
fn heap_string_with_unmapped_bytes_is_unreadable() {
    let mem = memory_of(vec![(0x100, header(8, 0x5000, 5)), (0x5000, b"short".to_vec())]);
    assert_eq!(
        decode_value(&mem, 0x100, 4),
        Err(DecodeError::Unreadable { addr: 0x5000, len: 8 })
    );
    assert_eq!(json_value_from_bw(&mem, 0x100), None);
}

#[test]
fn decode_string_takes_a_packed_value() {
    let mem = Memory::new();
    let packed = JsonValue::from_bytes(&inline(b"tiny"));
    assert_eq!(decode_string(&mem, &packed), Ok(text("tiny")));
}

#[test]
fn unmapped_root_is_unreadable() {
    let mem = memory_of(vec![(0x100, vec![1; 15])]);
    assert_eq!(
        decode_value(&mem, 0x100, 4),
        Err(DecodeError::Unreadable { addr: 0x100, len: 16 })
    );
    assert_eq!(
        decode_value(&Memory::new(), u64::MAX, 4),
        Err(DecodeError::Unreadable { addr: u64::MAX, len: 16 })
    );
}

#[test]
fn empty_array() {
    let mem = memory_of(vec![(0x100, header(0, 0, 4))]);
    assert_eq!(json_value_from_bw(&mem, 0x100), Some(Value::Array(vec![])));
}

#[test]
fn array_keeps_slot_order() {
    let mut slots = number(10);
    slots.extend(with_flags(1));
    slots.extend(inline(b"three"));
    slots.extend(number(-4));
    let mem = memory_of(vec![(0x100, header(4, 0x8000, 0x0004)), (0x8000, slots)]);
    assert_eq!(
        json_value_from_bw(&mem, 0x100),
        Some(Value::Array(vec![
            Value::Number(10),
            Value::Boolean(true),
            text("three"),
            Value::Number(-4),
        ]))
    );
}

#[test]
fn array_pointer_is_masked() {
    let mut slots = number(1);
    slots.extend(number(2));
    let mem = memory_of(vec![(0x100, header(2, 0x7FFF_0000_8000, 0xFFFC)), (0x7FFF_0000_8000, slots)]);
    assert_eq!(
        json_value_from_bw(&mem, 0x100),
        Some(Value::Array(vec![Value::Number(1), Value::Number(2)]))
    );
}

#[test]
fn array_reads_entry_count_not_capacity() {
    let mut head = header(1, 0x8000, 4);
    head[4..8].copy_from_slice(&9u32.to_le_bytes());
    let mut slots = number(1);
    slots.extend(number(2));
    let mem = memory_of(vec![(0x100, head), (0x8000, slots)]);
    assert_eq!(json_value_from_bw(&mem, 0x100), Some(Value::Array(vec![Value::Number(1)])));
}

#[test]
fn array_with_one_invalid_item_fails() {
    let mut slots = number(1);
    slots.extend(with_flags(0));
    slots.extend(number(3));
    let mem = memory_of(vec![(0x100, header(3, 0x8000, 4)), (0x8000, slots)]);
    assert_eq!(decode_value(&mem, 0x100, 4), Err(DecodeError::UnknownTag));
    assert_eq!(json_value_from_bw(&mem, 0x100), None);
}

#[test]
fn failure_passes_through_every_ancestor() {
    // object { "a": [ true, [ <tag 7> ] ], "b": 1 }
    let mut inner_slots = with_flags(7);
    inner_slots.extend(number(5));
    let mut outer_slots = with_flags(1);
    outer_slots.extend(header(2, 0x9000, 4));
    let mut pairs = inline(b"a");
    pairs.extend(header(2, 0x8000, 4));
    pairs.extend(inline(b"b"));
    pairs.extend(number(1));
    let mem = memory_of(vec![
        (0x100, header(2, 0x7000, 3)),
        (0x7000, pairs),
        (0x8000, outer_slots),
        (0x9000, inner_slots),
    ]);
    assert_eq!(decode_value(&mem, 0x9000, 4), Err(DecodeError::UnknownTag));
    assert_eq!(decode_value(&mem, 0x8010, 4), Err(DecodeError::UnknownTag));
    assert_eq!(decode_value(&mem, 0x7010, 4), Err(DecodeError::UnknownTag));
    assert_eq!(decode_value(&mem, 0x100, 4), Err(DecodeError::UnknownTag));
    assert_eq!(json_value_from_bw(&mem, 0x100), None);
    // The siblings decode on their own.
    assert_eq!(json_value_from_bw(&mem, 0x9010), Some(Value::Number(5)));
    assert_eq!(json_value_from_bw(&mem, 0x7030), Some(Value::Number(1)));
}

#[test]
fn first_failing_slot_decides_the_error() {
    let mut slots = header(4, 0xAAAA_0000, 5);
    slots.extend(with_flags(0));
    let mem = memory_of(vec![(0x100, header(2, 0x8000, 4)), (0x8000, slots)]);
    assert_eq!(
        decode_value(&mem, 0x100, 4),
        Err(DecodeError::Unreadable { addr: 0xAAAA_0000, len: 4 })
    );
    let mut slots = with_flags(0);
    slots.extend(header(4, 0xAAAA_0000, 5));
    let mem = memory_of(vec![(0x100, header(2, 0x8000, 4)), (0x8000, slots)]);
    assert_eq!(decode_value(&mem, 0x100, 4), Err(DecodeError::UnknownTag));
}

#[test]
fn empty_object() {
    let mem = memory_of(vec![(0x100, header(0, 0, 3))]);
    assert_eq!(json_value_from_bw(&mem, 0x100), Some(Value::Object(vec![])));
}

#[test]
fn object_keeps_slot_order() {
    let mut pairs = inline(b"zeta");
    pairs.extend(number(1));
    pairs.extend(inline(b"alpha"));
    pairs.extend(with_flags(2));
    pairs.extend(header(20, 0x9000, 5));
    pairs.extend(inline(b"v"));
    let mem = memory_of(vec![
        (0x100, header(3, 0x8000, 3)),
        (0x8000, pairs),
        (0x9000, b"a key of twenty byte".to_vec()),
    ]);
    assert_eq!(
        json_value_from_bw(&mem, 0x100),
        Some(Value::Object(vec![
            member("zeta", Value::Number(1)),
            member("alpha", Value::Boolean(false)),
            member("a key of twenty byte", text("v")),
        ]))
    );
}

#[test]
fn non_string_key_becomes_placeholder() {
    let mut pairs = number(12);
    pairs.extend(inline(b"value"));
    let mem = memory_of(vec![(0x100, header(1, 0x8000, 3)), (0x8000, pairs)]);
    assert_eq!(
        json_value_from_bw(&mem, 0x100),
        Some(Value::Object(vec![member("??", text("value"))]))
    );
}

#[test]
fn container_key_becomes_placeholder() {
    let mut pairs = header(0, 0, 4);
    pairs.extend(number(1));
    let mem = memory_of(vec![(0x100, header(1, 0x8000, 3)), (0x8000, pairs)]);
    assert_eq!(
        json_value_from_bw(&mem, 0x100),
        Some(Value::Object(vec![member("??", Value::Number(1))]))
    );
}

#[test]
fn key_with_unknown_tag_becomes_placeholder() {
    let mut pairs = with_flags(0);
    pairs.extend(number(1));
    pairs.extend(inline(b"k"));
    pairs.extend(number(2));
    let mem = memory_of(vec![(0x100, header(2, 0x8000, 3)), (0x8000, pairs)]);
    assert_eq!(
        json_value_from_bw(&mem, 0x100),
        Some(Value::Object(vec![member("??", Value::Number(1)), member("k", Value::Number(2))]))
    );
}

#[test]
fn key_nested_too_deep_is_too_deep() {
    // The key is an array that holds an array.
    let mut pairs = header(1, 0x9000, 4);
    pairs.extend(number(1));
    let mem = memory_of(vec![
        (0x100, header(1, 0x8000, 3)),
        (0x8000, pairs),
        (0x9000, header(0, 0, 4)),
    ]);
    assert_eq!(decode_value(&mem, 0x8000, 1), Err(DecodeError::TooDeep));
    assert_eq!(decode_value(&mem, 0x100, 2), Err(DecodeError::TooDeep));
    assert_eq!(
        decode_value(&mem, 0x100, 3),
        Ok(Value::Object(vec![member("??", Value::Number(1))]))
    );
}

#[test]
fn outcome_within_the_limit_does_not_depend_on_the_limit() {
    let mut pairs = inline(b"k");
    pairs.extend(header(1, 0x9000, 4));
    let mem = memory_of(vec![
        (0x100, header(1, 0x8000, 3)),
        (0x8000, pairs),
        (0x9000, with_flags(7)),
        (0x200, header(1, 0x300, 4)),
        (0x300, number(4)),
    ]);
    for depth in 2..40usize {
        assert_eq!(decode_value(&mem, 0x100, depth), Err(DecodeError::UnknownTag));
    }
    for depth in 1..40usize {
        assert_eq!(decode_value(&mem, 0x200, depth), Ok(Value::Array(vec![Value::Number(4)])));
    }
}

#[test]
fn mapping_more_memory_keeps_a_final_outcome() {
    let mut mem = memory_of(vec![(0x100, header(1, 0x300, 4)), (0x300, inline(b"item"))]);
    let before = decode_value(&mem, 0x100, 8);
    assert_eq!(before, Ok(Value::Array(vec![text("item")])));
    mem.map(0x2F0, vec![0xFF; 0x40]);
    mem.map(0x0, vec![0xEE; 0x1000]);
    assert_eq!(decode_value(&mem, 0x100, 8), before);
}

#[test]
fn unreadable_key_is_reported() {
    let mut pairs = header(5, 0xBBBB_0000, 5);
    pairs.extend(number(1));
    let mem = memory_of(vec![(0x100, header(1, 0x8000, 3)), (0x8000, pairs)]);
    assert_eq!(
        decode_value(&mem, 0x100, 4),
        Err(DecodeError::Unreadable { addr: 0xBBBB_0000, len: 5 })
    );
}

#[test]
fn object_with_invalid_value_fails() {
    let mut pairs = inline(b"a");
    pairs.extend(number(1));
    pairs.extend(inline(b"b"));
    pairs.extend(with_flags(7));
    pairs.extend(inline(b"c"));
    pairs.extend(number(3));
    let mem = memory_of(vec![(0x100, header(3, 0x8000, 3)), (0x8000, pairs)]);
    assert_eq!(decode_value(&mem, 0x100, 4), Err(DecodeError::UnknownTag));
    assert_eq!(json_value_from_bw(&mem, 0x100), None);
}

#[test]
fn repeated_key_keeps_its_place_and_takes_the_last_value() {
    let mut pairs = inline(b"a");
    pairs.extend(number(1));
    pairs.extend(inline(b"b"));
    pairs.extend(number(2));
    pairs.extend(inline(b"a"));
    pairs.extend(number(3));
    let mem = memory_of(vec![(0x100, header(3, 0x8000, 3)), (0x8000, pairs)]);
    assert_eq!(
        json_value_from_bw(&mem, 0x100),
        Some(Value::Object(vec![member("a", Value::Number(3)), member("b", Value::Number(2))]))
    );
}

#[test]
fn two_placeholder_keys_collapse() {
    let mut pairs = number(0);
    pairs.extend(number(1));
    pairs.extend(with_flags(1));
    pairs.extend(number(2));
    let mem = memory_of(vec![(0x100, header(2, 0x8000, 3)), (0x8000, pairs)]);
    assert_eq!(
        json_value_from_bw(&mem, 0x100),
        Some(Value::Object(vec![member("??", Value::Number(2))]))
    );
}

#[test]
fn object_pointer_is_masked() {
    let mut pairs = inline(b"k");
    pairs.extend(number(9));
    let mem = memory_of(vec![(0x100, header(1, 0x0000_0ABC_DEF0_1230, 0x8003)), (0x0000_0ABC_DEF0_1230, pairs)]);
    assert_eq!(
        json_value_from_bw(&mem, 0x100),
        Some(Value::Object(vec![member("k", Value::Number(9))]))
    );
}

#[test]
fn depth_limit_counts_nested_containers() {
    // [[[]]]
    let mem = memory_of(vec![
        (0x100, header(1, 0x200, 4)),
        (0x200, header(1, 0x300, 4)),
        (0x300, header(0, 0, 4)),
    ]);
    let nested = Value::Array(vec![Value::Array(vec![Value::Array(vec![])])]);
    assert_eq!(decode_value(&mem, 0x100, 0), Err(DecodeError::TooDeep));
    assert_eq!(decode_value(&mem, 0x100, 1), Err(DecodeError::TooDeep));
    assert_eq!(decode_value(&mem, 0x100, 2), Err(DecodeError::TooDeep));
    assert_eq!(decode_value(&mem, 0x100, 3), Ok(nested));
    assert_eq!(decode_value(&mem, 0x300, 1), Ok(Value::Array(vec![])));
}

#[test]
fn scalars_need_no_depth() {
    let mem = memory_of(vec![(0x100, number(3)), (0x200, inline(b"s")), (0x300, with_flags(1))]);
    assert_eq!(decode_value(&mem, 0x100, 0), Ok(Value::Number(3)));
    assert_eq!(decode_value(&mem, 0x200, 0), Ok(text("s")));
    assert_eq!(decode_value(&mem, 0x300, 0), Ok(Value::Boolean(true)));
}

#[test]
fn self_referring_array_is_too_deep() {
    let mem = memory_of(vec![(0x100, header(1, 0x100, 4))]);
    assert_eq!(decode_value(&mem, 0x100, MAX_DEPTH), Err(DecodeError::TooDeep));
    assert_eq!(json_value_from_bw(&mem, 0x100), None);
}

#[test]
fn max_depth_is_a_few_hundred() {
    assert_eq!(MAX_DEPTH, 256);
}

#[test]
fn decode_items_reads_a_run_of_slots() {
    let mut slots = number(1);
    slots.extend(number(2));
    slots.extend(with_flags(0));
    let mem = memory_of(vec![(0x8000, slots)]);
    assert_eq!(decode_items(&mem, 0x8000, 0, 0), Ok(vec![]));
    assert_eq!(decode_items(&mem, 0x8000, 2, 0), Ok(vec![Value::Number(1), Value::Number(2)]));
    assert_eq!(decode_items(&mem, 0x8000, 3, 0), Err(DecodeError::UnknownTag));
    assert_eq!(
        decode_items(&mem, 0x8000, 4, 0),
        Err(DecodeError::UnknownTag)
    );
    let mut slots = number(1);
    slots.extend(number(2));
    let mem = memory_of(vec![(0x8000, slots)]);
    assert_eq!(
        decode_items(&mem, 0x8000, 3, 0),
        Err(DecodeError::Unreadable { addr: 0x8020, len: 16 })
    );
}

#[test]
fn decode_members_reads_a_run_of_slot_pairs() {
    let mut pairs = inline(b"x");
    pairs.extend(number(1));
    pairs.extend(inline(b"y"));
    let mem = memory_of(vec![(0x8000, pairs)]);
    assert_eq!(decode_members(&mem, 0x8000, 0, 0), Ok(vec![]));
    assert_eq!(decode_members(&mem, 0x8000, 1, 0), Ok(vec![member("x", Value::Number(1))]));
    assert_eq!(
        decode_members(&mem, 0x8000, 2, 0),
        Err(DecodeError::Unreadable { addr: 0x8030, len: 16 })
    );
}

#[test]
fn nested_message() {
    // {"list": [1, {"deep": "a string that is longer than thirteen bytes"}], "ok": true}
    let long = b"a string that is longer than thirteen bytes".to_vec();
    let mut inner_pairs = inline(b"deep");
    inner_pairs.extend(header(long.len() as u32, 0xA000, 5));
    let mut list_slots = number(1);
    list_slots.extend(header(1, 0x9000, 3));
    let mut root_pairs = inline(b"list");
    root_pairs.extend(header(2, 0x8000, 4));
    root_pairs.extend(inline(b"ok"));
    root_pairs.extend(with_flags(1));
    let mem = memory_of(vec![
        (0x100, header(2, 0x7000, 3)),
        (0x7000, root_pairs),
        (0x8000, list_slots),
        (0x9000, inner_pairs),
        (0xA000, long),
    ]);
    assert_eq!(
        json_value_from_bw(&mem, 0x100),
        Some(Value::Object(vec![
            member(
                "list",
                Value::Array(vec![
                    Value::Number(1),
                    Value::Object(vec![member(
                        "deep",
                        text("a string that is longer than thirteen bytes")
                    )]),
                ])
            ),
            member("ok", Value::Boolean(true)),
        ]))
    );
}
