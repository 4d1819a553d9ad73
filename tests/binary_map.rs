use std::cell::Cell;
use std::collections::HashMap;

use bytes_map::{single_null_buffer, ArrowBytesMap, BytesArray, OffsetWidth, OutputType};

fn batch(values: &[Option<&str>]) -> Vec<Option<Vec<u8>>> {
    values.iter().map(|v| v.map(|s| s.as_bytes().to_vec())).collect()
}

fn bytes_batch(values: &[Option<&[u8]>]) -> Vec<Option<Vec<u8>>> {
    values.iter().map(|v| v.map(|s| s.to_vec())).collect()
}

fn decoded(arr: &BytesArray) -> Vec<Option<Vec<u8>>> {
    let n = arr.offsets.len() - 1;
    (0..n)
        .map(|i| {
            let valid = arr.validity.as_ref().map_or(true, |v| v[i]);
            if valid {
                Some(arr.values[arr.offsets[i]..arr.offsets[i + 1]].to_vec())
            } else {
                None
            }
        })
        .collect()
}

fn strings(arr: &BytesArray) -> Vec<Option<String>> {
    decoded(arr)
        .into_iter()
        .map(|v| v.map(|b| String::from_utf8(b).expect("Non utf8 string")))
        .collect()
}

fn mixed_input() -> Vec<Option<&'static str>> {
    vec![
        Some("A"),
        Some("bcdefghijklmnop"),
        Some("X"),
        Some("Y"),
        None,
        Some("qrstuvqxyzhjwya"),
        Some("✨🔥"),
        Some("🔥"),
        Some("🔥🔥🔥🔥🔥🔥"),
        Some("A"),
        Some("Y"),
    ]
}

#[test]
fn test_insert_or_update_count_u8() {
    let input = mixed_input();
    let mut map: ArrowBytesMap<u8> = ArrowBytesMap::new(OutputType::Utf8, OffsetWidth::Standard);
    map.insert_or_update(&batch(&input), |_| 1u8, |count| count + 1);

    let expected_counts = [
        ("A", 2),
        ("bcdefghijklmnop", 1),
        ("X", 1),
        ("Y", 2),
        ("qrstuvqxyzhjwya", 1),
        ("✨🔥", 1),
        ("🔥", 1),
        ("🔥🔥🔥🔥🔥🔥", 1),
    ];

    for &value in input.iter() {
        if let Some(value) = value {
            let result_payload: Cell<Option<u8>> = Cell::new(None);
            map.insert_or_update(
                &batch(&[Some(value)]),
                |_| {
                    panic!("Unexpected new entry during verification");
                },
                |count| {
                    result_payload.set(Some(count));
                    count
                },
            );
            if let Some(expected_count) = expected_counts.iter().find(|&&(s, _)| s == value) {
                assert_eq!(result_payload.get().unwrap(), expected_count.1);
            }
        }
    }
}

#[test]
fn test_insert_if_new_after_insert_or_update() {
    let mut map: ArrowBytesMap<u8> = ArrowBytesMap::new(OutputType::Utf8, OffsetWidth::Standard);
    map.insert_or_update(
        &batch(&[Some("A"), Some("B"), Some("B"), Some("C"), Some("C")]),
        |_| 1u8,
        |count| count + 1,
    );
    map.insert_if_new(&batch(&[Some("A"), Some("D"), Some("E")]), |_| 5u8);
    let payloads = map.get_payloads(&batch(&[Some("A"), Some("B"), Some("C"), Some("D"), Some("E")]));
    let expected_payloads = [Some(1u8), Some(2u8), Some(2u8), Some(5u8), Some(5u8)];
    assert_eq!(payloads, expected_payloads);
}

#[test]
fn test_get_payloads_u8() {
    let input = mixed_input();
    let mut map: ArrowBytesMap<u8> = ArrowBytesMap::new(OutputType::Utf8, OffsetWidth::Standard);
    map.insert_or_update(&batch(&input), |_| 1u8, |count| count + 1);
    let expected_payloads = [
        Some(2u8),
        Some(1u8),
        Some(1u8),
        Some(2u8),
        Some(1u8),
        Some(1u8),
        Some(1u8),
        Some(1u8),
        Some(1u8),
        Some(2u8),
        Some(2u8),
    ];
    let payloads = map.get_payloads(&batch(&input));
    assert_eq!(payloads.len(), expected_payloads.len());
    for (i, payload) in payloads.iter().enumerate() {
        assert_eq!(*payload, expected_payloads[i]);
    }
}

#[derive(Debug, PartialEq, Eq, Default, Clone, Copy)]
struct TestPayload {
    index: usize,
}

/// Wraps a map, checking what it reports against a plain model.
struct TestMap {
    map: ArrowBytesMap<TestPayload>,
    strings: Vec<Option<String>>,
    indexes: HashMap<Option<String>, usize>,
}

impl TestMap {
    fn new() -> Self {
        TestMap {
            map: ArrowBytesMap::new(OutputType::Utf8, OffsetWidth::Standard),
            strings: vec![],
            indexes: HashMap::new(),
        }
    }

    fn insert(&mut self, strings: &[Option<&str>]) {
        let next_index = Cell::new(self.indexes.len());
        let mut actual_new_strings = vec![];
        let mut actual_seen_indexes = vec![];
        for s in strings {
            let s = s.map(|s| s.to_string());
            let index = match self.indexes.get(&s) {
                Some(&index) => index,
                None => {
                    actual_new_strings.push(s.clone());
                    let index = self.strings.len();
                    self.strings.push(s.clone());
                    self.indexes.insert(s, index);
                    index
                }
            };
            actual_seen_indexes.push(index);
        }

        let seen_new_strings = std::cell::RefCell::new(vec![]);
        let observed = self.map.insert_if_new(&batch(strings), |s| {
            let value = s.map(|s| String::from_utf8(s.to_vec()).expect("Non utf8 string"));
            let index = next_index.get();
            next_index.set(index + 1);
            seen_new_strings.borrow_mut().push(value);
            TestPayload { index }
        });
        let seen_indexes: Vec<usize> = observed.iter().map(|p| p.index).collect();
        assert_eq!(actual_seen_indexes, seen_indexes);
        assert_eq!(actual_new_strings, seen_new_strings.into_inner());
    }

    fn into_array(self) -> BytesArray {
        let arr = self.map.into_state();
        assert_eq!(strings(&arr), self.strings);
        arr
    }
}

#[test]
fn test_map() {
    let input = vec![
        Some("A"),
        Some("bcdefghijklmnop"),
        Some("X"),
        Some("Y"),
        None,
        Some("qrstuvqxyzhjwya"),
        Some("✨🔥"),
        Some("🔥"),
        Some("🔥🔥🔥🔥🔥🔥"),
    ];
    let mut test_map = TestMap::new();
    test_map.insert(&input);
    test_map.insert(&input);
    let arr = test_map.into_array();
    assert_eq!(arr.output_type, OutputType::Utf8);
    assert_eq!(arr.offset_width, OffsetWidth::Standard);
    let expected: Vec<Option<String>> = input.iter().map(|v| v.map(|s| s.to_string())).collect();
    assert_eq!(strings(&arr), expected);
}

#[test]
fn dedup_counts_distinct_keys_and_null() {
    let mut map: ArrowBytesMap<u32> = ArrowBytesMap::new(OutputType::Binary, OffsetWidth::Large);
    let input = batch(&[Some("x"), None, Some("y"), Some("x"), None, Some("a long key, long"), Some("y")]);
    map.insert_if_new(&input, |_| 0u32);
    assert_eq!(map.len(), 4);
    assert_eq!(map.non_null_len(), 3);
    assert!(!map.is_empty());
    let arr = map.into_state();
    let out = decoded(&arr);
    assert_eq!(out.len(), 4);
    for key in &input {
        assert_eq!(out.iter().filter(|k| *k == key).count(), 1);
    }
}

#[test]
fn output_keeps_first_seen_order_across_batches() {
    let mut map: ArrowBytesMap<u8> = ArrowBytesMap::new(OutputType::Utf8, OffsetWidth::Standard);
    map.insert_if_new(&batch(&[Some("c"), Some("a"), Some("c")]), |_| 0u8);
    map.insert_or_update(&batch(&[Some("b"), Some("a"), None, Some("d")]), |_| 0u8, |v| v);
    map.insert_if_new(&batch(&[Some("d"), Some("e"), None, Some("c")]), |_| 0u8);
    let arr = map.into_state();
    assert_eq!(
        strings(&arr),
        vec![
            Some("c".to_string()),
            Some("a".to_string()),
            Some("b".to_string()),
            None,
            Some("d".to_string()),
            Some("e".to_string()),
        ]
    );
}

#[test]
fn round_trip_of_short_long_and_null_keys() {
    let mut map: ArrowBytesMap<u8> = ArrowBytesMap::new(OutputType::Utf8, OffsetWidth::Standard);
    map.insert_if_new(&batch(&[Some("A"), Some("bcdefghijklmnop"), None, Some("🔥🔥🔥🔥🔥🔥"), Some("A")]), |_| 0u8);
    let arr = map.into_state();
    assert_eq!(
        strings(&arr),
        vec![Some("A".to_string()), Some("bcdefghijklmnop".to_string()), None, Some("🔥🔥🔥🔥🔥🔥".to_string())]
    );
    assert_eq!(arr.offsets, vec![0, 1, 16, 16, 40]);
    assert_eq!(arr.validity, Some(vec![true, true, false, true]));
    assert_eq!(arr.output_type, OutputType::Utf8);
    assert_eq!(arr.offset_width, OffsetWidth::Standard);
}

#[test]
fn counting_with_update_then_lookup() {
    let mut map: ArrowBytesMap<u8> = ArrowBytesMap::new(OutputType::Utf8, OffsetWidth::Standard);
    map.insert_or_update(&batch(&[Some("A"), Some("B"), Some("B"), Some("C"), Some("C")]), |_| 1u8, |c| c + 1);
    let payloads = map.get_payloads(&batch(&[Some("A"), Some("B"), Some("C"), Some("D")]));
    assert_eq!(payloads, vec![Some(1), Some(2), Some(2), None]);
}

#[test]
fn observe_leaves_counted_payloads_alone() {
    let mut map: ArrowBytesMap<u8> = ArrowBytesMap::new(OutputType::Utf8, OffsetWidth::Standard);
    map.insert_or_update(&batch(&[Some("A"), Some("B"), Some("B"), Some("C"), Some("C")]), |_| 1u8, |c| c + 1);
    let observed = map.insert_if_new(&batch(&[Some("A"), Some("D"), Some("E")]), |_| 9u8);
    assert_eq!(observed, vec![1, 9, 9]);
    let payloads = map.get_payloads(&batch(&[Some("A"), Some("B"), Some("C"), Some("D"), Some("E")]));
    assert_eq!(payloads, vec![Some(1), Some(2), Some(2), Some(9), Some(9)]);
}

#[test]
fn keys_at_and_above_inline_threshold_stay_apart() {
    let eight: &[u8] = b"abcdefgh";
    let nine: &[u8] = b"\0abcdefgh";
    let nine_tail: &[u8] = b"abcdefgh\0";
    let short: &[u8] = b"A";
    let short_padded: &[u8] = b"\0A";
    let mut map: ArrowBytesMap<u8> = ArrowBytesMap::new(OutputType::Binary, OffsetWidth::Standard);
    let input = bytes_batch(&[Some(eight), Some(nine), Some(nine_tail), Some(short), Some(short_padded), Some(eight)]);
    map.insert_or_update(&input, |_| 1u8, |c| c + 1);
    assert_eq!(map.len(), 5);
    let arr = map.into_state();
    assert_eq!(
        decoded(&arr),
        bytes_batch(&[Some(eight), Some(nine), Some(nine_tail), Some(short), Some(short_padded)])
    );
}

#[test]
fn inline_threshold_payloads_are_separate() {
    let eight: &[u8] = b"abcdefgh";
    let nine: &[u8] = b"\0abcdefgh";
    let mut map: ArrowBytesMap<u8> = ArrowBytesMap::new(OutputType::Binary, OffsetWidth::Standard);
    map.insert_or_update(&bytes_batch(&[Some(eight), Some(nine), Some(nine)]), |_| 1u8, |c| c + 1);
    let payloads = map.get_payloads(&bytes_batch(&[Some(eight), Some(nine), Some(b"abcdefg")]));
    assert_eq!(payloads, vec![Some(1), Some(2), None]);
}

#[test]
fn take_returns_contents_and_leaves_fresh_map() {
    let mut map: ArrowBytesMap<u8> = ArrowBytesMap::new(OutputType::Binary, OffsetWidth::Large);
    map.insert_if_new(&batch(&[Some("k"), None, Some("a key longer than eight")]), |_| 3u8);
    let taken = map.take();
    assert_eq!(taken.len(), 3);
    assert!(map.is_empty());
    assert_eq!(map.len(), 0);
    assert_eq!(map.non_null_len(), 0);
    let taken_arr = taken.into_state();
    assert_eq!(
        strings(&taken_arr),
        vec![Some("k".to_string()), None, Some("a key longer than eight".to_string())]
    );
    assert_eq!(taken_arr.output_type, OutputType::Binary);
    assert_eq!(taken_arr.offset_width, OffsetWidth::Large);

    let fresh_arr = map.take().into_state();
    assert_eq!(fresh_arr.offsets, vec![0]);
    assert!(fresh_arr.values.is_empty());
    assert_eq!(fresh_arr.validity, None);
    assert_eq!(fresh_arr.output_type, OutputType::Binary);
    assert_eq!(fresh_arr.offset_width, OffsetWidth::Large);
}

#[test]
fn taken_map_is_reusable() {
    let mut map: ArrowBytesMap<u8> = ArrowBytesMap::new(OutputType::Utf8, OffsetWidth::Standard);
    map.insert_if_new(&batch(&[Some("a"), Some("b")]), |_| 1u8);
    let _ = map.take();
    let observed = map.insert_if_new(&batch(&[Some("b"), Some("c"), Some("b")]), |_| 2u8);
    assert_eq!(observed, vec![2, 2, 2]);
    assert_eq!(strings(&map.into_state()), vec![Some("b".to_string()), Some("c".to_string())]);
}

#[test]
fn null_payload_is_made_once_and_updated() {
    let mut map: ArrowBytesMap<u8> = ArrowBytesMap::new(OutputType::Utf8, OffsetWidth::Standard);
    let made = Cell::new(0u32);
    map.insert_or_update(
        &batch(&[None, Some("a"), None, None]),
        |k| {
            made.set(made.get() + 1);
            if k.is_none() { 10u8 } else { 1u8 }
        },
        |c| c + 1,
    );
    assert_eq!(made.get(), 2);
    let payloads = map.get_payloads(&batch(&[None, Some("a")]));
    assert_eq!(payloads, vec![Some(12), Some(1)]);
}

#[test]
fn lookup_of_null_in_map_without_null_is_none() {
    let mut map: ArrowBytesMap<u8> = ArrowBytesMap::new(OutputType::Utf8, OffsetWidth::Standard);
    map.insert_if_new(&batch(&[Some("a")]), |_| 1u8);
    assert_eq!(map.get_payloads(&batch(&[None, Some("b"), Some("a")])), vec![None, None, Some(1)]);
}

#[test]
fn empty_key_is_distinct_from_null() {
    let mut map: ArrowBytesMap<u8> = ArrowBytesMap::new(OutputType::Binary, OffsetWidth::Standard);
    let observed = map.insert_if_new(&batch(&[Some(""), None, Some("")]), |k| if k.is_none() { 0u8 } else { 1u8 });
    assert_eq!(observed, vec![1, 0, 1]);
    assert_eq!(map.len(), 2);
    assert_eq!(map.non_null_len(), 1);
    let arr = map.into_state();
    assert_eq!(decoded(&arr), vec![Some(vec![]), None]);
    assert_eq!(arr.offsets, vec![0, 0, 0]);
}

#[test]
fn empty_map_reports_empty() {
    let map: ArrowBytesMap<u8> = ArrowBytesMap::new(OutputType::Utf8, OffsetWidth::Standard);
    assert!(map.is_empty());
    assert_eq!(map.len(), 0);
    assert!(map.size() > 0);
    assert_eq!(map.get_payloads(&batch(&[Some("a"), None])), vec![None, None]);
}

#[test]
fn size_grows_with_arena() {
    let mut map: ArrowBytesMap<u8> = ArrowBytesMap::new(OutputType::Binary, OffsetWidth::Large);
    let before = map.size();
    let big = vec![7u8; 20_000];
    map.insert_if_new(&vec![Some(big)], |_| 0u8);
    assert!(map.size() >= 20_000);
    assert!(map.size() > before);
}

#[test]
fn many_long_keys_are_found_again() {
    let mut map: ArrowBytesMap<u32> = ArrowBytesMap::new(OutputType::Utf8, OffsetWidth::Standard);
    let keys: Vec<Option<Vec<u8>>> = (0..500u32).map(|i| Some(format!("key number {i:05}").into_bytes())).collect();
    let next = Cell::new(0u32);
    map.insert_if_new(&keys, |_| {
        let n = next.get();
        next.set(n + 1);
        n
    });
    assert_eq!(map.len(), 500);
    let payloads = map.get_payloads(&keys);
    for (i, p) in payloads.iter().enumerate() {
        assert_eq!(*p, Some(i as u32));
    }
}

#[test]
fn single_null_buffer_marks_only_the_null() {
    assert_eq!(single_null_buffer(4, 2), vec![true, true, false, true]);
    assert_eq!(single_null_buffer(1, 0), vec![false]);
}

#[test]
fn size_of_parts_sums_capacities() {
    let entry = std::mem::size_of::<(u64, usize, u64, usize)>();
    let word = std::mem::size_of::<usize>();
    assert_eq!(ArrowBytesMap::<u8>::size_of_parts(2, 100, 3, 4), 100 + 2 * entry + 3 * word + 4);
    assert_eq!(ArrowBytesMap::<u32>::size_of_parts(0, 0, 0, 5), 20);
    assert_eq!(ArrowBytesMap::<u8>::size_of_parts(usize::MAX, 1, 0, 0), usize::MAX);
    assert_eq!(ArrowBytesMap::<u8>::size_of_parts(0, usize::MAX, 0, 1), usize::MAX);
}

#[test]
fn size_counts_arena_offsets_and_payloads() {
    let mut map: ArrowBytesMap<u64> = ArrowBytesMap::new(OutputType::Utf8, OffsetWidth::Standard);
    map.insert_if_new(&batch(&[Some("a key longer than eight"), Some("b"), None]), |_| 0u64);
    let word = std::mem::size_of::<usize>();
    assert!(map.size() >= map.arena_len() + 4 * word + 3 * 8);
}

#[test]
fn room_check_counts_arena_and_batch_bytes() {
    let mut map: ArrowBytesMap<u8> = ArrowBytesMap::new(OutputType::Binary, OffsetWidth::Standard);
    map.insert_if_new(&batch(&[Some("abc")]), |_| 0u8);
    assert_eq!(map.arena_len(), 3);
    assert!(map.has_room_for(&batch(&[Some("abc"), None, Some("de")])));
    assert!(map.has_room_for(&vec![]));
    assert!(map.has_room_for(&vec![None, None]));
}
