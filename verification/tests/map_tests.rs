use std::collections::HashMap;
use arrow::array::Array;

use bytes_view_map::{ArrowBytesViewMap, Batch, OutputType, PayloadOps};

/// Builds a text batch from optional strings.
fn utf8_batch(values: &[Option<&str>]) -> Batch {
    Batch {
        output_type: OutputType::Utf8View,
        values: values.iter().map(|v| v.map(|s| s.as_bytes().to_vec())).collect(),
    }
}

/// Counting strategy: new values start at 1, existing ones are incremented.
struct CountOps;

impl PayloadOps<u8> for CountOps {
    fn make_payload(&mut self, _value: Option<&[u8]>) -> u8 {
        1
    }

    fn observe_payload(&mut self, _payload: u8) {}

    fn update_payload(&mut self, payload: &mut u8) {
        *payload += 1;
    }
}

/// Strategy for a second pass: new values get 5, existing are ignored.
struct FiveOps;

impl PayloadOps<u8> for FiveOps {
    fn make_payload(&mut self, _value: Option<&[u8]>) -> u8 {
        5
    }

    fn observe_payload(&mut self, _payload: u8) {}

    fn update_payload(&mut self, _payload: &mut u8) {}
}

/// Verification strategy: every value must already exist; its payload is
/// recorded without being changed.
struct ExpectPresent {
    result: Option<u8>,
}

impl PayloadOps<u8> for ExpectPresent {
    fn make_payload(&mut self, _value: Option<&[u8]>) -> u8 {
        panic!("Unexpected new entry during verification");
    }

    fn observe_payload(&mut self, payload: u8) {
        self.result = Some(payload);
    }

    fn update_payload(&mut self, payload: &mut u8) {
        self.result = Some(*payload);
    }
}

#[test]
fn test_insert_or_update_count_u8() {
    let values = [
        Some("a"),
        Some("✨🔥✨🔥✨🔥✨🔥✨🔥✨🔥✨🔥✨🔥"),
        Some("🔥"),
        Some("✨✨✨"),
        Some("foobarbaz"),
        Some("🔥"),
        Some("✨🔥✨🔥✨🔥✨🔥✨🔥✨🔥✨🔥✨🔥"),
    ];

    let mut map: ArrowBytesViewMap<u8> = ArrowBytesViewMap::new(OutputType::Utf8View);
    let arr = utf8_batch(&values);

    map.insert_or_update(&arr, &mut CountOps);

    let expected_counts = [
        ("a", 1),
        ("✨🔥✨🔥✨🔥✨🔥✨🔥✨🔥✨🔥✨🔥", 2),
        ("🔥", 2),
        ("✨✨✨", 1),
        ("foobarbaz", 1),
    ];

    for value in expected_counts.iter() {
        let arr = utf8_batch(&[Some(value.0)]);
        let mut check = ExpectPresent { result: None };
        map.insert_or_update(&arr, &mut check);
        assert_eq!(check.result.unwrap(), value.1);
    }
}

#[test]
fn test_insert_if_new_after_insert_or_update() {
    let initial_values = [Some("A"), Some("B"), Some("B"), Some("C"), Some("C")];

    let mut map: ArrowBytesViewMap<u8> = ArrowBytesViewMap::new(OutputType::Utf8View);
    let arr = utf8_batch(&initial_values);

    map.insert_or_update(&arr, &mut CountOps);

    let arr_additional = utf8_batch(&[Some("A"), Some("D"), Some("E")]);
    map.insert_if_new(&arr_additional, &mut FiveOps);

    let expected_payloads = [Some(1u8), Some(2u8), Some(2u8), Some(5u8), Some(5u8)];

    let arr_combined = utf8_batch(&[Some("A"), Some("B"), Some("C"), Some("D"), Some("E")]);
    let payloads = map.get_payloads(&arr_combined);

    assert_eq!(payloads, expected_payloads);
}

#[test]
fn test_get_payloads_u8() {
    let values = [
        Some("A"),
        Some("bcdefghijklmnop"),
        Some("X"),
        Some("Y"),
        None,
        Some("qrstuvqxyzhjwya"),
        Some("✨🔥"),
        Some("🔥"),
        Some("🔥🔥🔥🔥🔥🔥"),
        Some("A"), // Duplicate to test the count increment
        Some("Y"), // Another duplicate to test the count increment
    ];

    let mut map: ArrowBytesViewMap<u8> = ArrowBytesViewMap::new(OutputType::Utf8View);
    let arr = utf8_batch(&values);

    map.insert_or_update(&arr, &mut CountOps);

    let expected_payloads = [
        Some(2u8),
        Some(1u8),
        Some(1u8),
        Some(2u8),
        Some(1u8),
        Some(1u8),
        Some(1u8),
        Some(1u8),
        Some(1u8),
        Some(2u8),
        Some(2u8),
    ];

    let payloads = map.get_payloads(&arr);

    assert_eq!(payloads.len(), expected_payloads.len());

    for (i, payload) in payloads.iter().enumerate() {
        assert_eq!(*payload, expected_payloads[i]);
    }
}

#[derive(Debug, PartialEq, Eq, Default, Clone, Copy)]
struct TestPayload {
    // store the index of the string (each new string gets the next sequential input)
    index: usize,
}

/// Strategy that records, per input position, whether a new entry was created
/// (with the value it carried) or an existing one was observed.
struct RecordingOps {
    next_index: usize,
    seen_new_strings: Vec<Option<String>>,
    seen_indexes: Vec<usize>,
}

impl PayloadOps<TestPayload> for RecordingOps {
    fn make_payload(&mut self, value: Option<&[u8]>) -> TestPayload {
        let value = value.map(|s| String::from_utf8(s.to_vec()).expect("Non utf8 string"));
        let index = self.next_index;
        self.next_index += 1;
        self.seen_new_strings.push(value);
        TestPayload { index }
    }

    fn observe_payload(&mut self, payload: TestPayload) {
        self.seen_indexes.push(payload.index);
    }

    fn update_payload(&mut self, _payload: &mut TestPayload) {}
}

/// Wraps an [`ArrowBytesViewMap`], validating its invariants
struct TestMap {
    map: ArrowBytesViewMap<TestPayload>,
    // stores distinct strings seen, in order
    strings: Vec<Option<String>>,
    // map strings to index in strings
    indexes: HashMap<Option<String>, usize>,
}

impl TestMap {
    /// creates a map with TestPayloads for the given strings and then
    /// validates the payloads
    fn new() -> Self {
        Self {
            map: ArrowBytesViewMap::new(OutputType::Utf8View),
            strings: vec![],
            indexes: HashMap::new(),
        }
    }

    /// Inserts strings into the map
    fn insert(&mut self, strings: &[Option<&str>]) {
        let arr = utf8_batch(strings);

        let next_index = self.indexes.len();
        let mut actual_new_strings = vec![];
        let mut actual_seen_indexes = vec![];
        // update self with new values, keeping track of newly added values;
        // only positions whose value is already present are observed
        for str in strings {
            let str = str.map(|s| s.to_string());
            match self.indexes.get(&str).cloned() {
                Some(index) => actual_seen_indexes.push(index),
                None => {
                    actual_new_strings.push(str.clone());
                    let index = self.strings.len();
                    self.strings.push(str.clone());
                    self.indexes.insert(str, index);
                }
            }
        }

        // insert the values into the map, recording what we did
        let mut ops = RecordingOps {
            next_index,
            seen_new_strings: vec![],
            seen_indexes: vec![],
        };
        self.map.insert_if_new(&arr, &mut ops);

        assert_eq!(actual_seen_indexes, ops.seen_indexes);
        assert_eq!(actual_new_strings, ops.seen_new_strings);
    }

    /// Finalizes the map, validating that the values are in the same order as
    /// they were inserted
    fn into_array(self) -> arrow::array::BinaryViewArray {
        let Self {
            map,
            strings,
            indexes: _,
        } = self;

        let arr = map.into_state();
        assert_eq!(arr.len(), strings.len());
        for (i, expected) in strings.iter().enumerate() {
            match expected {
                None => assert!(arr.is_null(i)),
                Some(s) => {
                    assert!(!arr.is_null(i));
                    assert_eq!(arr.value(i), s.as_bytes());
                }
            }
        }
        arr.inner
    }
}

#[test]
fn test_map() {
    let input = vec![
        // Note mix of short/long strings
        Some("A"),
        Some("bcdefghijklmnop1234567"),
        Some("X"),
        Some("Y"),
        None,
        Some("qrstuvqxyzhjwya"),
        Some("✨🔥"),
        Some("🔥"),
        Some("🔥🔥🔥🔥🔥🔥"),
    ];

    let mut test_map = TestMap::new();
    test_map.insert(&input);
    test_map.insert(&input); // put it in twice
    let expected_output: Vec<Option<&str>> = input.clone();
    let arr = test_map.into_array();

    // the emitted arrow array holds the distinct values in first-seen order
    assert_eq!(arr.len(), expected_output.len());
    for (i, expected) in expected_output.iter().enumerate() {
        match expected {
            None => assert!(arr.is_null(i)),
            Some(s) => assert_eq!(arr.value(i), s.as_bytes()),
        }
    }
}
