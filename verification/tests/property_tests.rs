use bytes_view_map::{ArrowBytesViewMap, Batch, OutputType, PayloadOps};

/// Builds a text batch from optional strings.
fn utf8_batch(values: &[Option<&str>]) -> Batch {
    Batch {
        output_type: OutputType::Utf8View,
        values: values.iter().map(|v| v.map(|s| s.as_bytes().to_vec())).collect(),
    }
}

/// Builds a binary batch from optional byte slices.
fn binary_batch(values: &[Option<&[u8]>]) -> Batch {
    Batch {
        output_type: OutputType::BinaryView,
        values: values.iter().map(|v| v.map(|b| b.to_vec())).collect(),
    }
}

/// Counting strategy: new values start at 1, existing ones are incremented.
struct CountOps;

impl PayloadOps<u32> for CountOps {
    fn make_payload(&mut self, _value: Option<&[u8]>) -> u32 {
        1
    }

    fn observe_payload(&mut self, _payload: u32) {}

    fn update_payload(&mut self, payload: &mut u32) {
        *payload += 1;
    }
}

/// Strategy handing out sequential identifiers to new values and recording the
/// payloads of the already-present ones, in input order.
struct SequentialOps {
    next: u32,
    observed: Vec<u32>,
}

impl PayloadOps<u32> for SequentialOps {
    fn make_payload(&mut self, _value: Option<&[u8]>) -> u32 {
        let id = self.next;
        self.next += 1;
        id
    }

    fn observe_payload(&mut self, payload: u32) {
        self.observed.push(payload);
    }

    fn update_payload(&mut self, _payload: &mut u32) {}
}

#[test]
fn distinct_count_equals_unique_values_seen() {
    // two batches with overlaps and nulls: the number of distinct non-null
    // entries equals the number of unique non-null strings inserted
    let mut map: ArrowBytesViewMap<u32> = ArrowBytesViewMap::new(OutputType::Utf8View);
    map.insert_if_new(
        &utf8_batch(&[Some("a"), Some("b"), None, Some("a"), Some("c")]),
        &mut SequentialOps { next: 0, observed: vec![] },
    );
    map.insert_if_new(
        &utf8_batch(&[Some("c"), Some("d"), None, Some("b")]),
        &mut SequentialOps { next: 100, observed: vec![] },
    );
    // unique non-null values: a, b, c, d
    assert_eq!(map.non_null_len(), 4);
    assert_eq!(map.len(), 5);
    assert!(!map.is_empty());
}

#[test]
fn output_order_is_first_seen_order() {
    let mut map: ArrowBytesViewMap<u32> = ArrowBytesViewMap::new(OutputType::Utf8View);
    map.insert_if_new(
        &utf8_batch(&[Some("x"), Some("y"), Some("x"), None, Some("z")]),
        &mut SequentialOps { next: 0, observed: vec![] },
    );
    map.insert_if_new(
        &utf8_batch(&[Some("w"), Some("y")]),
        &mut SequentialOps { next: 10, observed: vec![] },
    );
    let arr = map.into_state();
    // first-seen order: x, y, null, z, w
    assert_eq!(arr.len(), 5);
    assert_eq!(arr.value(0), b"x");
    assert_eq!(arr.value(1), b"y");
    assert!(arr.is_null(2));
    assert_eq!(arr.value(3), b"z");
    assert_eq!(arr.value(4), b"w");
}

#[test]
fn insert_or_update_counts_occurrences() {
    let mut map: ArrowBytesViewMap<u32> = ArrowBytesViewMap::new(OutputType::Utf8View);
    map.insert_or_update(
        &utf8_batch(&[Some("a"), Some("b"), Some("b"), Some("c"), Some("c")]),
        &mut CountOps,
    );
    map.insert_or_update(&utf8_batch(&[Some("a"), Some("d"), Some("e")]), &mut CountOps);

    let payloads = map.get_payloads(&utf8_batch(&[
        Some("a"),
        Some("b"),
        Some("c"),
        Some("d"),
        Some("e"),
    ]));
    assert_eq!(payloads, vec![Some(2), Some(2), Some(2), Some(1), Some(1)]);
}

#[test]
fn get_payloads_absent_and_present() {
    let mut map: ArrowBytesViewMap<u32> = ArrowBytesViewMap::new(OutputType::Utf8View);
    map.insert_if_new(
        &utf8_batch(&[Some("here")]),
        &mut SequentialOps { next: 7, observed: vec![] },
    );
    let payloads = map.get_payloads(&utf8_batch(&[Some("absent"), Some("here"), None]));
    assert_eq!(payloads, vec![None, Some(7), None]);
}

#[test]
fn requery_matches_observed_payloads() {
    let batch = utf8_batch(&[Some("p"), Some("q"), Some("p"), None, Some("q")]);
    let mut map: ArrowBytesViewMap<u32> = ArrowBytesViewMap::new(OutputType::Utf8View);
    let mut ops = SequentialOps { next: 0, observed: vec![] };
    map.insert_if_new(&batch, &mut ops);
    // new values got ids 0 (p), 1 (q), 2 (null); repeats observed 0 and 1
    assert_eq!(ops.observed, vec![0, 1]);
    // re-querying the exact batch finds every position, in input order
    let payloads = map.get_payloads(&batch);
    assert_eq!(payloads, vec![Some(0), Some(1), Some(0), Some(2), Some(1)]);
}

#[test]
fn null_handling_single_slot() {
    let mut map: ArrowBytesViewMap<u32> = ArrowBytesViewMap::new(OutputType::Utf8View);
    map.insert_or_update(&utf8_batch(&[None, Some("x"), None]), &mut CountOps);
    map.insert_or_update(&utf8_batch(&[None]), &mut CountOps);
    // counting payload saw the null three times in all
    assert_eq!(map.get_payloads(&utf8_batch(&[None])), vec![Some(3)]);
    assert_eq!(map.len(), 2);
    assert_eq!(map.non_null_len(), 1);
    // exactly one null position in the finalized output
    let arr = map.into_state();
    assert_eq!(arr.len(), 2);
    assert!(arr.is_null(0));
    assert!(!arr.is_null(1));
}

#[test]
fn lookup_is_idempotent() {
    let mut map: ArrowBytesViewMap<u32> = ArrowBytesViewMap::new(OutputType::Utf8View);
    map.insert_or_update(&utf8_batch(&[Some("a"), None, Some("b")]), &mut CountOps);

    let len_before = map.len();
    let size_before = map.size();
    let probe = utf8_batch(&[Some("a"), Some("missing"), None]);
    let first = map.get_payloads(&probe);
    let second = map.get_payloads(&probe);
    assert_eq!(first, second);
    assert_eq!(map.len(), len_before);
    assert_eq!(map.size(), size_before);
    // lookups do not affect later inserts
    map.insert_or_update(&utf8_batch(&[Some("a")]), &mut CountOps);
    assert_eq!(map.get_payloads(&utf8_batch(&[Some("a")])), vec![Some(2)]);
}

#[test]
fn binary_values_deduplicate_by_content() {
    let mut map: ArrowBytesViewMap<u32> = ArrowBytesViewMap::new(OutputType::BinaryView);
    let a: &[u8] = &[0u8, 255, 7];
    let b: &[u8] = &[0u8, 255, 8];
    let long: &[u8] = &[9u8; 40];
    map.insert_or_update(&binary_batch(&[Some(a), Some(b), Some(a), Some(long)]), &mut CountOps);
    assert_eq!(map.non_null_len(), 3);
    let payloads = map.get_payloads(&binary_batch(&[Some(a), Some(b), Some(long)]));
    assert_eq!(payloads, vec![Some(2), Some(1), Some(1)]);
    let arr = map.into_state();
    assert_eq!(arr.value(0), a);
    assert_eq!(arr.value(1), b);
    assert_eq!(arr.value(2), long);
}

#[test]
fn many_distinct_values_grow_the_table() {
    // enough distinct values to force the hash table to grow past its
    // initial capacity
    let mut map: ArrowBytesViewMap<u32> = ArrowBytesViewMap::new(OutputType::Utf8View);
    let strings: Vec<String> = (0..1000).map(|i| format!("value-number-{i}")).collect();
    let refs: Vec<Option<&str>> = strings.iter().map(|s| Some(s.as_str())).collect();
    map.insert_or_update(&utf8_batch(&refs), &mut CountOps);
    assert_eq!(map.len(), 1000);
    assert_eq!(map.non_null_len(), 1000);

    // a second pass adds nothing and doubles every count
    map.insert_or_update(&utf8_batch(&refs), &mut CountOps);
    assert_eq!(map.len(), 1000);
    let payloads = map.get_payloads(&utf8_batch(&refs));
    for p in payloads {
        assert_eq!(p, Some(2));
    }

    // output preserves first-seen order across growth
    let arr = map.into_state();
    assert_eq!(arr.len(), 1000);
    assert_eq!(arr.value(0), b"value-number-0");
    assert_eq!(arr.value(123), b"value-number-123");
    assert_eq!(arr.value(999), b"value-number-999");
}

#[test]
fn take_resets_but_keeps_kind() {
    let mut map: ArrowBytesViewMap<u32> = ArrowBytesViewMap::new(OutputType::Utf8View);
    map.insert_or_update(&utf8_batch(&[Some("a"), None]), &mut CountOps);
    let old = map.take();
    assert_eq!(old.len(), 2);
    assert!(map.is_empty());
    assert_eq!(map.len(), 0);
    // the fresh map still accepts text batches and starts from scratch
    map.insert_or_update(&utf8_batch(&[Some("a")]), &mut CountOps);
    assert_eq!(map.get_payloads(&utf8_batch(&[Some("a")])), vec![Some(1)]);
    // the old contents are intact
    assert_eq!(old.get_payloads(&utf8_batch(&[Some("a"), None])), vec![Some(1), Some(1)]);
}

#[test]
fn size_accounts_for_contents() {
    let mut map: ArrowBytesViewMap<u32> = ArrowBytesViewMap::new(OutputType::Utf8View);
    let empty_size = map.size();
    map.insert_or_update(&utf8_batch(&[Some("0123456789abcdef")]), &mut CountOps);
    let one_size = map.size();
    assert_eq!(one_size, empty_size + 16 + 64);
    // a repeat stores nothing new
    map.insert_or_update(&utf8_batch(&[Some("0123456789abcdef")]), &mut CountOps);
    assert_eq!(map.size(), one_size);
}
