use datamap::codec::parse_snapshot;
use datamap::codec::snapshot_string;
use datamap::persist::load_store;
use datamap::DataMapService;
use datamap::Entry;
use datamap::RpcError;
use datamap::Store;
use datamap::WrappedEntry;

fn record(key: &str, value: i64) -> WrappedEntry {
    WrappedEntry(Entry { key: String::from(key), value })
}

fn sorted_pairs(store: &Store) -> Vec<(String, i64)> {
    let mut pairs: Vec<(String, i64)> = store
        .list_entries()
        .into_iter()
        .map(|e| (e.key, e.value))
        .collect();
    pairs.sort();
    pairs
}

#[test]
fn snapshot_text_of_two_records_is_exact() {
    let records = vec![record("a", 1), record("b", 2)];
    let text = snapshot_string(&records);
    assert_eq!(text, "[{\"key\":\"a\",\"value\":1},{\"key\":\"b\",\"value\":2}]");
}

#[test]
fn snapshot_text_of_no_records_is_empty_list() {
    let records: Vec<WrappedEntry> = Vec::new();
    assert_eq!(snapshot_string(&records), "[]");
}

#[test]
fn snapshot_round_trip_restores_the_same_entries() {
    let records = vec![record("a", 1), record("b", 2)];
    let text = snapshot_string(&records);
    let store = load_store(Some(text.as_str()));
    let pairs = sorted_pairs(&store);
    assert_eq!(pairs, vec![(String::from("a"), 1), (String::from("b"), 2)]);
}

#[test]
fn snapshot_round_trip_keeps_awkward_keys_and_values() {
    let records = vec![
        record("with \"quotes\"", -3),
        record("back\\slash", i64::MIN),
        record("tab\tand\nnewline", i64::MAX),
        record("", 0),
    ];
    let text = snapshot_string(&records);
    let store = load_store(Some(text.as_str()));
    let pairs = sorted_pairs(&store);
    assert_eq!(
        pairs,
        vec![
            (String::from(""), 0),
            (String::from("back\\slash"), i64::MIN),
            (String::from("tab\tand\nnewline"), i64::MAX),
            (String::from("with \"quotes\""), -3),
        ]
    );
}

#[test]
fn control_characters_are_escaped_as_hex() {
    let records = vec![record("a\u{1}b", 4)];
    let text = snapshot_string(&records);
    assert_eq!(text, "[{\"key\":\"a\\u0001b\",\"value\":4}]");
    let store = load_store(Some(text.as_str()));
    assert_eq!(store.get("a\u{1}b"), Some(4));
}

#[test]
fn missing_file_loads_an_empty_store() {
    let store = load_store(None);
    assert!(store.list_entries().is_empty());
}

#[test]
fn malformed_texts_load_an_empty_store() {
    let malformed = [
        "",
        "[",
        "]",
        "not json at all",
        "[{\"key\":\"a\",\"value\":}]",
        "[{\"key\":\"a\",\"value\":1}",
        "[{\"key\":\"a\",\"value\":1},]",
        "[{\"key\":a,\"value\":1}]",
        "[{\"key\":\"a\",\"value\":1}]x",
        "[{\"key\":\"a\",\"value\":9223372036854775808}]",
        "[{\"key\":\"a\",\"value\":--1}]",
        "[{\"key\":\"\\q\",\"value\":1}]",
    ];
    for text in malformed {
        let store = load_store(Some(text));
        assert!(store.list_entries().is_empty(), "text: {text}");
    }
}

#[test]
fn parser_accepts_the_boundary_values() {
    let text = "[{\"key\":\"lo\",\"value\":-9223372036854775808},{\"key\":\"hi\",\"value\":9223372036854775807}]";
    let parsed = parse_snapshot(text).expect("boundary values parse");
    assert_eq!(parsed.len(), 2);
    assert_eq!(parsed[0].0.key, "lo");
    assert_eq!(parsed[0].0.value, i64::MIN);
    assert_eq!(parsed[1].0.key, "hi");
    assert_eq!(parsed[1].0.value, i64::MAX);
}

#[test]
fn parser_rejects_value_one_past_the_boundary() {
    assert!(parse_snapshot("[{\"key\":\"a\",\"value\":-9223372036854775809}]").is_none());
}

#[test]
fn later_duplicate_keys_override_earlier_ones_on_load() {
    let text = "[{\"key\":\"a\",\"value\":1},{\"key\":\"a\",\"value\":2}]";
    let store = load_store(Some(text));
    let pairs = sorted_pairs(&store);
    assert_eq!(pairs, vec![(String::from("a"), 2)]);
}

#[test]
fn flush_after_deleting_everything_writes_an_empty_snapshot() {
    let mut svc = DataMapService::new(Store::new());
    assert_eq!(svc.create(String::from("x"), 10), Ok(()));
    assert_eq!(svc.get("x"), Ok(10));
    assert_eq!(svc.update("x", 20), Ok(()));
    assert_eq!(svc.get("x"), Ok(20));
    assert_eq!(svc.delete("x"), Ok(()));
    assert_eq!(svc.get("x"), Err(RpcError::NotFound));
    let text = svc.snapshot_text();
    assert_eq!(text, "[]");
    // A fresh process started against that snapshot begins empty.
    let store = load_store(Some(text.as_str()));
    let fresh = DataMapService::new(store);
    assert!(fresh.get_entries().is_empty());
}
