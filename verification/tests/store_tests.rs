use datamap::DataMapService;
use datamap::RpcError;
use datamap::Store;

fn empty_service() -> DataMapService {
    DataMapService::new(Store::new())
}

#[test]
fn get_missing_key_reports_not_found_and_records_nothing() {
    let mut svc = empty_service();
    assert_eq!(svc.get("ghost"), Err(RpcError::NotFound));
    let summary = svc.get_read_summary();
    assert!(summary.is_empty());
}

#[test]
fn create_then_get_returns_value_with_frequency_one() {
    let mut svc = empty_service();
    assert_eq!(svc.create(String::from("k"), 7), Ok(()));
    assert_eq!(svc.get("k"), Ok(7));
    let summary = svc.get_read_summary();
    assert_eq!(summary.len(), 1);
    assert_eq!(summary[0].key, "k");
    assert_eq!(summary[0].freq, 1);
}

#[test]
fn create_twice_reports_already_exists_and_keeps_first_value() {
    let mut svc = empty_service();
    assert_eq!(svc.create(String::from("k"), 1), Ok(()));
    assert_eq!(svc.create(String::from("k"), 2), Err(RpcError::AlreadyExists));
    assert_eq!(svc.get("k"), Ok(1));
}

#[test]
fn update_changes_value_and_fails_on_absent_key() {
    let mut svc = empty_service();
    assert_eq!(svc.update("k", 5), Err(RpcError::NotFound));
    assert_eq!(svc.create(String::from("k"), 5), Ok(()));
    assert_eq!(svc.update("k", 6), Ok(()));
    assert_eq!(svc.get("k"), Ok(6));
}

#[test]
fn delete_removes_key_and_fails_on_absent_key() {
    let mut svc = empty_service();
    assert_eq!(svc.delete("k"), Err(RpcError::NotFound));
    assert_eq!(svc.create(String::from("k"), 5), Ok(()));
    assert_eq!(svc.delete("k"), Ok(()));
    assert_eq!(svc.get("k"), Err(RpcError::NotFound));
    assert_eq!(svc.delete("k"), Err(RpcError::NotFound));
}

#[test]
fn frequencies_rise_only_on_successful_gets() {
    let mut svc = empty_service();
    assert_eq!(svc.create(String::from("a"), 1), Ok(()));
    assert_eq!(svc.get("a"), Ok(1));
    assert_eq!(svc.get("a"), Ok(1));
    // Failures of every kind leave the counters alone.
    assert_eq!(svc.get("b"), Err(RpcError::NotFound));
    assert_eq!(svc.create(String::from("a"), 9), Err(RpcError::AlreadyExists));
    assert_eq!(svc.update("b", 9), Err(RpcError::NotFound));
    assert_eq!(svc.delete("b"), Err(RpcError::NotFound));
    let summary = svc.get_read_summary();
    assert_eq!(summary.len(), 1);
    assert_eq!(summary[0].key, "a");
    assert_eq!(summary[0].freq, 2);
}

#[test]
fn list_entries_returns_all_current_entries() {
    let mut svc = empty_service();
    assert_eq!(svc.create(String::from("a"), 1), Ok(()));
    assert_eq!(svc.create(String::from("b"), 2), Ok(()));
    assert_eq!(svc.delete("a"), Ok(()));
    let entries = svc.get_entries();
    assert_eq!(entries.len(), 1);
    assert_eq!(entries[0].key, "b");
    assert_eq!(entries[0].value, 2);
}

#[test]
fn crud_scenario_keeps_frequency_of_deleted_key() {
    let mut svc = empty_service();
    assert_eq!(svc.create(String::from("x"), 10), Ok(()));
    assert_eq!(svc.get("x"), Ok(10));
    assert_eq!(svc.update("x", 20), Ok(()));
    assert_eq!(svc.get("x"), Ok(20));
    assert_eq!(svc.delete("x"), Ok(()));
    assert_eq!(svc.get("x"), Err(RpcError::NotFound));
    let summary = svc.get_read_summary();
    assert_eq!(summary.len(), 1);
    assert_eq!(summary[0].key, "x");
    assert_eq!(summary[0].freq, 2);
}
