use datamap::service::flush_result;
use datamap::DataMapService;
use datamap::RpcError;
use datamap::ShutdownCoordinator;
use datamap::Store;

#[test]
fn flush_result_maps_a_failed_write_to_internal() {
    assert_eq!(flush_result(true), Ok(()));
    assert_eq!(flush_result(false), Err(RpcError::Internal));
}

#[test]
fn shutdown_walks_its_phases_and_hands_out_the_snapshot() {
    let mut svc = DataMapService::new(Store::new());
    assert_eq!(svc.create(String::from("a"), 1), Ok(()));
    let mut coordinator = ShutdownCoordinator::new();
    let text = coordinator.begin_shutdown(&svc);
    assert_eq!(text, "[{\"key\":\"a\",\"value\":1}]");
    // A failed save is reported back but the walk still ends.
    assert!(!coordinator.finish(false));
}
