use old_web_framework::shutdown::{ShutdownAttempt, ShutdownCoordinator, ShutdownState, shutdown_response};

#[test]
fn shutdown_consumed_exactly_once() {
    let mut coordinator = ShutdownCoordinator::new();
    assert!(matches!(coordinator.state(), ShutdownState::Armed));

    let first = coordinator.try_consume();
    let second = coordinator.try_consume();

    assert!(first);
    assert!(!second);
    assert!(matches!(coordinator.state(), ShutdownState::Consumed));

    let winner = shutdown_response(ShutdownAttempt::Signaled);
    assert_eq!(winner.status, 200);
    assert_eq!(winner.body, "shutdown\n");

    let loser = shutdown_response(ShutdownAttempt::AlreadyConsumed);
    assert_eq!(loser.status, 500);
    assert_eq!(loser.body, "error\n");
}

#[test]
fn failed_delivery_is_reported_as_error() {
    let resp = shutdown_response(ShutdownAttempt::DeliveryFailed);
    assert_eq!(resp.status, 500);
    assert_eq!(resp.body, "error\n");
}
