use tileworld::grid::Coord;
use tileworld::reservations::{
    RequestOutcome, ReservationError, ReservationManager, ReservationRequest,
};

fn c(x: usize, y: usize) -> Coord {
    Coord { x, y }
}

#[test]
fn same_target_in_one_tick_grants_exactly_one() {
    let mut m = ReservationManager::new();
    assert!(m.add_resource(100, c(3, 3)));
    let requests = vec![
        ReservationRequest { requester: 1, target: 100 },
        ReservationRequest { requester: 2, target: 100 },
    ];
    let outcomes = m.process_requests(&requests);
    assert_eq!(outcomes, vec![RequestOutcome::Granted, RequestOutcome::Rejected]);
}

#[test]
fn release_readmits_to_spatial_queries() {
    let mut m = ReservationManager::new();
    assert!(m.add_resource(1, c(1, 1)));
    assert!(m.add_resource(2, c(8, 8)));
    assert_eq!(m.request_reservation(7, 1), RequestOutcome::Granted);
    // while owned, the nearest candidate to the origin is the far resource
    let r = m.nearest_k(c(0, 0), 1);
    assert_eq!(r, vec![(c(8, 8), 2)]);
    assert_eq!(m.release(1), Ok(()));
    // released, it is the nearest candidate again
    let r = m.nearest_k(c(0, 0), 1);
    assert_eq!(r, vec![(c(1, 1), 1)]);
}

#[test]
fn reserved_resources_never_appear_in_queries() {
    let mut m = ReservationManager::new();
    assert!(m.add_resource(1, c(1, 0)));
    assert!(m.add_resource(2, c(2, 0)));
    assert!(m.add_resource(3, c(3, 0)));
    assert_eq!(m.request_reservation(9, 2), RequestOutcome::Granted);
    let r = m.nearest_k(c(0, 0), 10);
    assert_eq!(r, vec![(c(1, 0), 1), (c(3, 0), 3)]);
}

#[test]
fn nearest_k_orders_by_distance_and_truncates() {
    let mut m = ReservationManager::new();
    assert!(m.add_resource(10, c(5, 0)));
    assert!(m.add_resource(11, c(1, 1)));
    assert!(m.add_resource(12, c(0, 3)));
    let r = m.nearest_k(c(0, 0), 2);
    assert_eq!(r, vec![(c(1, 1), 11), (c(0, 3), 12)]);
    let all = m.nearest_k(c(0, 0), 10);
    assert_eq!(all.len(), 3);
    assert_eq!(all[2], (c(5, 0), 10));
}

#[test]
fn stale_requests_are_rejected_not_fatal() {
    let mut m = ReservationManager::new();
    assert!(m.add_resource(5, c(2, 2)));
    // a request naming a vanished id is an observable failure, not a crash
    assert_eq!(m.request_reservation(1, 999), RequestOutcome::Rejected);
    // and it never disturbs later requests in the same batch
    let requests = vec![
        ReservationRequest { requester: 1, target: 999 },
        ReservationRequest { requester: 1, target: 5 },
    ];
    let outcomes = m.process_requests(&requests);
    assert_eq!(outcomes, vec![RequestOutcome::Rejected, RequestOutcome::Granted]);
}

#[test]
fn consume_removes_for_good() {
    let mut m = ReservationManager::new();
    assert!(m.add_resource(4, c(1, 2)));
    assert_eq!(m.request_reservation(3, 4), RequestOutcome::Granted);
    assert_eq!(m.consume(4), Ok(()));
    assert!(m.nearest_k(c(0, 0), 10).is_empty());
    assert_eq!(m.request_reservation(3, 4), RequestOutcome::Rejected);
    assert_eq!(m.consume(4), Err(ReservationError::InvalidTarget));
}

#[test]
fn misdirected_release_is_a_loud_fault() {
    let mut m = ReservationManager::new();
    assert!(m.add_resource(6, c(0, 1)));
    // releasing a never-claimed resource is a logic fault
    assert_eq!(m.release(6), Err(ReservationError::InvalidTarget));
    // releasing an unknown id likewise
    assert_eq!(m.release(42), Err(ReservationError::InvalidTarget));
}

#[test]
fn duplicate_ids_are_refused() {
    let mut m = ReservationManager::new();
    assert!(m.add_resource(8, c(0, 0)));
    assert!(!m.add_resource(8, c(1, 1)));
    let r = m.nearest_k(c(0, 0), 10);
    assert_eq!(r, vec![(c(0, 0), 8)]);
}

#[test]
fn rereservation_after_release_may_change_owner() {
    let mut m = ReservationManager::new();
    assert!(m.add_resource(1, c(0, 0)));
    assert_eq!(m.request_reservation(10, 1), RequestOutcome::Granted);
    assert_eq!(m.request_reservation(11, 1), RequestOutcome::Rejected);
    assert_eq!(m.release(1), Ok(()));
    assert_eq!(m.request_reservation(11, 1), RequestOutcome::Granted);
}
