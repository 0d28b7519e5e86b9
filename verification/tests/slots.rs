use chronos_dex::gate::BatchStatus;
use chronos_dex::gate::GRACE_WINDOW;
use chronos_dex::gate::OrchestratorError;
use chronos_dex::gate::RaikuReservationType;
use chronos_dex::gate::ReservationStatus;
use chronos_dex::gate::confirm_slot_reservation;
use chronos_dex::gate::create_execution_batch;
use chronos_dex::gate::execute_batch;
use chronos_dex::gate::expire_reservation;
use chronos_dex::gate::get_preconfirmation;
use chronos_dex::gate::handle_execution_failure;
use chronos_dex::gate::initialize;
use chronos_dex::gate::is_executable;
use chronos_dex::gate::mark_reservation_failed;
use chronos_dex::gate::reserve_raiku_slot;

#[test]
fn orchestrator_starts_at_full_success() {
    let o = initialize(9);
    assert_eq!(o.authority, 9);
    assert_eq!(o.total_slots_reserved, 0);
    assert_eq!(o.total_executions, 0);
    assert_eq!(o.success_rate, 10_000);
}

#[test]
fn reserve_slot_in_future_only() {
    let mut o = initialize(9);
    let now: i64 = 500;
    let r = reserve_raiku_slot(&mut o, 3, now, RaikuReservationType::JIT, 1, now);
    assert_eq!(r, Err(OrchestratorError::InvalidSlotTime));
    assert_eq!(o.total_slots_reserved, 0);
    let res = reserve_raiku_slot(&mut o, 3, now + 60, RaikuReservationType::AOT, 1, now).unwrap();
    assert_eq!(o.total_slots_reserved, 1);
    assert_eq!(res.requester, 3);
    assert_eq!(res.slot_time, now + 60);
    assert_eq!(res.status, ReservationStatus::Pending);
    assert_eq!(res.requested_at, now);
}

#[test]
fn confirmation_id_is_slot_time_scaled() {
    let mut o = initialize(9);
    let res = reserve_raiku_slot(&mut o, 3, 1_000, RaikuReservationType::AOT, 1, 500).unwrap();
    assert_eq!(res.raiku_confirmation_id, 1_000u64.wrapping_mul(31_337));
}

#[test]
fn confirm_with_wrong_id_rejected() {
    let mut o = initialize(9);
    let mut res = reserve_raiku_slot(&mut o, 3, 1_000, RaikuReservationType::AOT, 1, 500).unwrap();
    let wrong = res.raiku_confirmation_id.wrapping_add(1);
    assert_eq!(
        confirm_slot_reservation(&mut res, wrong),
        Err(OrchestratorError::InvalidConfirmation)
    );
    assert_eq!(res.status, ReservationStatus::Pending);
}

#[test]
fn confirm_with_stored_id() {
    let mut o = initialize(9);
    let mut res = reserve_raiku_slot(&mut o, 3, 1_000, RaikuReservationType::AOT, 1, 500).unwrap();
    let id = res.raiku_confirmation_id;
    assert_eq!(confirm_slot_reservation(&mut res, id), Ok(()));
    assert_eq!(res.status, ReservationStatus::Confirmed);
    assert!(get_preconfirmation(&res));
}

#[test]
fn confirm_outside_pending_rejected() {
    let mut o = initialize(9);
    let mut res = reserve_raiku_slot(&mut o, 3, 1_000, RaikuReservationType::AOT, 1, 500).unwrap();
    let id = res.raiku_confirmation_id;
    confirm_slot_reservation(&mut res, id).unwrap();
    // A replayed confirmation finds the reservation Confirmed, not Pending.
    assert_eq!(
        confirm_slot_reservation(&mut res, id),
        Err(OrchestratorError::ReservationNotPending)
    );
    assert_eq!(res.status, ReservationStatus::Confirmed);
    // An executed reservation cannot be revived by replaying its id.
    res.status = ReservationStatus::Executed;
    assert_eq!(
        confirm_slot_reservation(&mut res, id),
        Err(OrchestratorError::ReservationNotPending)
    );
    assert_eq!(res.status, ReservationStatus::Executed);
    // Nor can a failed or an expired one.
    res.status = ReservationStatus::Failed;
    assert_eq!(
        confirm_slot_reservation(&mut res, id),
        Err(OrchestratorError::ReservationNotPending)
    );
    assert_eq!(res.status, ReservationStatus::Failed);
    res.status = ReservationStatus::Expired;
    assert_eq!(
        confirm_slot_reservation(&mut res, id),
        Err(OrchestratorError::ReservationNotPending)
    );
    assert_eq!(res.status, ReservationStatus::Expired);
}

#[test]
fn pending_reservation_not_executable() {
    let mut o = initialize(9);
    let res = reserve_raiku_slot(&mut o, 3, 1_000, RaikuReservationType::AOT, 1, 500).unwrap();
    assert!(!is_executable(&res, 900));
    assert!(!get_preconfirmation(&res));
}

#[test]
fn confirmed_reservation_executable_within_grace() {
    let mut o = initialize(9);
    let mut res = reserve_raiku_slot(&mut o, 3, 1_000, RaikuReservationType::AOT, 1, 500).unwrap();
    let id = res.raiku_confirmation_id;
    confirm_slot_reservation(&mut res, id).unwrap();
    assert!(is_executable(&res, 900));
    assert!(is_executable(&res, 1_000 + GRACE_WINDOW));
    assert!(!is_executable(&res, 1_000 + GRACE_WINDOW + 1));
}

#[test]
fn expire_after_grace_window() {
    let mut o = initialize(9);
    let mut res = reserve_raiku_slot(&mut o, 3, 1_000, RaikuReservationType::AOT, 1, 500).unwrap();
    assert!(!expire_reservation(&mut res, 1_000 + GRACE_WINDOW));
    assert_eq!(res.status, ReservationStatus::Pending);
    assert!(expire_reservation(&mut res, 1_000 + GRACE_WINDOW + 1));
    assert_eq!(res.status, ReservationStatus::Expired);
    // Expired is terminal for the expiry edge.
    assert!(!expire_reservation(&mut res, 2_000));
    assert_eq!(res.status, ReservationStatus::Expired);
}

#[test]
fn failed_edge_from_any_state() {
    let mut o = initialize(9);
    let mut res = reserve_raiku_slot(&mut o, 3, 1_000, RaikuReservationType::JIT, 1, 500).unwrap();
    mark_reservation_failed(&mut res);
    assert_eq!(res.status, ReservationStatus::Failed);
}

#[test]
fn batch_size_bounds() {
    assert_eq!(
        create_execution_batch(5, 0, 100),
        Err(OrchestratorError::InvalidBatchSize)
    );
    assert_eq!(
        create_execution_batch(5, 11, 100),
        Err(OrchestratorError::InvalidBatchSize)
    );
    let b = create_execution_batch(5, 10, 100).unwrap();
    assert_eq!(b.creator, 5);
    assert_eq!(b.batch_size, 10);
    assert_eq!(b.executed_count, 0);
    assert_eq!(b.status, BatchStatus::Pending);
    assert_eq!(b.executed_at, None);
    assert_eq!(b.error_code, None);
}

#[test]
fn execute_batch_counts_all_steps() {
    let mut o = initialize(9);
    let mut b = create_execution_batch(5, 4, 100).unwrap();
    assert_eq!(execute_batch(&mut o, &mut b, 120), Ok(()));
    assert_eq!(b.status, BatchStatus::Executed);
    assert_eq!(b.executed_count, 4);
    assert_eq!(b.executed_at, Some(120));
    assert_eq!(o.total_executions, 4);
    // A second run is rejected: the batch is no longer pending.
    assert_eq!(
        execute_batch(&mut o, &mut b, 130),
        Err(OrchestratorError::BatchNotPending)
    );
    assert_eq!(o.total_executions, 4);
}

#[test]
fn failure_updates_success_rate_within_bounds() {
    let mut o = initialize(9);
    let mut b = create_execution_batch(5, 3, 100).unwrap();
    execute_batch(&mut o, &mut b, 120).unwrap();
    assert_eq!(o.total_executions, 3);
    let mut failing = create_execution_batch(5, 2, 130).unwrap();
    assert_eq!(handle_execution_failure(&mut o, &mut failing, 77), Ok(()));
    assert_eq!(failing.status, BatchStatus::Failed);
    assert_eq!(failing.error_code, Some(77));
    // 3 executions over 4 attempts, in basis points, rounded down.
    assert_eq!(o.success_rate, 7_500);
    assert!(o.success_rate <= 10_000);
}

#[test]
fn failure_with_no_executions_drops_rate_to_zero() {
    let mut o = initialize(9);
    let mut failing = create_execution_batch(5, 1, 130).unwrap();
    handle_execution_failure(&mut o, &mut failing, 1).unwrap();
    assert_eq!(o.success_rate, 0);
}
