//! Slot-reservation admission gate and execution orchestration: reservations
//! negotiated with an external scheduler, the predicate that clears a batch
//! to execute, and the bounded all-or-nothing execution batches with their
//! success-rate accounting.

use vstd::prelude::*;

verus! {

#[derive(Clone, Copy, PartialEq, Eq, Structural, Debug)]
pub enum RaikuReservationType {
    AOT,
    JIT,
}

#[derive(Clone, Copy, PartialEq, Eq, Structural, Debug)]
pub enum ReservationStatus {
    Pending,
    Confirmed,
    Executed,
    Failed,
    Expired,
}

#[derive(Clone, Copy, PartialEq, Eq, Structural, Debug)]
pub enum BatchStatus {
    Pending,
    Executed,
    Failed,
    Cancelled,
}

#[derive(Clone, Copy, PartialEq, Eq, Structural, Debug)]
pub enum OrchestratorError {
    InvalidSlotTime,
    InvalidBatchSize,
    BatchNotPending,
    InvalidConfirmation,
    ReservationNotPending,
}

/// Orchestrator-level counters. `success_rate` is held in basis points and
/// never leaves 0..=10000.
#[derive(Clone, Copy, PartialEq, Eq, Structural, Debug)]
pub struct Orchestrator {
    pub authority: u64,
    pub total_slots_reserved: u64,
    pub total_executions: u64,
    pub success_rate: u16,
}

/// A time-bounded permission to execute, issued Pending and confirmed by the
/// external scheduler through its `raiku_confirmation_id`.
#[derive(Clone, Copy, PartialEq, Eq, Structural, Debug)]
pub struct SlotReservation {
    pub requester: u64,
    pub slot_time: i64,
    pub reservation_type: RaikuReservationType,
    pub priority: u8,
    pub status: ReservationStatus,
    pub requested_at: i64,
    pub raiku_confirmation_id: u64,
}

/// A group of up to `MAX_BATCH_SIZE` cross-program steps executed
/// all-or-nothing.
#[derive(Clone, Copy, PartialEq, Eq, Structural, Debug)]
pub struct ExecutionBatch {
    pub creator: u64,
    pub batch_size: u8,
    pub executed_count: u8,
    pub status: BatchStatus,
    pub created_at: i64,
    pub executed_at: Option<i64>,
    pub error_code: Option<u16>,
}

/// Seconds past `slot_time` during which a confirmed reservation may still
/// execute.
pub const GRACE_WINDOW: i64 = 30;

pub const MAX_BATCH_SIZE: u8 = 10;

pub open spec fn orchestrator_wf(o: Orchestrator) -> bool {
    o.success_rate <= 10000
}

/// The deterministic confirmation id the simulated scheduler issues for a
/// slot time: the slot time times 31337, reduced modulo 2^64.
pub open spec fn mock_confirmation_id(slot_time: i64) -> u64 {
    ((slot_time as u64) * 31337) as u64
}

fn generate_mock_confirmation_id(slot_time: i64) -> (id: u64)
    ensures
        id == mock_confirmation_id(slot_time),
{
    let st: u64 = #[verifier::truncate] (slot_time as u64);
    proof {
        assert((st as int) * 31337 <= (u64::MAX as int) * 31337) by (nonlinear_arith)
            requires st <= u64::MAX;
    }
    let wide: u128 = (st as u128) * 31337;
    #[verifier::truncate] (wide as u64)
}

/// A reservation may back an execution exactly while it is Confirmed and
/// the grace window past its slot time has not elapsed.
pub open spec fn is_executable_spec(r: SlotReservation, now: i64) -> bool {
    r.status == ReservationStatus::Confirmed && now <= r.slot_time + GRACE_WINDOW
}

pub fn is_executable(reservation: &SlotReservation, now: i64) -> (b: bool)
    ensures
        b == is_executable_spec(*reservation, now),
{
    reservation.status == ReservationStatus::Confirmed
        && (now as i128) <= (reservation.slot_time as i128) + (GRACE_WINDOW as i128)
}

pub fn initialize(authority: u64) -> (o: Orchestrator)
    ensures
        o == (Orchestrator {
            authority,
            total_slots_reserved: 0,
            total_executions: 0,
            success_rate: 10000,
        }),
        orchestrator_wf(o),
{
    Orchestrator { authority, total_slots_reserved: 0, total_executions: 0, success_rate: 10000 }
}

/// Requests a slot strictly in the future from the scheduler. The
/// reservation starts Pending, carrying the scheduler's confirmation id;
/// the orchestrator counts it.
pub fn reserve_raiku_slot(
    orchestrator: &mut Orchestrator,
    requester: u64,
    slot_time: i64,
    reservation_type: RaikuReservationType,
    priority: u8,
    now: i64,
) -> (r: Result<SlotReservation, OrchestratorError>)
    requires
        old(orchestrator).total_slots_reserved < u64::MAX,
    ensures
        match r {
            Result::Ok(res) => slot_time > now
                && res == (SlotReservation {
                    requester,
                    slot_time,
                    reservation_type,
                    priority,
                    status: ReservationStatus::Pending,
                    requested_at: now,
                    raiku_confirmation_id: mock_confirmation_id(slot_time),
                })
                && *final(orchestrator) == (Orchestrator {
                    total_slots_reserved: (old(orchestrator).total_slots_reserved + 1) as u64,
                    ..*old(orchestrator)
                }),
            Result::Err(e) => e == OrchestratorError::InvalidSlotTime && slot_time <= now
                && *final(orchestrator) == *old(orchestrator),
        },
{
    if slot_time <= now {
        return Result::Err(OrchestratorError::InvalidSlotTime);
    }
    let id = generate_mock_confirmation_id(slot_time);
    orchestrator.total_slots_reserved = orchestrator.total_slots_reserved + 1;
    Result::Ok(SlotReservation {
        requester,
        slot_time,
        reservation_type,
        priority,
        status: ReservationStatus::Pending,
        requested_at: now,
        raiku_confirmation_id: id,
    })
}

/// Creates a Pending execution batch of a size between 1 and
/// `MAX_BATCH_SIZE` steps.
pub fn create_execution_batch(creator: u64, batch_size: u8, now: i64) -> (r: Result<
    ExecutionBatch,
    OrchestratorError,
>)
    ensures
        match r {
            Result::Ok(b) => 1 <= batch_size <= MAX_BATCH_SIZE && b == (ExecutionBatch {
                creator,
                batch_size,
                executed_count: 0,
                status: BatchStatus::Pending,
                created_at: now,
                executed_at: None,
                error_code: None,
            }),
            Result::Err(e) => e == OrchestratorError::InvalidBatchSize
                && (batch_size == 0 || batch_size > MAX_BATCH_SIZE),
        },
{
    if batch_size == 0 || batch_size > MAX_BATCH_SIZE {
        return Result::Err(OrchestratorError::InvalidBatchSize);
    }
    Result::Ok(ExecutionBatch {
        creator,
        batch_size,
        executed_count: 0,
        status: BatchStatus::Pending,
        created_at: now,
        executed_at: None,
        error_code: None,
    })
}

/// Executes a Pending batch in full: all steps run, the batch turns
/// Executed, and the orchestrator's execution counter grows by the batch
/// size. A batch in any other state is rejected untouched.
pub fn execute_batch(
    orchestrator: &mut Orchestrator,
    batch: &mut ExecutionBatch,
    now: i64,
) -> (r: Result<(), OrchestratorError>)
    requires
        old(batch).status == BatchStatus::Pending ==> old(orchestrator).total_executions + old(
            batch,
        ).batch_size <= u64::MAX,
    ensures
        match r {
            Result::Ok(()) => old(batch).status == BatchStatus::Pending
                && *final(batch) == (ExecutionBatch {
                    status: BatchStatus::Executed,
                    executed_at: Some(now),
                    executed_count: old(batch).batch_size,
                    ..*old(batch)
                })
                && *final(orchestrator) == (Orchestrator {
                    total_executions: (old(orchestrator).total_executions
                        + old(batch).batch_size) as u64,
                    ..*old(orchestrator)
                }),
            Result::Err(e) => e == OrchestratorError::BatchNotPending
                && old(batch).status != BatchStatus::Pending
                && *final(batch) == *old(batch)
                && *final(orchestrator) == *old(orchestrator),
        },
        orchestrator_wf(*old(orchestrator)) ==> orchestrator_wf(*final(orchestrator)),
{
    if batch.status != BatchStatus::Pending {
        return Result::Err(OrchestratorError::BatchNotPending);
    }
    batch.status = BatchStatus::Executed;
    batch.executed_at = Some(now);
    batch.executed_count = batch.batch_size;
    orchestrator.total_executions = orchestrator.total_executions + batch.batch_size as u64;
    Result::Ok(())
}

/// Accepts the scheduler's confirmation. Only a Pending reservation can
/// take the edge to Confirmed; one in any other state is rejected
/// untouched, so a confirmation replayed against an already executed,
/// failed or expired reservation cannot revive it. A confirmation id other
/// than the stored one is likewise rejected with the reservation kept as
/// it is, which protects against replay across concurrent reservations.
pub fn confirm_slot_reservation(
    reservation: &mut SlotReservation,
    confirmation_id: u64,
) -> (r: Result<(), OrchestratorError>)
    ensures
        match r {
            Result::Ok(()) => old(reservation).status == ReservationStatus::Pending
                && confirmation_id == old(reservation).raiku_confirmation_id
                && *final(reservation) == (SlotReservation {
                    status: ReservationStatus::Confirmed,
                    ..*old(reservation)
                }),
            Result::Err(e) => *final(reservation) == *old(reservation) && (
                if old(reservation).status != ReservationStatus::Pending {
                    e == OrchestratorError::ReservationNotPending
                } else {
                    e == OrchestratorError::InvalidConfirmation
                        && confirmation_id != old(reservation).raiku_confirmation_id
                }
            ),
        },
{
    if reservation.status != ReservationStatus::Pending {
        return Result::Err(OrchestratorError::ReservationNotPending);
    }
    if reservation.raiku_confirmation_id != confirmation_id {
        return Result::Err(OrchestratorError::InvalidConfirmation);
    }
    reservation.status = ReservationStatus::Confirmed;
    Result::Ok(())
}

/// Records a failed execution: the batch turns Failed with the error code,
/// and the success rate is recomputed as executions over attempts, in basis
/// points, which always lands in 0..=10000.
pub fn handle_execution_failure(
    orchestrator: &mut Orchestrator,
    batch: &mut ExecutionBatch,
    error_code: u16,
) -> (r: Result<(), OrchestratorError>)
    ensures
        r == Result::<(), OrchestratorError>::Ok(()),
        *final(batch) == (ExecutionBatch {
            status: BatchStatus::Failed,
            error_code: Some(error_code),
            ..*old(batch)
        }),
        *final(orchestrator) == (Orchestrator {
            success_rate: (old(orchestrator).total_executions * 10000
                / (old(orchestrator).total_executions + 1)) as u16,
            ..*old(orchestrator)
        }),
        orchestrator_wf(*final(orchestrator)),
{
    batch.status = BatchStatus::Failed;
    batch.error_code = Some(error_code);
    let te: u128 = orchestrator.total_executions as u128;
    let rate: u128 = te * 10000 / (te + 1);
    proof {
        assert(te * 10000 <= (te + 1) * 10000) by (nonlinear_arith);
        assert(te * 10000 / (te + 1) <= 10000) by (nonlinear_arith)
            requires te * 10000 <= (te + 1) * 10000;
    }
    orchestrator.success_rate = rate as u16;
    Result::Ok(())
}

/// Reports whether the reservation already holds the scheduler's
/// confirmation.
pub fn get_preconfirmation(reservation: &SlotReservation) -> (b: bool)
    ensures
        b == (reservation.status == ReservationStatus::Confirmed),
{
    reservation.status == ReservationStatus::Confirmed
}

/// Expires a Pending or Confirmed reservation whose grace window has
/// elapsed without execution; any other reservation is left as it is.
pub fn expire_reservation(reservation: &mut SlotReservation, now: i64) -> (expired: bool)
    ensures
        expired == ((old(reservation).status == ReservationStatus::Pending
            || old(reservation).status == ReservationStatus::Confirmed)
            && now > old(reservation).slot_time + GRACE_WINDOW),
        expired ==> *final(reservation) == (SlotReservation {
            status: ReservationStatus::Expired,
            ..*old(reservation)
        }),
        !expired ==> *final(reservation) == *old(reservation),
{
    let live = reservation.status == ReservationStatus::Pending
        || reservation.status == ReservationStatus::Confirmed;
    if live && (now as i128) > (reservation.slot_time as i128) + (GRACE_WINDOW as i128) {
        reservation.status = ReservationStatus::Expired;
        true
    } else {
        false
    }
}

/// Marks a reservation Failed after an execution attempt against it failed;
/// every state may take this edge.
pub fn mark_reservation_failed(reservation: &mut SlotReservation)
    ensures
        *final(reservation) == (SlotReservation {
            status: ReservationStatus::Failed,
            ..*old(reservation)
        }),
{
    reservation.status = ReservationStatus::Failed;
}

} // verus!
