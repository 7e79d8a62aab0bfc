//! Scenarios for the three request entry points: single-flight sharing,
//! tag isolation, error fidelity, absence mapping, and slot retention.

use single_flight::initializer::InitResult;
use single_flight::initializer::ValueInitializer;
use single_flight::OptionallyNone;

const WIDGET_ERR: u64 = 7;
const GADGET_ERR: u64 = 8;

#[test]
fn three_requesters_one_computation() {
    // Three requesters ask for the same key under the same declared error
    // type while the first one's computation is the only one that runs: one
    // Initialized, two ReadExisting with the same value.
    let mut vi: ValueInitializer<u64, u64> = ValueInitializer::new();
    let mut invocations: u64 = 0;

    // First requester wins the race and runs the computation.
    invocations += 1;
    let r1 = vi.try_init_or_read(1, WIDGET_ERR, Ok(42));
    assert!(matches!(r1, InitResult::Initialized(42)));

    // The slot is retained on success: the other requesters read the cell.
    let r2 = vi.try_init_or_read(1, WIDGET_ERR, Ok(43));
    let r3 = vi.try_init_or_read(1, WIDGET_ERR, Ok(44));
    assert!(matches!(r2, InitResult::ReadExisting(42)));
    assert!(matches!(r3, InitResult::ReadExisting(42)));
    assert_eq!(invocations, 1);
}

#[test]
fn plain_initialization_never_errs() {
    let mut vi: ValueInitializer<u64, u64> = ValueInitializer::new();
    let r1 = vi.init_or_read(5, 10);
    assert!(matches!(r1, InitResult::Initialized(10)));
    let r2 = vi.init_or_read(5, 11);
    assert!(matches!(r2, InitResult::ReadExisting(10)));
}

#[test]
fn tag_isolation_runs_each_computation() {
    // The same key under two different declared error types: the slots are
    // independent, each computation runs once.
    let mut vi: ValueInitializer<u64, u64> = ValueInitializer::new();
    let mut widget_invocations: u64 = 0;
    let mut gadget_invocations: u64 = 0;

    widget_invocations += 1;
    let r1 = vi.try_init_or_read(1, WIDGET_ERR, Ok(10));
    assert!(matches!(r1, InitResult::Initialized(10)));

    gadget_invocations += 1;
    let r2 = vi.try_init_or_read(1, GADGET_ERR, Ok(20));
    assert!(matches!(r2, InitResult::Initialized(20)));

    // Each tag's later requesters read their own tag's cell.
    let r3 = vi.try_init_or_read(1, WIDGET_ERR, Ok(11));
    let r4 = vi.try_init_or_read(1, GADGET_ERR, Ok(21));
    assert!(matches!(r3, InitResult::ReadExisting(10)));
    assert!(matches!(r4, InitResult::ReadExisting(20)));
    assert_eq!(widget_invocations, 1);
    assert_eq!(gadget_invocations, 1);
}

#[test]
fn typed_error_reaches_the_initiating_caller() {
    let mut vi: ValueInitializer<u64, u64> = ValueInitializer::new();
    let r = vi.try_init_or_read(3, WIDGET_ERR, Err(99));
    assert!(matches!(r, InitResult::InitErr(99)));
}

#[test]
fn absence_maps_to_the_sentinel_error() {
    let mut vi: ValueInitializer<u64, u64> = ValueInitializer::new();
    let r = vi.optionally_init_or_read(4, None);
    assert!(matches!(r, InitResult::InitErr(OptionallyNone)));
}

#[test]
fn failed_slot_is_not_retained() {
    // After a typed error, a subsequent independent request triggers a fresh
    // computation instead of reading a stale failure.
    let mut vi: ValueInitializer<u64, u64> = ValueInitializer::new();
    let mut invocations: u64 = 0;

    invocations += 1;
    let r1 = vi.try_init_or_read(1, WIDGET_ERR, Err(99));
    assert!(matches!(r1, InitResult::InitErr(99)));

    invocations += 1;
    let r2 = vi.try_init_or_read(1, WIDGET_ERR, Ok(41));
    assert!(matches!(r2, InitResult::Initialized(41)));
    assert_eq!(invocations, 2);
}

#[test]
fn absent_slot_is_not_retained() {
    // After an absence outcome the slot is removed: a later "optional"
    // request runs its computation afresh and can succeed.
    let mut vi: ValueInitializer<u64, u64> = ValueInitializer::new();
    let mut invocations: u64 = 0;

    invocations += 1;
    let r1 = vi.optionally_init_or_read(2, None);
    assert!(matches!(r1, InitResult::InitErr(OptionallyNone)));

    invocations += 1;
    let r2 = vi.optionally_init_or_read(2, Some(7));
    assert!(matches!(r2, InitResult::Initialized(7)));
    assert_eq!(invocations, 2);
}

#[test]
fn success_slot_is_retained_per_tag() {
    // Success retains the slot, failure frees it — independently per tag,
    // even on the same key.
    let mut vi: ValueInitializer<u64, u64> = ValueInitializer::new();

    let r1 = vi.try_init_or_read(1, WIDGET_ERR, Ok(10));
    let r2 = vi.try_init_or_read(1, GADGET_ERR, Err(99));
    assert!(matches!(r1, InitResult::Initialized(10)));
    assert!(matches!(r2, InitResult::InitErr(99)));

    // The widget slot still serves readers; the gadget slot starts fresh.
    let r3 = vi.try_init_or_read(1, WIDGET_ERR, Ok(12));
    let r4 = vi.try_init_or_read(1, GADGET_ERR, Ok(22));
    assert!(matches!(r3, InitResult::ReadExisting(10)));
    assert!(matches!(r4, InitResult::Initialized(22)));
}

#[test]
fn keys_do_not_interfere() {
    let mut vi: ValueInitializer<u64, u64> = ValueInitializer::new();
    let r1 = vi.try_init_or_read(1, WIDGET_ERR, Ok(10));
    let r2 = vi.try_init_or_read(2, WIDGET_ERR, Ok(20));
    assert!(matches!(r1, InitResult::Initialized(10)));
    assert!(matches!(r2, InitResult::Initialized(20)));
    let r3 = vi.try_init_or_read(2, WIDGET_ERR, Ok(21));
    assert!(matches!(r3, InitResult::ReadExisting(20)));
}

#[test]
fn mixed_tags_interleaved_keep_their_values() {
    // Interleaving typed errors, absence and success on one key never
    // confuses the outcomes of different tags.
    let mut vi: ValueInitializer<u64, u64> = ValueInitializer::new();

    let r1 = vi.try_init_or_read(9, WIDGET_ERR, Err(77));
    let r2 = vi.optionally_init_or_read(9, Some(5));
    let r3 = vi.init_or_read(9, 1000);
    let r4 = vi.try_init_or_read(9, GADGET_ERR, Err(88));

    assert!(matches!(r1, InitResult::InitErr(77)));
    assert!(matches!(r2, InitResult::Initialized(5)));
    assert!(matches!(r3, InitResult::Initialized(1000)));
    assert!(matches!(r4, InitResult::InitErr(88)));

    // Readers of the retained successful slots get those tags' values.
    let r5 = vi.optionally_init_or_read(9, Some(6));
    let r6 = vi.init_or_read(9, 2000);
    assert!(matches!(r5, InitResult::ReadExisting(5)));
    assert!(matches!(r6, InitResult::ReadExisting(1000)));
}
