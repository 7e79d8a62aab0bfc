//! Scenarios driven through the individual protocol steps, the way the
//! blocking driver interleaves them across requesters: racing insertions,
//! panic recovery with retries, retry exhaustion, and error downcasting.

use single_flight::erased::downcast;
use single_flight::initializer::retry_decision;
use single_flight::initializer::InsertOutcome;
use single_flight::initializer::ReadOutcome;
use single_flight::initializer::RetryDecision;
use single_flight::initializer::ValueInitializer;
use single_flight::initializer::MAX_RETRIES;
use single_flight::ErasedError;
use single_flight::TypeTag;

const WIDGET_ERR: u64 = 7;
const GADGET_ERR: u64 = 8;

fn won(r: InsertOutcome) -> Option<usize> {
    match r {
        InsertOutcome::Inserted(c) => Some(c),
        InsertOutcome::Existing(_) => None,
    }
}

fn lost(r: InsertOutcome) -> Option<usize> {
    match r {
        InsertOutcome::Inserted(_) => None,
        InsertOutcome::Existing(c) => Some(c),
    }
}

#[test]
fn exactly_one_writer_among_racing_requesters() {
    // All three requesters run the compare-and-insert before any outcome is
    // published; only the computation of the single winner runs.
    let mut vi: ValueInitializer<u64, u64> = ValueInitializer::new();
    let tag = TypeTag::Typed(WIDGET_ERR);
    let mut invocations: u64 = 0;

    let r1 = vi.try_insert_waiter(1, tag);
    let r2 = vi.try_insert_waiter(1, tag);
    let r3 = vi.try_insert_waiter(1, tag);

    let writer_cell = won(r1).expect("first requester must win");
    let reader2 = lost(r2).expect("second requester must lose");
    let reader3 = lost(r3).expect("third requester must lose");
    assert_eq!(reader2, writer_cell);
    assert_eq!(reader3, writer_cell);

    // Winner runs the computation and publishes.
    invocations += 1;
    vi.publish_value(writer_cell, 42);

    // Both waiters read the same published value.
    assert!(matches!(vi.read_waiter(reader2), ReadOutcome::Value(42)));
    assert!(matches!(vi.read_waiter(reader3), ReadOutcome::Value(42)));
    assert_eq!(invocations, 1);
}

#[test]
fn different_tags_get_different_cells() {
    let mut vi: ValueInitializer<u64, u64> = ValueInitializer::new();
    let r1 = vi.try_insert_waiter(1, TypeTag::Typed(WIDGET_ERR));
    let r2 = vi.try_insert_waiter(1, TypeTag::Typed(GADGET_ERR));
    let r3 = vi.try_insert_waiter(1, TypeTag::Absence);
    let c1 = won(r1).expect("fresh widget slot");
    let c2 = won(r2).expect("fresh gadget slot");
    let c3 = won(r3).expect("fresh absence slot");
    assert_ne!(c1, c2);
    assert_ne!(c1, c3);
    assert_ne!(c2, c3);
}

#[test]
fn waiters_downcast_the_erased_error_to_their_tag() {
    // Two tags interleave failures on the same key; each waiter recovers its
    // own typed error value, with no confusion between tags.
    let mut vi: ValueInitializer<u64, u64> = ValueInitializer::new();
    let widget_tag = TypeTag::Typed(WIDGET_ERR);
    let gadget_tag = TypeTag::Typed(GADGET_ERR);

    let w = won(vi.try_insert_waiter(1, widget_tag)).expect("widget writer");
    let g = won(vi.try_insert_waiter(1, gadget_tag)).expect("gadget writer");
    let w_reader = lost(vi.try_insert_waiter(1, widget_tag)).expect("widget waiter");
    let g_reader = lost(vi.try_insert_waiter(1, gadget_tag)).expect("gadget waiter");

    vi.publish_error(1, widget_tag, w, ErasedError::Typed(WIDGET_ERR, 99));
    vi.publish_error(1, gadget_tag, g, ErasedError::Typed(GADGET_ERR, 55));

    let w_err = match vi.read_waiter(w_reader) {
        ReadOutcome::Error(e) => e,
        _ => panic!("widget waiter must see a failure"),
    };
    let g_err = match vi.read_waiter(g_reader) {
        ReadOutcome::Error(e) => e,
        _ => panic!("gadget waiter must see a failure"),
    };

    // Round trip: each erased error downcasts to its own tag and value.
    assert_eq!(downcast(w_err, WIDGET_ERR), Some(99));
    assert_eq!(downcast(g_err, GADGET_ERR), Some(55));
    // No type confusion: the wrong tag never downcasts.
    assert_eq!(downcast(w_err, GADGET_ERR), None);
    assert_eq!(downcast(g_err, WIDGET_ERR), None);
}

#[test]
fn waiters_retry_after_a_panic_and_share_the_next_attempt() {
    // The writer's computation panics: the writer resets its cell, removes
    // the entry, and re-raises. A waiter that reads the empty cell retries
    // the whole protocol, wins the fresh slot, and computes.
    let mut vi: ValueInitializer<u64, u64> = ValueInitializer::new();
    let tag = TypeTag::Typed(WIDGET_ERR);

    let writer = won(vi.try_insert_waiter(1, tag)).expect("first writer");
    let waiter = lost(vi.try_insert_waiter(1, tag)).expect("waiter");

    // The computation panics: cleanup runs before the panic continues.
    vi.abort_waiter(1, tag, writer);

    // The waiter finds the cell empty and is told to retry.
    assert!(matches!(vi.read_waiter(waiter), ReadOutcome::Pending));
    let retries = match retry_decision(0) {
        RetryDecision::RetryAgain(n) => n,
        RetryDecision::Exhausted => panic!("first retry must be granted"),
    };
    assert_eq!(retries, 1);

    // Retrying from the start, the waiter wins a fresh attempt: the panicked
    // attempt was not retained.
    let second = won(vi.try_insert_waiter(1, tag)).expect("retrying waiter wins");
    assert_ne!(second, writer);
    vi.publish_value(second, 42);
    assert!(matches!(vi.read_waiter(second), ReadOutcome::Value(42)));
}

#[test]
fn retries_exhaust_exactly_at_the_bound() {
    // A computation that panics on every attempt: the waiter is granted
    // MAX_RETRIES - 1 fresh rounds and told to abort fatally on observation
    // number MAX_RETRIES.
    assert_eq!(MAX_RETRIES, 200);
    let mut retries: u64 = 0;
    let mut observations: u64 = 0;
    loop {
        observations += 1;
        match retry_decision(retries) {
            RetryDecision::RetryAgain(n) => {
                assert_eq!(n, observations);
                retries = n;
            }
            RetryDecision::Exhausted => break,
        }
    }
    assert_eq!(observations, MAX_RETRIES);
}

#[test]
fn success_keeps_the_entry_for_late_readers() {
    // Deliberate retention: a requester arriving after the writer published
    // success still reads the fresh value from the same cell.
    let mut vi: ValueInitializer<u64, u64> = ValueInitializer::new();
    let tag = TypeTag::NoError;
    let writer = won(vi.try_insert_waiter(3, tag)).expect("writer");
    vi.publish_value(writer, 5);
    let late = lost(vi.try_insert_waiter(3, tag)).expect("late reader is sent to the cell");
    assert_eq!(late, writer);
    assert!(matches!(vi.read_waiter(late), ReadOutcome::Value(5)));
    assert!(matches!(vi.cell_tag(late), TypeTag::NoError));
}
