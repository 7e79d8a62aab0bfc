//! The single-flight guarantee over whole executions.
//!
//! The coordinator's operations constrain each step a requester can take; the
//! guarantee of the protocol is about every interleaving of such steps. This
//! module states the protocol as a transition system over the set of
//! registered (key, tag) attempts — an abstraction of the waiter map that
//! `try_insert_waiter`, `publish_value`, `publish_error` and `abort_waiter`
//! maintain — and proves the single-flight law: however many requesters race,
//! at most one of them ever becomes the writer for a (key, tag) pair, as long
//! as no failed attempt frees the slot in between; and once an attempt fails,
//! the very next requester wins a fresh attempt.

use vstd::prelude::*;

use crate::erased::TypeTag;

verus! {

/// One observable event of the coordination protocol at the waiter map.
pub enum ProtocolEvent {
    /// A requester ran the compare-and-insert for (key, tag); `won` records
    /// whether it became the writer.
    Begin { key: u64, tag: TypeTag, won: bool },
    /// The writer for (key, tag) published a success value; the entry is
    /// deliberately retained for requesters racing in right now.
    SettleSuccess { key: u64, tag: TypeTag },
    /// The attempt for (key, tag) ended in a typed error, absence, or a
    /// panic; the entry is removed so a later request starts fresh.
    SettleFailure { key: u64, tag: TypeTag },
}

/// The registered attempts after one event.
pub open spec fn step(s: Set<(u64, TypeTag)>, ev: ProtocolEvent) -> Set<(u64, TypeTag)> {
    match ev {
        ProtocolEvent::Begin { key, tag, won } => s.insert((key, tag)),
        ProtocolEvent::SettleSuccess { key, tag } => s,
        ProtocolEvent::SettleFailure { key, tag } => s.remove((key, tag)),
    }
}

/// Whether one event can happen in state `s`: winning the race is exactly
/// finding no registered attempt — the contract of `try_insert_waiter` — and
/// only a registered attempt settles.
pub open spec fn event_enabled(s: Set<(u64, TypeTag)>, ev: ProtocolEvent) -> bool {
    match ev {
        ProtocolEvent::Begin { key, tag, won } => won <==> !s.contains((key, tag)),
        ProtocolEvent::SettleSuccess { key, tag } => s.contains((key, tag)),
        ProtocolEvent::SettleFailure { key, tag } => s.contains((key, tag)),
    }
}

/// The registered attempts after a sequence of events.
pub open spec fn run(s: Set<(u64, TypeTag)>, evs: Seq<ProtocolEvent>) -> Set<(u64, TypeTag)>
    decreases evs.len(),
{
    if evs.len() == 0 {
        s
    } else {
        run(step(s, evs[0]), evs.drop_first())
    }
}

/// Whether a sequence of events can happen from state `s`.
pub open spec fn trace_enabled(s: Set<(u64, TypeTag)>, evs: Seq<ProtocolEvent>) -> bool
    decreases evs.len(),
{
    evs.len() == 0 || (event_enabled(s, evs[0]) && trace_enabled(step(s, evs[0]), evs.drop_first()))
}

/// How many requesters in the trace win the insertion race for (key, tag).
pub open spec fn wins(evs: Seq<ProtocolEvent>, key: u64, tag: TypeTag) -> nat
    decreases evs.len(),
{
    if evs.len() == 0 {
        0
    } else {
        (match evs[0] {
            ProtocolEvent::Begin { key: k, tag: t, won } => if k == key && t == tag && won {
                1nat
            } else {
                0nat
            },
            _ => 0nat,
        }) + wins(evs.drop_first(), key, tag)
    }
}

/// How many requesters in the trace run the compare-and-insert for
/// (key, tag) at all, winning or losing.
pub open spec fn begins(evs: Seq<ProtocolEvent>, key: u64, tag: TypeTag) -> nat
    decreases evs.len(),
{
    if evs.len() == 0 {
        0
    } else {
        (match evs[0] {
            ProtocolEvent::Begin { key: k, tag: t, won } => if k == key && t == tag {
                1nat
            } else {
                0nat
            },
            _ => 0nat,
        }) + begins(evs.drop_first(), key, tag)
    }
}

/// Whether the trace ever frees the (key, tag) slot by settling a failure.
pub open spec fn removes(evs: Seq<ProtocolEvent>, key: u64, tag: TypeTag) -> bool
    decreases evs.len(),
{
    evs.len() != 0 && ((evs[0] matches ProtocolEvent::SettleFailure { key: k, tag: t } && k == key
        && t == tag) || removes(evs.drop_first(), key, tag))
}

/// While an attempt for (key, tag) stays registered, no requester wins a new
/// race for it, and it stays registered.
proof fn lemma_no_wins_while_registered(
    s: Set<(u64, TypeTag)>,
    evs: Seq<ProtocolEvent>,
    key: u64,
    tag: TypeTag,
)
    requires
        trace_enabled(s, evs),
        s.contains((key, tag)),
        !removes(evs, key, tag),
    ensures
        wins(evs, key, tag) == 0,
        run(s, evs).contains((key, tag)),
    decreases evs.len(),
{
    if evs.len() != 0 {
        lemma_no_wins_while_registered(step(s, evs[0]), evs.drop_first(), key, tag);
    }
}

/// Single-flight, part one: in any execution the protocol allows in which the
/// (key, tag) slot is never freed by a failure, at most one requester ever
/// wins the insertion race for (key, tag) — every other concurrent requester
/// is sent to read the winner's cell. If an attempt was already registered at
/// the start, nobody wins at all.
pub proof fn lemma_single_flight(
    s: Set<(u64, TypeTag)>,
    evs: Seq<ProtocolEvent>,
    key: u64,
    tag: TypeTag,
)
    requires
        trace_enabled(s, evs),
        !removes(evs, key, tag),
    ensures
        wins(evs, key, tag) <= 1,
        s.contains((key, tag)) ==> wins(evs, key, tag) == 0,
    decreases evs.len(),
{
    if evs.len() != 0 {
        if s.contains((key, tag)) {
            lemma_no_wins_while_registered(s, evs, key, tag);
        } else {
            let s2 = step(s, evs[0]);
            match evs[0] {
                ProtocolEvent::Begin { key: k, tag: t, won } => {
                    if k == key && t == tag {
                        lemma_no_wins_while_registered(s2, evs.drop_first(), key, tag);
                    } else {
                        lemma_single_flight(s2, evs.drop_first(), key, tag);
                    }
                }
                _ => {
                    lemma_single_flight(s2, evs.drop_first(), key, tag);
                }
            }
        }
    }
}

/// Single-flight, part two: if the slot starts free, it is never freed by a
/// failure, and at least one requester runs the compare-and-insert, then
/// exactly one requester wins — the computation runs exactly once however
/// many requesters race.
pub proof fn lemma_exactly_one_winner(
    s: Set<(u64, TypeTag)>,
    evs: Seq<ProtocolEvent>,
    key: u64,
    tag: TypeTag,
)
    requires
        trace_enabled(s, evs),
        !removes(evs, key, tag),
        !s.contains((key, tag)),
        begins(evs, key, tag) >= 1,
    ensures
        wins(evs, key, tag) == 1,
    decreases evs.len(),
{
    let s2 = step(s, evs[0]);
    match evs[0] {
        ProtocolEvent::Begin { key: k, tag: t, won } => {
            if k == key && t == tag {
                lemma_no_wins_while_registered(s2, evs.drop_first(), key, tag);
            } else {
                lemma_exactly_one_winner(s2, evs.drop_first(), key, tag);
            }
        }
        _ => {
            lemma_exactly_one_winner(s2, evs.drop_first(), key, tag);
        }
    }
}

/// Non-retention on failure: immediately after an attempt for (key, tag)
/// settles as a failure, a requester that runs the compare-and-insert for
/// (key, tag) wins it, so the computation is executed afresh.
pub proof fn lemma_fresh_after_failure(s: Set<(u64, TypeTag)>, key: u64, tag: TypeTag, won: bool)
    requires
        event_enabled(
            step(s, ProtocolEvent::SettleFailure { key, tag }),
            ProtocolEvent::Begin { key, tag, won },
        ),
    ensures
        won,
{
}

} // verus!
