//! The initializer coordinator: a map from (key, tag) to waiter cells, and
//! the single-flight protocol steps that operate on it.
//!
//! One coordinator value models the shared state that all concurrent
//! requesters for one cache see: every waiter cell ever created (cells are
//! shared by reference in the running system and stay readable after their
//! map entry is gone) and the map of in-flight or freshly succeeded attempts.
//! Each protocol step — registering a waiter, publishing an outcome, reading
//! a cell, deciding on a retry — is a verified operation here; the driver
//! that interleaves the steps of different requesters over real threads sits
//! outside this core.

use vstd::prelude::*;

use crate::erased::ErasedError;
use crate::erased::OptionallyNone;
use crate::erased::TypeTag;

verus! {

/// How many times a requester may observe an empty cell (the previous writer
/// panicked) and start the protocol over before giving up for good.
pub const MAX_RETRIES: u64 = 200;

/// The content of one waiter cell: the eventual outcome of one
/// initialization attempt for one (key, tag) pair.
#[derive(Clone, Copy, Debug)]
pub enum WaiterValue<V, E> {
    /// The initializing computation is still running, or panicked.
    Empty,
    /// The computation returned a value.
    Succeeded(V),
    /// The computation failed; the erased error carries the cell's tag.
    Failed(ErasedError<E>),
}

/// One waiter cell together with the tag it was created under.
#[derive(Clone, Copy, Debug)]
pub struct Waiter<V, E> {
    /// The declared error kind of the attempt this cell belongs to.
    pub tag: TypeTag,
    /// The outcome published so far.
    pub value: WaiterValue<V, E>,
}

/// One entry of the waiter map: (key, tag) mapped to a cell.
#[derive(Clone, Copy, Debug)]
pub struct WaiterEntry {
    /// The cache key of the attempt.
    pub key: u64,
    /// The declared error kind of the attempt.
    pub tag: TypeTag,
    /// Index of the attempt's cell in the coordinator's cell store.
    pub cell: usize,
}

/// Result of trying to register a waiter for a (key, tag) pair.
#[derive(Clone, Copy, Debug)]
pub enum InsertOutcome {
    /// No attempt was in flight: the caller won the race, a fresh empty cell
    /// with this index was registered, and the caller must now run the
    /// computation and publish its outcome into that cell.
    Inserted(usize),
    /// An attempt already existed: the caller lost the race and must read
    /// the existing cell with this index.
    Existing(usize),
}

/// What a reader finds in a waiter cell.
#[derive(Clone, Copy, Debug)]
pub enum ReadOutcome<V, E> {
    /// The writer published a value.
    Value(V),
    /// The writer published a failure.
    Error(ErasedError<E>),
    /// No outcome yet: the writer is still running, or panicked.
    Pending,
}

/// The result of one initialization request, as handed to the caller.
#[derive(Clone, Copy, Debug)]
pub enum InitResult<V, E> {
    /// This caller ran the computation and it produced the value.
    Initialized(V),
    /// Another caller's attempt produced the value; this caller read it.
    ReadExisting(V),
    /// The attempt failed with this error of the declared type.
    InitErr(E),
}

/// What a requester that found an empty cell must do next.
#[derive(Clone, Copy, Debug)]
pub enum RetryDecision {
    /// Start the protocol over, carrying this retry count.
    RetryAgain(u64),
    /// The retry budget is spent: abort fatally, the computation keeps
    /// panicking.
    Exhausted,
}

/// The coordinator: owns every waiter cell ever created and the map of
/// currently registered attempts.
pub struct ValueInitializer<V, E> {
    cells: Vec<Waiter<V, E>>,
    entries: Vec<WaiterEntry>,
}

impl<V: Copy, E: Copy> ValueInitializer<V, E> {
    /// The cells created so far, indexed by cell identifier.
    pub closed spec fn cells_seq(self) -> Seq<Waiter<V, E>> {
        self.cells@
    }

    /// The waiter map entries currently registered.
    pub closed spec fn entries_seq(self) -> Seq<WaiterEntry> {
        self.entries@
    }

    /// Whether an attempt for (key, tag) is currently registered.
    pub open spec fn has_entry(self, key: u64, tag: TypeTag) -> bool {
        exists|i: int|
            0 <= i < self.entries_seq().len() && (#[trigger] self.entries_seq()[i]).key == key
                && self.entries_seq()[i].tag == tag
    }

    /// Whether the waiter map currently maps (key, tag) to the cell `c`.
    pub open spec fn maps_to(self, key: u64, tag: TypeTag, c: int) -> bool {
        exists|i: int|
            0 <= i < self.entries_seq().len() && (#[trigger] self.entries_seq()[i]).key == key
                && self.entries_seq()[i].tag == tag && self.entries_seq()[i].cell == c
    }

    /// Well-formedness: every entry points at a cell, no (key, tag) pair is
    /// registered twice, a registered cell carries its entry's tag, and a
    /// failed cell holds an error erased under that very tag — which is what
    /// makes every downcast at a reader sound.
    pub open spec fn wf(self) -> bool {
        &&& forall|i: int|
            0 <= i < self.entries_seq().len() ==> (#[trigger] self.entries_seq()[i]).cell
                < self.cells_seq().len()
        &&& forall|i: int, j: int|
            0 <= i < j < self.entries_seq().len() ==> !((#[trigger] self.entries_seq()[i]).key == (
            #[trigger] self.entries_seq()[j]).key && self.entries_seq()[i].tag
                == self.entries_seq()[j].tag)
        &&& forall|i: int|
            0 <= i < self.entries_seq().len() ==> self.cells_seq()[(
            #[trigger] self.entries_seq()[i]).cell as int].tag == self.entries_seq()[i].tag
        &&& forall|c: int|
            0 <= c < self.cells_seq().len() ==> ((#[trigger] self.cells_seq()[c]).value matches
            WaiterValue::Failed(e) ==> e.tag() == self.cells_seq()[c].tag)
    }

    /// A fresh coordinator: no cells, no registered attempts.
    pub fn new() -> (r: Self)
        ensures
            r.wf(),
            r.cells_seq().len() == 0,
            r.entries_seq().len() == 0,
            forall|key: u64, tag: TypeTag| !(#[trigger] r.has_entry(key, tag)),
    {
        ValueInitializer { cells: Vec::new(), entries: Vec::new() }
    }

    /// Find the index of the map entry for (key, tag), if one is registered.
    fn find_entry(&self, key: u64, tag: TypeTag) -> (r: Option<usize>)
        ensures
            match r {
                Some(i) => i < self.entries_seq().len() && self.entries_seq()[i as int].key == key
                    && self.entries_seq()[i as int].tag == tag,
                None => !self.has_entry(key, tag),
            },
    {
        let n = self.entries.len();
        let mut i: usize = 0;
        while i < n
            invariant
                n == self.entries_seq().len(),
                i <= n,
                forall|j: int|
                    0 <= j < i ==> !((#[trigger] self.entries_seq()[j]).key == key
                        && self.entries_seq()[j].tag == tag),
            decreases n - i,
        {
            let e = self.entries[i];
            if e.key == key && e.tag == tag {
                return Some(i);
            }
            i = i + 1;
        }
        None
    }

    /// Whether no registered attempt for (key, tag) is still pending: its
    /// cell, if any, already holds an outcome. A requester that would have to
    /// wait on a still-running writer is a matter for the blocking driver,
    /// not for these synchronous request operations.
    pub open spec fn settled(self, key: u64, tag: TypeTag) -> bool {
        forall|c: int|
            #[trigger] self.maps_to(key, tag, c) ==> !(self.cells_seq()[c].value is Empty)
    }

    /// The waiter map at every other (key, tag) pair is left alone.
    pub open spec fn others_unchanged(pre: Self, post: Self, key: u64, tag: TypeTag) -> bool {
        &&& forall|k2: u64, t2: TypeTag, c: int|
            !(k2 == key && t2 == tag) && #[trigger] post.maps_to(k2, t2, c) ==> pre.maps_to(
                k2,
                t2,
                c,
            )
        &&& forall|k2: u64, t2: TypeTag, c: int|
            !(k2 == key && t2 == tag) && #[trigger] pre.maps_to(k2, t2, c) ==> post.maps_to(
                k2,
                t2,
                c,
            )
    }

    /// A registered cell exists and carries its entry's tag.
    pub proof fn lemma_mapped_cell(s: Self, key: u64, tag: TypeTag, c: int)
        requires
            s.wf(),
            s.maps_to(key, tag, c),
        ensures
            0 <= c < s.cells_seq().len(),
            s.cells_seq()[c].tag == tag,
    {
        let i = choose|i: int|
            0 <= i < s.entries_seq().len() && (#[trigger] s.entries_seq()[i]).key == key
                && s.entries_seq()[i].tag == tag && s.entries_seq()[i].cell == c;
        assert(s.entries_seq()[i].cell < s.cells_seq().len());
        assert(s.cells_seq()[s.entries_seq()[i].cell as int].tag == s.entries_seq()[i].tag);
    }

    /// A (key, tag) pair is registered to at most one cell.
    pub proof fn lemma_maps_to_unique(s: Self, key: u64, tag: TypeTag, c1: int, c2: int)
        requires
            s.wf(),
            s.maps_to(key, tag, c1),
            s.maps_to(key, tag, c2),
        ensures
            c1 == c2,
    {
        let i = choose|i: int|
            0 <= i < s.entries_seq().len() && (#[trigger] s.entries_seq()[i]).key == key
                && s.entries_seq()[i].tag == tag && s.entries_seq()[i].cell == c1;
        let j = choose|j: int|
            0 <= j < s.entries_seq().len() && (#[trigger] s.entries_seq()[j]).key == key
                && s.entries_seq()[j].tag == tag && s.entries_seq()[j].cell == c2;
        if i < j {
            assert(!(s.entries_seq()[i].key == s.entries_seq()[j].key && s.entries_seq()[i].tag
                == s.entries_seq()[j].tag));
        } else if j < i {
            assert(!(s.entries_seq()[j].key == s.entries_seq()[i].key && s.entries_seq()[j].tag
                == s.entries_seq()[i].tag));
        }
    }

    /// The set of registered (key, tag) attempts: the waiter map as the
    /// protocol's transition system (`crate::protocol`) sees it.
    pub open spec fn registered(self) -> Set<(u64, TypeTag)> {
        Set::new(|p: (u64, TypeTag)| self.has_entry(p.0, p.1))
    }

    /// An attempt is registered exactly when some cell is mapped for it.
    proof fn lemma_has_entry_iff_maps_to(s: Self, key: u64, tag: TypeTag)
        ensures
            s.has_entry(key, tag) <==> exists|c: int| s.maps_to(key, tag, c),
    {
        if s.has_entry(key, tag) {
            let j = choose|j: int|
                0 <= j < s.entries_seq().len() && (#[trigger] s.entries_seq()[j]).key == key
                    && s.entries_seq()[j].tag == tag;
            assert(s.maps_to(key, tag, s.entries_seq()[j].cell as int));
        }
        if exists|c: int| s.maps_to(key, tag, c) {
            let c = choose|c: int| s.maps_to(key, tag, c);
            let j = choose|j: int|
                0 <= j < s.entries_seq().len() && (#[trigger] s.entries_seq()[j]).key == key
                    && s.entries_seq()[j].tag == tag && s.entries_seq()[j].cell == c;
            assert(s.has_entry(key, tag));
        }
    }

    /// Refinement of the protocol's `Begin` event: after `try_insert_waiter`
    /// for (key, tag) — winning or losing — the registered attempts are
    /// exactly the old ones plus (key, tag), as `crate::protocol::step` says.
    pub proof fn lemma_registered_after_insert(pre: Self, post: Self, key: u64, tag: TypeTag)
        requires
            post.has_entry(key, tag),
            Self::others_unchanged(pre, post, key, tag),
        ensures
            post.registered() == pre.registered().insert((key, tag)),
    {
        assert forall|p: (u64, TypeTag)|
            post.registered().contains(p) <==> pre.registered().insert((key, tag)).contains(
                p,
            ) by {
            if !(p.0 == key && p.1 == tag) {
                Self::lemma_has_entry_iff_maps_to(pre, p.0, p.1);
                Self::lemma_has_entry_iff_maps_to(post, p.0, p.1);
                if post.has_entry(p.0, p.1) {
                    let c = choose|c: int| post.maps_to(p.0, p.1, c);
                    assert(pre.maps_to(p.0, p.1, c));
                }
                if pre.has_entry(p.0, p.1) {
                    let c = choose|c: int| pre.maps_to(p.0, p.1, c);
                    assert(post.maps_to(p.0, p.1, c));
                }
            }
        }
        assert(post.registered() =~= pre.registered().insert((key, tag)));
    }

    /// Refinement of the protocol's `SettleFailure` event: after a failure,
    /// an absence, or a panicked attempt is cleaned up for (key, tag), the
    /// registered attempts are exactly the old ones minus (key, tag).
    pub proof fn lemma_registered_after_remove(pre: Self, post: Self, key: u64, tag: TypeTag)
        requires
            !post.has_entry(key, tag),
            Self::others_unchanged(pre, post, key, tag),
        ensures
            post.registered() == pre.registered().remove((key, tag)),
    {
        assert forall|p: (u64, TypeTag)|
            post.registered().contains(p) <==> pre.registered().remove((key, tag)).contains(
                p,
            ) by {
            if !(p.0 == key && p.1 == tag) {
                Self::lemma_has_entry_iff_maps_to(pre, p.0, p.1);
                Self::lemma_has_entry_iff_maps_to(post, p.0, p.1);
                if post.has_entry(p.0, p.1) {
                    let c = choose|c: int| post.maps_to(p.0, p.1, c);
                    assert(pre.maps_to(p.0, p.1, c));
                }
                if pre.has_entry(p.0, p.1) {
                    let c = choose|c: int| pre.maps_to(p.0, p.1, c);
                    assert(post.maps_to(p.0, p.1, c));
                }
            }
        }
        assert(post.registered() =~= pre.registered().remove((key, tag)));
    }

    /// Refinement of the protocol's `SettleSuccess` event: publishing a
    /// success value leaves the registered attempts unchanged — the entry is
    /// deliberately retained.
    pub proof fn lemma_registered_after_success(pre: Self, post: Self)
        requires
            pre.entries_seq() == post.entries_seq(),
        ensures
            post.registered() == pre.registered(),
    {
        Self::lemma_same_entries(pre, post);
        assert forall|p: (u64, TypeTag)|
            post.registered().contains(p) <==> pre.registered().contains(p) by {
            assert(pre.has_entry(p.0, p.1) <==> post.has_entry(p.0, p.1));
        }
        assert(post.registered() =~= pre.registered());
    }

    /// Tag isolation: concurrent requests for the same key under different
    /// declared error kinds never share a waiter cell.
    pub proof fn lemma_tag_isolation(s: Self, key: u64, t1: TypeTag, t2: TypeTag, c1: int, c2: int)
        requires
            s.wf(),
            t1 != t2,
            s.maps_to(key, t1, c1),
            s.maps_to(key, t2, c2),
        ensures
            c1 != c2,
    {
        Self::lemma_mapped_cell(s, key, t1, c1);
        Self::lemma_mapped_cell(s, key, t2, c2);
    }

    /// Try to register a waiter for (key, tag): the compare-and-insert at the
    /// heart of the protocol. At most one concurrent requester per (key, tag)
    /// can ever see `Inserted` — everyone else is deterministically sent to
    /// read the winner's cell.
    pub fn try_insert_waiter(&mut self, key: u64, tag: TypeTag) -> (r: InsertOutcome)
        requires
            old(self).wf(),
        ensures
            final(self).wf(),
            r is Inserted <==> !old(self).has_entry(key, tag),
            final(self).has_entry(key, tag),
            Self::others_unchanged(*old(self), *final(self), key, tag),
            (r matches InsertOutcome::Existing(c) ==> *final(self) == *old(self) && old(
                self).maps_to(key, tag, c as int)),
            (r matches InsertOutcome::Inserted(c) ==> {
                &&& c == old(self).cells_seq().len()
                &&& final(self).cells_seq() == old(self).cells_seq().push(
                    Waiter { tag, value: WaiterValue::Empty },
                )
                &&& final(self).entries_seq() == old(self).entries_seq().push(
                    WaiterEntry { key, tag, cell: c },
                )
                &&& final(self).maps_to(key, tag, c as int)
            }),
    {
        match self.find_entry(key, tag) {
            Some(i) => {
                let c = self.entries[i].cell;
                assert(self.maps_to(key, tag, c as int));
                InsertOutcome::Existing(c)
            }
            None => {
                let c = self.cells.len();
                self.cells.push(Waiter { tag, value: WaiterValue::Empty });
                self.entries.push(WaiterEntry { key, tag, cell: c });
                assert(self.entries_seq()[self.entries_seq().len() - 1].key == key);
                assert forall|i: int, j: int|
                    0 <= i < j < self.entries_seq().len() implies !((
                #[trigger] self.entries_seq()[i]).key == (#[trigger] self.entries_seq()[j]).key
                    && self.entries_seq()[i].tag == self.entries_seq()[j].tag) by {
                    if j == self.entries_seq().len() - 1 {
                        assert(self.entries_seq()[i] == old(self).entries_seq()[i]);
                    }
                }
                proof {
                    assert forall|k2: u64, t2: TypeTag, c2: int|
                        !(k2 == key && t2 == tag) && #[trigger] self.maps_to(k2, t2, c2) implies
                        old(self).maps_to(k2, t2, c2) by {
                        let j = choose|j: int|
                            0 <= j < self.entries_seq().len() && (
                            #[trigger] self.entries_seq()[j]).key == k2
                                && self.entries_seq()[j].tag == t2 && self.entries_seq()[j].cell
                                == c2;
                        assert(j < self.entries_seq().len() - 1);
                        assert(old(self).entries_seq()[j] == self.entries_seq()[j]);
                    }
                    assert forall|k2: u64, t2: TypeTag, c2: int|
                        !(k2 == key && t2 == tag) && #[trigger] old(self).maps_to(
                            k2,
                            t2,
                            c2,
                        ) implies self.maps_to(k2, t2, c2) by {
                        let j = choose|j: int|
                            0 <= j < old(self).entries_seq().len() && (
                            #[trigger] old(self).entries_seq()[j]).key == k2 && old(
                                self).entries_seq()[j].tag == t2 && old(
                                self).entries_seq()[j].cell == c2;
                        assert(self.entries_seq()[j] == old(self).entries_seq()[j]);
                    }
                }
                InsertOutcome::Inserted(c)
            }
        }
    }

    /// Unregister the attempt for (key, tag), if one is registered. The cell
    /// itself is kept: requesters already holding it can still read the
    /// published outcome.
    pub fn remove_waiter(&mut self, key: u64, tag: TypeTag)
        requires
            old(self).wf(),
        ensures
            final(self).wf(),
            final(self).cells_seq() == old(self).cells_seq(),
            !final(self).has_entry(key, tag),
            forall|k2: u64, t2: TypeTag, c: int|
                #[trigger] final(self).maps_to(k2, t2, c) ==> old(self).maps_to(k2, t2, c),
            forall|k2: u64, t2: TypeTag, c: int|
                !(k2 == key && t2 == tag) && #[trigger] old(self).maps_to(k2, t2, c) ==> final(
                    self).maps_to(k2, t2, c),
    {
        match self.find_entry(key, tag) {
            Some(i) => {
                let ghost pre = self.entries@;
                self.entries.remove(i);
                proof {
                    assert forall|j: int|
                        0 <= j < self.entries_seq().len() implies !((
                    #[trigger] self.entries_seq()[j]).key == key && self.entries_seq()[j].tag
                        == tag) by {
                        if j < i {
                            assert(self.entries_seq()[j] == pre[j]);
                            assert(!(pre[j].key == key && pre[j].tag == tag)) by {
                                if pre[j].key == key && pre[j].tag == tag {
                                    assert(pre[j].key == pre[i as int].key && pre[j].tag
                                        == pre[i as int].tag);
                                }
                            }
                        } else {
                            assert(self.entries_seq()[j] == pre[j + 1]);
                            if pre[j + 1].key == key && pre[j + 1].tag == tag {
                                assert(pre[i as int].key == pre[j + 1].key && pre[i as int].tag
                                    == pre[j + 1].tag);
                            }
                        }
                    }
                    assert forall|k2: u64, t2: TypeTag, c: int|
                        #[trigger] self.maps_to(k2, t2, c) implies old(self).maps_to(
                        k2,
                        t2,
                        c,
                    ) by {
                        let j = choose|j: int|
                            0 <= j < self.entries_seq().len() && (
                            #[trigger] self.entries_seq()[j]).key == k2
                                && self.entries_seq()[j].tag == t2 && self.entries_seq()[j].cell
                                == c;
                        if j < i {
                            assert(pre[j] == self.entries_seq()[j]);
                        } else {
                            assert(pre[j + 1] == self.entries_seq()[j]);
                        }
                    }
                    assert forall|k2: u64, t2: TypeTag, c: int|
                        !(k2 == key && t2 == tag) && #[trigger] old(self).maps_to(
                            k2,
                            t2,
                            c,
                        ) implies self.maps_to(k2, t2, c) by {
                        let j = choose|j: int|
                            0 <= j < pre.len() && (#[trigger] pre[j]).key == k2 && pre[j].tag == t2
                                && pre[j].cell == c;
                        if j < i {
                            assert(self.entries_seq()[j] == pre[j]);
                        } else {
                            assert(j != i);
                            assert(self.entries_seq()[j - 1] == pre[j]);
                        }
                    }
                }
            }
            None => {
                assert forall|k2: u64, t2: TypeTag, c: int|
                    #[trigger] self.maps_to(k2, t2, c) implies old(self).maps_to(k2, t2, c) by {}
            }
        }
    }

    /// Publish a success value into a cell. The writer calls this after its
    /// computation returned normally; the map entry is deliberately kept, so
    /// that requesters racing in right now still read the fresh value before
    /// the surrounding cache's primary storage takes over.
    pub fn publish_value(&mut self, cell: usize, value: V)
        requires
            old(self).wf(),
            cell < old(self).cells_seq().len(),
            old(self).cells_seq()[cell as int].value is Empty,
        ensures
            final(self).wf(),
            final(self).entries_seq() == old(self).entries_seq(),
            final(self).cells_seq() == old(self).cells_seq().update(
                cell as int,
                Waiter {
                    tag: old(self).cells_seq()[cell as int].tag,
                    value: WaiterValue::Succeeded(value),
                },
            ),
            final(self).cells_seq()[cell as int].value == WaiterValue::<V, E>::Succeeded(value),
    {
        let tag = self.cells[cell].tag;
        self.cells[cell] = Waiter { tag, value: WaiterValue::Succeeded(value) };
    }

    /// Publish a failure into a cell and unregister the attempt, so that a
    /// later independent request for the same (key, tag) starts a fresh
    /// computation. The cell keeps the error: requesters already waiting on
    /// it still read and downcast it.
    pub fn publish_error(&mut self, key: u64, tag: TypeTag, cell: usize, err: ErasedError<E>)
        requires
            old(self).wf(),
            cell < old(self).cells_seq().len(),
            old(self).cells_seq()[cell as int].value is Empty,
            old(self).cells_seq()[cell as int].tag == tag,
            err.tag() == tag,
        ensures
            final(self).wf(),
            final(self).cells_seq() == old(self).cells_seq().update(
                cell as int,
                Waiter { tag, value: WaiterValue::Failed(err) },
            ),
            !final(self).has_entry(key, tag),
            forall|k2: u64, t2: TypeTag, c: int|
                #[trigger] final(self).maps_to(k2, t2, c) ==> old(self).maps_to(k2, t2, c),
            forall|k2: u64, t2: TypeTag, c: int|
                !(k2 == key && t2 == tag) && #[trigger] old(self).maps_to(k2, t2, c) ==> final(
                    self).maps_to(k2, t2, c),
    {
        self.cells[cell] = Waiter { tag, value: WaiterValue::Failed(err) };
        let ghost mid = *self;
        self.remove_waiter(key, tag);
        proof {
            assert forall|k2: u64, t2: TypeTag, c: int|
                !(k2 == key && t2 == tag) && #[trigger] old(self).maps_to(k2, t2, c) implies
                self.maps_to(k2, t2, c) by {
                let j = choose|j: int|
                    0 <= j < old(self).entries_seq().len() && (
                    #[trigger] old(self).entries_seq()[j]).key == k2 && old(
                        self).entries_seq()[j].tag == t2 && old(self).entries_seq()[j].cell == c;
                assert(mid.entries_seq()[j] == old(self).entries_seq()[j]);
                assert(mid.maps_to(k2, t2, c));
            }
        }
    }

    /// Abandon an attempt whose computation terminated abnormally: reset the
    /// cell to empty and unregister it, so that waiting readers detect the
    /// abandonment and retry, and a later request starts fresh. The caller
    /// then lets the abnormal termination continue in its own context.
    pub fn abort_waiter(&mut self, key: u64, tag: TypeTag, cell: usize)
        requires
            old(self).wf(),
            cell < old(self).cells_seq().len(),
        ensures
            final(self).wf(),
            final(self).cells_seq() == old(self).cells_seq().update(
                cell as int,
                Waiter { tag: old(self).cells_seq()[cell as int].tag, value: WaiterValue::Empty },
            ),
            !final(self).has_entry(key, tag),
            forall|k2: u64, t2: TypeTag, c: int|
                #[trigger] final(self).maps_to(k2, t2, c) ==> old(self).maps_to(k2, t2, c),
            forall|k2: u64, t2: TypeTag, c: int|
                !(k2 == key && t2 == tag) && #[trigger] old(self).maps_to(k2, t2, c) ==> final(
                    self).maps_to(k2, t2, c),
    {
        let tag0 = self.cells[cell].tag;
        self.cells[cell] = Waiter { tag: tag0, value: WaiterValue::Empty };
        let ghost mid = *self;
        self.remove_waiter(key, tag);
        proof {
            assert forall|k2: u64, t2: TypeTag, c: int|
                !(k2 == key && t2 == tag) && #[trigger] old(self).maps_to(k2, t2, c) implies
                self.maps_to(k2, t2, c) by {
                let j = choose|j: int|
                    0 <= j < old(self).entries_seq().len() && (
                    #[trigger] old(self).entries_seq()[j]).key == k2 && old(
                        self).entries_seq()[j].tag == t2 && old(self).entries_seq()[j].cell == c;
                assert(mid.entries_seq()[j] == old(self).entries_seq()[j]);
                assert(mid.maps_to(k2, t2, c));
            }
        }
    }

    /// Read a waiter cell, as a requester that lost the insertion race does
    /// once the writer's lock is released.
    pub fn read_waiter(&self, cell: usize) -> (r: ReadOutcome<V, E>)
        requires
            cell < self.cells_seq().len(),
        ensures
            r == read_view(self.cells_seq()[cell as int].value),
    {
        match &self.cells[cell].value {
            WaiterValue::Empty => ReadOutcome::Pending,
            WaiterValue::Succeeded(v) => ReadOutcome::Value(*v),
            WaiterValue::Failed(e) => ReadOutcome::Error(*e),
        }
    }

    /// Coordinators with the same entries register the same attempts.
    proof fn lemma_same_entries(a: Self, b: Self)
        requires
            a.entries_seq() == b.entries_seq(),
        ensures
            forall|k: u64, t: TypeTag, c: int|
                #[trigger] a.maps_to(k, t, c) <==> #[trigger] b.maps_to(k, t, c),
            forall|k: u64, t: TypeTag| #[trigger] a.has_entry(k, t) <==> #[trigger] b.has_entry(
                k,
                t,
            ),
    {
        assert forall|k: u64, t: TypeTag, c: int|
            #[trigger] a.maps_to(k, t, c) <==> #[trigger] b.maps_to(k, t, c) by {
            if a.maps_to(k, t, c) {
                let j = choose|j: int|
                    0 <= j < a.entries_seq().len() && (#[trigger] a.entries_seq()[j]).key == k
                        && a.entries_seq()[j].tag == t && a.entries_seq()[j].cell == c;
                assert(b.entries_seq()[j] == a.entries_seq()[j]);
            }
            if b.maps_to(k, t, c) {
                let j = choose|j: int|
                    0 <= j < b.entries_seq().len() && (#[trigger] b.entries_seq()[j]).key == k
                        && b.entries_seq()[j].tag == t && b.entries_seq()[j].cell == c;
                assert(a.entries_seq()[j] == b.entries_seq()[j]);
            }
        }
        assert forall|k: u64, t: TypeTag|
            #[trigger] a.has_entry(k, t) <==> #[trigger] b.has_entry(k, t) by {
            if a.has_entry(k, t) {
                let j = choose|j: int|
                    0 <= j < a.entries_seq().len() && (#[trigger] a.entries_seq()[j]).key == k
                        && a.entries_seq()[j].tag == t;
                assert(b.entries_seq()[j] == a.entries_seq()[j]);
            }
            if b.has_entry(k, t) {
                let j = choose|j: int|
                    0 <= j < b.entries_seq().len() && (#[trigger] b.entries_seq()[j]).key == k
                        && b.entries_seq()[j].tag == t;
                assert(a.entries_seq()[j] == b.entries_seq()[j]);
            }
        }
    }

    /// Leaving other slots alone composes across protocol steps.
    proof fn lemma_others_unchanged_trans(a: Self, b: Self, c: Self, key: u64, tag: TypeTag)
        requires
            Self::others_unchanged(a, b, key, tag),
            Self::others_unchanged(b, c, key, tag),
        ensures
            Self::others_unchanged(a, c, key, tag),
    {
        assert forall|k2: u64, t2: TypeTag, c2: int|
            !(k2 == key && t2 == tag) && #[trigger] c.maps_to(k2, t2, c2) implies a.maps_to(
            k2,
            t2,
            c2,
        ) by {
            assert(b.maps_to(k2, t2, c2));
        }
        assert forall|k2: u64, t2: TypeTag, c2: int|
            !(k2 == key && t2 == tag) && #[trigger] a.maps_to(k2, t2, c2) implies c.maps_to(
            k2,
            t2,
            c2,
        ) by {
            assert(b.maps_to(k2, t2, c2));
        }
    }

    /// The tag a cell was created under.
    pub fn cell_tag(&self, cell: usize) -> (r: TypeTag)
        requires
            cell < self.cells_seq().len(),
        ensures
            r == self.cells_seq()[cell as int].tag,
    {
        self.cells[cell].tag
    }

    /// One request whose computation cannot fail. `value` is what the
    /// computation produced; it is published only if this requester won the
    /// insertion race, otherwise the existing outcome is read instead.
    pub fn init_or_read(&mut self, key: u64, value: V) -> (r: InitResult<V, ()>)
        requires
            old(self).wf(),
            old(self).settled(key, TypeTag::NoError),
        ensures
            final(self).wf(),
            !(r is InitErr),
            Self::others_unchanged(*old(self), *final(self), key, TypeTag::NoError),
            forall|c: int|
                0 <= c < old(self).cells_seq().len() ==> final(self).cells_seq()[c] == old(
                    self).cells_seq()[c],
            !old(self).has_entry(key, TypeTag::NoError) ==> {
                &&& r == InitResult::<V, ()>::Initialized(value)
                &&& final(self).cells_seq() == old(self).cells_seq().push(
                    Waiter { tag: TypeTag::NoError, value: WaiterValue::Succeeded(value) },
                )
                &&& final(self).maps_to(
                    key,
                    TypeTag::NoError,
                    old(self).cells_seq().len() as int,
                )
            },
            old(self).has_entry(key, TypeTag::NoError) ==> *final(self) == *old(self) && exists|
                c: int,
            |
                #[trigger] old(self).maps_to(key, TypeTag::NoError, c) && (old(
                    self).cells_seq()[c].value matches WaiterValue::Succeeded(v) && r
                    == InitResult::<V, ()>::ReadExisting(v)),
    {
        let tag = TypeTag::NoError;
        match self.try_insert_waiter(key, tag) {
            InsertOutcome::Inserted(c) => {
                let ghost mid = *self;
                self.publish_value(c, value);
                proof {
                    Self::lemma_same_entries(mid, *self);
                    assert(self.cells_seq() =~= old(self).cells_seq().push(
                        Waiter { tag, value: WaiterValue::Succeeded(value) },
                    ));
                    Self::lemma_others_unchanged_trans(*old(self), mid, *self, key, tag);
                }
                InitResult::Initialized(value)
            }
            InsertOutcome::Existing(c) => {
                proof {
                    Self::lemma_mapped_cell(*self, key, tag, c as int);
                }
                match self.read_waiter(c) {
                    ReadOutcome::Value(v) => InitResult::ReadExisting(v),
                    ReadOutcome::Error(err) => {
                        proof {
                            assert(err.tag() == TypeTag::NoError);
                            assert(false);
                        }
                        vstd::pervasive::unreached()
                    }
                    ReadOutcome::Pending => {
                        proof {
                            assert(old(self).maps_to(key, tag, c as int));
                            assert(false);
                        }
                        vstd::pervasive::unreached()
                    }
                }
            }
        }
    }

    /// One request whose computation may fail with the error type identified
    /// by `type_id`. `outcome` is what the computation produced; it is
    /// published only if this requester won the insertion race. A failure is
    /// stored type-erased in the cell for concurrent waiters, the attempt is
    /// unregistered, and the typed error is handed back; waiters that read
    /// the erased error downcast it — provably without type confusion.
    pub fn try_init_or_read(&mut self, key: u64, type_id: u64, outcome: Result<V, E>) -> (r:
        InitResult<V, E>)
        requires
            old(self).wf(),
            old(self).settled(key, TypeTag::Typed(type_id)),
        ensures
            final(self).wf(),
            Self::others_unchanged(*old(self), *final(self), key, TypeTag::Typed(type_id)),
            forall|c: int|
                0 <= c < old(self).cells_seq().len() ==> final(self).cells_seq()[c] == old(
                    self).cells_seq()[c],
            outcome matches Ok(v) ==> (!old(self).has_entry(key, TypeTag::Typed(type_id)) ==> {
                &&& r == InitResult::<V, E>::Initialized(v)
                &&& final(self).cells_seq() == old(self).cells_seq().push(
                    Waiter { tag: TypeTag::Typed(type_id), value: WaiterValue::Succeeded(v) },
                )
                &&& final(self).maps_to(
                    key,
                    TypeTag::Typed(type_id),
                    old(self).cells_seq().len() as int,
                )
            }),
            outcome matches Err(e) ==> (!old(self).has_entry(key, TypeTag::Typed(type_id)) ==> {
                &&& r == InitResult::<V, E>::InitErr(e)
                &&& final(self).cells_seq() == old(self).cells_seq().push(
                    Waiter {
                        tag: TypeTag::Typed(type_id),
                        value: WaiterValue::Failed(ErasedError::Typed(type_id, e)),
                    },
                )
                &&& !final(self).has_entry(key, TypeTag::Typed(type_id))
            }),
            old(self).has_entry(key, TypeTag::Typed(type_id)) ==> *final(self) == *old(self)
                && exists|c: int|
                #[trigger] old(self).maps_to(key, TypeTag::Typed(type_id), c)
                    && typed_read_relates(old(self).cells_seq()[c].value, type_id, r),
    {
        let tag = TypeTag::Typed(type_id);
        match self.try_insert_waiter(key, tag) {
            InsertOutcome::Inserted(c) => {
                let ghost mid = *self;
                match outcome {
                    Ok(v) => {
                        self.publish_value(c, v);
                        proof {
                            Self::lemma_same_entries(mid, *self);
                            assert(self.cells_seq() =~= old(self).cells_seq().push(
                                Waiter { tag, value: WaiterValue::Succeeded(v) },
                            ));
                            Self::lemma_others_unchanged_trans(*old(self), mid, *self, key, tag);
                        }
                        InitResult::Initialized(v)
                    }
                    Err(e) => {
                        self.publish_error(key, tag, c, ErasedError::Typed(type_id, e));
                        proof {
                            assert(self.cells_seq() =~= old(self).cells_seq().push(
                                Waiter {
                                    tag,
                                    value: WaiterValue::Failed(ErasedError::Typed(type_id, e)),
                                },
                            ));
                            Self::lemma_others_unchanged_trans(*old(self), mid, *self, key, tag);
                        }
                        InitResult::InitErr(e)
                    }
                }
            }
            InsertOutcome::Existing(c) => {
                proof {
                    Self::lemma_mapped_cell(*self, key, tag, c as int);
                }
                match self.read_waiter(c) {
                    ReadOutcome::Value(v) => InitResult::ReadExisting(v),
                    ReadOutcome::Error(err) => {
                        proof {
                            assert(err.tag() == TypeTag::Typed(type_id));
                        }
                        match crate::erased::downcast(err, type_id) {
                            Some(e) => InitResult::InitErr(e),
                            None => {
                                proof {
                                    assert(false);
                                }
                                vstd::pervasive::unreached()
                            }
                        }
                    }
                    ReadOutcome::Pending => {
                        proof {
                            assert(old(self).maps_to(key, tag, c as int));
                            assert(false);
                        }
                        vstd::pervasive::unreached()
                    }
                }
            }
        }
    }

    /// One request whose computation may produce no value. Absence is
    /// published as a failure carrying the absence sentinel, so that every
    /// concurrent requester uniformly receives `InitErr(OptionallyNone)` and
    /// the slot is freed for a later fresh attempt.
    pub fn optionally_init_or_read(&mut self, key: u64, outcome: Option<V>) -> (r: InitResult<
        V,
        OptionallyNone,
    >)
        requires
            old(self).wf(),
            old(self).settled(key, TypeTag::Absence),
        ensures
            final(self).wf(),
            Self::others_unchanged(*old(self), *final(self), key, TypeTag::Absence),
            forall|c: int|
                0 <= c < old(self).cells_seq().len() ==> final(self).cells_seq()[c] == old(
                    self).cells_seq()[c],
            outcome matches Some(v) ==> (!old(self).has_entry(key, TypeTag::Absence) ==> {
                &&& r == InitResult::<V, OptionallyNone>::Initialized(v)
                &&& final(self).cells_seq() == old(self).cells_seq().push(
                    Waiter { tag: TypeTag::Absence, value: WaiterValue::Succeeded(v) },
                )
                &&& final(self).maps_to(key, TypeTag::Absence, old(self).cells_seq().len() as int)
            }),
            outcome is None && !old(self).has_entry(key, TypeTag::Absence) ==> {
                &&& r == InitResult::<V, OptionallyNone>::InitErr(OptionallyNone)
                &&& final(self).cells_seq() == old(self).cells_seq().push(
                    Waiter {
                        tag: TypeTag::Absence,
                        value: WaiterValue::Failed(ErasedError::Absence),
                    },
                )
                &&& !final(self).has_entry(key, TypeTag::Absence)
            },
            old(self).has_entry(key, TypeTag::Absence) ==> *final(self) == *old(self) && exists|
                c: int,
            |
                #[trigger] old(self).maps_to(key, TypeTag::Absence, c) && ((old(
                    self).cells_seq()[c].value matches WaiterValue::Succeeded(v) && r
                    == InitResult::<V, OptionallyNone>::ReadExisting(v)) || (old(
                    self).cells_seq()[c].value is Failed && r == InitResult::<
                    V,
                    OptionallyNone,
                >::InitErr(OptionallyNone))),
    {
        let tag = TypeTag::Absence;
        match self.try_insert_waiter(key, tag) {
            InsertOutcome::Inserted(c) => {
                let ghost mid = *self;
                match outcome {
                    Some(v) => {
                        self.publish_value(c, v);
                        proof {
                            Self::lemma_same_entries(mid, *self);
                            assert(self.cells_seq() =~= old(self).cells_seq().push(
                                Waiter { tag, value: WaiterValue::Succeeded(v) },
                            ));
                            Self::lemma_others_unchanged_trans(*old(self), mid, *self, key, tag);
                        }
                        InitResult::Initialized(v)
                    }
                    None => {
                        let err: ErasedError<E> = ErasedError::Absence;
                        self.publish_error(key, tag, c, err);
                        proof {
                            assert(self.cells_seq() =~= old(self).cells_seq().push(
                                Waiter { tag, value: WaiterValue::Failed(err) },
                            ));
                            Self::lemma_others_unchanged_trans(*old(self), mid, *self, key, tag);
                        }
                        InitResult::InitErr(OptionallyNone)
                    }
                }
            }
            InsertOutcome::Existing(c) => {
                proof {
                    Self::lemma_mapped_cell(*self, key, tag, c as int);
                }
                match self.read_waiter(c) {
                    ReadOutcome::Value(v) => InitResult::ReadExisting(v),
                    ReadOutcome::Error(err) => {
                        proof {
                            assert(err.tag() == TypeTag::Absence);
                        }
                        InitResult::InitErr(OptionallyNone)
                    }
                    ReadOutcome::Pending => {
                        proof {
                            assert(old(self).maps_to(key, tag, c as int));
                            assert(false);
                        }
                        vstd::pervasive::unreached()
                    }
                }
            }
        }
    }
}

/// How a lost race under a typed tag resolves: a published value is relayed
/// as `ReadExisting`, a published failure downcasts to the declared type and
/// is relayed as `InitErr` carrying the very error value the computation
/// returned, unchanged.
pub open spec fn typed_read_relates<V, E>(
    w: WaiterValue<V, E>,
    type_id: u64,
    r: InitResult<V, E>,
) -> bool {
    match w {
        WaiterValue::Empty => false,
        WaiterValue::Succeeded(v) => r == InitResult::<V, E>::ReadExisting(v),
        WaiterValue::Failed(err) => exists|e: E|
            err == ErasedError::Typed(type_id, e) && r == InitResult::<V, E>::InitErr(e),
    }
}

/// What a reader of a cell in the given state observes.
pub open spec fn read_view<V, E>(w: WaiterValue<V, E>) -> ReadOutcome<V, E> {
    match w {
        WaiterValue::Empty => ReadOutcome::Pending,
        WaiterValue::Succeeded(v) => ReadOutcome::Value(v),
        WaiterValue::Failed(e) => ReadOutcome::Error(e),
    }
}

/// The retry decision a requester takes after observing an empty cell with
/// this many retries already spent.
pub open spec fn spec_retry_decision(retries: u64) -> RetryDecision {
    if retries + 1 < MAX_RETRIES {
        RetryDecision::RetryAgain((retries + 1) as u64)
    } else {
        RetryDecision::Exhausted
    }
}

/// Account for one observation of an empty cell: either start the protocol
/// over with the retry counter advanced, or — once the counter reaches the
/// bound — give up fatally, because the computation appears to panic on
/// every attempt.
pub fn retry_decision(retries: u64) -> (r: RetryDecision)
    requires
        retries < MAX_RETRIES,
    ensures
        r == spec_retry_decision(retries),
        r is Exhausted <==> retries == MAX_RETRIES - 1,
{
    if retries + 1 < MAX_RETRIES {
        RetryDecision::RetryAgain(retries + 1)
    } else {
        RetryDecision::Exhausted
    }
}

/// Retry exhaustion is deterministic. A waiter that starts a fresh request
/// and keeps finding an empty cell — the writer panicked every time — is sent
/// back to retry on each of its observations up to the bound, and told to
/// abort fatally on observation number `MAX_RETRIES` exactly: never earlier,
/// and never silently later. `n` counts the observations of an empty cell,
/// so the waiter's retry counter stands at `n - 1` when it decides.
pub proof fn lemma_retry_exhaustion(n: u64)
    requires
        1 <= n <= MAX_RETRIES,
    ensures
        n < MAX_RETRIES ==> spec_retry_decision((n - 1) as u64) == RetryDecision::RetryAgain(n),
        n == MAX_RETRIES ==> spec_retry_decision((n - 1) as u64) == RetryDecision::Exhausted,
{
}

} // verus!
