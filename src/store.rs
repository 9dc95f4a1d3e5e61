//! The ledger engine's state: which segment is active and how full it is,
//! how many entries exist and how many are durable, the head of the hash
//! chain, and the entries of the checkpoint window that is still open.
//!
//! The engine decides; the caller performs the file work that each decision
//! names (sync and open a new segment, write a record, publish a checkpoint).
use vstd::prelude::*;
use crate::digest::{chain_head, chain_next, genesis_head, merkle_root, merkle_root_of};
use crate::frame::{
    all_frameable, copy_range, encode_record, frame, frameable, frames, prefix_value, scan, scan_segment,
    views, SegmentScan,
    lemma_scan_frames, lemma_frames_push, lemma_scan_torn_tail, le_bytes,
};

verus! {

/// Soft capacity of one segment, in bytes.
pub const SEGMENT_CAPACITY: u64 = 64 * 1024 * 1024;

/// Number of entries that one checkpoint covers.
pub const CHECKPOINT_INTERVAL: u64 = 1024;

/// Largest size in bytes of one framed record.
pub open spec fn max_record() -> int {
    u32::MAX as int + 4
}

/// The entries of all segments, segment after segment.
pub open spec fn flatten(parts: Seq<Seq<Seq<u8>>>) -> Seq<Seq<u8>>
    decreases parts.len(),
{
    if parts.len() == 0 {
        Seq::empty()
    } else {
        flatten(parts.drop_last()) + parts.last()
    }
}

/// Whether a record of `len` payload bytes must start a new segment when the
/// active one already holds `offset` bytes: it would not fit in what is left.
pub open spec fn needs_roll(offset: int, len: int) -> bool {
    offset + 4 + len > SEGMENT_CAPACITY
}

/// Every segment fits the capacity, unless it holds a single record that
/// is larger on its own.
pub open spec fn within_capacity(parts: Seq<Seq<Seq<u8>>>) -> bool {
    forall|i: int|
        0 <= i < parts.len() ==> frames(#[trigger] parts[i]).len() <= SEGMENT_CAPACITY || parts[i].len()
            <= 1
}

/// Whether segment `i` is torn although a later segment follows it.
pub open spec fn torn_before_last(segs: Seq<Seq<u8>>, i: int) -> bool {
    0 <= i < segs.len() - 1 && scan(segs[i]).1
}

/// Some segment other than the last is torn.
pub open spec fn corrupt(segs: Seq<Seq<u8>>) -> bool {
    exists|i: int| torn_before_last(segs, i)
}

/// The entries that a scan of every segment, in order, reads back.
pub open spec fn recovered(segs: Seq<Seq<u8>>) -> Seq<Seq<u8>> {
    flatten(scans_of(segs))
}

/// The entries that a scan of each segment reads back, segment by segment.
pub open spec fn scans_of(segs: Seq<Seq<u8>>) -> Seq<Seq<Seq<u8>>> {
    segs.map_values(|s: Seq<u8>| scan(s).0)
}

/// A published checkpoint: the Merkle root over a window of entries.
pub struct Checkpoint {
    pub merkle_root: Vec<u8>,
    pub entries_covered: u64,
    pub window_start_index: u64,
}

/// Errors of the engine's write path and of recovery.
#[derive(Debug, Clone, Copy, PartialEq, Eq, Structural)]
pub enum StoreError {
    /// The engine is frozen; it takes no writes until it is resynchronised.
    Frozen,
    /// The payload is longer than a length prefix can declare.
    PayloadTooLarge,
    /// An entry index, a segment id or a byte offset would overflow.
    LedgerFull,
    /// A segment other than the last ends in a torn record.
    Corruption { segment: u64 },
}

/// What one append decided.
pub struct Appended {
    /// Index of the new entry.
    pub index: u64,
    /// Whether the active segment must be synced and closed, and segment
    /// `segment_id` opened, before the record is written.
    pub rolled: bool,
    /// The segment that receives the record.
    pub segment_id: u64,
    /// The bytes to write at the end of that segment.
    pub record: Vec<u8>,
    /// The checkpoint to publish, when this entry closes a window.
    pub checkpoint: Option<Checkpoint>,
}

/// The outcome of recovery: the engine state, and where the last segment
/// must be cut when it ends in a torn record.
pub struct Recovery {
    pub store: DeterministicStore,
    pub truncate_to: Option<u64>,
}

/// State of an append-only ledger store.
pub struct DeterministicStore {
    current_segment_id: u64,
    current_offset: u64,
    entry_count: u64,
    durable_count: u64,
    head: Vec<u8>,
    window: Vec<Vec<u8>>,
    frozen: Option<String>,
    /// The entries of each segment, segment 0 first.
    parts: Ghost<Seq<Seq<Seq<u8>>>>,
}

impl DeterministicStore {
    /// The entries of each segment, segment 0 first.
    pub closed spec fn parts(&self) -> Seq<Seq<Seq<u8>>> {
        self.parts@
    }

    /// Every entry appended, in order.
    pub open spec fn ledger(&self) -> Seq<Seq<u8>> {
        flatten(self.parts())
    }

    /// The bytes of each segment.
    pub open spec fn segments(&self) -> Seq<Seq<u8>> {
        self.parts().map_values(|ps: Seq<Seq<u8>>| frames(ps))
    }

    pub closed spec fn segment_id(&self) -> u64 {
        self.current_segment_id
    }

    pub closed spec fn offset(&self) -> u64 {
        self.current_offset
    }

    pub closed spec fn durable(&self) -> u64 {
        self.durable_count
    }

    pub closed spec fn frozen_reason(&self) -> Option<String> {
        self.frozen
    }

    /// The same state with every entry marked durable.
    pub closed spec fn with_committed(self) -> Self {
        DeterministicStore { durable_count: self.entry_count, ..self }
    }

    pub closed spec fn wf(&self) -> bool {
        &&& self.parts@.len() == self.current_segment_id + 1
        &&& forall|i: int| 0 <= i < self.parts@.len() ==> all_frameable(#[trigger] self.parts@[i])
        &&& self.current_offset == frames(self.parts@.last()).len()
        &&& self.current_offset + max_record() <= u64::MAX
        &&& self.entry_count == flatten(self.parts@).len()
        &&& self.durable_count <= self.entry_count
        &&& self.head@ == chain_head(flatten(self.parts@))
        &&& views(self.window@) == flatten(self.parts@).subrange(
            self.entry_count - self.entry_count % CHECKPOINT_INTERVAL,
            self.entry_count as int,
        )
    }

    /// A store with no entries, writing to segment 0.
    pub fn new() -> (r: Self)
        ensures
            r.wf(),
            r.ledger() == Seq::<Seq<u8>>::empty(),
            r.parts() == seq![Seq::<Seq<u8>>::empty()],
            within_capacity(r.parts()),
            r.segment_id() == 0,
            r.offset() == 0,
            r.durable() == 0,
            r.frozen_reason() is None,
    {
        let ghost parts = seq![Seq::<Seq<u8>>::empty()];
        proof {
            assert(parts.drop_last() =~= Seq::<Seq<Seq<u8>>>::empty());
            assert(flatten(Seq::<Seq<Seq<u8>>>::empty()) == Seq::<Seq<u8>>::empty());
            assert(parts.last() == Seq::<Seq<u8>>::empty());
            assert(flatten(parts) =~= Seq::<Seq<u8>>::empty());
            assert(frames(Seq::<Seq<u8>>::empty()) == Seq::<u8>::empty());
        }
        let r = DeterministicStore {
            current_segment_id: 0,
            current_offset: 0,
            entry_count: 0,
            durable_count: 0,
            head: genesis_head(),
            window: Vec::new(),
            frozen: None,
            parts: Ghost(parts),
        };
        assert(views(r.window@) =~= flatten(parts).subrange(0, 0));
        r
    }

    /// Closes the active segment and makes the next one active and empty.
    fn open_next_segment(&mut self)
        requires
            old(self).wf(),
            old(self).current_segment_id < u64::MAX,
        ensures
            final(self).wf(),
            final(self).parts() == old(self).parts().push(Seq::empty()),
            final(self).ledger() == old(self).ledger(),
            final(self).current_segment_id == old(self).current_segment_id + 1,
            final(self).current_offset == 0,
            final(self).entry_count == old(self).entry_count,
            final(self).durable_count == old(self).durable_count,
            final(self).frozen == old(self).frozen,
    {
        let ghost old_parts = self.parts@;
        self.parts = Ghost(old_parts.push(Seq::empty()));
        self.current_segment_id = self.current_segment_id + 1;
        self.current_offset = 0;
        proof {
            let parts = self.parts@;
            assert(parts.drop_last() =~= old_parts);
            assert(flatten(parts) =~= flatten(old_parts));
            assert(frames(Seq::<Seq<u8>>::empty()) == Seq::<u8>::empty());
            assert forall|i: int| 0 <= i < parts.len() implies all_frameable(#[trigger] parts[i]) by {
                if i < old_parts.len() {
                    assert(parts[i] == old_parts[i]);
                }
            }
        }
    }

    /// Adds `payload` to the active segment and to the chain; when it closes
    /// a window and `publish` is set, returns that window's Merkle root.
    fn push_entry(&mut self, payload: &[u8], publish: bool) -> (root: Option<Vec<u8>>)
        requires
            old(self).wf(),
            frameable(payload@),
            old(self).entry_count < u64::MAX,
            old(self).current_offset + 4 + payload@.len() + max_record() <= u64::MAX,
        ensures
            final(self).wf(),
            final(self).parts() == old(self).parts().update(
                old(self).parts().len() - 1,
                old(self).parts().last().push(payload@),
            ),
            final(self).ledger() == old(self).ledger().push(payload@),
            final(self).current_segment_id == old(self).current_segment_id,
            final(self).current_offset == old(self).current_offset + 4 + payload@.len(),
            final(self).entry_count == old(self).entry_count + 1,
            final(self).durable_count == old(self).durable_count,
            final(self).frozen == old(self).frozen,
            root is Some <==> publish && final(self).entry_count % CHECKPOINT_INTERVAL == 0,
            root matches Some(h) ==> h@ == merkle_root_of(
                final(self).ledger().subrange(
                    final(self).entry_count - CHECKPOINT_INTERVAL,
                    final(self).entry_count as int,
                ),
            ),
    {
        let ghost old_parts = self.parts@;
        let ghost old_ledger = flatten(old_parts);
        let ghost last = old_parts.last();
        let ghost parts = old_parts.update(old_parts.len() - 1, last.push(payload@));
        proof {
            assert(parts.drop_last() =~= old_parts.drop_last());
            assert(flatten(old_parts) == flatten(old_parts.drop_last()) + last);
            assert(flatten(parts) =~= old_ledger.push(payload@));
            assert(flatten(parts).drop_last() =~= old_ledger);
            assert(flatten(parts).last() == payload@);
            lemma_frames_push(last, payload@);
            assert(parts.last() == last.push(payload@));
            assert forall|i: int| 0 <= i < parts.len() implies all_frameable(#[trigger] parts[i]) by {
                if i < old_parts.len() - 1 {
                    assert(parts[i] == old_parts[i]);
                } else {
                    assert(all_frameable(old_parts[i]));
                    assert forall|k: int| 0 <= k < parts[i].len() implies frameable(
                        #[trigger] parts[i][k],
                    ) by {
                        if k < last.len() {
                            assert(parts[i][k] == last[k]);
                        }
                    }
                }
            }
        }
        self.parts = Ghost(parts);
        let new_head = chain_next(self.head.as_slice(), payload);
        self.head = new_head;
        self.current_offset = self.current_offset + 4 + payload.len() as u64;
        self.entry_count = self.entry_count + 1;
        let copy = copy_range(payload, 0, payload.len());
        assert(copy@ =~= payload@);
        let ghost old_window = self.window@;
        self.window.push(copy);
        let ghost n = self.entry_count as int;
        let ghost start = (n - 1) - (n - 1) % 1024;
        proof {
            assert(views(self.window@) =~= views(old_window).push(payload@));
            assert(views(old_window) == old_ledger.subrange(start, n - 1));
            assert(flatten(parts).subrange(start, n) =~= old_ledger.subrange(start, n - 1).push(
                payload@,
            ));
        }
        if self.entry_count % CHECKPOINT_INTERVAL == 0 {
            assert(start == n - 1024);
            let root = if publish {
                Some(merkle_root(&self.window))
            } else {
                None
            };
            self.window = Vec::new();
            assert(views(self.window@) =~= flatten(parts).subrange(n, n));
            root
        } else {
            assert(n - n % 1024 == start);
            None
        }
    }

    /// Appends one entry. When the active segment would overflow, the entry
    /// starts the next segment, so no record is ever split; when the entry
    /// closes a window of `CHECKPOINT_INTERVAL` entries, the checkpoint over
    /// that window comes back with it. Nothing is durable until `commit`.
    pub fn append_entry(&mut self, payload: &[u8]) -> (r: Result<Appended, StoreError>)
        requires
            old(self).wf(),
        ensures
            final(self).wf(),
            old(self).frozen_reason() is Some ==> r == Err::<Appended, StoreError>(
                StoreError::Frozen,
            ),
            old(self).frozen_reason() is None && !frameable(payload@) ==> r == Err::<
                Appended,
                StoreError,
            >(StoreError::PayloadTooLarge),
            r is Ok <==> old(self).frozen_reason() is None && frameable(payload@)
                && old(self).ledger().len() < u64::MAX && !(needs_roll(
                old(self).offset() as int,
                payload@.len() as int,
            ) && old(self).segment_id() == u64::MAX),
            r is Err ==> *final(self) == *old(self),
            r matches Ok(a) ==> {
                &&& a.index == old(self).ledger().len()
                &&& final(self).ledger() == old(self).ledger().push(payload@)
                &&& a.record@ == frame(payload@)
                &&& a.rolled == needs_roll(old(self).offset() as int, payload@.len() as int)
                &&& a.segment_id == final(self).segment_id()
                &&& within_capacity(old(self).parts()) ==> within_capacity(final(self).parts())
                &&& final(self).segment_id() == old(self).segment_id() + if a.rolled {
                    1int
                } else {
                    0int
                }
                &&& final(self).parts() == if a.rolled {
                    old(self).parts().push(seq![payload@])
                } else {
                    old(self).parts().update(
                        old(self).parts().len() - 1,
                        old(self).parts().last().push(payload@),
                    )
                }
                &&& final(self).offset() == if a.rolled {
                    frame(payload@).len() as int
                } else {
                    old(self).offset() + frame(payload@).len()
                }
                &&& final(self).durable() == old(self).durable()
                &&& final(self).frozen_reason() == old(self).frozen_reason()
                &&& (a.checkpoint is Some <==> final(self).ledger().len() % (
                CHECKPOINT_INTERVAL as nat) == 0)
                &&& a.checkpoint matches Some(c) ==> {
                    &&& c.entries_covered == CHECKPOINT_INTERVAL
                    &&& c.window_start_index == a.index + 1 - CHECKPOINT_INTERVAL
                    &&& c.merkle_root@ == merkle_root_of(
                        final(self).ledger().subrange(
                            c.window_start_index as int,
                            c.window_start_index + CHECKPOINT_INTERVAL,
                        ),
                    )
                }
            },
    {
        if self.frozen.is_some() {
            return Err(StoreError::Frozen);
        }
        if payload.len() > u32::MAX as usize {
            return Err(StoreError::PayloadTooLarge);
        }
        if self.entry_count == u64::MAX {
            return Err(StoreError::LedgerFull);
        }
        let size = 4 + payload.len() as u64;
        let rolled = self.current_offset + size > SEGMENT_CAPACITY;
        if rolled {
            if self.current_segment_id == u64::MAX {
                return Err(StoreError::LedgerFull);
            }
            self.open_next_segment();
            proof {
                assert(self.parts@.last() == Seq::<Seq<u8>>::empty());
            }
        }
        let record = encode_record(payload);
        let index = self.entry_count;
        let ghost mid_parts = self.parts@;
        let root = self.push_entry(payload, true);
        proof {
            if rolled {
                assert(mid_parts.last().push(payload@) =~= seq![payload@]);
                assert(self.parts@ =~= old(self).parts@.push(seq![payload@]));
            }
            if within_capacity(old(self).parts@) {
                let ps = self.parts@;
                let last = ps.len() - 1;
                lemma_frames_push(mid_parts.last(), payload@);
                assert forall|i: int| 0 <= i < ps.len() implies frames(#[trigger] ps[i]).len()
                    <= SEGMENT_CAPACITY || ps[i].len() <= 1 by {
                    if i < last {
                        assert(ps[i] == old(self).parts@[i]);
                    } else if rolled {
                        assert(ps[i].len() == 1);
                    }
                }
            }
        }
        let checkpoint = match root {
            Some(h) => Some(
                Checkpoint {
                    merkle_root: h,
                    entries_covered: CHECKPOINT_INTERVAL,
                    window_start_index: index + 1 - CHECKPOINT_INTERVAL,
                },
            ),
            None => None,
        };
        Ok(Appended { index, rolled, segment_id: self.current_segment_id, record, checkpoint })
    }

    /// Marks every entry appended so far as durable, once the caller has
    /// synced the active segment. A second commit with no append between
    /// changes nothing.
    pub fn commit(&mut self) -> (segment: u64)
        requires
            old(self).wf(),
        ensures
            final(self).wf(),
            segment == old(self).segment_id(),
            *final(self) == old(self).with_committed(),
            final(self).parts() == old(self).parts(),
            final(self).segment_id() == old(self).segment_id(),
            final(self).frozen_reason() == old(self).frozen_reason(),
            final(self).durable() == old(self).ledger().len(),
            final(self).ledger() == old(self).ledger(),
            final(self).offset() == old(self).offset(),
    {
        self.durable_count = self.entry_count;
        self.current_segment_id
    }

    /// Stops all writes until `resync`.
    pub fn freeze(&mut self, reason: String)
        requires
            old(self).wf(),
        ensures
            final(self).wf(),
            final(self).frozen_reason() == Some(reason),
            final(self).parts() == old(self).parts(),
            final(self).segment_id() == old(self).segment_id(),
            final(self).offset() == old(self).offset(),
            final(self).durable() == old(self).durable(),
    {
        self.frozen = Some(reason);
    }

    /// Accepts writes again after a freeze.
    pub fn resync(&mut self)
        requires
            old(self).wf(),
        ensures
            final(self).wf(),
            final(self).frozen_reason() is None,
            final(self).parts() == old(self).parts(),
            final(self).segment_id() == old(self).segment_id(),
            final(self).offset() == old(self).offset(),
            final(self).durable() == old(self).durable(),
    {
        self.frozen = None;
    }

    /// Rebuilds the engine from the bytes of segments 0, 1, ... in order.
    /// Each segment is read from its start; a torn record is allowed only at
    /// the end of the last segment, which must then be cut at `truncate_to`.
    /// A torn record in any other segment is corruption. Every recovered
    /// entry counts as durable.
    pub fn recover(segments: &Vec<Vec<u8>>) -> (r: Result<Recovery, StoreError>)
        ensures
            ({
                let segs = views(segments@);
                &&& (r matches Err(StoreError::Corruption { segment }) ==> torn_before_last(
                    segs,
                    segment as int,
                ) && forall|j: int| 0 <= j < segment ==> !torn_before_last(segs, j))
                &&& (corrupt(segs) ==> r is Err && r != Err::<Recovery, StoreError>(
                    StoreError::LedgerFull,
                ))
                &&& (r is Err ==> r == Err::<Recovery, StoreError>(StoreError::LedgerFull) || corrupt(
                    segs,
                ))
                &&& (r == Err::<Recovery, StoreError>(StoreError::LedgerFull) ==> !corrupt(segs)
                    && !recoverable(segs))
                &&& (!corrupt(segs) && recoverable(segs) ==> r is Ok)
                &&& (r matches Ok(rec) ==> {
                    &&& !corrupt(segs)
                    &&& rec.store.wf()
                    &&& rec.store.ledger() == recovered(segs)
                    &&& rec.store.durable() == rec.store.ledger().len()
                    &&& rec.store.frozen_reason() is None
                    &&& segs.len() == 0 ==> rec.store.parts() == seq![Seq::<Seq<u8>>::empty()]
                        && rec.truncate_to is None && rec.store.segment_id() == 0
                        && rec.store.offset() == 0
                    &&& segs.len() > 0 ==> {
                        &&& rec.store.parts() == scans_of(segs)
                        &&& rec.store.segment_id() == segs.len() - 1
                        &&& rec.store.offset() == frames(scan(segs.last()).0).len()
                        &&& (rec.truncate_to is Some <==> scan(segs.last()).1)
                        &&& rec.truncate_to matches Some(k) ==> k <= segs.last().len()
                            && segs.last().subrange(0, k as int) == frames(scan(segs.last()).0)
                    }
                })
            }),
    {
        let ghost segs = views(segments@);
        let n = segments.len();
        let mut scans: Vec<SegmentScan> = Vec::new();
        let mut i: usize = 0;
        while i < n
            invariant
                n == segments.len(),
                segs == views(segments@),
                i <= n,
                scans.len() == i,
                forall|j: int| 0 <= j < i ==> !torn_before_last(segs, j),
                forall|j: int|
                    0 <= j < i ==> views(#[trigger] scans@[j].payloads@) == scan(segs[j]).0
                        && scans@[j].torn == scan(segs[j]).1 && scans@[j].intact_len <= segs[j].len()
                        && segs[j].subrange(0, scans@[j].intact_len as int) == frames(scan(segs[j]).0),
            decreases n - i,
        {
            let sc = scan_segment(segments[i].as_slice());
            if sc.torn && i + 1 < n {
                assert(torn_before_last(segs, i as int));
                return Err(StoreError::Corruption { segment: i as u64 });
            }
            let ghost before = scans@;
            scans.push(sc);
            proof {
                assert(segs[i as int] == segments@[i as int]@);
                assert forall|j: int| 0 <= j <= i implies views(#[trigger] scans@[j].payloads@) == scan(segs[j]).0
                    && scans@[j].torn == scan(segs[j]).1 && scans@[j].intact_len <= segs[j].len()
                    && segs[j].subrange(0, scans@[j].intact_len as int) == frames(scan(segs[j]).0) by {
                    if j < i {
                        assert(scans@[j] == before[j]);
                    }
                }
            }
            i = i + 1;
        }
        assert(!corrupt(segs));
        let mut store = DeterministicStore::new();
        let mut i: usize = 0;
        while i < n
            invariant
                n == segments.len(),
                segs == views(segments@),
                i <= n,
                scans.len() == n,
                !corrupt(segs),
                forall|j: int|
                    0 <= j < n ==> views(#[trigger] scans@[j].payloads@) == scan(segs[j]).0
                        && scans@[j].torn == scan(segs[j]).1 && scans@[j].intact_len <= segs[j].len()
                        && segs[j].subrange(0, scans@[j].intact_len as int) == frames(scan(segs[j]).0),
                store.wf(),
                store.frozen is None,
                store.durable_count == 0,
                i == 0 ==> store.parts() == seq![Seq::<Seq<u8>>::empty()],
                i > 0 ==> store.current_segment_id == i - 1,
                i > 0 ==> store.parts() == scan_prefix(segs, i as int),
            decreases n - i,
        {
            if i > 0 {
                assert(store.parts().len() == i);
                store.open_next_segment();
            }
            let ghost target = scan(segs[i as int]).0;
            proof {
                assert(target.subrange(0, 0) =~= Seq::<Seq<u8>>::empty());
                lemma_scan_frameable(segs[i as int]);
                if i == 0 {
                    assert(scan_prefix(segs, 0).push(Seq::<Seq<u8>>::empty()) =~= seq![Seq::<Seq<u8>>::empty()]);
                }
            }
            proof {
                lemma_flatten_prefix_len(segs, i + 1, n as int);
                assert(scan_prefix(segs, i + 1).drop_last() =~= scan_prefix(segs, i as int));
                assert(scans_of(segs) =~= scan_prefix(segs, n as int));
                assert(views(scans@[i as int].payloads@) == target);
            }
            let payloads = &scans[i].payloads;
            let mut j: usize = 0;
            while j < payloads.len()
                invariant
                    views(payloads@) == target,
                    all_frameable(target),
                    n == segments.len(),
                    segs == views(segments@),
                    i < n,
                    !corrupt(segs),
                    target == scan(segs[i as int]).0,
                    flatten(scan_prefix(segs, i as int)).len() + target.len() <= recovered(segs).len(),
                    frames(target).len() <= segs[i as int].len(),
                    j <= payloads.len(),
                    store.wf(),
                    store.frozen is None,
                    store.durable_count == 0,
                    store.parts() == scan_prefix(segs, i as int).push(target.subrange(0, j as int)),
                decreases payloads.len() - j,
            {
                proof {
                    assert(store.parts().drop_last() =~= scan_prefix(segs, i as int));
                    assert(store.parts().last() == target.subrange(0, j as int));
                    lemma_frames_prefix_len(target, j + 1);
                    lemma_frames_push(target.subrange(0, j as int), target[j as int]);
                    assert(target.subrange(0, j as int).push(target[j as int]) =~= target.subrange(
                        0,
                        j + 1,
                    ));
                    if recoverable(segs) {
                        assert(segs[i as int].len() + 2 * max_record() <= u64::MAX);
                    }
                }
                if store.entry_count == u64::MAX {
                    return Err(StoreError::LedgerFull);
                }
                let len = payloads[j].len();
                assert(frameable(target[j as int]));
                if store.current_offset > u64::MAX - 8 - 2 * (u32::MAX as u64) {
                    return Err(StoreError::LedgerFull);
                }
                let ghost before = store.parts();
                store.push_entry(payloads[j].as_slice(), false);
                proof {
                    assert(target.subrange(0, j as int).push(target[j as int]) =~= target.subrange(
                        0,
                        j + 1,
                    ));
                    assert(store.parts() =~= scan_prefix(segs, i as int).push(target.subrange(0, j + 1)));
                }
                j = j + 1;
            }
            proof {
                assert(target.subrange(0, j as int) =~= target);
                assert(scan_prefix(segs, i as int).push(target) =~= scan_prefix(segs, i + 1));
            }
            i = i + 1;
        }
        store.durable_count = store.entry_count;
        proof {
            assert(scans_of(segs) =~= scan_prefix(segs, n as int));
            if n == 0 {
                assert(scans_of(segs) =~= Seq::<Seq<Seq<u8>>>::empty());
                assert(flatten(seq![Seq::<Seq<u8>>::empty()]) =~= flatten(
                    Seq::<Seq<Seq<u8>>>::empty(),
                )) by {
                    assert(seq![Seq::<Seq<u8>>::empty()].drop_last() =~= Seq::<Seq<Seq<u8>>>::empty());
                }
            }
        }
        proof {
            if n > 0 {
                let last = n as int - 1;
                assert(segs.last() == segs[last]);
                assert(views(scans@[last].payloads@) == scan(segs[last]).0);
            }
        }
        let truncate_to = if n > 0 && scans[n - 1].torn {
            Some(scans[n - 1].intact_len as u64)
        } else {
            None
        };
        Ok(Recovery { store, truncate_to })
    }

    pub fn is_frozen(&self) -> (r: bool)
        ensures
            r == self.frozen_reason() is Some,
    {
        self.frozen.is_some()
    }

    /// The hash of the last entry in the chain (32 zero bytes when empty).
    pub fn head_hash(&self) -> (r: Vec<u8>)
        requires
            self.wf(),
        ensures
            r@ == chain_head(self.ledger()),
    {
        copy_range(self.head.as_slice(), 0, self.head.len())
    }

    pub fn entry_count(&self) -> (r: u64)
        requires
            self.wf(),
        ensures
            r == self.ledger().len(),
    {
        self.entry_count
    }

    pub fn durable_count(&self) -> (r: u64)
        ensures
            r == self.durable(),
    {
        self.durable_count
    }

    pub fn current_segment_id(&self) -> (r: u64)
        ensures
            r == self.segment_id(),
    {
        self.current_segment_id
    }

    pub fn current_offset(&self) -> (r: u64)
        ensures
            r == self.offset(),
    {
        self.current_offset
    }
}

/// Each segment's bytes are exactly the records of its own entries: a scan of
/// any segment reads back those entries, whole, with no torn record.
pub proof fn lemma_segments_hold_whole_entries(s: DeterministicStore)
    requires
        s.wf(),
    ensures
        s.segments().len() == s.segment_id() + 1,
        forall|i: int|
            0 <= i < s.segments().len() ==> scan(#[trigger] s.segments()[i]) == (s.parts()[i], false),
{
    assert forall|i: int| 0 <= i < s.segments().len() implies scan(#[trigger] s.segments()[i]) == (
        s.parts()[i],
        false,
    ) by {
        assert(all_frameable(s.parts@[i]));
        lemma_scan_frames(s.parts@[i]);
    }
}

/// Whatever was appended comes back from a scan of the segments: the same
/// entries in the same order, with no torn record anywhere.
pub proof fn lemma_append_recover_round_trip(s: DeterministicStore)
    requires
        s.wf(),
    ensures
        !corrupt(s.segments()),
        !scan(s.segments().last()).1,
        recovered(s.segments()) == s.ledger(),
        within_capacity(s.parts()) ==> recoverable(s.segments()),
{
    lemma_segments_hold_whole_entries(s);
    let segs = s.segments();
    assert(scans_of(segs) =~= s.parts()) by {
        assert forall|i: int| 0 <= i < segs.len() implies #[trigger] scans_of(segs)[i] == s.parts()[i] by {
            assert(scan(segs[i]) == (s.parts()[i], false));
        }
    }
    assert(segs.last() == segs[segs.len() - 1]);
    if within_capacity(s.parts()) {
        assert forall|i: int| 0 <= i < segs.len() implies #[trigger] segs[i].len() + 2 * max_record()
            <= u64::MAX by {
            let ps = s.parts@[i];
            if ps.len() == 1 {
                assert(all_frameable(ps));
                assert(frameable(ps[0]));
                assert(ps.drop_last() =~= Seq::<Seq<u8>>::empty());
                assert(frames(Seq::<Seq<u8>>::empty()) == Seq::<u8>::empty());
            } else if ps.len() == 0 {
                assert(frames(ps) == Seq::<u8>::empty());
            }
        }
    }
    assert(!corrupt(segs)) by {
        assert forall|i: int| !torn_before_last(segs, i) by {
            if 0 <= i < segs.len() - 1 {
                assert(scan(segs[i]) == (s.parts()[i], false));
            }
        }
    }
}

/// When the last segment ends in a record whose declared length runs past
/// the end of the file, and no earlier segment is torn, recovery keeps every
/// earlier entry and exactly the intact records of the last segment, and the
/// cut falls right after them.
pub proof fn lemma_torn_tail_recovery(
    earlier: Seq<Seq<u8>>,
    intact: Seq<Seq<u8>>,
    declared: u32,
    partial: Seq<u8>,
)
    requires
        forall|i: int| 0 <= i < earlier.len() ==> !(#[trigger] scan(earlier[i])).1,
        all_frameable(intact),
        partial.len() < declared,
    ensures
        ({
            let segs = earlier.push(frames(intact) + (le_bytes(declared) + partial));
            &&& !corrupt(segs)
            &&& scan(segs.last()).1
            &&& recovered(segs) == recovered(earlier) + intact
            &&& recovered(segs).len() == recovered(earlier).len() + intact.len()
            &&& segs.last().subrange(0, frames(intact).len() as int) == frames(intact)
        }),
{
    let last = frames(intact) + (le_bytes(declared) + partial);
    let segs = earlier.push(last);
    lemma_scan_torn_tail(intact, declared, partial);
    assert(scans_of(segs).drop_last() =~= scans_of(earlier));
    assert(scans_of(segs).last() == intact);
    assert(segs.last() == last);
    assert(!corrupt(segs)) by {
        assert forall|i: int| !torn_before_last(segs, i) by {
            if 0 <= i < segs.len() - 1 {
                assert(segs[i] == earlier[i]);
            }
        }
    }
    assert(last.subrange(0, frames(intact).len() as int) =~= frames(intact));
}

/// Committing twice in a row, with no append between, leaves the same state
/// as committing once.
pub proof fn lemma_commit_idempotent(s: DeterministicStore)
    ensures
        s.with_committed().with_committed() == s.with_committed(),
{
}

/// The entries that a scan of each of the first `m` segments reads back.
pub open spec fn scan_prefix(segs: Seq<Seq<u8>>, m: int) -> Seq<Seq<Seq<u8>>> {
    Seq::new(m as nat, |k: int| scan(segs[k]).0)
}

/// Segments within the machine's limits: the entries fit a `u64` count, and
/// each segment leaves room for two more records below `u64::MAX` bytes.
pub open spec fn recoverable(segs: Seq<Seq<u8>>) -> bool {
    &&& recovered(segs).len() <= u64::MAX
    &&& forall|i: int| 0 <= i < segs.len() ==> #[trigger] segs[i].len() + 2 * max_record() <= u64::MAX
}

proof fn lemma_flatten_prefix_len(segs: Seq<Seq<u8>>, m: int, n: int)
    requires
        0 <= m <= n <= segs.len(),
    ensures
        flatten(scan_prefix(segs, m)).len() <= flatten(scan_prefix(segs, n)).len(),
    decreases n - m,
{
    if m < n {
        lemma_flatten_prefix_len(segs, m, n - 1);
        assert(scan_prefix(segs, n).drop_last() =~= scan_prefix(segs, n - 1));
    }
}

proof fn lemma_frames_prefix_len(t: Seq<Seq<u8>>, k: int)
    requires
        0 <= k <= t.len(),
    ensures
        frames(t.subrange(0, k)).len() <= frames(t).len(),
    decreases t.len() - k,
{
    if k < t.len() {
        lemma_frames_prefix_len(t, k + 1);
        lemma_frames_push(t.subrange(0, k), t[k]);
        assert(t.subrange(0, k).push(t[k]) =~= t.subrange(0, k + 1));
    } else {
        assert(t.subrange(0, k) =~= t);
    }
}

/// Every payload that a scan reads back fits a length prefix.
pub proof fn lemma_scan_frameable(b: Seq<u8>)
    ensures
        all_frameable(scan(b).0),
    decreases b.len(),
{
    if b.len() >= 4 {
        let n = prefix_value(b) as int;
        if b.len() - 4 >= n {
            let rest = b.subrange(4 + n, b.len() as int);
            lemma_scan_frameable(rest);
            let ps = scan(b).0;
            assert forall|i: int| 0 <= i < ps.len() implies frameable(#[trigger] ps[i]) by {
                if i > 0 {
                    assert(ps[i] == scan(rest).0[i - 1]);
                }
            }
        }
    }
}

} // verus!
