//! The staging buffers in front of the backing file.
//!
//! Buffers cover contiguous extents of the log, oldest first. Writers reserve
//! space in the newest (open) buffer; a full buffer is sealed and a new one is
//! opened after it. A sealed buffer with no outstanding reservations is handed
//! out to be written; once written, the stable offset advances over every
//! written buffer at the front, so it never skips an unwritten one.
use vstd::prelude::*;
use crate::{LogID, HEADER_LEN};

verus! {

/// The lifecycle of a staging buffer.
#[derive(Clone, Copy, Debug, PartialEq, Eq, Structural)]
pub enum BufState {
    /// Accepting reservations.
    Open,
    /// No new reservations; waiting for outstanding ones to resolve.
    Sealed,
    /// Handed out to be written to the backing file.
    Writing,
    /// Durably written; waiting for the buffers before it.
    Written,
}

/// One staging buffer: the extent `[start, start + used)` of the log.
#[derive(Clone, Copy, Debug)]
pub struct IoBuf {
    /// The offset of the buffer's first byte.
    pub start: u64,
    /// The bytes claimed so far.
    pub used: u64,
    /// Reservations claimed in this buffer and not yet resolved.
    pub outstanding: u64,
    /// Where the buffer is in its lifecycle.
    pub state: BufState,
}

/// Why a reservation could not be made.
#[derive(Clone, Copy, Debug, PartialEq, Eq, Structural)]
pub enum ReserveError {
    /// The record is larger than one buffer.
    TooLarge,
    /// Every buffer slot is in use; wait for a write to finish.
    Full,
}

/// The ring of staging buffers and the stable offset it publishes.
pub struct IoBufs {
    bufs: Vec<IoBuf>,
    capacity: u64,
    max_bufs: usize,
    stable: u64,
}

/// One past the last byte of buffer `b`.
pub open spec fn buf_end(b: IoBuf) -> int {
    b.start + b.used
}

/// Whether a record of `n` payload bytes fits in the open buffer at the back of `bs`.
pub open spec fn fits_open(bs: Seq<IoBuf>, capacity: u64, n: u64) -> bool {
    &&& bs.len() > 0
    &&& bs.last().state == BufState::Open
    &&& bs.last().used + HEADER_LEN + n <= capacity
}

/// `bs` with its back buffer sealed, if it was open.
pub open spec fn sealed_back(bs: Seq<IoBuf>) -> Seq<IoBuf> {
    if bs.len() > 0 && bs.last().state == BufState::Open {
        bs.update(bs.len() - 1, IoBuf { state: BufState::Sealed, ..bs.last() })
    } else {
        bs
    }
}

/// The buffers that remain after dropping the written ones at the front.
pub open spec fn drop_written(bs: Seq<IoBuf>) -> Seq<IoBuf>
    decreases bs.len(),
{
    if bs.len() > 0 && bs[0].state == BufState::Written { drop_written(bs.drop_first()) } else { bs }
}

/// `bs` with buffer `i` marked as written.
pub open spec fn marked_written(bs: Seq<IoBuf>, i: int) -> Seq<IoBuf> {
    bs.update(i, IoBuf { state: BufState::Written, ..bs[i] })
}

/// Whether buffer `b` is sealed with every reservation resolved.
pub open spec fn ready(b: IoBuf) -> bool {
    b.state == BufState::Sealed && b.outstanding == 0
}

/// Handing out a buffer to write takes `before` to `after` with result `r`:
/// nothing where no buffer is ready; else the oldest ready buffer's extent
/// `(start, used)`, that buffer now being written.
pub open spec fn handed_out(before: Seq<IoBuf>, after: Seq<IoBuf>, r: Option<(u64, u64)>) -> bool {
    &&& r is None <==> forall|i: int| 0 <= i < before.len() ==> !ready(#[trigger] before[i])
    &&& r is None ==> after == before
    &&& r is Some ==> exists|i: int| 0 <= i < before.len() && ready(#[trigger] before[i])
        && (forall|j: int| 0 <= j < i ==> !ready(#[trigger] before[j]))
        && r == Some((before[i].start, before[i].used))
        && after == before.update(i, (IoBuf { state: BufState::Writing, ..before[i] }))
}

/// Whether buffer `b` holds offset `id` and has a reservation outstanding.
pub open spec fn holds(b: IoBuf, id: u64) -> bool {
    b.start <= id < buf_end(b) && b.outstanding > 0
}

/// `after` is `before` with one reservation resolved in the buffer that holds
/// `id`, or unchanged where no buffer holding `id` has one outstanding.
pub open spec fn resolved_at(before: Seq<IoBuf>, after: Seq<IoBuf>, id: u64) -> bool {
    &&& (exists|i: int| 0 <= i < before.len() && holds(#[trigger] before[i], id)) ==> exists|i: int|
        0 <= i < before.len() && holds(#[trigger] before[i], id)
        && after == before.update(i, (IoBuf { outstanding: (before[i].outstanding - 1) as u64, ..before[i] }))
    &&& !(exists|i: int| 0 <= i < before.len() && holds(#[trigger] before[i], id)) ==> after == before
}

/// The stable offset for buffers `bs` at or after `stable` whose extents end at `tip`.
pub open spec fn published(bs: Seq<IoBuf>, tip: int) -> int {
    if drop_written(bs).len() > 0 { drop_written(bs)[0].start as int } else { tip }
}

/// Buffers of `capacity` bytes laid out one after another: each starts where
/// the one before ends, only the back one is open, none is over capacity,
/// each holds at most one reservation per header, and buffers being or having
/// been written hold none.
pub open spec fn layout_ok(bs: Seq<IoBuf>, capacity: u64) -> bool {
    &&& forall|i: int| 0 <= i < bs.len() - 1 ==> #[trigger] bs[i + 1].start == buf_end(bs[i])
    &&& forall|i: int| 0 <= i < bs.len() - 1 ==> #[trigger] bs[i].state != BufState::Open
    &&& forall|i: int| 0 <= i < bs.len() ==> buf_fits(#[trigger] bs[i], capacity)
}

/// A single buffer within `capacity`, with its reservation count bounded and
/// none outstanding once it is being written.
pub open spec fn buf_fits(b: IoBuf, capacity: u64) -> bool {
    &&& b.used <= capacity
    &&& b.outstanding * HEADER_LEN <= b.used
    &&& (b.state == BufState::Writing || b.state == BufState::Written) ==> b.outstanding == 0
}

/// Replacing one buffer by one at the same start (and, but for the back one,
/// of the same size) keeps the layout.
pub proof fn lemma_layout_replace(bs: Seq<IoBuf>, i: int, b: IoBuf, capacity: u64)
    requires
        layout_ok(bs, capacity),
        0 <= i < bs.len(),
        b.start == bs[i].start,
        i < bs.len() - 1 ==> b.used == bs[i].used,
        b.state == BufState::Open ==> i == bs.len() - 1,
        buf_fits(b, capacity),
    ensures
        layout_ok(bs.update(i, b), capacity),
{
    let nb = bs.update(i, b);
    assert forall|k: int| 0 <= k < nb.len() - 1 implies #[trigger] nb[k + 1].start == buf_end(nb[k]) by {
        assert(bs[k + 1].start == buf_end(bs[k]));
    }
    assert forall|k: int| 0 <= k < nb.len() - 1 implies #[trigger] nb[k].state != BufState::Open by {
        assert(bs[k].state != BufState::Open);
    }
    assert forall|k: int| 0 <= k < nb.len() implies buf_fits(#[trigger] nb[k], capacity) by {
        assert(buf_fits(bs[k], capacity));
    }
}

/// Opening a buffer after a back buffer that is not open keeps the layout.
pub proof fn lemma_layout_push(bs: Seq<IoBuf>, b: IoBuf, capacity: u64)
    requires
        layout_ok(bs, capacity),
        bs.len() > 0 ==> bs.last().state != BufState::Open && b.start == buf_end(bs.last()),
        buf_fits(b, capacity),
    ensures
        layout_ok(bs.push(b), capacity),
{
    let nb = bs.push(b);
    assert forall|k: int| 0 <= k < nb.len() - 1 implies #[trigger] nb[k + 1].start == buf_end(nb[k]) by {
        if k < bs.len() - 1 {
            assert(bs[k + 1].start == buf_end(bs[k]));
        }
    }
    assert forall|k: int| 0 <= k < nb.len() - 1 implies #[trigger] nb[k].state != BufState::Open by {
        if k < bs.len() - 1 {
            assert(bs[k].state != BufState::Open);
        }
    }
    assert forall|k: int| 0 <= k < nb.len() implies buf_fits(#[trigger] nb[k], capacity) by {
        if k < bs.len() {
            assert(buf_fits(bs[k], capacity));
        }
    }
}

/// Dropping buffers from the front keeps the layout.
pub proof fn lemma_layout_suffix(bs: Seq<IoBuf>, k: int, capacity: u64)
    requires
        layout_ok(bs, capacity),
        0 <= k <= bs.len(),
    ensures
        layout_ok(bs.subrange(k, bs.len() as int), capacity),
{
    let nb = bs.subrange(k, bs.len() as int);
    assert forall|j: int| 0 <= j < nb.len() - 1 implies #[trigger] nb[j + 1].start == buf_end(nb[j]) by {
        assert(bs[(j + k) + 1].start == buf_end(bs[j + k]));
    }
    assert forall|j: int| 0 <= j < nb.len() - 1 implies #[trigger] nb[j].state != BufState::Open by {
        assert(bs[j + k].state != BufState::Open);
    }
    assert forall|j: int| 0 <= j < nb.len() implies buf_fits(#[trigger] nb[j], capacity) by {
        assert(buf_fits(bs[j + k], capacity));
    }
}

/// Contiguous buffers start in increasing order and end at or before the
/// back buffer's end.
pub proof fn lemma_starts_ordered(bs: Seq<IoBuf>)
    requires
        forall|i: int| 0 <= i < bs.len() - 1 ==> #[trigger] bs[i + 1].start == buf_end(bs[i]),
    ensures
        forall|i: int, j: int| 0 <= i <= j < bs.len() ==> (#[trigger] bs[i]).start <= (#[trigger] bs[j]).start,
        bs.len() > 0 ==> forall|i: int| 0 <= i < bs.len() ==> buf_end(#[trigger] bs[i]) <= buf_end(bs.last()),
    decreases bs.len(),
{
    if bs.len() > 1 {
        let front = bs.drop_last();
        assert forall|i: int| 0 <= i < front.len() - 1 implies #[trigger] front[i + 1].start == buf_end(front[i]) by {
            assert(bs[i + 1].start == buf_end(bs[i]));
        }
        lemma_starts_ordered(front);
        let k = bs.len() - 2;
        assert(bs[k + 1].start == buf_end(bs[k]));
        assert forall|i: int, j: int| 0 <= i <= j < bs.len() implies (#[trigger] bs[i]).start <= (#[trigger] bs[j]).start by {
            if j < bs.len() - 1 {
                assert(front[i] == bs[i] && front[j] == bs[j]);
            } else if i < bs.len() - 1 {
                assert(front[i] == bs[i]);
                assert(buf_end(front[i]) <= buf_end(front.last()));
            }
        }
        assert forall|i: int| 0 <= i < bs.len() implies buf_end(#[trigger] bs[i]) <= buf_end(bs.last()) by {
            if i < bs.len() - 1 {
                assert(front[i] == bs[i]);
                assert(buf_end(front[i]) <= buf_end(front.last()));
            }
        }
    }
}

/// Monotonic stable offset, as the buffers publish it: the stable offset
/// lies at or below the start of every buffer not yet written and at or below
/// the tip, so it never runs ahead of what is durable.
pub proof fn lemma_stable_below_unwritten(bufs: &IoBufs)
    requires
        bufs.wf(),
    ensures
        bufs.stable_at() <= bufs.tip_at(),
        forall|i: int| 0 <= i < bufs.bufs().len() && (#[trigger] bufs.bufs()[i]).state != BufState::Written
            ==> bufs.stable_at() <= bufs.bufs()[i].start,
{
    lemma_starts_ordered(bufs.bufs());
    let bs = bufs.bufs();
    if bs.len() > 0 {
        assert(bs[0].start <= bs[bs.len() - 1].start);
        assert forall|i: int| 0 <= i < bs.len() && (#[trigger] bs[i]).state != BufState::Written
            implies bufs.stable_at() <= bs[i].start by {
            assert(bs[0].start <= bs[i].start);
        }
    }
}

impl IoBufs {
    /// The buffers in flight, oldest first.
    pub closed spec fn bufs(&self) -> Seq<IoBuf> {
        self.bufs@
    }

    /// The published stable offset.
    pub closed spec fn stable_at(&self) -> u64 {
        self.stable
    }

    /// The capacity of one buffer.
    pub closed spec fn cap(&self) -> u64 {
        self.capacity
    }

    /// The number of buffer slots.
    pub closed spec fn slots(&self) -> nat {
        self.max_bufs as nat
    }

    /// One past the last claimed byte.
    pub open spec fn tip_at(&self) -> int {
        if self.bufs().len() > 0 { buf_end(self.bufs().last()) } else { self.stable_at() as int }
    }

    /// The invariant: buffers are contiguous from the stable offset, only the
    /// back one is open, none is over capacity, each holds at most one
    /// reservation per header, buffers being or having been written hold no
    /// reservation, and the front one is not yet written.
    pub open spec fn wf(&self) -> bool {
        let bs = self.bufs();
        &&& self.tip_at() <= u64::MAX
        &&& bs.len() <= self.slots()
        &&& bs.len() > 0 ==> bs[0].start == self.stable_at() && bs[0].state != BufState::Written
        &&& layout_ok(bs, self.cap())
    }

    /// No buffers in flight, with `max_bufs` slots of `capacity` bytes each.
    pub fn new(capacity: u64, max_bufs: usize) -> (r: IoBufs)
        ensures
            r.wf(),
            r.bufs() == Seq::<IoBuf>::empty(),
            r.stable_at() == 0,
            r.cap() == capacity,
            r.slots() == max_bufs,
    {
        IoBufs { bufs: Vec::new(), capacity, max_bufs, stable: 0 }
    }

    /// The current stable offset: every byte below it is written and no
    /// reservation below it is outstanding.
    pub fn stable_offset(&self) -> (r: LogID)
        ensures
            r == self.stable_at(),
    {
        self.stable
    }

    /// Claim `HEADER_LEN + n` bytes for a record of `n` payload bytes, in the
    /// open buffer if it has room, else in a new buffer opened after it (the
    /// old one is sealed). Returns the record's offset.
    pub fn reserve(&mut self, n: u64) -> (r: Result<LogID, ReserveError>)
        requires
            old(self).wf(),
            old(self).tip_at() + HEADER_LEN + n <= u64::MAX,
        ensures
            final(self).wf(),
            final(self).stable_at() == old(self).stable_at(),
            final(self).cap() == old(self).cap(),
            final(self).slots() == old(self).slots(),
            r == Err::<LogID, ReserveError>(ReserveError::TooLarge) <==> HEADER_LEN + n > old(self).cap(),
            r == Err::<LogID, ReserveError>(ReserveError::Full) <==> HEADER_LEN + n <= old(self).cap()
                && !fits_open(old(self).bufs(), old(self).cap(), n) && old(self).bufs().len() >= old(self).slots(),
            r is Err ==> final(self).bufs() == old(self).bufs(),
            r is Ok ==> r->Ok_0 == old(self).tip_at() && final(self).tip_at() == old(self).tip_at() + HEADER_LEN + n,
            r is Ok && fits_open(old(self).bufs(), old(self).cap(), n) ==> final(self).bufs() == old(self).bufs().update(
                old(self).bufs().len() - 1,
                (IoBuf {
                    used: (old(self).bufs().last().used + HEADER_LEN + n) as u64,
                    outstanding: (old(self).bufs().last().outstanding + 1) as u64,
                    ..old(self).bufs().last()
                }),
            ),
            r is Ok && !fits_open(old(self).bufs(), old(self).cap(), n) ==> final(self).bufs() == sealed_back(old(self).bufs()).push(
                (IoBuf { start: old(self).tip_at() as u64, used: (HEADER_LEN + n) as u64, outstanding: 1, state: BufState::Open }),
            ),
    {
        let need = HEADER_LEN as u64 + n;
        if need > self.capacity {
            return Err(ReserveError::TooLarge);
        }
        let tip = self.tip();
        let len = self.bufs.len();
        if len > 0 {
            let last = self.bufs[len - 1];
            if last.state == BufState::Open && last.used + need <= self.capacity {
                let grown = IoBuf { used: last.used + need, outstanding: last.outstanding + 1, ..last };
                self.bufs.set(len - 1, grown);
                proof {
                    lemma_layout_replace(old(self).bufs@, len - 1, grown, self.capacity);
                }
                return Ok(tip);
            }
        }
        if len >= self.max_bufs {
            return Err(ReserveError::Full);
        }
        if len > 0 && self.bufs[len - 1].state == BufState::Open {
            let last = self.bufs[len - 1];
            let sealed = IoBuf { state: BufState::Sealed, ..last };
            self.bufs.set(len - 1, sealed);
            proof {
                lemma_layout_replace(old(self).bufs@, len - 1, sealed, self.capacity);
            }
        }
        assert(self.bufs@ == sealed_back(old(self).bufs@));
        let fresh = IoBuf { start: tip, used: need, outstanding: 1, state: BufState::Open };
        proof {
            lemma_layout_push(self.bufs@, fresh, self.capacity);
        }
        self.bufs.push(fresh);
        Ok(tip)
    }

    /// Replace buffer `i` by one with the same extent; the invariant holds
    /// where the new buffer keeps it.
    proof fn lemma_replace_keeps(&self, old_bufs: Seq<IoBuf>, i: int, b: IoBuf)
        requires
            0 <= i < old_bufs.len(),
            self.bufs@ == old_bufs.update(i, b),
            b.start == old_bufs[i].start,
            b.used == old_bufs[i].used,
            b.outstanding * HEADER_LEN <= b.used,
            b.state == BufState::Writing || b.state == BufState::Written ==> b.outstanding == 0,
            b.state == BufState::Open ==> i == old_bufs.len() - 1,
            b.used <= self.cap(),
            i == 0 ==> b.state != BufState::Written,
            old_bufs.len() > 0 ==> old_bufs[0].start == self.stable_at() && old_bufs[0].state != BufState::Written,
            layout_ok(old_bufs, self.cap()),
            buf_end(old_bufs.last()) <= u64::MAX,
            old_bufs.len() <= self.slots(),
        ensures
            self.wf(),
            self.bufs@.len() == old_bufs.len(),
            buf_end(self.bufs@.last()) == buf_end(old_bufs.last()),
    {
        let bs = self.bufs@;
        let ob = old_bufs;
        lemma_layout_replace(ob, i, b, self.cap());
        assert(buf_end(bs.last()) == buf_end(ob.last()));
    }

    /// Resolve (complete or abort) one reservation of the record at `id`: the
    /// buffer that holds it has one outstanding reservation fewer. Returns
    /// false, changing nothing, where no buffer holding `id` has one.
    pub fn resolve(&mut self, id: LogID) -> (r: bool)
        requires
            old(self).wf(),
        ensures
            final(self).wf(),
            final(self).tip_at() == old(self).tip_at(),
            final(self).stable_at() == old(self).stable_at(),
            final(self).cap() == old(self).cap(),
            final(self).slots() == old(self).slots(),
            r <==> exists|i: int| 0 <= i < old(self).bufs().len() && #[trigger] old(self).bufs()[i].start <= id
                < buf_end(old(self).bufs()[i]) && old(self).bufs()[i].outstanding > 0,
            r ==> exists|i: int| 0 <= i < old(self).bufs().len() && #[trigger] old(self).bufs()[i].start <= id
                < buf_end(old(self).bufs()[i]) && old(self).bufs()[i].outstanding > 0 && final(self).bufs() == old(self).bufs().update(i,
                (IoBuf { outstanding: (old(self).bufs()[i].outstanding - 1) as u64, ..old(self).bufs()[i] })),
            !r ==> final(self).bufs() == old(self).bufs(),
    {
        let mut i: usize = 0;
        while i < self.bufs.len()
            invariant
                i <= self.bufs@.len(),
                self.bufs@ == old(self).bufs@,
                old(self).wf(),
                self.stable == old(self).stable,
                self.capacity == old(self).capacity,
                self.max_bufs == old(self).max_bufs,
                forall|j: int| 0 <= j < i ==> !(#[trigger] self.bufs@[j].start <= id < buf_end(self.bufs@[j])
                    && self.bufs@[j].outstanding > 0),
            decreases self.bufs@.len() - i,
        {
            let b = self.bufs[i];
            if b.start <= id && id - b.start < b.used && b.outstanding > 0 {
                let nb = IoBuf { outstanding: b.outstanding - 1, ..b };
                assert(old(self).bufs@[i as int].outstanding * HEADER_LEN <= old(self).bufs@[i as int].used);
                self.bufs.set(i, nb);
                proof {
                    self.lemma_replace_keeps(old(self).bufs@, i as int, nb);
                }
                return true;
            }
            i = i + 1;
        }
        false
    }

    /// Seal the open buffer, if any, so that it can be written once its
    /// reservations resolve.
    pub fn seal(&mut self)
        requires
            old(self).wf(),
        ensures
            final(self).wf(),
            final(self).tip_at() == old(self).tip_at(),
            final(self).bufs() == sealed_back(old(self).bufs()),
            final(self).stable_at() == old(self).stable_at(),
            final(self).cap() == old(self).cap(),
            final(self).slots() == old(self).slots(),
    {
        let len = self.bufs.len();
        if len > 0 && self.bufs[len - 1].state == BufState::Open {
            let last = self.bufs[len - 1];
            let nb = IoBuf { state: BufState::Sealed, ..last };
            self.bufs.set(len - 1, nb);
            proof {
                self.lemma_replace_keeps(old(self).bufs@, len - 1, nb);
            }
        }
    }

    /// Hand out the oldest sealed buffer whose reservations have all resolved,
    /// as its extent `(start, used)`, and mark it as being written.
    pub fn next_write(&mut self) -> (r: Option<(LogID, u64)>)
        requires
            old(self).wf(),
        ensures
            final(self).wf(),
            final(self).tip_at() == old(self).tip_at(),
            final(self).stable_at() == old(self).stable_at(),
            final(self).cap() == old(self).cap(),
            final(self).slots() == old(self).slots(),
            handed_out(old(self).bufs(), final(self).bufs(), r),
            r is None <==> forall|i: int| 0 <= i < old(self).bufs().len() ==> !(#[trigger] old(self).bufs()[i].state
                == BufState::Sealed && old(self).bufs()[i].outstanding == 0),
            r is None ==> final(self).bufs() == old(self).bufs(),
            r is Some ==> exists|i: int| 0 <= i < old(self).bufs().len()
                && #[trigger] old(self).bufs()[i].state == BufState::Sealed && old(self).bufs()[i].outstanding == 0
                && (forall|j: int| 0 <= j < i ==> !(#[trigger] old(self).bufs()[j].state == BufState::Sealed
                    && old(self).bufs()[j].outstanding == 0))
                && r == Some((old(self).bufs()[i].start, old(self).bufs()[i].used))
                && final(self).bufs() == old(self).bufs().update(i, (IoBuf { state: BufState::Writing, ..old(self).bufs()[i] })),
    {
        let mut i: usize = 0;
        while i < self.bufs.len()
            invariant
                i <= self.bufs@.len(),
                self.bufs@ == old(self).bufs@,
                old(self).wf(),
                self.stable == old(self).stable,
                self.capacity == old(self).capacity,
                self.max_bufs == old(self).max_bufs,
                forall|j: int| 0 <= j < i ==> !(#[trigger] self.bufs@[j].state == BufState::Sealed
                    && self.bufs@[j].outstanding == 0),
            decreases self.bufs@.len() - i,
        {
            let b = self.bufs[i];
            if b.state == BufState::Sealed && b.outstanding == 0 {
                let nb = IoBuf { state: BufState::Writing, ..b };
                assert(old(self).bufs@[i as int].outstanding * HEADER_LEN <= old(self).bufs@[i as int].used);
                self.bufs.set(i, nb);
                proof {
                    self.lemma_replace_keeps(old(self).bufs@, i as int, nb);
                }
                return Some((b.start, b.used));
            }
            i = i + 1;
        }
        None
    }

    /// Record that the buffer starting at `start` is durably written, then
    /// publish the stable offset past every written buffer at the front.
    /// Returns false, changing nothing, where no buffer starting there is
    /// being written.
    pub fn write_done(&mut self, start: LogID) -> (r: bool)
        requires
            old(self).wf(),
        ensures
            final(self).wf(),
            final(self).cap() == old(self).cap(),
            final(self).slots() == old(self).slots(),
            final(self).tip_at() == old(self).tip_at(),
            old(self).stable_at() <= final(self).stable_at() <= old(self).tip_at(),
            r <==> exists|i: int| 0 <= i < old(self).bufs().len() && #[trigger] old(self).bufs()[i].start == start
                && old(self).bufs()[i].state == BufState::Writing,
            !r ==> final(self).bufs() == old(self).bufs() && final(self).stable_at() == old(self).stable_at(),
            r ==> exists|i: int| 0 <= i < old(self).bufs().len() && #[trigger] old(self).bufs()[i].start == start
                && old(self).bufs()[i].state == BufState::Writing
                && final(self).bufs() == drop_written(marked_written(old(self).bufs(), i))
                && final(self).stable_at() == published(marked_written(old(self).bufs(), i), old(self).tip_at()),
    {
        proof {
            lemma_starts_ordered(self.bufs@);
        }
        let tip = self.tip();
        let mut i: usize = 0;
        while i < self.bufs.len()
            invariant
                i <= self.bufs@.len(),
                self.bufs@ == old(self).bufs@,
                old(self).wf(),
                self.stable == old(self).stable,
                self.capacity == old(self).capacity,
                self.max_bufs == old(self).max_bufs,
                forall|j: int| 0 <= j < i ==> !(#[trigger] self.bufs@[j].start == start
                    && self.bufs@[j].state == BufState::Writing),
            ensures
                i <= self.bufs@.len(),
                self.bufs@ == old(self).bufs@,
                old(self).wf(),
                self.stable == old(self).stable,
                self.capacity == old(self).capacity,
                self.max_bufs == old(self).max_bufs,
                forall|j: int| 0 <= j < i ==> !(#[trigger] self.bufs@[j].start == start
                    && self.bufs@[j].state == BufState::Writing),
                i < self.bufs@.len() ==> self.bufs@[i as int].start == start && self.bufs@[i as int].state == BufState::Writing,
            decreases self.bufs@.len() - i,
        {
            if self.bufs[i].start == start && self.bufs[i].state == BufState::Writing {
                break;
            }
            i = i + 1;
        }
        if i == self.bufs.len() {
            return false;
        }
        let b = self.bufs[i];
        let nb = IoBuf { state: BufState::Written, ..b };
        self.bufs.set(i, nb);
        let ghost ob = old(self).bufs@;
        let ghost marked = marked_written(ob, i as int);
        assert(self.bufs@ == marked);
        let ghost mut k: int = 0;
        while self.bufs.len() > 0 && self.bufs[0].state == BufState::Written
            invariant
                0 <= k <= marked.len(),
                self.bufs@ == marked.subrange(k, marked.len() as int),
                drop_written(self.bufs@) == drop_written(marked),
                old(self).wf(),
                ob == old(self).bufs@,
                marked == marked_written(ob, i as int),
                i < ob.len(),
                ob[i as int].start == start && ob[i as int].state == BufState::Writing,
                self.capacity == old(self).capacity,
                self.max_bufs == old(self).max_bufs,
            decreases self.bufs@.len(),
        {
            self.bufs.remove(0);
            proof {
                assert(self.bufs@ =~= marked.subrange(k + 1, marked.len() as int));
                k = k + 1;
            }
        }
        assert(drop_written(self.bufs@) == self.bufs@);
        if self.bufs.len() > 0 {
            self.stable = self.bufs[0].start;
        } else {
            self.stable = tip;
        }
        proof {
            let bs = self.bufs@;
            lemma_layout_replace(ob, i as int, nb, self.capacity);
            lemma_layout_suffix(marked, k, self.capacity);
            if bs.len() > 0 {
                assert(bs[0] == marked[k]);
                assert(ob[0].start <= ob[k].start);
                assert(bs.last() == marked[marked.len() - 1]);
            }
            assert(ob[i as int].start == start && ob[i as int].state == BufState::Writing);
        }
        true
    }

    /// One past the last claimed byte.
    pub fn tip(&self) -> (r: LogID)
        requires
            self.wf(),
        ensures
            r == self.tip_at(),
    {
        if self.bufs.len() > 0 {
            let b = self.bufs[self.bufs.len() - 1];
            b.start + b.used
        } else {
            self.stable
        }
    }
}

} // verus!
