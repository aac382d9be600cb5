//! The log-structured store: records staged in memory, grouped into buffers
//! that are handed out to be written to the backing file, with the stable
//! offset published as those writes finish.
use vstd::prelude::*;
use crate::codec::{decode, frame, zeroed_frame, MAX_PAYLOAD};
use crate::iobuf::{lemma_starts_ordered, buf_end, drop_written, fits_open, marked_written, published, ready, handed_out, resolved_at, sealed_back,
    BufState, IoBuf, IoBufs, ReserveError};
use crate::log::{entry_view, splice, Config, Log, Reservation};
use crate::mem::MemLog;
use crate::record::LogRead;
use crate::{LogID, HEADER_LEN};

verus! {

/// A log whose records are staged in memory and written out buffer by buffer.
pub struct Lss {
    log: MemLog,
    bufs: IoBufs,
}

/// The extent `(start, length)` of a buffer handed out with its bytes.
pub open spec fn extent_of(r: Option<(LogID, Vec<u8>)>) -> Option<(u64, u64)> {
    match r {
        Some(e) => Some((e.0, e.1@.len() as u64)),
        None => None,
    }
}

impl Lss {
    /// The staged bytes of the log.
    pub closed spec fn image(&self) -> Seq<u8> {
        self.log.image()
    }

    /// The staging buffers in flight.
    pub closed spec fn bufs(&self) -> Seq<IoBuf> {
        self.bufs.bufs()
    }

    /// The outstanding reservations.
    pub closed spec fn pending(&self) -> Set<(u64, u64)> {
        self.log.pending()
    }

    /// The stable offset published by the buffers.
    pub closed spec fn stable(&self) -> u64 {
        self.bufs.stable_at()
    }

    /// The largest payload allowed by the configuration.
    pub closed spec fn max_record(&self) -> nat {
        self.log.max_record()
    }

    /// The capacity of one staging buffer.
    pub closed spec fn buf_capacity(&self) -> u64 {
        self.bufs.cap()
    }

    /// The number of staging buffer slots.
    pub closed spec fn slots(&self) -> nat {
        self.bufs.slots()
    }

    /// The invariant: the staged bytes and the buffers both end at the tip.
    pub closed spec fn inv(&self) -> bool {
        &&& self.log.inv()
        &&& self.bufs.wf()
        &&& self.log.image().len() == self.bufs.tip_at()
    }

    /// An empty store with the given settings and `max_bufs` buffers of
    /// `buf_capacity` bytes.
    pub fn new(config: Config, buf_capacity: u64, max_bufs: usize) -> (r: Lss)
        requires
            config.max_record_size <= MAX_PAYLOAD,
        ensures
            r.inv(),
            r.image() == Seq::<u8>::empty(),
            r.bufs() == Seq::<IoBuf>::empty(),
            r.stable() == 0,
            r.max_record() == config.max_record_size,
            r.buf_capacity() == buf_capacity,
            r.slots() == max_bufs,
    {
        Lss { log: MemLog::new(config), bufs: IoBufs::new(buf_capacity, max_bufs) }
    }

    /// Claim space for `buf`; the slot reads as zeroed until it is completed.
    pub fn reserve(&mut self, buf: Vec<u8>) -> (r: Result<Reservation, ReserveError>)
        requires
            old(self).inv(),
            buf@.len() <= old(self).max_record(),
            old(self).image().len() + HEADER_LEN + buf@.len() <= u64::MAX,
        ensures
            final(self).inv(),
            final(self).max_record() == old(self).max_record(),
            final(self).buf_capacity() == old(self).buf_capacity(),
            final(self).slots() == old(self).slots(),
            final(self).stable() == old(self).stable(),
            r == Err::<Reservation, ReserveError>(ReserveError::TooLarge) <==> HEADER_LEN + buf@.len() > old(self).buf_capacity(),
            r == Err::<Reservation, ReserveError>(ReserveError::Full) <==> HEADER_LEN + buf@.len() <= old(self).buf_capacity()
                && !fits_open(old(self).bufs(), old(self).buf_capacity(), buf@.len() as u64) && old(self).bufs().len() >= old(self).slots(),
            r is Ok && fits_open(old(self).bufs(), old(self).buf_capacity(), buf@.len() as u64) ==> final(self).bufs()
                == old(self).bufs().update(
                old(self).bufs().len() - 1,
                (IoBuf {
                    used: (old(self).bufs().last().used + HEADER_LEN + buf@.len()) as u64,
                    outstanding: (old(self).bufs().last().outstanding + 1) as u64,
                    ..old(self).bufs().last()
                }),
            ),
            r is Ok && !fits_open(old(self).bufs(), old(self).buf_capacity(), buf@.len() as u64) ==> final(self).bufs()
                == sealed_back(old(self).bufs()).push(
                (IoBuf {
                    start: old(self).image().len() as u64,
                    used: (HEADER_LEN + buf@.len()) as u64,
                    outstanding: 1,
                    state: BufState::Open,
                }),
            ),
            r is Err ==> final(self).image() == old(self).image() && final(self).pending() == old(self).pending()
                && final(self).bufs() == old(self).bufs(),
            r is Ok ==> r->Ok_0.id == old(self).image().len() && r->Ok_0.payload@ == buf@
                && final(self).image() == old(self).image() + zeroed_frame(buf@.len())
                && final(self).pending() == old(self).pending().insert((r->Ok_0.id, buf@.len() as u64)),
    {
        match self.bufs.reserve(buf.len() as u64) {
            Ok(_) => Ok(self.log.reserve(buf)),
            Err(e) => Err(e),
        }
    }

    /// Fill a reservation with its payload; returns the record's offset.
    pub fn complete(&mut self, res: Reservation) -> (r: LogID)
        requires
            old(self).inv(),
            old(self).pending().contains((res.id, res.payload@.len() as u64)),
        ensures
            final(self).inv(),
            final(self).max_record() == old(self).max_record(),
            final(self).buf_capacity() == old(self).buf_capacity(),
            final(self).slots() == old(self).slots(),
            final(self).stable() == old(self).stable(),
            r == res.id,
            final(self).image() == splice(old(self).image(), res.id as int, frame(res.payload@)),
            final(self).pending() == old(self).pending().remove((res.id, res.payload@.len() as u64)),
            resolved_at(old(self).bufs(), final(self).bufs(), res.id),
    {
        let id = res.id;
        let r = self.log.complete(res);
        self.bufs.resolve(id);
        r
    }

    /// Cancel a reservation: its range stays consumed and reads as zeroed.
    pub fn abort(&mut self, res: Reservation)
        requires
            old(self).inv(),
            old(self).pending().contains((res.id, res.payload@.len() as u64)),
        ensures
            final(self).inv(),
            final(self).max_record() == old(self).max_record(),
            final(self).buf_capacity() == old(self).buf_capacity(),
            final(self).slots() == old(self).slots(),
            final(self).stable() == old(self).stable(),
            final(self).image() == old(self).image(),
            final(self).pending() == old(self).pending().remove((res.id, res.payload@.len() as u64)),
            resolved_at(old(self).bufs(), final(self).bufs(), res.id),
    {
        let id = res.id;
        self.log.abort(res);
        self.bufs.resolve(id);
    }

    /// Reserve and complete in one step; returns the record's offset.
    pub fn write(&mut self, buf: Vec<u8>) -> (r: Result<LogID, ReserveError>)
        requires
            old(self).inv(),
            buf@.len() <= old(self).max_record(),
            old(self).image().len() + HEADER_LEN + buf@.len() <= u64::MAX,
        ensures
            final(self).inv(),
            final(self).max_record() == old(self).max_record(),
            final(self).buf_capacity() == old(self).buf_capacity(),
            final(self).slots() == old(self).slots(),
            final(self).stable() == old(self).stable(),
            final(self).pending() == old(self).pending(),
            r == Err::<LogID, ReserveError>(ReserveError::TooLarge) <==> HEADER_LEN + buf@.len() > old(self).buf_capacity(),
            r == Err::<LogID, ReserveError>(ReserveError::Full) <==> HEADER_LEN + buf@.len() <= old(self).buf_capacity()
                && !fits_open(old(self).bufs(), old(self).buf_capacity(), buf@.len() as u64) && old(self).bufs().len() >= old(self).slots(),
            r is Err ==> final(self).bufs() == old(self).bufs(),
            r is Err ==> final(self).image() == old(self).image(),
            r is Ok ==> r->Ok_0 == old(self).image().len() && final(self).image() == old(self).image() + frame(buf@),
    {
        match self.bufs.reserve(buf.len() as u64) {
            Ok(id) => {
                let r = self.log.write(buf);
                self.bufs.resolve(id);
                Ok(r)
            },
            Err(e) => Err(e),
        }
    }

    /// Ask for everything up to `id` to become stable: returns false where it
    /// already is; otherwise seals the open buffer so that it is written once
    /// its reservations resolve, and returns true.
    pub fn make_stable(&mut self, id: LogID) -> (r: bool)
        requires
            old(self).inv(),
        ensures
            final(self).inv(),
            final(self).image() == old(self).image(),
            final(self).pending() == old(self).pending(),
            final(self).stable() == old(self).stable(),
            final(self).max_record() == old(self).max_record(),
            final(self).buf_capacity() == old(self).buf_capacity(),
            final(self).slots() == old(self).slots(),
            r == (id > old(self).stable()),
            r ==> final(self).bufs() == sealed_back(old(self).bufs()),
            !r ==> final(self).bufs() == old(self).bufs(),
    {
        if id <= self.bufs.stable_offset() {
            return false;
        }
        self.bufs.seal();
        true
    }

    /// Whether `res` is an outstanding reservation of this store, so that it
    /// may be completed or aborted.
    pub fn is_pending(&self, res: &Reservation) -> (r: bool)
        ensures
            r == self.pending().contains((res.id, res.payload@.len() as u64)),
    {
        self.log.is_pending(res.id, res.payload.len() as u64)
    }

    /// Read the staged record at `id`.
    pub fn read(&self, id: LogID) -> (r: LogRead)
        requires
            self.inv(),
        ensures
            r@ == decode(self.image(), id as int),
    {
        match self.log.read(id) {
            Ok(r) => r,
            Err(_) => LogRead::Corrupted(HEADER_LEN),
        }
    }

    /// The published stable offset.
    pub fn stable_offset(&self) -> (r: LogID)
        ensures
            r == self.stable(),
    {
        self.bufs.stable_offset()
    }

    /// One past the last claimed byte.
    pub fn tip(&self) -> (r: LogID)
        requires
            self.inv(),
        ensures
            r == self.image().len(),
    {
        self.bufs.tip()
    }

    /// Seal the open buffer so that it is written once its reservations resolve.
    pub fn seal(&mut self)
        requires
            old(self).inv(),
        ensures
            final(self).inv(),
            final(self).image() == old(self).image(),
            final(self).pending() == old(self).pending(),
            final(self).stable() == old(self).stable(),
            final(self).max_record() == old(self).max_record(),
            final(self).buf_capacity() == old(self).buf_capacity(),
            final(self).slots() == old(self).slots(),
            final(self).bufs() == sealed_back(old(self).bufs()),
    {
        self.bufs.seal();
    }

    /// Hand out the next buffer to write: its start offset and its bytes.
    pub fn next_write(&mut self) -> (r: Option<(LogID, Vec<u8>)>)
        requires
            old(self).inv(),
        ensures
            final(self).inv(),
            final(self).image() == old(self).image(),
            final(self).pending() == old(self).pending(),
            final(self).stable() == old(self).stable(),
            final(self).max_record() == old(self).max_record(),
            final(self).buf_capacity() == old(self).buf_capacity(),
            final(self).slots() == old(self).slots(),
            handed_out(old(self).bufs(), final(self).bufs(), extent_of(r)),
            r is Some ==> entry_view(r->0).1 == old(self).image().subrange(entry_view(r->0).0 as int,
                entry_view(r->0).0 + entry_view(r->0).1.len()),
    {
        match self.bufs.next_write() {
            Some((start, used)) => {
                let ghost bs = old(self).bufs.bufs();
                let ghost i = choose|i: int| 0 <= i < bs.len() && ready(#[trigger] bs[i])
                    && (forall|j: int| 0 <= j < i ==> !ready(#[trigger] bs[j]))
                    && Some((start, used)) == Some((bs[i].start, bs[i].used))
                    && self.bufs.bufs() == bs.update(i, (IoBuf { state: BufState::Writing, ..bs[i] }));
                assert(buf_end(bs[i]) <= buf_end(bs.last())) by {
                    lemma_starts_ordered(bs);
                }
                let bytes = self.log.bytes_between(start, used);
                assert(extent_of(Some((start, bytes))) == Some((start, used)));
                Some((start, bytes))
            },
            None => None,
        }
    }

    /// Record that the buffer starting at `start` is durably written; the
    /// stable offset then advances over every written buffer at the front.
    pub fn write_done(&mut self, start: LogID) -> (r: bool)
        requires
            old(self).inv(),
        ensures
            final(self).inv(),
            final(self).image() == old(self).image(),
            final(self).pending() == old(self).pending(),
            old(self).stable() <= final(self).stable() <= old(self).image().len(),
            r <==> exists|i: int| 0 <= i < old(self).bufs().len() && #[trigger] old(self).bufs()[i].start == start
                && old(self).bufs()[i].state == BufState::Writing,
            !r ==> final(self).bufs() == old(self).bufs() && final(self).stable() == old(self).stable(),
            r ==> exists|i: int| 0 <= i < old(self).bufs().len() && #[trigger] old(self).bufs()[i].start == start
                && old(self).bufs()[i].state == BufState::Writing
                && final(self).bufs() == drop_written(marked_written(old(self).bufs(), i))
                && final(self).stable() == published(marked_written(old(self).bufs(), i), old(self).image().len() as int),
            final(self).max_record() == old(self).max_record(),
            final(self).buf_capacity() == old(self).buf_capacity(),
            final(self).slots() == old(self).slots(),
    {
        self.bufs.write_done(start)
    }
}

} // verus!
