//! The abstract log interface and the forward iterator over its records.
use vstd::prelude::*;
use crate::codec::{decode, frame, zeroed_frame, len_field, stated_extent, MAX_PAYLOAD};
use crate::record::{LogRead, RecordView};
use crate::{LogID, HEADER_LEN};

verus! {

/// Immutable store-wide settings.
pub struct Config {
    /// The largest payload that one record may hold.
    pub max_record_size: usize,
    /// How often, in milliseconds, a background flusher makes the log stable.
    pub flush_every_ms: u64,
}

/// A failure of the storage beneath the log.
#[derive(Debug, PartialEq, Eq, Structural)]
pub enum LogError {
    /// The device failed a read, write or sync.
    Io,
    /// The offset does not hold a whole record header.
    UnexpectedEof,
}

/// An exclusive claim on the byte range `[id, id + HEADER_LEN + payload.len())`
/// of the log, to be completed or aborted.
pub struct Reservation {
    /// Where the claimed range starts.
    pub id: LogID,
    /// The bytes that completing the reservation writes.
    pub payload: Vec<u8>,
}

impl Reservation {
    /// The offset at which the reserved record starts.
    pub fn id(&self) -> (r: LogID)
        ensures
            r == self.id,
    {
        self.id
    }
}

/// `s` with `t` written over it from offset `at`.
pub open spec fn splice(s: Seq<u8>, at: int, t: Seq<u8>) -> Seq<u8> {
    s.subrange(0, at) + t + s.subrange(at + t.len(), s.len() as int)
}

/// One past the last byte of the slot of reservation `p = (id, payload length)`.
pub open spec fn slot_end(p: (u64, u64)) -> int {
    p.0 + HEADER_LEN + p.1
}

/// Whether the range of the record `(id, n)` (header and `n` payload bytes) lies
/// wholly before or wholly after `[lo, hi)`.
pub open spec fn apart(p: (u64, u64), lo: int, hi: int) -> bool {
    p.0 + HEADER_LEN + p.1 <= lo || hi <= p.0
}

/// `b` with the bytes `[lo, hi)` set to zero, clipped to its length.
pub open spec fn zero_range(b: Seq<u8>, lo: int, hi: int) -> Seq<u8> {
    Seq::new(b.len(), |i: int| if lo <= i < hi { 0u8 } else { b[i] })
}

/// The stable offset that `make_stable(id)` publishes: it never moves back, and
/// never passes the end of the log or an outstanding reservation.
pub open spec fn settled(stable: u64, id: u64, len: nat, pending: Set<(u64, u64)>) -> u64 {
    let target = if (id as nat) < len { id as nat } else { len };
    let bound = if exists|p: (u64, u64)| pending.contains(p) && (p.0 as nat) < target {
        (choose|p: (u64, u64)| pending.contains(p) && forall|q: (u64, u64)| pending.contains(q) ==> p.0 <= q.0).0 as nat
    } else {
        target
    };
    if bound > stable as nat { bound as u64 } else { stable }
}

/// The record that an iterator at offset `o` yields next, and the offset it
/// stops at: zeroed records are skipped, a corrupted one or the end ends the scan.
pub open spec fn scan(b: Seq<u8>, o: nat) -> (Option<(u64, Seq<u8>)>, nat)
    decreases (if o <= b.len() { b.len() + 1 - o } else { 0 }),
{
    match decode(b, o as int) {
        RecordView::Flush(p, n) => {
            if o + n + HEADER_LEN <= u64::MAX {
                (Some((o as u64, p)), (o + n + HEADER_LEN) as nat)
            } else {
                (None, o)
            }
        },
        RecordView::Zeroed(k) => {
            if o + HEADER_LEN <= b.len() && o + k <= u64::MAX {
                scan(b, (o + k) as nat)
            } else {
                (None, o)
            }
        },
        RecordView::Corrupted(_) => (None, o),
    }
}

/// A yielded `(offset, payload)` pair, with the payload as a sequence.
pub open spec fn entry_view(e: (LogID, Vec<u8>)) -> (u64, Seq<u8>) {
    (e.0, e.1@)
}

/// What a reader does after reading at an offset.
#[derive(Clone, Copy, Debug, PartialEq, Eq, Structural)]
pub enum Step {
    /// Yield the completed record read there, then continue at the given offset.
    Yield(LogID),
    /// Skip a zeroed record and continue at the given offset.
    Skip(LogID),
    /// End the sequence.
    Stop,
}

/// Decide the next move of a forward scan at `offset`, given what was read
/// there: one step of `scan`.
pub fn iter_step(offset: LogID, rd: &LogRead) -> (r: Step)
    ensures
        match rd@ {
            RecordView::Flush(_, n) => if offset + n + HEADER_LEN <= u64::MAX {
                r == Step::Yield((offset + n + HEADER_LEN) as u64)
            } else {
                r == Step::Stop
            },
            RecordView::Zeroed(k) => if offset + k <= u64::MAX {
                r == Step::Skip((offset + k) as u64)
            } else {
                r == Step::Stop
            },
            RecordView::Corrupted(_) => r == Step::Stop,
        },
{
    match rd {
        LogRead::Flush(_, len) => {
            if *len as u64 > u64::MAX - HEADER_LEN as u64 || offset > u64::MAX - HEADER_LEN as u64 - *len as u64 {
                Step::Stop
            } else {
                Step::Yield(offset + *len as u64 + HEADER_LEN as u64)
            }
        },
        LogRead::Zeroed(len) => {
            if offset > u64::MAX - *len as u64 {
                Step::Stop
            } else {
                Step::Skip(offset + *len as u64)
            }
        },
        LogRead::Corrupted(_) => Step::Stop,
    }
}

/// A trait for objects which facilitate log-structured storage.
///
/// The log is modelled by its image (the bytes a reader sees), the set of
/// outstanding reservations as `(id, payload length)` pairs, and the stable offset.
pub trait Log: Sized {
    /// The bytes of the log, as a reader sees them.
    spec fn image(&self) -> Seq<u8>;

    /// The reservations that are neither completed nor aborted.
    spec fn pending(&self) -> Set<(u64, u64)>;

    /// The published stable offset.
    spec fn stable(&self) -> u64;

    /// The largest payload allowed by the configuration.
    spec fn max_record(&self) -> nat;

    /// Whether the storage beneath never fails (as for a log held in memory).
    spec fn infallible(&self) -> bool;

    /// The log's invariant: the stable offset lies at or below the end of the
    /// log and every outstanding reservation, and each outstanding reservation
    /// is a zeroed slot of the image.
    spec fn inv(&self) -> bool;

    /// A well-formed log allows no payload longer than a header can state.
    proof fn lemma_record_limit(&self)
        requires
            self.inv(),
        ensures
            self.max_record() <= MAX_PAYLOAD,
    ;

    /// Create a log offset reservation for a particular write,
    /// which may later be filled or canceled.
    fn reserve(&mut self, buf: Vec<u8>) -> (r: Reservation)
        requires
            old(self).inv(),
            buf@.len() <= old(self).max_record(),
            old(self).image().len() + HEADER_LEN + buf@.len() <= u64::MAX,
        ensures
            final(self).inv(),
            r.id == old(self).image().len(),
            r.payload@ == buf@,
            final(self).image() == old(self).image() + zeroed_frame(buf@.len()),
            final(self).pending() == old(self).pending().insert((r.id, buf@.len() as u64)),
            final(self).stable() == old(self).stable(),
            final(self).max_record() == old(self).max_record(),
            final(self).infallible() == old(self).infallible(),
    ;

    /// Fill a reservation with its payload; returns the record's offset.
    fn complete(&mut self, res: Reservation) -> (r: LogID)
        requires
            old(self).inv(),
            old(self).pending().contains((res.id, res.payload@.len() as u64)),
        ensures
            final(self).inv(),
            r == res.id,
            final(self).image().len() == old(self).image().len(),
            final(self).image() == splice(old(self).image(), res.id as int, frame(res.payload@)),
            final(self).pending() == old(self).pending().remove((res.id, res.payload@.len() as u64)),
            final(self).stable() == old(self).stable(),
            final(self).max_record() == old(self).max_record(),
            final(self).infallible() == old(self).infallible(),
    ;

    /// Cancel a reservation: its range stays consumed and reads as zeroed.
    fn abort(&mut self, res: Reservation)
        requires
            old(self).inv(),
            old(self).pending().contains((res.id, res.payload@.len() as u64)),
        ensures
            final(self).inv(),
            final(self).image() == old(self).image(),
            final(self).pending() == old(self).pending().remove((res.id, res.payload@.len() as u64)),
            final(self).stable() == old(self).stable(),
            final(self).max_record() == old(self).max_record(),
            final(self).infallible() == old(self).infallible(),
    ;

    /// Write a buffer to underlying storage.
    fn write(&mut self, buf: Vec<u8>) -> (r: LogID)
        requires
            old(self).inv(),
            buf@.len() <= old(self).max_record(),
            old(self).image().len() + HEADER_LEN + buf@.len() <= u64::MAX,
        ensures
            final(self).inv(),
            r == old(self).image().len(),
            final(self).image() == old(self).image() + frame(buf@),
            final(self).pending() == old(self).pending(),
            final(self).stable() == old(self).stable(),
            final(self).max_record() == old(self).max_record(),
            final(self).infallible() == old(self).infallible(),
    ;

    /// Read a buffer from underlying storage.
    fn read(&self, id: LogID) -> (r: Result<LogRead, LogError>)
        ensures
            r is Ok ==> r->Ok_0@ == decode(self.image(), id as int),
            self.infallible() ==> r is Ok,
    ;

    /// Return the current stable offset.
    fn stable_offset(&self) -> (r: LogID)
        ensures
            r == self.stable(),
    ;

    /// Try to flush all pending writes up until the
    /// specified log offset.
    fn make_stable(&mut self, id: LogID) -> (r: Result<(), LogError>)
        requires
            old(self).inv(),
        ensures
            final(self).inv(),
            final(self).image() == old(self).image(),
            final(self).pending() == old(self).pending(),
            r is Ok ==> final(self).stable() == settled(old(self).stable(), id, old(self).image().len(), old(self).pending()),
            r is Err ==> final(self).stable() == old(self).stable(),
            old(self).infallible() ==> r is Ok,
            final(self).max_record() == old(self).max_record(),
            final(self).infallible() == old(self).infallible(),
    ;

    /// Mark the provided message as deletable by the
    /// underlying storage: its header and payload become zeros.
    fn punch_hole(&mut self, id: LogID) -> (r: Result<(), LogError>)
        requires
            old(self).inv(),
            id + HEADER_LEN <= old(self).image().len() ==> forall|p: (u64, u64)| old(self).pending().contains(p)
                ==> apart(p, id as int, id + stated_extent(len_field(old(self).image(), id as int))),
        ensures
            final(self).inv(),
            id + HEADER_LEN > old(self).image().len() ==> r == Err::<(), LogError>(LogError::UnexpectedEof),
            r is Ok ==> final(self).image() == zero_range(old(self).image(), id as int,
                id + stated_extent(len_field(old(self).image(), id as int))),
            r is Err ==> final(self).image() == old(self).image(),
            old(self).infallible() && id + HEADER_LEN <= old(self).image().len() ==> r is Ok,
            final(self).pending() == old(self).pending(),
            final(self).stable() == old(self).stable(),
            final(self).max_record() == old(self).max_record(),
            final(self).infallible() == old(self).infallible(),
    ;

    /// Return the configuration in use by the system.
    fn config(&self) -> (r: &Config)
        ensures
            r.max_record_size as nat == self.max_record(),
    ;

    /// Return an iterator over the log, starting with
    /// a specified offset.
    fn iter_from(&self, id: LogID) -> (r: LogIter<'_, Self>)
        ensures
            r.next_offset == id,
            r.log == self,
    {
        LogIter { next_offset: id, log: self }
    }
}

/// A forward cursor over the completed records of a log.
pub struct LogIter<'a, L: Log> {
    /// The offset that the next read starts at.
    pub next_offset: LogID,
    /// The log being read.
    pub log: &'a L,
}

impl<'a, L: Log> LogIter<'a, L> {
    /// Yield the next completed record and its offset, skipping zeroed
    /// records; `None` at a corrupted record, at the end, or on a failed read.
    pub fn next(&mut self) -> (r: Option<(LogID, Vec<u8>)>)
        ensures
            final(self).log == old(self).log,
            r is Some ==> Some(entry_view(r->0)) == scan(old(self).log.image(), old(self).next_offset as nat).0,
            old(self).log.infallible() ==> (r is Some <==> scan(old(self).log.image(), old(self).next_offset as nat).0 is Some),
            old(self).log.infallible() ==> final(self).next_offset == scan(old(self).log.image(), old(self).next_offset as nat).1,
            r is Some ==> final(self).next_offset == scan(old(self).log.image(), old(self).next_offset as nat).1,
            r is None ==> scan(old(self).log.image(), final(self).next_offset as nat)
                == scan(old(self).log.image(), old(self).next_offset as nat),
    {
        let ghost b = self.log.image();
        let ghost start = self.next_offset as nat;
        let ghost inf = self.log.infallible();
        loop
            invariant
                self.log == old(self).log,
                inf == self.log.infallible(),
                inf == old(self).log.infallible(),
                b == old(self).log.image(),
                start == old(self).next_offset as nat,
                b == self.log.image(),
                scan(b, self.next_offset as nat) == scan(b, start),
            decreases (if self.next_offset <= b.len() { b.len() + 1 - self.next_offset } else { 0 }),
        {
            let got = self.log.read(self.next_offset);
            let ghost o = self.next_offset as nat;
            match got {
                Ok(LogRead::Flush(buf, len)) => {
                    let offset = self.next_offset;
                    assert(decode(b, o as int) == RecordView::Flush(buf@, len as nat));
                    if offset > u64::MAX - HEADER_LEN as u64 - len as u64 {
                        return None;
                    }
                    self.next_offset = self.next_offset + len as u64 + HEADER_LEN as u64;
                    assert(scan(b, o).1 == self.next_offset);
                    return Some((offset, buf));
                },
                Ok(LogRead::Zeroed(len)) => {
                    if self.next_offset > u64::MAX - len as u64 {
                        return None;
                    }
                    self.next_offset = self.next_offset + len as u64;
                    assert(scan(b, o) == scan(b, self.next_offset as nat));
                },
                Ok(LogRead::Corrupted(_)) => {
                    assert(scan(b, o) == (None::<(u64, Seq<u8>)>, o));
                    return None;
                },
                Err(_) => {
                    assert(!inf);
                    return None;
                },
            }
        }
    }
}

} // verus!
