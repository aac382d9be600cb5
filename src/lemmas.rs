//! Laws of the log, stated over the models that the operations' contracts use.
use vstd::prelude::*;
use crate::codec::{decode, frame, header, le32_bytes, len_field, lemma_le32_round_trip, stated_extent, zeroed_frame,
    FLAG_FLUSHED, FLAG_ZEROED, MAX_PAYLOAD};
use crate::log::{settled, scan, zero_range, Log};
use crate::record::RecordView;
use crate::HEADER_LEN;

verus! {

/// The header of a record of `n` payload bytes states `n`.
proof fn lemma_header_len(b: Seq<u8>, at: int, flag: u8, n: nat)
    requires
        n <= MAX_PAYLOAD,
        0 <= at,
        at + HEADER_LEN <= b.len(),
        b.subrange(at, at + HEADER_LEN) == header(flag, n),
    ensures
        b[at] == flag,
        len_field(b, at) == n,
{
    lemma_le32_round_trip(n);
    let h = b.subrange(at, at + HEADER_LEN);
    let t = le32_bytes(n);
    assert(header(flag, n) =~= seq![flag, t[0], t[1], t[2], t[3]]);
    assert(b[at] == h[0]);
    assert(b[at + 1] == h[1]);
    assert(b[at + 2] == h[2]);
    assert(b[at + 3] == h[3]);
    assert(b[at + 4] == h[4]);
    assert(b.subrange(at + 1, at + 5) =~= t);
}

/// Write/read round trip: a record written after any prefix reads back as its
/// payload and length, whatever is written after it.
pub proof fn lemma_write_read(a: Seq<u8>, p: Seq<u8>, c: Seq<u8>)
    requires
        p.len() <= MAX_PAYLOAD,
    ensures
        decode(a + frame(p) + c, a.len() as int) == RecordView::Flush(p, p.len()),
{
    let b = a + frame(p) + c;
    let at = a.len() as int;
    assert(b.subrange(at, at + HEADER_LEN) =~= header(FLAG_FLUSHED, p.len()));
    lemma_header_len(b, at, FLAG_FLUSHED, p.len());
    assert(b.subrange(at + HEADER_LEN, at + HEADER_LEN + p.len()) =~= p);
}

/// Write/read round trip on any well-formed log: after `write(p)` returned
/// `id`, reading at `id` gives `p` and its length.
pub proof fn lemma_log_write_read<L: Log>(before: &L, after: &L, id: u64, p: Seq<u8>)
    requires
        before.inv(),
        p.len() <= before.max_record(),
        id == before.image().len(),
        after.image() == before.image() + frame(p),
    ensures
        decode(after.image(), id as int) == RecordView::Flush(p, p.len()),
{
    before.lemma_record_limit();
    lemma_write_read(before.image(), p, Seq::empty());
    assert(before.image() + frame(p) + Seq::<u8>::empty() =~= after.image());
}

/// Abort correctness: an aborted reservation reads as zeroed, spanning its
/// header and payload (as far as that extent is addressable), whatever is
/// written after it.
pub proof fn lemma_abort_reads_zeroed(a: Seq<u8>, n: nat, c: Seq<u8>)
    requires
        n <= MAX_PAYLOAD,
    ensures
        decode(a + zeroed_frame(n) + c, a.len() as int) == RecordView::Zeroed(stated_extent(n)),
{
    let b = a + zeroed_frame(n) + c;
    let at = a.len() as int;
    assert(b.subrange(at, at + HEADER_LEN) =~= header(FLAG_ZEROED, n));
    lemma_header_len(b, at, FLAG_ZEROED, n);
}

/// A successful read never yields a payload whose length differs from the
/// one it reports, nor bytes other than those stored after the header.
pub proof fn lemma_flush_is_exact(b: Seq<u8>, o: int)
    ensures
        decode(b, o) is Flush ==> ({
            let q = decode(b, o)->Flush_0;
            let n = decode(b, o)->Flush_1;
            &&& q.len() == n
            &&& o + HEADER_LEN + n <= b.len()
            &&& q == b.subrange(o + HEADER_LEN, o + HEADER_LEN + n)
        }),
{
}

/// Corruption containment: cutting the log inside a completed record makes
/// that offset read as corrupted, and an iterator there stops cleanly.
pub proof fn lemma_torn_record(a: Seq<u8>, p: Seq<u8>, k: nat)
    requires
        p.len() <= MAX_PAYLOAD,
        k < HEADER_LEN + p.len(),
    ensures
        decode((a + frame(p)).subrange(0, (a.len() + k) as int), a.len() as int) is Corrupted,
        scan((a + frame(p)).subrange(0, (a.len() + k) as int), a.len()).0 is None,
{
    let b = (a + frame(p)).subrange(0, (a.len() + k) as int);
    let at = a.len() as int;
    if k >= HEADER_LEN {
        assert(b.subrange(at, at + HEADER_LEN) =~= header(FLAG_FLUSHED, p.len()));
        lemma_header_len(b, at, FLAG_FLUSHED, p.len());
    }
}

/// Hole punching: after zeroing a record's extent, the offset reads as a
/// zeroed header; punching again changes nothing.
pub proof fn lemma_punch_hole(b: Seq<u8>, id: int)
    requires
        0 <= id,
        id + HEADER_LEN <= b.len(),
    ensures
        ({
            let once = zero_range(b, id, id + stated_extent(len_field(b, id)));
            &&& decode(once, id) == RecordView::Zeroed(HEADER_LEN as nat)
            &&& zero_range(once, id, id + stated_extent(len_field(once, id))) == once
        }),
{
    let once = zero_range(b, id, id + stated_extent(len_field(b, id)));
    assert(once[id] == 0);
    assert(once[id + 1] == 0 && once[id + 2] == 0 && once[id + 3] == 0 && once[id + 4] == 0);
    assert(len_field(once, id) == 0);
    assert(zero_range(once, id, id + stated_extent(len_field(once, id))) =~= once);
}

/// Monotonic stable offset: publishing never moves the stable offset back,
/// never past the end of the log, and never past an outstanding reservation.
pub proof fn lemma_stable_monotone(stable: u64, id: u64, len: nat, pending: Set<(u64, u64)>)
    requires
        stable <= len,
        forall|p: (u64, u64)| pending.contains(p) ==> stable <= p.0,
    ensures
        stable <= settled(stable, id, len, pending),
        settled(stable, id, len, pending) <= len,
        forall|p: (u64, u64)| pending.contains(p) ==> settled(stable, id, len, pending) <= p.0,
{
    let target = if (id as nat) < len { id as nat } else { len };
    if exists|p: (u64, u64)| pending.contains(p) && (p.0 as nat) < target {
        let w = choose|p: (u64, u64)| pending.contains(p) && (p.0 as nat) < target;
        lemma_least_id(pending, w);
    }
}

/// A set of reservations that holds `w` has one whose offset is least.
proof fn lemma_least_id(pending: Set<(u64, u64)>, w: (u64, u64))
    requires
        pending.contains(w),
    ensures
        exists|m: (u64, u64)| pending.contains(m) && forall|q: (u64, u64)| pending.contains(q) ==> m.0 <= q.0,
    decreases w.0,
{
    if !(forall|q: (u64, u64)| pending.contains(q) ==> w.0 <= q.0) {
        let q = choose|q: (u64, u64)| pending.contains(q) && q.0 < w.0;
        lemma_least_id(pending, q);
    }
}

/// The records that an iterator started at `o` yields, in order, until it stops.
pub open spec fn entries(b: Seq<u8>, o: nat) -> Seq<(u64, Seq<u8>)>
    decreases (if o <= b.len() { b.len() + 1 - o } else { 0 }),
{
    let (first, next) = scan(b, o);
    match first {
        Some(e) => if o < next && next <= b.len() { seq![e] + entries(b, next) } else { seq![e] },
        None => Seq::empty(),
    }
}

/// The bytes of one slot of the log: a completed record of its payload, or
/// (when not completed) the aborted slot of the same size.
pub open spec fn slot_bytes(s: (bool, Seq<u8>)) -> Seq<u8> {
    if s.0 { frame(s.1) } else { zeroed_frame(s.1.len()) }
}

/// The log image made by a sequence of slots, each written or aborted in turn.
pub open spec fn slots_image(ss: Seq<(bool, Seq<u8>)>) -> Seq<u8>
    decreases ss.len(),
{
    if ss.len() == 0 { Seq::empty() } else { slot_bytes(ss[0]) + slots_image(ss.drop_first()) }
}

/// The completed slots of `ss` with their offsets, the first slot starting at `base`.
pub open spec fn slots_entries(ss: Seq<(bool, Seq<u8>)>, base: nat) -> Seq<(u64, Seq<u8>)>
    decreases ss.len(),
{
    if ss.len() == 0 {
        Seq::empty()
    } else {
        let rest = slots_entries(ss.drop_first(), base + slot_bytes(ss[0]).len());
        if ss[0].0 { seq![(base as u64, ss[0].1)] + rest } else { rest }
    }
}

/// Iterator termination and order: over a log made of written and aborted
/// slots, an iterator from the start yields exactly the written payloads with
/// their offsets, in increasing order, skipping the aborted ones, then stops.
pub proof fn lemma_iter_yields_writes(ss: Seq<(bool, Seq<u8>)>)
    requires
        forall|i: int| 0 <= i < ss.len() ==> (#[trigger] ss[i]).1.len() <= MAX_PAYLOAD,
        slots_image(ss).len() <= usize::MAX,
    ensures
        entries(slots_image(ss), 0) == slots_entries(ss, 0),
{
    assert(Seq::<u8>::empty() + slots_image(ss) =~= slots_image(ss));
    lemma_entries_after(Seq::empty(), ss);
}

/// The induction behind the iterator law: after any prefix `a`, the slots
/// yield their written payloads at offsets counted from `a.len()`.
proof fn lemma_entries_after(a: Seq<u8>, ss: Seq<(bool, Seq<u8>)>)
    requires
        forall|i: int| 0 <= i < ss.len() ==> (#[trigger] ss[i]).1.len() <= MAX_PAYLOAD,
        a.len() + slots_image(ss).len() <= usize::MAX,
    ensures
        entries(a + slots_image(ss), a.len()) == slots_entries(ss, a.len()),
    decreases ss.len(),
{
    let b = a + slots_image(ss);
    if ss.len() == 0 {
        assert(b =~= a);
    } else {
        let s0 = ss[0];
        let rest = ss.drop_first();
        let a2 = a + slot_bytes(s0);
        assert(b =~= a2 + slots_image(rest));
        assert forall|i: int| 0 <= i < rest.len() implies (#[trigger] rest[i]).1.len() <= MAX_PAYLOAD by {
            assert(rest[i] == ss[i + 1]);
        }
        lemma_entries_after(a2, rest);
        assert(s0.1.len() <= MAX_PAYLOAD);
        if s0.0 {
            lemma_write_read(a, s0.1, slots_image(rest));
            assert(a2.len() == a.len() + HEADER_LEN + s0.1.len());
        } else {
            lemma_abort_reads_zeroed(a, s0.1.len(), slots_image(rest));
            assert(a2.len() == a.len() + HEADER_LEN + s0.1.len());
            assert(scan(b, a.len()) == scan(b, a2.len()));
            lemma_entries_same_scan(b, a.len(), a2.len());
        }
    }
}

/// Two offsets at which a scan gives the same outcome, the second beyond the
/// first, yield the same records.
proof fn lemma_entries_same_scan(b: Seq<u8>, o1: nat, o2: nat)
    requires
        o1 < o2,
        scan(b, o1) == scan(b, o2),
    ensures
        entries(b, o1) == entries(b, o2),
{
    let (first, next) = scan(b, o2);
    if first is Some {
        lemma_scan_advances(b, o2);
    }
}

/// A scan that yields a record stops beyond its start.
proof fn lemma_scan_advances(b: Seq<u8>, o: nat)
    requires
        scan(b, o).0 is Some,
    ensures
        o < scan(b, o).1,
    decreases (if o <= b.len() { b.len() + 1 - o } else { 0 }),
{
    match decode(b, o as int) {
        RecordView::Zeroed(k) => {
            lemma_scan_advances(b, (o + k) as nat);
        },
        _ => {},
    }
}

} // verus!
