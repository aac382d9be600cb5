//! A log held in memory: the image is a byte vector, reservations are
//! tracked as `(id, payload length)` pairs, and nothing can fail.
use vstd::prelude::*;
use crate::codec::{decode_at, encode, extent, read_le32, push_header, header, frame, zeroed_frame, MAX_PAYLOAD, FLAG_ZEROED};
use crate::log::{apart, slot_end, splice, zero_range, Config, Log, LogError, Reservation};
use crate::record::LogRead;
use crate::{LogID, HEADER_LEN};

verus! {

/// A log whose storage is a vector of bytes.
pub struct MemLog {
    buf: Vec<u8>,
    pending: Vec<(u64, u64)>,
    stable: u64,
    config: Config,
}

/// Write `src` over `buf` from offset `at`.
fn overwrite(buf: &mut Vec<u8>, at: usize, src: &Vec<u8>)
    requires
        at + src@.len() <= old(buf)@.len(),
    ensures
        final(buf)@ == splice(old(buf)@, at as int, src@),
{
    let mut k: usize = 0;
    while k < src.len()
        invariant
            k <= src@.len(),
            at + src@.len() <= buf.len(),
            buf@.len() == old(buf)@.len(),
            forall|i: int| 0 <= i < buf@.len() ==> #[trigger] buf@[i] == if at <= i < at + k { src@[i - at] } else { old(buf)@[i] },
        decreases src@.len() - k,
    {
        buf.set(at + k, src[k]);
        k = k + 1;
    }
    assert(buf@ =~= splice(old(buf)@, at as int, src@));
}

/// Writing over `[at, at + t.len())` leaves every range apart from it unchanged.
proof fn lemma_splice_keeps(s: Seq<u8>, at: int, t: Seq<u8>, lo: int, hi: int)
    requires
        0 <= at,
        at + t.len() <= s.len(),
        0 <= lo <= hi <= s.len(),
        hi <= at || at + t.len() <= lo,
    ensures
        splice(s, at, t).subrange(lo, hi) == s.subrange(lo, hi),
{
    assert(splice(s, at, t).subrange(lo, hi) =~= s.subrange(lo, hi));
}

impl MemLog {
    /// The bytes of the log.
    pub closed spec fn bytes(&self) -> Seq<u8> {
        self.buf@
    }

    /// The outstanding reservations.
    pub closed spec fn outstanding(&self) -> Set<(u64, u64)> {
        self.pending@.to_set()
    }

    /// The published stable offset.
    pub closed spec fn stable_at(&self) -> u64 {
        self.stable
    }

    /// The configured largest payload.
    pub closed spec fn record_limit(&self) -> nat {
        self.config.max_record_size as nat
    }

    /// Whether outstanding reservation `p` is a zeroed slot of the image at or
    /// above the stable offset.
    pub closed spec fn slot_ok(&self, p: (u64, u64)) -> bool {
        &&& slot_end(p) <= self.buf@.len()
        &&& p.1 <= MAX_PAYLOAD
        &&& self.buf@.subrange(p.0 as int, slot_end(p)) == zeroed_frame(p.1 as nat)
        &&& self.stable <= p.0
    }

    /// The invariant of the in-memory log: the image fits the offset type, the
    /// stable offset lies at or below the end and every outstanding slot, each
    /// outstanding slot is a zeroed record, and the slots do not overlap.
    pub closed spec fn wf(&self) -> bool {
        &&& self.buf@.len() <= u64::MAX
        &&& self.stable <= self.buf@.len()
        &&& self.config.max_record_size <= MAX_PAYLOAD
        &&& forall|i: int| 0 <= i < self.pending@.len() ==> self.slot_ok(#[trigger] self.pending@[i])
        &&& forall|i: int, j: int| 0 <= i < self.pending@.len() && 0 <= j < self.pending@.len() && i != j
            ==> apart(#[trigger] self.pending@[i], self.pending@[j].0 as int, #[trigger] slot_end(self.pending@[j]))
    }

    /// Disjointness: the byte ranges of two different outstanding reservations
    /// do not overlap.
    pub proof fn lemma_reservations_disjoint(&self, p: (u64, u64), q: (u64, u64))
        requires
            self.inv(),
            self.pending().contains(p),
            self.pending().contains(q),
            p != q,
        ensures
            apart(p, q.0 as int, slot_end(q)),
    {
        let i = choose|i: int| 0 <= i < self.pending@.len() && self.pending@[i] == p;
        let j = choose|j: int| 0 <= j < self.pending@.len() && self.pending@[j] == q;
        assert(apart(self.pending@[i], self.pending@[j].0 as int, slot_end(self.pending@[j])));
    }

    /// An empty log with the given settings.
    pub fn new(config: Config) -> (r: MemLog)
        requires
            config.max_record_size <= MAX_PAYLOAD,
        ensures
            r.inv(),
            r.image() == Seq::<u8>::empty(),
            r.pending() == Set::<(u64, u64)>::empty(),
            r.stable() == 0,
            r.max_record() == config.max_record_size,
            r.infallible(),
    {
        let r = MemLog { buf: Vec::new(), pending: Vec::new(), stable: 0, config };
        assert(r.pending@.to_set() =~= Set::<(u64, u64)>::empty());
        r
    }

    /// The offset one past the last reserved byte.
    pub fn tip(&self) -> (r: LogID)
        requires
            self.inv(),
        ensures
            r == self.image().len(),
    {
        self.buf.len() as u64
    }

    /// A copy of the bytes `[start, start + len)` of the log.
    pub fn bytes_between(&self, start: u64, len: u64) -> (r: Vec<u8>)
        requires
            start + len <= self.image().len(),
        ensures
            r@ == self.image().subrange(start as int, start + len),
    {
        let mut out: Vec<u8> = Vec::new();
        let total = self.buf.len();
        let s = start as usize;
        let e = s + len as usize;
        let mut k: usize = s;
        while k < e
            invariant
                s <= k <= e <= self.buf@.len(),
                s == start,
                e == start + len,
                out@ == self.buf@.subrange(s as int, k as int),
            decreases e - k,
        {
            out.push(self.buf[k]);
            k = k + 1;
            assert(out@ =~= self.buf@.subrange(s as int, k as int));
        }
        out
    }

    /// Whether `(id, len)` is an outstanding reservation.
    pub fn is_pending(&self, id: u64, len: u64) -> (r: bool)
        ensures
            r == self.pending().contains((id, len)),
    {
        let mut i: usize = 0;
        while i < self.pending.len()
            invariant
                i <= self.pending@.len(),
                forall|j: int| 0 <= j < i ==> self.pending@[j] != (id, len),
            decreases self.pending@.len() - i,
        {
            if self.pending[i].0 == id && self.pending[i].1 == len {
                assert(self.pending@[i as int] == (id, len));
                return true;
            }
            i = i + 1;
        }
        false
    }

    /// The position of reservation `p` among the outstanding ones.
    fn find_pending(&self, p: (u64, u64)) -> (r: usize)
        requires
            self.pending@.contains(p),
        ensures
            r < self.pending@.len(),
            self.pending@[r as int] == p,
    {
        let mut i: usize = 0;
        while i < self.pending.len()
            invariant
                i <= self.pending@.len(),
                self.pending@.contains(p),
                forall|j: int| 0 <= j < i ==> self.pending@[j] != p,
            decreases self.pending@.len() - i,
        {
            if self.pending[i].0 == p.0 && self.pending[i].1 == p.1 {
                return i;
            }
            i = i + 1;
        }
        i
    }

    /// Drop the outstanding reservation at position `i`.
    fn forget_pending(&mut self, i: usize)
        requires
            old(self).inv(),
            i < old(self).pending@.len(),
        ensures
            final(self).pending@ == old(self).pending@.remove(i as int),
            final(self).pending() == old(self).pending().remove(old(self).pending@[i as int]),
            final(self).buf == old(self).buf,
            final(self).stable == old(self).stable,
            final(self).config == old(self).config,
    {
        let ghost p = self.pending@[i as int];
        self.pending.remove(i);
        let ghost s = old(self).pending@;
        assert forall|q: (u64, u64)| self.pending@.contains(q) <==> #[trigger] s.to_set().remove(p).contains(q) by {
            if self.pending@.contains(q) {
                let j = choose|j: int| 0 <= j < self.pending@.len() && self.pending@[j] == q;
                let k = if j < i { j } else { j + 1 };
                assert(s[k] == q);
                assert(k != i);
                assert(apart(s[i as int], s[k].0 as int, slot_end(s[k])));
            }
            if s.to_set().remove(p).contains(q) {
                let k = choose|k: int| 0 <= k < s.len() && s[k] == q;
                assert(k != i);
                let j = if k < i { k } else { k - 1 };
                assert(self.pending@[j] == q);
            }
        }
        assert(self.pending() =~= old(self).pending().remove(p));
    }
}

impl Log for MemLog {
    open spec fn image(&self) -> Seq<u8> {
        self.bytes()
    }

    open spec fn pending(&self) -> Set<(u64, u64)> {
        self.outstanding()
    }

    open spec fn stable(&self) -> u64 {
        self.stable_at()
    }

    open spec fn max_record(&self) -> nat {
        self.record_limit()
    }

    open spec fn infallible(&self) -> bool {
        true
    }

    open spec fn inv(&self) -> bool {
        self.wf()
    }

    proof fn lemma_record_limit(&self) {
    }

    fn reserve(&mut self, buf: Vec<u8>) -> (r: Reservation) {
        assert(buf@.len() <= self.config.max_record_size);
        let id = self.buf.len() as u64;
        let n = buf.len() as u32;
        let ghost before = self.buf@;
        push_header(&mut self.buf, FLAG_ZEROED, n);
        let mut k: usize = 0;
        while k < buf.len()
            invariant
                k <= buf@.len(),
                self.buf@ == before + header(FLAG_ZEROED, n as nat) + Seq::new(k as nat, |i: int| 0u8),
                self.pending == old(self).pending,
                self.stable == old(self).stable,
                self.config == old(self).config,
            decreases buf@.len() - k,
        {
            self.buf.push(0u8);
            k = k + 1;
            assert(self.buf@ =~= before + header(FLAG_ZEROED, n as nat) + Seq::new(k as nat, |i: int| 0u8));
        }
        assert(self.buf@ =~= before + zeroed_frame(buf@.len()));
        let ghost p = (id, buf@.len() as u64);
        let ghost old_pending = self.pending@;
        self.pending.push((id, buf.len() as u64));
        assert forall|i: int| 0 <= i < self.pending@.len() implies self.slot_ok(#[trigger] self.pending@[i]) by {
            if i < old_pending.len() {
                let q = old_pending[i];
                assert(old_pending[i] == old(self).pending@[i]);
                assert(old(self).slot_ok(q));
                assert(self.buf@.subrange(q.0 as int, slot_end(q)) =~= before.subrange(q.0 as int, slot_end(q)));
            } else {
                assert(self.buf@.subrange(id as int, slot_end(p)) =~= zeroed_frame(buf@.len()));
            }
        }
        assert forall|i: int, j: int| 0 <= i < self.pending@.len() && 0 <= j < self.pending@.len() && i != j
            implies apart(#[trigger] self.pending@[i], self.pending@[j].0 as int, #[trigger] slot_end(self.pending@[j])) by {
            if i < old_pending.len() {
                assert(old(self).slot_ok(old_pending[i]));
            }
            if j < old_pending.len() {
                assert(old(self).slot_ok(old_pending[j]));
            }
        }
        assert forall|q: (u64, u64)| #[trigger] self.pending@.contains(q) <==> old_pending.contains(q) || q == p by {
            if self.pending@.contains(q) {
                let j = choose|j: int| 0 <= j < self.pending@.len() && self.pending@[j] == q;
                if j < old_pending.len() {
                    assert(old_pending[j] == q);
                }
            }
            if old_pending.contains(q) {
                let j = choose|j: int| 0 <= j < old_pending.len() && old_pending[j] == q;
                assert(self.pending@[j] == q);
            }
            if q == p {
                assert(self.pending@[old_pending.len() as int] == q);
            }
        }
        assert(self.pending@.to_set() =~= old_pending.to_set().insert(p));
        Reservation { id, payload: buf }
    }

    #[verifier::rlimit(30)]
    fn complete(&mut self, res: Reservation) -> (r: LogID) {
        let p = (res.id, res.payload.len() as u64);
        let i = self.find_pending(p);
        assert(old(self).slot_ok(p));
        self.forget_pending(i);
        let f = encode(&res.payload);
        let ghost mid = self.buf@;
        assert(mid == old(self).buf@);
        assert(f@.len() == HEADER_LEN + res.payload@.len());
        let blen = self.buf.len();
        assert(res.id + f@.len() <= blen);
        overwrite(&mut self.buf, res.id as usize, &f);
        assert(self.buf@ == splice(old(self).buf@, res.id as int, frame(res.payload@)));
        let ghost s = old(self).pending@;
        assert forall|k: int| 0 <= k < self.pending@.len() implies self.slot_ok(#[trigger] self.pending@[k]) by {
            let k2 = if k < i { k } else { k + 1 };
            assert(s[k2] == self.pending@[k]);
            assert(old(self).slot_ok(s[k2]));
            assert(apart(s[k2], s[i as int].0 as int, slot_end(s[i as int])));
            let q = s[k2];
            lemma_splice_keeps(mid, res.id as int, f@, q.0 as int, slot_end(q));
            assert(self.buf@.subrange(q.0 as int, slot_end(q)) == mid.subrange(q.0 as int, slot_end(q)));
            assert(self.stable == old(self).stable);
        }
        assert forall|a: int, b: int| 0 <= a < self.pending@.len() && 0 <= b < self.pending@.len() && a != b
            implies apart(#[trigger] self.pending@[a], self.pending@[b].0 as int, #[trigger] slot_end(self.pending@[b])) by {
            let a2 = if a < i { a } else { a + 1 };
            let b2 = if b < i { b } else { b + 1 };
            assert(s[a2] == self.pending@[a]);
            assert(s[b2] == self.pending@[b]);
        }
        res.id
    }

    fn abort(&mut self, res: Reservation) {
        let p = (res.id, res.payload.len() as u64);
        let i = self.find_pending(p);
        self.forget_pending(i);
        let ghost s = old(self).pending@;
        assert forall|k: int| 0 <= k < self.pending@.len() implies self.slot_ok(#[trigger] self.pending@[k]) by {
            let k2 = if k < i { k } else { k + 1 };
            assert(s[k2] == self.pending@[k]);
            assert(old(self).slot_ok(s[k2]));
        }
        assert forall|a: int, b: int| 0 <= a < self.pending@.len() && 0 <= b < self.pending@.len() && a != b
            implies apart(#[trigger] self.pending@[a], self.pending@[b].0 as int, #[trigger] slot_end(self.pending@[b])) by {
            let a2 = if a < i { a } else { a + 1 };
            let b2 = if b < i { b } else { b + 1 };
            assert(s[a2] == self.pending@[a]);
            assert(s[b2] == self.pending@[b]);
        }
    }

    fn write(&mut self, buf: Vec<u8>) -> (r: LogID) {
        let ghost n = buf@.len();
        let ghost p = buf@;
        let res = self.reserve(buf);
        let ghost mid = self.image();
        let r = self.complete(res);
        assert(self.image() =~= old(self).image() + frame(p));
        assert(self.pending() =~= old(self).pending());
        r
    }

    fn read(&self, id: LogID) -> (r: Result<LogRead, LogError>) {
        Ok(decode_at(self.buf.as_slice(), id))
    }

    fn stable_offset(&self) -> (r: LogID) {
        self.stable
    }

    fn make_stable(&mut self, id: LogID) -> (r: Result<(), LogError>) {
        let len = self.buf.len() as u64;
        let target = if id < len { id } else { len };
        let mut bound = target;
        let mut i: usize = 0;
        let ghost pset = self.pending();
        while i < self.pending.len()
            invariant
                i <= self.pending@.len(),
                bound <= target,
                forall|j: int| 0 <= j < i ==> bound <= (#[trigger] self.pending@[j]).0,
                bound < target ==> exists|j: int| 0 <= j < i && (#[trigger] self.pending@[j]).0 == bound,
            decreases self.pending@.len() - i,
        {
            if self.pending[i].0 < bound {
                bound = self.pending[i].0;
            }
            i = i + 1;
        }
        proof {
            let chosen_pred = |p: (u64, u64)| pset.contains(p) && forall|q: (u64, u64)| pset.contains(q) ==> p.0 <= q.0;
            if exists|p: (u64, u64)| pset.contains(p) && (p.0 as nat) < target {
                let w = choose|p: (u64, u64)| pset.contains(p) && (p.0 as nat) < target;
                let k = choose|k: int| 0 <= k < self.pending@.len() && self.pending@[k] == w;
                assert(bound <= self.pending@[k].0);
                assert(bound < target);
                let j = choose|j: int| 0 <= j < i && (#[trigger] self.pending@[j]).0 == bound;
                let m = self.pending@[j];
                assert forall|q: (u64, u64)| pset.contains(q) implies m.0 <= q.0 by {
                    let kq = choose|kq: int| 0 <= kq < self.pending@.len() && self.pending@[kq] == q;
                    assert(bound <= self.pending@[kq].0);
                }
                assert(chosen_pred(m));
                let c = choose|p: (u64, u64)| pset.contains(p) && forall|q: (u64, u64)| pset.contains(q) ==> p.0 <= q.0;
                assert(pset.contains(c));
                assert(c.0 <= m.0);
                assert(m.0 <= c.0);
            } else {
                if bound < target {
                    let j = choose|j: int| 0 <= j < i && (#[trigger] self.pending@[j]).0 == bound;
                    assert(pset.contains(self.pending@[j]));
                }
            }
        }
        if bound > self.stable {
            self.stable = bound;
        }
        assert forall|k: int| 0 <= k < self.pending@.len() implies self.slot_ok(#[trigger] self.pending@[k]) by {
            assert(old(self).slot_ok(self.pending@[k]));
        }
        Ok(())
    }

    fn punch_hole(&mut self, id: LogID) -> (r: Result<(), LogError>) {
        let len = self.buf.len();
        if id > len as u64 || len - (id as usize) < HEADER_LEN {
            return Err(LogError::UnexpectedEof);
        }
        let at = id as usize;
        let n = read_le32(self.buf.as_slice(), at + 1);
        let ext = extent(n);
        let end = if ext <= len - at { at + ext } else { len };
        let mut k: usize = at;
        while k < end
            invariant
                at <= k <= end <= self.buf@.len(),
                self.buf@.len() == old(self).buf@.len(),
                self.pending == old(self).pending,
                self.stable == old(self).stable,
                self.config == old(self).config,
                forall|i: int| 0 <= i < self.buf@.len() ==> #[trigger] self.buf@[i] == if at <= i < k { 0u8 } else { old(self).buf@[i] },
            decreases end - k,
        {
            self.buf.set(k, 0u8);
            k = k + 1;
        }
        let ghost hi = id + crate::codec::stated_extent(crate::codec::len_field(old(self).buf@, id as int));
        assert(self.buf@ =~= zero_range(old(self).buf@, id as int, hi));
        assert forall|k: int| 0 <= k < self.pending@.len() implies self.slot_ok(#[trigger] self.pending@[k]) by {
            let q = self.pending@[k];
            assert(old(self).slot_ok(q));
            assert(old(self).pending().contains(q));
            assert(self.buf@.subrange(q.0 as int, slot_end(q)) =~= old(self).buf@.subrange(q.0 as int, slot_end(q)));
        }
        Ok(())
    }

    fn config(&self) -> (r: &Config) {
        &self.config
    }
}

} // verus!
