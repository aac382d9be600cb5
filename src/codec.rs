//! The on-disk record layout: `flag || u32 length (little endian) || payload`.
use vstd::prelude::*;
use crate::record::{LogRead, RecordView};
use crate::HEADER_LEN;

verus! {

/// Flag byte of an aborted, reclaimed or never-written record.
pub const FLAG_ZEROED: u8 = 0;

/// Flag byte of a completed record.
pub const FLAG_FLUSHED: u8 = 1;

/// The largest payload length that a header can state.
pub const MAX_PAYLOAD: u64 = 0xffff_ffff;

/// The unsigned integer held little-endian in `b[o..o + 4]`.
pub open spec fn le32(b: Seq<u8>, o: int) -> nat {
    b[o] as nat + 256 * (b[o + 1] as nat) + 65536 * (b[o + 2] as nat) + 16777216 * (b[o + 3] as nat)
}

/// The four little-endian bytes of `n`.
pub open spec fn le32_bytes(n: nat) -> Seq<u8> {
    seq![(n % 256) as u8, ((n / 256) % 256) as u8, ((n / 65536) % 256) as u8, ((n / 16777216) % 256) as u8]
}

/// A header with the given flag and length field.
pub open spec fn header(flag: u8, n: nat) -> Seq<u8> {
    seq![flag] + le32_bytes(n)
}

/// A completed record holding payload `p`.
pub open spec fn frame(p: Seq<u8>) -> Seq<u8> {
    header(FLAG_FLUSHED, p.len()) + p
}

/// A record slot of `n` payload bytes that was aborted: a zeroed header
/// stating the length, then zeros.
pub open spec fn zeroed_frame(n: nat) -> Seq<u8> {
    header(FLAG_ZEROED, n) + Seq::new(n, |i: int| 0u8)
}

/// The length field of the header at `o`.
pub open spec fn len_field(b: Seq<u8>, o: int) -> nat {
    le32(b, o + 1)
}

/// The skip length of a record that states `n` payload bytes: the header and
/// the payload, or one header length where that extent is not addressable.
pub open spec fn stated_extent(n: nat) -> nat {
    if HEADER_LEN + n <= usize::MAX {
        (HEADER_LEN + n) as nat
    } else {
        HEADER_LEN as nat
    }
}

/// What a reader finds at offset `o` of the log image `b`.
///
/// A header that does not fit reads as corrupted; a completed record whose
/// payload runs past the end is corrupted and skips by its stated length; an
/// unknown flag skips by one header length.
pub open spec fn decode(b: Seq<u8>, o: int) -> RecordView {
    if o < 0 || o + HEADER_LEN > b.len() {
        RecordView::Corrupted(HEADER_LEN as nat)
    } else if b[o] == FLAG_FLUSHED {
        let n = len_field(b, o);
        if o + HEADER_LEN + n <= b.len() {
            RecordView::Flush(b.subrange(o + HEADER_LEN, o + HEADER_LEN + n), n)
        } else {
            RecordView::Corrupted(stated_extent(n))
        }
    } else if b[o] == FLAG_ZEROED {
        RecordView::Zeroed(stated_extent(len_field(b, o)))
    } else {
        RecordView::Corrupted(HEADER_LEN as nat)
    }
}

/// The number of bytes a reader skips past the outcome `r`.
pub open spec fn skip_len(r: RecordView) -> nat {
    match r {
        RecordView::Flush(_, n) => (n + HEADER_LEN) as nat,
        RecordView::Zeroed(n) => n,
        RecordView::Corrupted(n) => n,
    }
}

/// Reading back the bytes of a value gives the value.
pub proof fn lemma_le32_round_trip(n: nat)
    requires
        n <= MAX_PAYLOAD,
    ensures
        le32(le32_bytes(n), 0) == n,
{
    let b = le32_bytes(n);
    assert(b[0] as nat == n % 256);
    assert(b[1] as nat == (n / 256) % 256);
    assert(b[2] as nat == (n / 65536) % 256);
    assert(b[3] as nat == (n / 16777216) % 256);
    assert(n / 16777216 < 256);
    assert(n == n % 256 + 256 * ((n / 256) % 256) + 65536 * ((n / 65536) % 256) + 16777216 * (n / 16777216)) by (nonlinear_arith)
        requires n <= MAX_PAYLOAD;
}

/// Read the little-endian length field at `b[o..o + 4]`.
pub fn read_le32(b: &[u8], o: usize) -> (r: u32)
    requires
        o + 4 <= b@.len(),
    ensures
        r as nat == le32(b@, o as int),
{
    let r = b[o] as u32 + 256 * (b[o + 1] as u32) + 65536 * (b[o + 2] as u32) + 16777216 * (b[o + 3] as u32);
    r
}

/// Append the header with the given flag and length to `out`.
pub fn push_header(out: &mut Vec<u8>, flag: u8, n: u32)
    ensures
        final(out)@ == old(out)@ + header(flag, n as nat),
{
    out.push(flag);
    out.push((n % 256) as u8);
    out.push(((n / 256) % 256) as u8);
    out.push(((n / 65536) % 256) as u8);
    out.push(((n / 16777216) % 256) as u8);
    assert(final(out)@ =~= old(out)@ + header(flag, n as nat));
}

/// Encode `payload` as a completed record.
pub fn encode(payload: &Vec<u8>) -> (r: Vec<u8>)
    requires
        payload@.len() <= MAX_PAYLOAD,
    ensures
        r@ == frame(payload@),
{
    let mut out: Vec<u8> = Vec::new();
    push_header(&mut out, FLAG_FLUSHED, payload.len() as u32);
    let ghost h = out@;
    let mut i: usize = 0;
    while i < payload.len()
        invariant
            i <= payload@.len(),
            h == header(FLAG_FLUSHED, payload@.len()),
            out@ == h + payload@.subrange(0, i as int),
        decreases payload@.len() - i,
    {
        out.push(payload[i]);
        i = i + 1;
        assert(out@ =~= h + payload@.subrange(0, i as int));
    }
    assert(payload@.subrange(0, i as int) =~= payload@);
    out
}

/// The skip length of a record that states `n` payload bytes.
pub fn extent(n: u32) -> (r: usize)
    ensures
        r as nat == stated_extent(n as nat),
{
    if n as usize <= usize::MAX - HEADER_LEN {
        HEADER_LEN + n as usize
    } else {
        HEADER_LEN
    }
}

/// Decode the record at offset `at` of the log image `b`.
pub fn decode_at(b: &[u8], at: u64) -> (r: LogRead)
    ensures
        r@ == decode(b@, at as int),
{
    let len = b.len();
    if at > len as u64 || len - (at as usize) < HEADER_LEN {
        return LogRead::Corrupted(HEADER_LEN);
    }
    let o = at as usize;
    let n = read_le32(b, o + 1);
    let flag = b[o];
    if flag == FLAG_FLUSHED {
        if (n as usize) <= len - o - HEADER_LEN {
            let start = o + HEADER_LEN;
            let end = start + n as usize;
            let mut out: Vec<u8> = Vec::new();
            let mut i: usize = start;
            while i < end
                invariant
                    start <= i <= end,
                    end <= b@.len(),
                    out@ == b@.subrange(start as int, i as int),
                decreases end - i,
            {
                out.push(b[i]);
                i = i + 1;
                assert(out@ =~= b@.subrange(start as int, i as int));
            }
            LogRead::Flush(out, n as usize)
        } else {
            LogRead::Corrupted(extent(n))
        }
    } else if flag == FLAG_ZEROED {
        LogRead::Zeroed(extent(n))
    } else {
        LogRead::Corrupted(HEADER_LEN)
    }
}

} // verus!
