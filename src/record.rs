//! The outcome of reading the log at one offset.
use vstd::prelude::*;

verus! {

/// What a reader finds at an offset, as a mathematical value.
pub enum RecordView {
    /// A completed record: its payload and the payload's length.
    Flush(Seq<u8>, nat),
    /// An aborted or reclaimed record: the number of bytes to skip.
    Zeroed(nat),
    /// Bytes that do not form a record: the best-effort number of bytes to skip.
    Corrupted(nat),
}

/// The outcome of reading the log at one offset.
#[derive(Debug)]
pub enum LogRead {
    /// A completed write: the payload and its length.
    Flush(Vec<u8>, usize),
    /// An aborted or reclaimed record, with the number of bytes it spans.
    Zeroed(usize),
    /// Inconsistent bytes, with the number of bytes to skip past them.
    Corrupted(usize),
}

impl View for LogRead {
    type V = RecordView;

    open spec fn view(&self) -> RecordView {
        match self {
            LogRead::Flush(b, n) => RecordView::Flush(b@, *n as nat),
            LogRead::Zeroed(n) => RecordView::Zeroed(*n as nat),
            LogRead::Corrupted(n) => RecordView::Corrupted(*n as nat),
        }
    }
}

impl LogRead {
    /// Optionally return successfully read bytes, or None if
    /// the data was corrupt or this log entry was aborted.
    pub fn flush(&self) -> (r: Option<Vec<u8>>)
        ensures
            match self@ {
                RecordView::Flush(p, _) => r is Some && r->0@ == p,
                _ => r is None,
            },
    {
        match self {
            LogRead::Flush(bytes, _) => {
                let mut out: Vec<u8> = Vec::new();
                let mut i: usize = 0;
                while i < bytes.len()
                    invariant
                        i <= bytes.len(),
                        out@ == bytes@.subrange(0, i as int),
                    decreases bytes.len() - i,
                {
                    out.push(bytes[i]);
                    i = i + 1;
                }
                assert(out@ == bytes@);
                Some(out)
            },
            _ => None,
        }
    }

    /// Return true if we read a completed write successfully.
    pub fn is_flush(&self) -> (r: bool)
        ensures
            r == (self@ is Flush),
    {
        match self {
            LogRead::Flush(_, _) => true,
            _ => false,
        }
    }

    /// Return true if we read an aborted flush.
    pub fn is_zeroed(&self) -> (r: bool)
        ensures
            r == (self@ is Zeroed),
    {
        match self {
            LogRead::Zeroed(_) => true,
            _ => false,
        }
    }

    /// Return true if we read a corrupted log entry.
    pub fn is_corrupt(&self) -> (r: bool)
        ensures
            r == (self@ is Corrupted),
    {
        match self {
            LogRead::Corrupted(_) => true,
            _ => false,
        }
    }

    /// Retrieve the read bytes from a completed, successful write.
    /// Only a completed write may be unwrapped.
    pub fn unwrap(self) -> (r: Vec<u8>)
        requires
            self@ is Flush,
        ensures
            r@ == self@->Flush_0,
    {
        match self {
            LogRead::Flush(bytes, _) => bytes,
            LogRead::Zeroed(_) => Vec::new(),
            LogRead::Corrupted(_) => Vec::new(),
        }
    }
}

} // verus!
