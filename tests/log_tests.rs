use logcore::iobuf::{IoBufs, ReserveError};
use logcore::lss::Lss;
use logcore::codec::{decode_at, encode, read_le32, FLAG_FLUSHED, FLAG_ZEROED};
use logcore::log::{iter_step, Config, Log, LogError, Reservation, Step};
use logcore::mem::MemLog;
use logcore::record::LogRead;
use logcore::HEADER_LEN;

fn small_log() -> MemLog {
    MemLog::new(Config { max_record_size: 64, flush_every_ms: 200 })
}

fn payload_of(r: Result<LogRead, LogError>) -> Option<Vec<u8>> {
    r.expect("reads from memory succeed").flush()
}

fn collect_from(log: &MemLog, id: u64) -> Vec<(u64, Vec<u8>)> {
    let mut it = log.iter_from(id);
    let mut out = Vec::new();
    while let Some(e) = it.next() {
        out.push(e);
    }
    out
}

#[test]
fn two_small_writes_scenario() {
    let mut log = small_log();
    assert_eq!(log.write(b"a".to_vec()), 0);
    assert_eq!(log.write(b"bb".to_vec()), 6);
    match log.read(0).unwrap() {
        LogRead::Flush(p, n) => {
            assert_eq!(p, b"a".to_vec());
            assert_eq!(n, 1);
        }
        other => panic!("unexpected {:?}", other),
    }
    match log.read(6).unwrap() {
        LogRead::Flush(p, n) => {
            assert_eq!(p, b"bb".to_vec());
            assert_eq!(n, 2);
        }
        other => panic!("unexpected {:?}", other),
    }
    assert_eq!(collect_from(&log, 0), vec![(0, b"a".to_vec()), (6, b"bb".to_vec())]);
}

#[test]
fn round_trip_empty_and_max_size() {
    let mut log = small_log();
    let id0 = log.write(Vec::new());
    let big = vec![7u8; 64];
    let id1 = log.write(big.clone());
    assert_eq!(id0, 0);
    assert_eq!(id1, HEADER_LEN as u64);
    match log.read(id0).unwrap() {
        LogRead::Flush(p, n) => {
            assert!(p.is_empty());
            assert_eq!(n, 0);
        }
        other => panic!("unexpected {:?}", other),
    }
    assert_eq!(payload_of(log.read(id1)), Some(big));
    assert_eq!(log.tip(), (2 * HEADER_LEN + 64) as u64);
}

#[test]
fn abort_reads_zeroed() {
    let mut log = small_log();
    let res = log.reserve(b"xyz".to_vec());
    let id = res.id();
    log.abort(res);
    let r = log.read(id).unwrap();
    assert!(r.is_zeroed());
    assert!(!r.is_flush());
    assert!(!r.is_corrupt());
    match r {
        LogRead::Zeroed(n) => assert_eq!(n, HEADER_LEN + 3),
        other => panic!("unexpected {:?}", other),
    }
}

#[test]
fn iterator_skips_aborted_gap() {
    let mut log = small_log();
    let a = log.write(b"first".to_vec());
    let res = log.reserve(b"gone".to_vec());
    log.abort(res);
    let b = log.write(b"second".to_vec());
    assert_eq!(a, 0);
    assert_eq!(b, 19);
    assert_eq!(collect_from(&log, 0), vec![(0, b"first".to_vec()), (19, b"second".to_vec())]);
    assert_eq!(collect_from(&log, b), vec![(19, b"second".to_vec())]);
}

#[test]
fn iterator_on_empty_log_ends() {
    let log = small_log();
    assert!(collect_from(&log, 0).is_empty());
    let mut it = log.iter_from(0);
    assert!(it.next().is_none());
    assert!(it.next().is_none());
}

#[test]
fn reservations_complete_out_of_order() {
    let mut log = small_log();
    let r1 = log.reserve(b"one".to_vec());
    let r2 = log.reserve(b"two!".to_vec());
    assert_eq!(r1.id(), 0);
    assert_eq!(r2.id(), 8);
    // an unresolved reservation reads as a zeroed slot
    assert!(log.read(0).unwrap().is_zeroed());
    assert_eq!(log.complete(r2), 8);
    assert_eq!(log.complete(r1), 0);
    assert_eq!(collect_from(&log, 0), vec![(0, b"one".to_vec()), (8, b"two!".to_vec())]);
}

#[test]
fn stable_offset_waits_for_reservations() {
    let mut log = small_log();
    log.write(b"abc".to_vec());
    assert_eq!(log.stable_offset(), 0);
    let res = log.reserve(b"pending".to_vec());
    log.write(b"z".to_vec());
    assert!(log.make_stable(100).is_ok());
    assert_eq!(log.stable_offset(), 8);
    log.abort(res);
    assert!(log.make_stable(10).is_ok());
    assert_eq!(log.stable_offset(), 10);
    assert!(log.make_stable(3).is_ok());
    assert_eq!(log.stable_offset(), 10);
    let tip = log.tip();
    assert!(log.make_stable(tip).is_ok());
    assert_eq!(log.stable_offset(), tip);
    assert_eq!(tip, 26);
}

#[test]
fn punch_hole_reads_zeroed_and_is_idempotent() {
    let mut log = small_log();
    let id = log.write(b"dead".to_vec());
    let next = log.write(b"live".to_vec());
    assert_eq!(log.punch_hole(id), Ok(()));
    match log.read(id).unwrap() {
        LogRead::Zeroed(n) => assert_eq!(n, HEADER_LEN),
        other => panic!("unexpected {:?}", other),
    }
    assert_eq!(log.punch_hole(id), Ok(()));
    assert!(log.read(id).unwrap().is_zeroed());
    assert_eq!(payload_of(log.read(next)), Some(b"live".to_vec()));
}

#[test]
fn punch_hole_past_end_fails() {
    let mut log = small_log();
    log.write(b"x".to_vec());
    assert_eq!(log.punch_hole(3), Err(LogError::UnexpectedEof));
    assert_eq!(log.punch_hole(1000), Err(LogError::UnexpectedEof));
    assert_eq!(payload_of(log.read(0)), Some(b"x".to_vec()));
}

#[test]
fn encode_layout_is_exact() {
    let bytes = encode(&b"hi".to_vec());
    assert_eq!(bytes, vec![FLAG_FLUSHED, 2, 0, 0, 0, b'h', b'i']);
    let long = vec![0u8; 300];
    let framed = encode(&long);
    assert_eq!(&framed[..5], &[FLAG_FLUSHED, 44, 1, 0, 0]);
    assert_eq!(read_le32(&framed, 1), 300);
}

#[test]
fn truncated_record_reads_corrupted() {
    let framed = encode(&b"payload".to_vec());
    for cut in 0..framed.len() {
        let r = decode_at(&framed[..cut], 0);
        assert!(r.is_corrupt(), "cut at {}", cut);
        assert!(r.flush().is_none());
    }
    assert!(decode_at(&framed, 0).is_flush());
    match decode_at(&framed[..8], 0) {
        LogRead::Corrupted(n) => assert_eq!(n, HEADER_LEN + 7),
        other => panic!("unexpected {:?}", other),
    }
}

#[test]
fn unknown_flag_reads_corrupted_with_header_skip() {
    let bytes = vec![9u8, 1, 0, 0, 0, 0];
    match decode_at(&bytes, 0) {
        LogRead::Corrupted(n) => assert_eq!(n, HEADER_LEN),
        other => panic!("unexpected {:?}", other),
    }
    let zeroed = vec![FLAG_ZEROED, 3, 0, 0, 0, 0, 0, 0];
    match decode_at(&zeroed, 0) {
        LogRead::Zeroed(n) => assert_eq!(n, 8),
        other => panic!("unexpected {:?}", other),
    }
}

#[test]
fn log_read_accessors() {
    let f = LogRead::Flush(vec![1, 2], 2);
    assert!(f.is_flush() && !f.is_zeroed() && !f.is_corrupt());
    assert_eq!(f.flush(), Some(vec![1, 2]));
    assert_eq!(f.unwrap(), vec![1, 2]);
    let z = LogRead::Zeroed(5);
    assert!(z.is_zeroed() && z.flush().is_none());
    let c = LogRead::Corrupted(5);
    assert!(c.is_corrupt() && c.flush().is_none());
}

#[test]
fn config_is_kept() {
    let log = small_log();
    assert_eq!(log.config().max_record_size, 64);
    assert_eq!(log.config().flush_every_ms, 200);
}

#[test]
fn iobufs_reserve_and_roll() {
    let mut bufs = IoBufs::new(16, 2);
    assert_eq!(bufs.reserve(20), Err(ReserveError::TooLarge));
    assert_eq!(bufs.reserve(3), Ok(0));
    assert_eq!(bufs.reserve(3), Ok(8));
    // 16 bytes used: the next claim opens a second buffer
    assert_eq!(bufs.reserve(1), Ok(16));
    assert_eq!(bufs.tip(), 22);
    // two slots in use and the open one is too small
    assert_eq!(bufs.reserve(11), Err(ReserveError::Full));
    assert_eq!(bufs.tip(), 22);
    assert_eq!(bufs.stable_offset(), 0);
}

#[test]
fn iobufs_publish_in_order() {
    let mut bufs = IoBufs::new(16, 4);
    assert_eq!(bufs.reserve(3), Ok(0));
    assert_eq!(bufs.reserve(8), Ok(8));
    assert_eq!(bufs.reserve(8), Ok(21));
    // the first buffer is sealed but has outstanding reservations
    assert_eq!(bufs.next_write(), None);
    assert!(bufs.resolve(8));
    assert!(bufs.resolve(0));
    assert!(!bufs.resolve(0));
    assert_eq!(bufs.next_write(), Some((0, 8)));
    // the last buffer's record resolves, then the buffer is sealed
    assert!(!bufs.resolve(8 + 5));
    assert!(bufs.resolve(21));
    bufs.seal();
    assert_eq!(bufs.next_write(), Some((8, 13)));
    assert_eq!(bufs.next_write(), Some((21, 13)));
    assert_eq!(bufs.next_write(), None);
    // a later buffer finishing first does not move the stable offset
    assert!(bufs.write_done(21));
    assert_eq!(bufs.stable_offset(), 0);
    assert!(bufs.write_done(0));
    assert_eq!(bufs.stable_offset(), 8);
    assert!(!bufs.write_done(0));
    assert!(bufs.write_done(8));
    assert_eq!(bufs.stable_offset(), 34);
    assert_eq!(bufs.tip(), 34);
}

#[test]
fn store_stages_and_publishes() {
    let cfg = Config { max_record_size: 64, flush_every_ms: 100 };
    let mut lss = Lss::new(cfg, 16, 4);
    let a = lss.reserve(b"abc".to_vec()).unwrap();
    assert_eq!(a.id(), 0);
    assert!(matches!(lss.reserve(vec![0u8; 20]), Err(ReserveError::TooLarge)));
    let b = lss.reserve(b"defgh".to_vec()).unwrap();
    assert_eq!(b.id(), 8);
    assert_eq!(lss.complete(a), 0);
    // the first buffer is sealed and resolved: it can be written
    let (start, bytes) = lss.next_write().unwrap();
    assert_eq!(start, 0);
    assert_eq!(bytes, vec![FLAG_FLUSHED, 3, 0, 0, 0, b'a', b'b', b'c']);
    assert!(lss.next_write().is_none());
    lss.abort(b);
    lss.seal();
    let (start2, bytes2) = lss.next_write().unwrap();
    assert_eq!(start2, 8);
    assert_eq!(bytes2, vec![FLAG_ZEROED, 5, 0, 0, 0, 0, 0, 0, 0, 0]);
    assert!(lss.write_done(8));
    assert_eq!(lss.stable_offset(), 0);
    assert!(lss.write_done(0));
    assert_eq!(lss.stable_offset(), 18);
    assert_eq!(lss.tip(), 18);
    assert_eq!(lss.read(0).flush(), Some(b"abc".to_vec()));
    assert!(lss.read(8).is_zeroed());
}

#[test]
fn store_write_and_make_stable() {
    let cfg = Config { max_record_size: 64, flush_every_ms: 100 };
    let mut lss = Lss::new(cfg, 64, 2);
    assert_eq!(lss.write(b"a".to_vec()), Ok(0));
    assert_eq!(lss.write(b"bb".to_vec()), Ok(6));
    assert!(!lss.make_stable(0));
    assert!(lss.next_write().is_none());
    assert!(lss.make_stable(13));
    let (start, bytes) = lss.next_write().unwrap();
    assert_eq!(start, 0);
    assert_eq!(bytes, vec![FLAG_FLUSHED, 1, 0, 0, 0, b'a', FLAG_FLUSHED, 2, 0, 0, 0, b'b', b'b']);
    assert!(lss.write_done(0));
    assert_eq!(lss.stable_offset(), 13);
    assert!(!lss.make_stable(13));
    assert_eq!(lss.write(vec![0u8; 60]), Err(ReserveError::TooLarge));
}

#[test]
fn iter_step_moves() {
    assert_eq!(iter_step(6, &LogRead::Flush(b"bb".to_vec(), 2)), Step::Yield(13));
    assert_eq!(iter_step(6, &LogRead::Zeroed(8)), Step::Skip(14));
    assert_eq!(iter_step(6, &LogRead::Corrupted(5)), Step::Stop);
    assert_eq!(iter_step(u64::MAX - 3, &LogRead::Zeroed(8)), Step::Stop);
    assert_eq!(iter_step(u64::MAX - 6, &LogRead::Flush(vec![1, 2], 2)), Step::Stop);
}

#[test]
fn store_knows_outstanding_reservations() {
    let cfg = Config { max_record_size: 64, flush_every_ms: 100 };
    let mut lss = Lss::new(cfg, 64, 2);
    let a = lss.reserve(b"x".to_vec()).unwrap();
    assert!(lss.is_pending(&a));
    let forged = Reservation { id: a.id(), payload: b"xy".to_vec() };
    assert!(!lss.is_pending(&forged));
    lss.complete(a);
    assert!(!lss.is_pending(&forged));
    let again = Reservation { id: 0, payload: b"x".to_vec() };
    assert!(!lss.is_pending(&again));
}
