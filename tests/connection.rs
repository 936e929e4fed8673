use simple_webserver::connection::{
    settle, Ending, FlushResult, Outcome, Phase, ReadResult, Signal, Step, WriteResult,
    REQUEST_CAPACITY,
};
use simple_webserver::response::{response_bytes, RESPONSE_LEN};

const EXPECTED: &[u8] = b"HTTP/1.1 200 OK\r\nContent-Length: 12\nConnection: close\r\n\r\nHello world!";

fn buffer_of(p: &Phase) -> Vec<u8> {
    match p {
        Phase::Reading { buffer } => buffer.clone(),
        _ => panic!("not reading"),
    }
}

/// Writes the response in pieces of at most `piece` bytes, collecting what the
/// peer receives, until the phase reports anything but progress.
fn write_all(phase: &mut Phase, piece: usize, out: &mut Vec<u8>) -> Signal {
    let response = response_bytes();
    loop {
        let from = match phase.next_step() {
            Step::Write { from } => from,
            other => panic!("unexpected step {:?}", other),
        };
        let n = piece.min(response.len() - from);
        out.extend_from_slice(&response[from..from + n]);
        let s = phase.advance_write(WriteResult::Written(n));
        if s != Signal::Progress {
            return s;
        }
    }
}

#[test]
fn response_is_byte_exact() {
    let r = response_bytes();
    assert_eq!(r, EXPECTED.to_vec());
    assert_eq!(r.len(), RESPONSE_LEN);
    assert_eq!(&r[33..41], b"12\nConne");
}

#[test]
fn request_in_two_writes_then_response_then_close() {
    let request = b"GET / HTTP/1.1\r\n\r\n";
    assert_eq!(request.len(), 18);
    let mut phase = Phase::new();

    // first tick: 10 bytes arrive, then the socket would block
    let step = phase.next_step();
    assert_eq!(step, Step::Read { room: REQUEST_CAPACITY });
    let s = phase.advance_read(ReadResult::Data(request[..10].to_vec()));
    assert_eq!(s, Signal::Progress);
    assert_eq!(settle(step, s), Outcome::Again);
    let step = phase.next_step();
    assert_eq!(step, Step::Read { room: REQUEST_CAPACITY - 10 });
    let s = phase.advance_read(ReadResult::WouldBlock);
    assert_eq!(s, Signal::Continue);
    assert_eq!(settle(step, s), Outcome::Yield);
    assert_eq!(buffer_of(&phase), request[..10].to_vec());

    // second tick: the remaining 8 bytes complete the request
    let step = phase.next_step();
    let s = phase.advance_read(ReadResult::Data(request[10..].to_vec()));
    assert_eq!(s, Signal::PhaseComplete);
    assert_eq!(settle(step, s), Outcome::Again);
    assert!(matches!(phase, Phase::Writing { sent: 0 }));

    // the response goes out in the same tick
    let mut out = Vec::new();
    let step = phase.next_step();
    assert_eq!(step, Step::Write { from: 0 });
    let s = write_all(&mut phase, RESPONSE_LEN, &mut out);
    assert_eq!(s, Signal::PhaseComplete);
    assert_eq!(settle(step, s), Outcome::Again);
    assert_eq!(out, EXPECTED.to_vec());
    assert!(matches!(phase, Phase::Flushing));

    let step = phase.next_step();
    assert_eq!(step, Step::Flush);
    let s = phase.advance_flush(FlushResult::Flushed);
    assert_eq!(s, Signal::PhaseComplete);
    assert_eq!(settle(step, s), Outcome::Finished(Ending::Served));
}

#[test]
fn peer_closes_without_sending() {
    let mut phase = Phase::new();
    let step = phase.next_step();
    let s = phase.advance_read(ReadResult::Data(Vec::new()));
    assert_eq!(s, Signal::PeerClosed);
    assert_eq!(settle(step, s), Outcome::Finished(Ending::PeerClosed));
    assert!(buffer_of(&phase).is_empty());
}

#[test]
fn one_byte_at_a_time_completes_without_waiting() {
    let request = b"GET /index.html HTTP/1.1\r\nHost: x\r\n\r\n";
    let mut phase = Phase::new();
    for (i, b) in request.iter().enumerate() {
        let step = phase.next_step();
        let s = phase.advance_read(ReadResult::Data(vec![*b]));
        if i + 1 < request.len() {
            assert_eq!(s, Signal::Progress);
            assert_eq!(buffer_of(&phase), request[..i + 1].to_vec());
        } else {
            assert_eq!(s, Signal::PhaseComplete);
        }
        assert_eq!(settle(step, s), Outcome::Again);
    }
    let mut out = Vec::new();
    let mut signals = 0;
    loop {
        let step = phase.next_step();
        let s = write_all(&mut phase, 1, &mut out);
        signals += 1;
        assert_eq!(settle(step, s), Outcome::Again);
        if s == Signal::PhaseComplete {
            break;
        }
    }
    assert_eq!(signals, 1);
    assert_eq!(out, EXPECTED.to_vec());
    assert!(matches!(phase, Phase::Flushing));
}

#[test]
fn no_delimiter_keeps_reading_across_ticks() {
    let mut phase = Phase::new();
    let pieces: [&[u8]; 4] = [b"GET / HTTP/1.1\r\n", b"Host: a\r\n", b"\r", b"X\n\r"];
    let mut all = Vec::new();
    for piece in pieces.iter() {
        let s = phase.advance_read(ReadResult::Data(piece.to_vec()));
        assert_eq!(s, Signal::Progress);
        all.extend_from_slice(piece);
        let s = phase.advance_read(ReadResult::WouldBlock);
        assert_eq!(s, Signal::Continue);
        assert_eq!(buffer_of(&phase), all);
    }
    assert_eq!(phase.next_step(), Step::Read { room: REQUEST_CAPACITY - all.len() });
}

#[test]
fn completes_at_the_read_that_brings_the_delimiter() {
    let mut phase = Phase::new();
    assert_eq!(phase.advance_read(ReadResult::Data(b"GET / HTTP/1.1\r\n".to_vec())), Signal::Progress);
    assert_eq!(phase.advance_read(ReadResult::Data(b"\r".to_vec())), Signal::Progress);
    assert_eq!(phase.advance_read(ReadResult::Data(b"\n".to_vec())), Signal::PhaseComplete);
    assert!(matches!(phase, Phase::Writing { sent: 0 }));
}

#[test]
fn delimiter_needs_four_bytes() {
    let mut phase = Phase::new();
    assert_eq!(phase.advance_read(ReadResult::Data(b"\r\n\r".to_vec())), Signal::Progress);
    assert_eq!(phase.advance_read(ReadResult::Data(b"\n".to_vec())), Signal::PhaseComplete);
    let mut phase = Phase::new();
    assert_eq!(phase.advance_read(ReadResult::Data(b"\n\r\n".to_vec())), Signal::Progress);
}

#[test]
fn full_buffer_then_empty_read_is_peer_closed() {
    let mut phase = Phase::new();
    let s = phase.advance_read(ReadResult::Data(vec![b'a'; REQUEST_CAPACITY]));
    assert_eq!(s, Signal::Progress);
    let step = phase.next_step();
    assert_eq!(step, Step::Read { room: 0 });
    let s = phase.advance_read(ReadResult::Data(Vec::new()));
    assert_eq!(settle(step, s), Outcome::Finished(Ending::PeerClosed));
}

#[test]
fn read_error_is_fatal() {
    let mut phase = Phase::new();
    let step = phase.next_step();
    let s = phase.advance_read(ReadResult::Failed);
    assert_eq!(s, Signal::Fatal);
    assert_eq!(settle(step, s), Outcome::Finished(Ending::Failed));
}

#[test]
fn write_results() {
    let mut phase = Phase::Writing { sent: 0 };
    assert_eq!(phase.advance_write(WriteResult::Written(5)), Signal::Progress);
    assert!(matches!(phase, Phase::Writing { sent: 5 }));
    let step = phase.next_step();
    assert_eq!(step, Step::Write { from: 5 });
    let s = phase.advance_write(WriteResult::WouldBlock);
    assert_eq!(settle(step, s), Outcome::Yield);
    assert!(matches!(phase, Phase::Writing { sent: 5 }));
    let s = phase.advance_write(WriteResult::Written(0));
    assert_eq!(settle(step, s), Outcome::Finished(Ending::PeerClosed));
    let s = phase.advance_write(WriteResult::Failed);
    assert_eq!(settle(step, s), Outcome::Finished(Ending::Failed));
    assert_eq!(phase.advance_write(WriteResult::Written(RESPONSE_LEN - 5)), Signal::PhaseComplete);
    assert!(matches!(phase, Phase::Flushing));
}

#[test]
fn flush_results() {
    let mut phase = Phase::Flushing;
    let s = phase.advance_flush(FlushResult::WouldBlock);
    assert_eq!(settle(Step::Flush, s), Outcome::Yield);
    let s = phase.advance_flush(FlushResult::Failed);
    assert_eq!(settle(Step::Flush, s), Outcome::Finished(Ending::Failed));
    let s = phase.advance_flush(FlushResult::Flushed);
    assert_eq!(settle(Step::Flush, s), Outcome::Finished(Ending::Served));
    assert!(matches!(phase, Phase::Flushing));
}
