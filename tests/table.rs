use simple_webserver::connection::{Phase, ReadResult, Signal};
use simple_webserver::table::{Accepted, ConnectionTable};

fn sockets(t: &ConnectionTable<u32>) -> Vec<u32> {
    t.connections.iter().map(|c| c.socket).collect()
}

#[test]
fn admit_appends_reading_connections() {
    let mut t: ConnectionTable<u32> = ConnectionTable::new();
    assert!(t.admit_new(Accepted::Connection(7)));
    assert!(t.admit_new(Accepted::WouldBlock));
    assert!(t.admit_new(Accepted::Connection(8)));
    assert_eq!(t.len(), 2);
    assert_eq!(sockets(&t), vec![7, 8]);
    assert!(matches!(&t.connections[1].phase, Phase::Reading { buffer } if buffer.is_empty()));
}

#[test]
fn listener_error_is_reported() {
    let mut t: ConnectionTable<u32> = ConnectionTable::new();
    assert!(t.admit_new(Accepted::Connection(1)));
    assert!(!t.admit_new(Accepted::Failed));
    assert_eq!(sockets(&t), vec![1]);
}

#[test]
fn reap_positions_zero_two_four() {
    let mut t: ConnectionTable<u32> = ConnectionTable::new();
    for s in 0..6u32 {
        t.admit_new(Accepted::Connection(s));
    }
    // the untouched connections keep their progress
    let s = t.connections[3].phase.advance_read(ReadResult::Data(b"GET".to_vec()));
    assert_eq!(s, Signal::Progress);
    t.reap(&vec![0, 2, 4]);
    assert_eq!(sockets(&t), vec![1, 3, 5]);
    assert!(matches!(&t.connections[1].phase, Phase::Reading { buffer } if buffer == b"GET"));
}

#[test]
fn reap_nothing_and_everything() {
    let mut t: ConnectionTable<u32> = ConnectionTable::new();
    for s in 10..14u32 {
        t.admit_new(Accepted::Connection(s));
    }
    t.reap(&Vec::new());
    assert_eq!(sockets(&t), vec![10, 11, 12, 13]);
    t.reap(&vec![3]);
    assert_eq!(sockets(&t), vec![10, 11, 12]);
    t.reap(&vec![0, 1, 2]);
    assert_eq!(t.len(), 0);
}
