use sshx_protocol::{Session, Sid, Uid, WsServer};

fn chunks_of(msg: Option<WsServer>) -> Vec<Vec<u8>> {
    match msg {
        Some(WsServer::Chunks(_, data)) => data,
        other => panic!("expected Chunks, got {:?}", other),
    }
}

#[test]
fn delivery_is_gap_free_and_duplicate_free() {
    let mut s = Session::new();
    let (uid, _, _) = s.connect("alice".to_string());
    let (sid, _, _) = s.create();
    for i in 0..3u8 {
        assert!(s.append_chunk(sid, vec![i]));
    }
    s.subscribe(uid, sid, 0);
    let first = chunks_of(s.poll_chunks(uid, sid));
    assert_eq!(first, vec![vec![0u8], vec![1u8], vec![2u8]]);
    // Nothing new: nothing is delivered again.
    assert_eq!(s.poll_chunks(uid, sid), None);
    for i in 3..5u8 {
        assert!(s.append_chunk(sid, vec![i]));
    }
    // The next delivery continues exactly one past the previous last index.
    let second = chunks_of(s.poll_chunks(uid, sid));
    assert_eq!(second, vec![vec![3u8], vec![4u8]]);
    assert_eq!(s.poll_chunks(uid, sid), None);
}

#[test]
fn resubscribe_resets_to_new_start() {
    let mut s = Session::new();
    let (uid, _, _) = s.connect("alice".to_string());
    let (sid, _, _) = s.create();
    for i in 0..4u8 {
        assert!(s.append_chunk(sid, vec![i]));
    }
    s.subscribe(uid, sid, 2);
    let first = chunks_of(s.poll_chunks(uid, sid));
    assert_eq!(first, vec![vec![2u8], vec![3u8]]);
    // Reseek to the start: delivery restarts at index 0, nothing interleaved.
    s.subscribe(uid, sid, 0);
    let again = chunks_of(s.poll_chunks(uid, sid));
    assert_eq!(again, vec![vec![0u8], vec![1u8], vec![2u8], vec![3u8]]);
}

#[test]
fn subscribe_starting_beyond_end_waits() {
    let mut s = Session::new();
    let (uid, _, _) = s.connect("alice".to_string());
    let (sid, _, _) = s.create();
    s.subscribe(uid, sid, 2);
    assert!(s.append_chunk(sid, b"a".to_vec()));
    assert_eq!(s.poll_chunks(uid, sid), None);
    assert!(s.append_chunk(sid, b"b".to_vec()));
    assert!(s.append_chunk(sid, b"c".to_vec()));
    let got = chunks_of(s.poll_chunks(uid, sid));
    assert_eq!(got, vec![b"c".to_vec()]);
}

#[test]
fn subscribe_unknown_shell_is_an_error() {
    let mut s = Session::new();
    let (uid, _, _) = s.connect("alice".to_string());
    let reply = s.subscribe(uid, Sid(9), 0);
    assert_eq!(reply.len(), 1);
    assert!(matches!(reply[0], WsServer::Error(_)));
}

#[test]
fn closed_shell_yields_no_more_chunks() {
    let mut s = Session::new();
    let (uid, _, _) = s.connect("alice".to_string());
    let (sid, _, _) = s.create();
    assert!(s.append_chunk(sid, b"x".to_vec()));
    s.subscribe(uid, sid, 0);
    s.close(sid);
    assert_eq!(s.poll_chunks(uid, sid), None);
    // Output for a closed shell is dropped.
    assert!(!s.append_chunk(sid, b"y".to_vec()));
}

#[test]
fn disconnect_cancels_subscriptions() {
    let mut s = Session::new();
    let (uid, _, _) = s.connect("alice".to_string());
    let (other, _, _) = s.connect("bob".to_string());
    let (sid, _, _) = s.create();
    s.subscribe(uid, sid, 0);
    s.subscribe(other, sid, 0);
    assert!(s.append_chunk(sid, b"x".to_vec()));
    let b = s.disconnect(uid);
    assert_eq!(b.len(), 1);
    assert_eq!(b[0], WsServer::UserDiff(Uid(1), None));
    assert_eq!(s.poll_chunks(uid, sid), None);
    // The other client's subscription is untouched.
    let got = chunks_of(s.poll_chunks(other, sid));
    assert_eq!(got, vec![b"x".to_vec()]);
}
