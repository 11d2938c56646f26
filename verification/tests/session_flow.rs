use sshx_protocol::{Session, Sid, TermAction, Uid, WsClient, WsServer};

#[test]
fn connect_sends_hello_then_snapshots() {
    let mut s = Session::new();
    let (uid, reply, broadcast) = s.connect("alice".to_string());
    assert_eq!(uid, Uid(1));
    assert_eq!(reply.len(), 3);
    assert_eq!(reply[0], WsServer::Hello(uid));
    match &reply[1] {
        WsServer::Users(list) => {
            assert_eq!(list.len(), 1);
            assert_eq!(list[0].0, uid);
            assert_eq!(list[0].1.name, "alice");
            assert_eq!(list[0].1.cursor, None);
            assert_eq!(list[0].1.focus, None);
        },
        other => panic!("expected Users, got {:?}", other),
    }
    match &reply[2] {
        WsServer::Shells(list) => assert!(list.is_empty()),
        other => panic!("expected Shells, got {:?}", other),
    }
    assert_eq!(broadcast.len(), 1);
    match &broadcast[0] {
        WsServer::UserDiff(u, Some(p)) => {
            assert_eq!(*u, uid);
            assert_eq!(p.name, "alice");
        },
        other => panic!("expected UserDiff join, got {:?}", other),
    }
}

#[test]
fn scenario_connect_create_subscribe() {
    let mut s = Session::new();
    // Six earlier clients came and went; the seventh connection gets uid 7.
    for _ in 0..6 {
        let (u, _, _) = s.connect("ghost".to_string());
        s.disconnect(u);
    }
    let (uid, reply, _) = s.connect("me".to_string());
    assert_eq!(reply[0], WsServer::Hello(Uid(7)));
    match &reply[1] {
        WsServer::Users(list) => {
            assert_eq!(list.len(), 1);
            assert_eq!(list[0].0, Uid(7));
            assert_eq!(list[0].1.cursor, None);
            assert_eq!(list[0].1.focus, None);
        },
        other => panic!("expected Users, got {:?}", other),
    }
    match &reply[2] {
        WsServer::Shells(list) => assert!(list.is_empty()),
        other => panic!("expected Shells, got {:?}", other),
    }
    // Create: the first shell of the session gets sid 1, randomized geometry.
    let out = s.handle(uid, WsClient::Create());
    assert!(matches!(out.action, Some(TermAction::Open(Sid(1)))));
    assert_eq!(out.broadcast.len(), 1);
    match &out.broadcast[0] {
        WsServer::Shells(list) => {
            assert_eq!(list.len(), 1);
            assert_eq!(list[0].0, Sid(1));
            let g = list[0].1;
            assert!(-50 <= g.x && g.x <= 50);
            assert!(-30 <= g.y && g.y <= 30);
            assert_eq!(g.rows, 24);
            assert_eq!(g.cols, 80);
        },
        other => panic!("expected Shells, got {:?}", other),
    }
    // Subscribe from index 0: no error, and nothing delivered yet.
    let out = s.handle(uid, WsClient::Subscribe(Sid(1), 0));
    assert!(out.reply.is_empty());
    assert_eq!(s.poll_chunks(uid, Sid(1)), None);
    // First output chunk arrives and is delivered from index 0.
    assert!(s.append_chunk(Sid(1), b"hello".to_vec()));
    match s.poll_chunks(uid, Sid(1)) {
        Some(WsServer::Chunks(sid, data)) => {
            assert_eq!(sid, Sid(1));
            assert_eq!(data, vec![b"hello".to_vec()]);
        },
        other => panic!("expected Chunks, got {:?}", other),
    }
}

#[test]
fn close_unknown_is_noop() {
    let mut s = Session::new();
    let (uid, _, _) = s.connect("alice".to_string());
    let (sid, _, _) = s.create();
    // Closing an id that was never allocated: no error, no Shells change.
    let out = s.handle(uid, WsClient::Close(Sid(99)));
    assert!(out.broadcast.is_empty());
    assert!(out.reply.is_empty());
    assert!(out.action.is_none());
    assert!(s.is_open(sid));
    // Closing twice: the second close is a no-op too.
    let first = s.close(sid);
    assert_eq!(first.len(), 1);
    let second = s.close(sid);
    assert!(second.is_empty());
    assert!(!s.is_open(sid));
}

#[test]
fn move_last_write_wins_and_focus_is_independent() {
    let mut s = Session::new();
    let (alice, _, _) = s.connect("alice".to_string());
    let (bob, _, _) = s.connect("bob".to_string());
    let (sid, _, _) = s.create();
    let mut g1 = sshx_protocol::WsWinsize::default();
    g1.x = 10;
    let mut g2 = sshx_protocol::WsWinsize::default();
    g2.x = -20;
    let out1 = s.handle(alice, WsClient::Move(sid, Some(g1)));
    let out2 = s.handle(bob, WsClient::Move(sid, Some(g2)));
    // The later arrival wins the geometry.
    match &out2.broadcast[0] {
        WsServer::Shells(list) => {
            assert_eq!(list.len(), 1);
            assert_eq!(list[0].1, g2);
        },
        other => panic!("expected Shells, got {:?}", other),
    }
    // Both movers' own focus was updated, winner or not.
    for (out, uid) in [(&out1, alice), (&out2, bob)] {
        match &out.broadcast[1] {
            WsServer::UserDiff(u, Some(p)) => {
                assert_eq!(*u, uid);
                assert_eq!(p.focus, Some(sid));
            },
            other => panic!("expected UserDiff, got {:?}", other),
        }
    }
}

#[test]
fn move_unknown_shell_is_an_error() {
    let mut s = Session::new();
    let (uid, _, _) = s.connect("alice".to_string());
    let out = s.handle(uid, WsClient::Move(Sid(42), None));
    assert!(out.broadcast.is_empty());
    assert_eq!(out.reply.len(), 1);
    assert!(matches!(out.reply[0], WsServer::Error(_)));
}

#[test]
fn set_focus_on_closed_shell_is_ignored() {
    let mut s = Session::new();
    let (uid, _, _) = s.connect("alice".to_string());
    let out = s.handle(uid, WsClient::SetFocus(Some(Sid(5))));
    assert!(out.broadcast.is_empty());
    assert!(out.reply.is_empty());
    // Clearing the focus is always valid.
    let out = s.handle(uid, WsClient::SetFocus(None));
    assert_eq!(out.broadcast.len(), 1);
}

#[test]
fn chat_is_stamped_with_current_name() {
    let mut s = Session::new();
    let (uid, _, _) = s.connect("placeholder".to_string());
    s.set_name(uid, "carol".to_string());
    let out = s.handle(uid, WsClient::Chat("hi all".to_string()));
    assert_eq!(out.broadcast.len(), 1);
    match &out.broadcast[0] {
        WsServer::Hear(u, name, text) => {
            assert_eq!(*u, uid);
            assert_eq!(name, "carol");
            assert_eq!(text, "hi all");
        },
        other => panic!("expected Hear, got {:?}", other),
    }
}

#[test]
fn data_forwards_bytes_verbatim_or_errors() {
    let mut s = Session::new();
    let (uid, _, _) = s.connect("alice".to_string());
    let (sid, _, _) = s.create();
    let out = s.handle(uid, WsClient::Data(sid, vec![0x1b, b'[', b'A']));
    match out.action {
        Some(TermAction::Write(sd, bytes)) => {
            assert_eq!(sd, sid);
            assert_eq!(bytes, vec![0x1b, b'[', b'A']);
        },
        other => panic!("expected Write action, got {:?}", other),
    }
    assert!(out.reply.is_empty());
    let out = s.handle(uid, WsClient::Data(Sid(77), vec![1]));
    assert!(out.action.is_none());
    assert!(matches!(out.reply[0], WsServer::Error(_)));
}

#[test]
fn set_cursor_keeps_latest_value() {
    let mut s = Session::new();
    let (uid, _, _) = s.connect("alice".to_string());
    let out = s.handle(uid, WsClient::SetCursor(Some((3, 4))));
    match &out.broadcast[0] {
        WsServer::UserDiff(_, Some(p)) => assert_eq!(p.cursor, Some((3, 4))),
        other => panic!("expected UserDiff, got {:?}", other),
    }
    let out = s.handle(uid, WsClient::SetCursor(None));
    match &out.broadcast[0] {
        WsServer::UserDiff(_, Some(p)) => assert_eq!(p.cursor, None),
        other => panic!("expected UserDiff, got {:?}", other),
    }
}

#[test]
fn set_name_for_unknown_user_is_noop() {
    let mut s = Session::new();
    let b = s.set_name(Uid(12), "nobody".to_string());
    assert!(b.is_empty());
    let b = s.set_cursor(Uid(12), Some((1, 1)));
    assert!(b.is_empty());
    let b = s.send_chat(Uid(12), "hello".to_string());
    assert!(b.is_empty());
}

#[test]
fn disconnect_unknown_user_is_noop() {
    let mut s = Session::new();
    let b = s.disconnect(Uid(5));
    assert!(b.is_empty());
    assert!(s.uid_capacity_left());
    assert!(s.sid_capacity_left());
}
