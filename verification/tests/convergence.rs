use sshx_protocol::{ClientUsers, Session, Sid, WsServer, WsUser};

fn users_payload(msg: &WsServer) -> Vec<(sshx_protocol::Uid, WsUser)> {
    match msg {
        WsServer::Users(list) => list.clone(),
        other => panic!("expected Users, got {:?}", other),
    }
}

fn diff_payload(msg: &WsServer) -> (sshx_protocol::Uid, Option<WsUser>) {
    match msg {
        WsServer::UserDiff(u, p) => (*u, p.clone()),
        other => panic!("expected UserDiff, got {:?}", other),
    }
}

#[test]
fn client_map_converges_with_server() {
    let mut s = Session::new();
    let (alice, _, _) = s.connect("alice".to_string());
    // A second client joins and initializes from the Users snapshot.
    let (bob, reply, _) = s.connect("bob".to_string());
    let snapshot = users_payload(&reply[1]);
    let mut client = ClientUsers::from_snapshot(&snapshot);
    // Every later UserDiff is applied in order.
    let mut all_diffs: Vec<(sshx_protocol::Uid, Option<WsUser>)> = Vec::new();
    for msg in s.set_name(alice, "alpha".to_string()) {
        all_diffs.push(diff_payload(&msg));
    }
    for msg in s.set_cursor(bob, Some((7, 8))) {
        all_diffs.push(diff_payload(&msg));
    }
    let (sid, _, _) = s.create();
    let (moved, _) = s.move_shell(alice, sid, None);
    for msg in moved {
        if let WsServer::UserDiff(u, p) = msg {
            all_diffs.push((u, p));
        }
    }
    for msg in s.disconnect(bob) {
        all_diffs.push(diff_payload(&msg));
    }
    for (u, p) in all_diffs {
        client.apply(u, p);
    }
    // The local map now equals the authoritative one.
    let a = client.get(alice).expect("alice present");
    assert_eq!(a.name, "alpha");
    assert_eq!(a.focus, Some(sid));
    assert!(client.get(bob).is_none());
}

#[test]
fn diff_order_for_one_user_is_last_write_wins() {
    let snapshot: Vec<(sshx_protocol::Uid, WsUser)> = Vec::new();
    let mut client = ClientUsers::from_snapshot(&snapshot);
    let uid = sshx_protocol::Uid(3);
    client.apply(uid, Some(WsUser::joined("first".to_string())));
    client.apply(uid, Some(WsUser::joined("second".to_string())));
    assert_eq!(client.get(uid).expect("present").name, "second");
    client.apply(uid, None);
    assert!(client.get(uid).is_none());
    // Removing an absent user is harmless.
    client.apply(uid, None);
    assert!(client.get(uid).is_none());
}

#[test]
fn duplicate_presence_copy_is_exact() {
    let u = WsUser {
        name: "n".to_string(),
        cursor: Some((1, -2)),
        focus: Some(Sid(4)),
    };
    let d = u.duplicate();
    assert_eq!(d, u);
}
