use sshx_protocol::WsWinsize;

#[test]
fn default_geometry_is_80_by_24_at_origin() {
    let w = WsWinsize::default();
    assert_eq!(w.x, 0);
    assert_eq!(w.y, 0);
    assert_eq!(w.rows, 24);
    assert_eq!(w.cols, 80);
}

#[test]
fn random_geometry_stays_in_bounds() {
    for _ in 0..500 {
        let w = WsWinsize::new_random();
        assert!(-50 <= w.x && w.x <= 50);
        assert!(-30 <= w.y && w.y <= 30);
        assert_eq!(w.rows, 24);
        assert_eq!(w.cols, 80);
    }
}

#[test]
fn random_geometry_varies() {
    let mut seen_distinct = false;
    let first = WsWinsize::new_random();
    for _ in 0..200 {
        let w = WsWinsize::new_random();
        if w.x != first.x || w.y != first.y {
            seen_distinct = true;
        }
    }
    assert!(seen_distinct);
}
