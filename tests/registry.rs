use http_proxy::{ProxyResult, Registry, TokenGen, BUFFER_SIZE, MAX_CONNECTIONS_COUNT};

#[test]
fn admission_ceiling() {
    let mut reg = Registry::new();
    for t in 0..MAX_CONNECTIONS_COUNT {
        assert!(reg.accept(t + 10));
    }
    assert_eq!(reg.len(), MAX_CONNECTIONS_COUNT);
    assert!(!reg.accept(5000));
    assert_eq!(reg.len(), MAX_CONNECTIONS_COUNT);
    assert!(!reg.is_live(5000));
    assert!(reg.is_live(10));
    assert_eq!(reg.teardown(10), vec![10]);
    assert!(reg.accept(5000));
}

#[test]
fn handle_in_use_is_refused() {
    let mut reg = Registry::new();
    assert!(reg.accept(1));
    assert!(!reg.accept(1));
    assert!(reg.attach_origin(1, 2));
    assert!(!reg.accept(2));
    assert!(!reg.attach_origin(1, 3));
    assert_eq!(reg.len(), 1);
}

#[test]
fn origin_close_tears_down_both_sides() {
    let mut reg = Registry::new();
    assert!(reg.accept(1));
    let (r, gone) = reg.on_readable(1, b"GET http://o/ HTTP/1.1\r\n\r\n");
    assert_eq!(r, ProxyResult::Connect);
    assert!(gone.is_empty());
    assert_eq!(reg.host(1), b"o");
    assert!(reg.attach_origin(1, 2));
    assert_eq!(reg.peer(1), Some(2));
    assert_eq!(reg.peer(2), Some(1));
    assert_eq!(reg.pending(1), b"GET / HTTP/1.1\r\n\r\n");
    let (r, gone) = reg.on_readable(2, b"");
    assert_eq!(r, ProxyResult::Close);
    assert_eq!(gone, vec![1, 2]);
    assert!(!reg.is_live(1));
    assert!(!reg.is_live(2));
    assert_eq!(reg.len(), 0);
}

#[test]
fn malformed_request_tears_down_without_origin() {
    let mut reg = Registry::new();
    assert!(reg.accept(7));
    let (r, gone) = reg.on_readable(7, b"FOO / HTTP/1.1\r\n\r\n");
    assert_eq!(r, ProxyResult::Close);
    assert_eq!(gone, vec![7]);
    assert_eq!(reg.len(), 0);
}

#[test]
fn teardown_twice_is_harmless() {
    let mut reg = Registry::new();
    assert!(reg.accept(1));
    assert!(reg.attach_origin(1, 2));
    assert!(reg.accept(3));
    assert_eq!(reg.teardown(2), vec![1, 2]);
    assert_eq!(reg.teardown(2), Vec::<usize>::new());
    assert_eq!(reg.teardown(1), Vec::<usize>::new());
    assert_eq!(reg.len(), 1);
    assert!(reg.is_live(3));
}

#[test]
fn unknown_handle_is_closed() {
    let mut reg = Registry::new();
    let (r, gone) = reg.on_readable(9, b"x");
    assert_eq!(r, ProxyResult::Close);
    assert!(gone.is_empty());
    assert_eq!(reg.on_sent(9, 0), ProxyResult::Close);
}

#[test]
fn sent_bytes_leave_the_buffer() {
    let mut reg = Registry::new();
    assert!(reg.accept(1));
    reg.on_readable(1, b"GET http://o/z HTTP/1.1\r\n\r\n");
    assert!(reg.attach_origin(1, 2));
    assert_eq!(reg.on_sent(1, 4), ProxyResult::Continue);
    assert_eq!(reg.pending(1), b"/z HTTP/1.1\r\n\r\n");
    assert_eq!(reg.on_sent(1, 15), ProxyResult::ChangeChannelState);
    assert_eq!(reg.pending(1), b"");
}

#[test]
fn room_shrinks_as_bytes_arrive() {
    let mut reg = Registry::new();
    assert_eq!(reg.room(1), 0);
    assert!(reg.accept(1));
    assert_eq!(reg.room(1), BUFFER_SIZE);
    reg.on_readable(1, b"GET http://o");
    assert_eq!(reg.room(1), BUFFER_SIZE - 12);
    reg.on_readable(1, b"/ ");
    assert_eq!(reg.room(1), BUFFER_SIZE - 6);
}

#[test]
fn interest_follows_room_and_backlog() {
    let mut reg = Registry::new();
    assert_eq!(reg.interest(1), (false, false));
    assert!(reg.accept(1));
    assert_eq!(reg.interest(1), (true, false));
    reg.on_readable(1, b"GET http://o/ HTTP/1.1\r\n\r\n");
    assert!(reg.attach_origin(1, 2));
    assert_eq!(reg.interest(2), (true, true));
    assert_eq!(reg.interest(1), (true, false));
    reg.on_readable(2, b"HTTP/1.1 200 OK\r\n\r\nx");
    assert_eq!(reg.interest(1), (true, true));
}

#[test]
fn tokens_increase() {
    let mut g = TokenGen::new();
    assert!(g.can_issue());
    assert_eq!(g.next_token(), mio::Token(1));
    assert_eq!(g.next_token(), mio::Token(2));
}
