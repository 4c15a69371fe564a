use http_proxy::{valid_protocol, valid_version, HttpMethod, ProcessState, Proxy, ProxyResult};

const REQUEST: &[u8] = b"GET http://example.com/a/b HTTP/1.1\r\nHost: example.com\r\nConnection: keep-alive\r\n\r\n";
const REWRITTEN: &[u8] = b"GET /a/b HTTP/1.1\r\nHost: example.com\r\nConnection: close\r\n\r\n";

fn feed_in_chunks(input: &[u8], size: usize) -> Proxy {
    let mut p = Proxy::new(8192);
    for chunk in input.chunks(size) {
        let r = p.read(chunk);
        assert_ne!(r, ProxyResult::Close);
    }
    p
}

#[test]
fn rewrite_strips_absolute_uri_and_forces_close() {
    let mut p = Proxy::new(8192);
    assert_eq!(p.read(REQUEST), ProxyResult::Connect);
    assert_eq!(p.pending(), REWRITTEN);
    assert_eq!(p.host(), b"example.com");
    assert_eq!(p.phase(), ProcessState::Done);
    assert_eq!(p.method(), HttpMethod::Get);
}

#[test]
fn chunk_size_does_not_change_result() {
    let whole = feed_in_chunks(REQUEST, REQUEST.len());
    for size in 1..REQUEST.len() {
        let p = feed_in_chunks(REQUEST, size);
        assert_eq!(p.pending(), whole.pending());
        assert_eq!(p.phase(), whole.phase());
        assert_eq!(p.host(), whole.host());
    }
}

#[test]
fn results_follow_the_phases() {
    let mut p = Proxy::new(8192);
    assert_eq!(p.read(b"GE"), ProxyResult::Continue);
    assert_eq!(p.phase(), ProcessState::Method);
    assert_eq!(p.read(b"T http://h"), ProxyResult::Continue);
    assert_eq!(p.phase(), ProcessState::Host(11));
    assert_eq!(p.read(b"/x HTTP/1.0\r\n"), ProxyResult::Connect);
    assert_eq!(p.pending(), b"");
    assert_eq!(p.read(b"\r\n"), ProxyResult::ChangeChannelState);
    assert_eq!(p.pending(), b"GET /x HTTP/1.0\r\n\r\n");
}

#[test]
fn invalid_method_is_malformed() {
    let mut p = Proxy::new(8192);
    assert_eq!(p.read(b"FOO / HTTP/1.1\r\n\r\n"), ProxyResult::Close);
    assert_eq!(p.phase(), ProcessState::Malformed);
    assert_eq!(p.host(), b"");
}

#[test]
fn origin_form_target_is_malformed() {
    let mut p = Proxy::new(8192);
    assert_eq!(p.read(b"GET /a HTTP/1.1\r\n\r\n"), ProxyResult::Close);
    assert_eq!(p.phase(), ProcessState::Malformed);
}

#[test]
fn header_section_over_capacity_overflows() {
    let mut p = Proxy::new(64);
    assert_eq!(p.read(b"GET http://h/ HTTP/1.1\r\n"), ProxyResult::Connect);
    assert_eq!(p.read(&[b'a'; 30]), ProxyResult::Continue);
    assert_eq!(p.read(&[b'a'; 30]), ProxyResult::Close);
    assert_eq!(p.phase(), ProcessState::Overflow);
    assert_eq!(p.pending(), b"");
    assert_eq!(p.read(b"\r\n\r\n"), ProxyResult::Close);
    assert_eq!(p.phase(), ProcessState::Overflow);
}

#[test]
fn unsupported_version_is_malformed() {
    let mut p = Proxy::new(8192);
    assert_eq!(p.read(b"GET http://h/ HTTP/2.0\r\n\r\n"), ProxyResult::Close);
    assert_eq!(p.phase(), ProcessState::Malformed);
}

#[test]
fn empty_host_is_captured() {
    let mut p = Proxy::new(8192);
    assert_eq!(p.read(b"GET http:///a HTTP/1.1\r\n\r\n"), ProxyResult::Connect);
    assert_eq!(p.host(), b"");
    assert_eq!(p.pending(), b"GET /a HTTP/1.1\r\n\r\n");
}

#[test]
fn full_buffer_with_open_headers_overflows() {
    let mut p = Proxy::new(24);
    assert_eq!(p.read(b"GET http://h/ HTTP/1.1\r\n"), ProxyResult::Connect);
    assert_eq!(p.room(), 8);
    assert_eq!(p.read(b"X-A: bcd"), ProxyResult::Close);
    assert_eq!(p.phase(), ProcessState::Overflow);
}

#[test]
fn full_buffer_after_headers_is_kept() {
    let mut p = Proxy::new(22);
    assert_eq!(p.read(b"GET http://h/ HTTP/1."), ProxyResult::Connect);
    assert_eq!(p.read(b"1\r\n\r\nabcd"), ProxyResult::ChangeChannelState);
    assert_eq!(p.room(), 0);
    assert_eq!(p.pending(), b"GET / HTTP/1.1\r\n\r\nabcd");
    assert_eq!(p.phase(), ProcessState::Done);
}

#[test]
fn empty_read_changes_nothing() {
    let mut p = Proxy::new(8192);
    assert_eq!(p.read(b"GET http://h/"), ProxyResult::Connect);
    assert_eq!(p.read(b""), ProxyResult::Close);
    assert_eq!(p.phase(), ProcessState::Path(4));
    assert_eq!(p.host(), b"h");
}

#[test]
fn chunked_request_is_malformed() {
    let mut p = Proxy::new(8192);
    let req = b"POST http://h/ HTTP/1.1\r\nTransfer-Encoding:  Chunked\r\n\r\n";
    assert_eq!(p.read(req), ProxyResult::Close);
    assert_eq!(p.phase(), ProcessState::Malformed);
}

#[test]
fn other_transfer_encoding_passes() {
    let mut p = Proxy::new(8192);
    let req = b"GET http://h/ HTTP/1.1\r\nTransfer-Encoding: gzip\r\n\r\n";
    assert_eq!(p.read(req), ProxyResult::Connect);
    assert_eq!(p.phase(), ProcessState::Done);
}

#[test]
fn unreadable_content_length_is_kept_and_ignored() {
    let mut p = Proxy::new(8192);
    assert_eq!(p.read(b"POST http://h/ HTTP/1.1\r\nContent-Length: 1x\r\n\r\n"), ProxyResult::Connect);
    assert_eq!(p.content_length(), None);
    assert_eq!(p.phase(), ProcessState::Done);
    assert_eq!(p.pending(), b"POST / HTTP/1.1\r\nContent-Length: 1x\r\n\r\n");
    let mut q = Proxy::new(8192);
    let huge = b"POST http://h/ HTTP/1.1\r\nContent-Length: 99999999999999999999999\r\n\r\n";
    assert_eq!(q.read(huge), ProxyResult::Connect);
    assert_eq!(q.content_length(), None);
}

#[test]
fn post_body_waits_for_content_length() {
    let mut p = Proxy::new(8192);
    let head = b"POST http://h/p HTTP/1.1\r\ncontent-length: 5\r\n\r\n";
    assert_eq!(p.read(head), ProxyResult::Connect);
    assert_eq!(p.content_length(), Some(5));
    assert_eq!(p.phase(), ProcessState::Body(39));
    assert_eq!(p.read(b"abc"), ProxyResult::Continue);
    assert_eq!(p.phase(), ProcessState::Body(39));
    assert_eq!(p.write(41), ProxyResult::Continue);
    assert_eq!(p.pending(), b"c");
    assert_eq!(p.content_length(), Some(3));
    assert_eq!(p.read(b"de"), ProxyResult::Complete);
    assert_eq!(p.phase(), ProcessState::Done);
    assert_eq!(p.write(3), ProxyResult::ChangeChannelState);
}

#[test]
fn short_connection_header_grows() {
    let mut p = Proxy::new(8192);
    let req = b"HEAD http://h/ HTTP/1.1\r\nCONNECTION:x\r\n\r\n";
    assert_eq!(p.read(req), ProxyResult::Connect);
    assert_eq!(p.pending(), b"HEAD / HTTP/1.1\r\nConnection: close\r\n\r\n");
}

#[test]
fn response_is_not_rewritten() {
    let mut p = Proxy::new_response(8192);
    let resp = b"HTTP/1.1 200 OK\r\nConnection: keep-alive\r\nContent-Length: 2\r\n\r\nhi";
    assert_eq!(p.read(resp), ProxyResult::ChangeChannelState);
    assert_eq!(p.phase(), ProcessState::Done);
    assert_eq!(p.pending(), &resp[..]);
}

#[test]
fn response_without_length_streams() {
    let mut p = Proxy::new_response(8192);
    assert_eq!(p.read(b"HTTP/1.0 200 OK\r\n\r\nabc"), ProxyResult::ChangeChannelState);
    assert_eq!(p.phase(), ProcessState::Body(19));
    assert_eq!(p.write(22), ProxyResult::Continue);
    assert_eq!(p.read(b""), ProxyResult::Close);
}

#[test]
fn response_with_bad_status_is_malformed() {
    let mut p = Proxy::new_response(8192);
    assert_eq!(p.read(b"HTTX/1.1 200 OK\r\n"), ProxyResult::Close);
    assert_eq!(p.phase(), ProcessState::Malformed);
}

#[test]
fn method_prefixes() {
    assert_eq!(HttpMethod::valid(b""), None);
    assert_eq!(HttpMethod::valid(b"HE"), None);
    assert_eq!(HttpMethod::valid(b"GET "), Some(HttpMethod::Get));
    assert_eq!(HttpMethod::valid(b"HEAD /"), Some(HttpMethod::Head));
    assert_eq!(HttpMethod::valid(b"POST "), Some(HttpMethod::Post));
    assert_eq!(HttpMethod::valid(b"GETX"), Some(HttpMethod::Invalid));
    assert_eq!(HttpMethod::valid(b"get "), Some(HttpMethod::Invalid));
    assert_eq!(HttpMethod::valid(b"PUT "), Some(HttpMethod::Invalid));
}

#[test]
fn protocol_and_version_prefixes() {
    assert_eq!(valid_protocol(b"htt"), None);
    assert_eq!(valid_protocol(b"http://x"), Some(true));
    assert_eq!(valid_protocol(b"https://"), Some(false));
    assert_eq!(valid_version(b"HTTP/1."), None);
    assert_eq!(valid_version(b"HTTP/1.0\r\n"), Some(true));
    assert_eq!(valid_version(b"HTTP/1.1\r\nX"), Some(true));
    assert_eq!(valid_version(b"HTTP/1.2\r\n"), Some(false));
}
