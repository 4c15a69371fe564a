use crate::lemmas::{lemma_append_measure, lemma_feed_props, lemma_fix_stable, lemma_step_wf};
use crate::model::{
    append, chunked_lit, close_line, connection_name, content_length_name, feed, fix, initial,
    is_terminal, malformed, measure, method_of, overflows, scheme_lit, status_lit, step, transfer_encoding_name,
    version10_lit, version11_lit, version_match, wf, HttpMethod, ProcessState, ProxyState, ProxyView,
    MAX_CAPACITY,
};
use crate::scan::{
    match_literal, parse_decimal, prefix_match, scan_byte, scan_crlf, skip_spaces, starts_with_name,
};
use vstd::prelude::*;
use vstd::slice::slice_subrange;

verus! {

/// What the caller should do after handing bytes to a parser.
#[derive(PartialEq, Eq, Structural, Clone, Copy, Debug)]
pub enum ProxyResult {
    /// Keep reading.
    Continue,
    /// The target host became known: open the origin connection.
    Connect,
    /// The header section is complete: start forwarding.
    ChangeChannelState,
    /// The whole message, body included, has arrived.
    Complete,
    /// The message is malformed, overflowed the buffer, or the peer closed.
    Close,
}

/// The target host is known (request direction, absolute URI consumed).
pub open spec fn host_known(v: ProxyView) -> bool {
    v.direction == ProxyState::Request && (v.phase is Path || v.phase is Version || v.phase is Headers
        || v.phase is Body || v.phase is Done)
}

/// The header section has been read completely.
pub open spec fn headers_done(v: ProxyView) -> bool {
    v.phase is Body || v.phase is Done
}

/// The result of a read of `n` bytes that took the parser from `a` to `b`.
pub open spec fn read_result(a: ProxyView, b: ProxyView, n: nat) -> ProxyResult {
    if n == 0 || is_terminal(b.phase) {
        ProxyResult::Close
    } else if !host_known(a) && host_known(b) {
        ProxyResult::Connect
    } else if !headers_done(a) && headers_done(b) {
        ProxyResult::ChangeChannelState
    } else if !(a.phase is Done) && b.phase is Done {
        ProxyResult::Complete
    } else {
        ProxyResult::Continue
    }
}

/// Drops the first `n` buffered bytes, which have been forwarded, keeping
/// the body bookkeeping in step.
pub open spec fn drain(v: ProxyView, n: nat) -> ProxyView {
    match v.phase {
        ProcessState::Body(s) => if n <= s {
            ProxyView { buf: v.buf.skip(n as int), phase: ProcessState::Body((s - n) as usize), ..v }
        } else {
            ProxyView {
                buf: v.buf.skip(n as int),
                phase: ProcessState::Body(0),
                content_length: match v.content_length {
                    Some(cl) => Some(
                        if cl >= n - s {
                            (cl - (n - s)) as usize
                        } else {
                            0usize
                        },
                    ),
                    None => None,
                },
                ..v
            }
        },
        _ => ProxyView { buf: v.buf.skip(n as int), ..v },
    }
}

/// `r` tells whether the parser took `step` from `a`, and `b` is where it went.
pub open spec fn stepped(a: ProxyView, b: ProxyView, r: bool) -> bool {
    match step(a) {
        Some(w) => r && b == w,
        None => !r && b == a,
    }
}

fn bytes_of(lit: &[u8]) -> (r: Vec<u8>)
    ensures
        r@ == lit@,
{
    let mut r: Vec<u8> = Vec::new();
    let mut i: usize = 0;
    while i < lit.len()
        invariant
            i <= lit@.len(),
            r@ == lit@.take(i as int),
        decreases lit@.len() - i,
    {
        r.push(lit[i]);
        i = i + 1;
        proof {
            assert(r@ =~= lit@.take(i as int));
        }
    }
    proof {
        assert(lit@.take(i as int) =~= lit@);
    }
    r
}

fn scheme_bytes() -> (r: Vec<u8>)
    ensures
        r@ == scheme_lit(),
{
    let r = vec![104u8, 116, 116, 112, 58, 47, 47];
    proof {
        assert(r@ =~= scheme_lit());
    }
    r
}

fn status_bytes() -> (r: Vec<u8>)
    ensures
        r@ == status_lit(),
{
    let r = vec![72u8, 84, 84, 80, 47, 49, 46];
    proof {
        assert(r@ =~= status_lit());
    }
    r
}

fn version_bytes(minor: u8) -> (r: Vec<u8>)
    requires
        minor == 48 || minor == 49,
    ensures
        minor == 48 ==> r@ == version10_lit(),
        minor == 49 ==> r@ == version11_lit(),
{
    let r = vec![72u8, 84, 84, 80, 47, 49, 46, minor, 13, 10];
    proof {
        assert(minor == 48 ==> r@ =~= version10_lit());
        assert(minor == 49 ==> r@ =~= version11_lit());
    }
    r
}

fn close_line_bytes() -> (r: Vec<u8>)
    ensures
        r@ == close_line(),
{
    let r = vec![67u8, 111, 110, 110, 101, 99, 116, 105, 111, 110, 58, 32, 99, 108, 111, 115, 101];
    proof {
        assert(r@ =~= close_line());
    }
    r
}

fn connection_bytes() -> (r: Vec<u8>)
    ensures
        r@ == connection_name(),
{
    let r = vec![99u8, 111, 110, 110, 101, 99, 116, 105, 111, 110, 58];
    proof {
        assert(r@ =~= connection_name());
    }
    r
}

fn content_length_bytes() -> (r: Vec<u8>)
    ensures
        r@ == content_length_name(),
{
    let r = vec![99u8, 111, 110, 116, 101, 110, 116, 45, 108, 101, 110, 103, 116, 104, 58];
    proof {
        assert(r@ =~= content_length_name());
    }
    r
}

fn transfer_encoding_bytes() -> (r: Vec<u8>)
    ensures
        r@ == transfer_encoding_name(),
{
    let r = vec![116u8, 114, 97, 110, 115, 102, 101, 114, 45, 101, 110, 99, 111, 100, 105, 110, 103, 58];
    proof {
        assert(r@ =~= transfer_encoding_name());
    }
    r
}

fn chunked_bytes() -> (r: Vec<u8>)
    ensures
        r@ == chunked_lit(),
{
    let r = vec![99u8, 104, 117, 110, 107, 101, 100];
    proof {
        assert(r@ =~= chunked_lit());
    }
    r
}

impl HttpMethod {
    /// The method's keyword followed by its space.
    fn keyword(&self) -> (r: Vec<u8>)
        ensures
            r@ == self.lit(),
    {
        let r = match self {
            HttpMethod::Get => vec![71u8, 69, 84, 32],
            HttpMethod::Head => vec![72u8, 69, 65, 68, 32],
            HttpMethod::Post => vec![80u8, 79, 83, 84, 32],
            HttpMethod::Invalid => Vec::new(),
        };
        proof {
            assert(r@ =~= self.lit());
        }
        r
    }

    /// `piece` starts with this method's keyword and its space.
    fn eq_method_with_whitespace(&self, piece: &[u8]) -> (r: bool)
        ensures
            r == (prefix_match(piece@, self.lit()) == Some(true)),
    {
        let kw = self.keyword();
        proof {
            assert(piece@.skip(0) =~= piece@);
        }
        match match_literal(piece, 0, kw.as_slice()) {
            Some(b) => b,
            None => false,
        }
    }

    /// `piece` is still a strict prefix of this method's keyword and space.
    fn eq_method(&self, piece: &[u8]) -> (r: bool)
        ensures
            r == (prefix_match(piece@, self.lit()) is None),
    {
        let kw = self.keyword();
        proof {
            assert(piece@.skip(0) =~= piece@);
        }
        match match_literal(piece, 0, kw.as_slice()) {
            Some(_) => false,
            None => true,
        }
    }

    /// The method that a request starts with: `None` while undecided.
    pub fn valid(piece: &[u8]) -> (r: Option<HttpMethod>)
        ensures
            r == method_of(piece@),
    {
        if HttpMethod::Get.eq_method_with_whitespace(piece) {
            Some(HttpMethod::Get)
        } else if HttpMethod::Head.eq_method_with_whitespace(piece) {
            Some(HttpMethod::Head)
        } else if HttpMethod::Post.eq_method_with_whitespace(piece) {
            Some(HttpMethod::Post)
        } else if HttpMethod::Get.eq_method(piece) || HttpMethod::Head.eq_method(piece)
            || HttpMethod::Post.eq_method(piece) {
            None
        } else {
            Some(HttpMethod::Invalid)
        }
    }
}

/// Whether `piece` starts with `http://`: `None` while it is a strict prefix.
pub fn valid_protocol(piece: &[u8]) -> (r: Option<bool>)
    ensures
        r == prefix_match(piece@, scheme_lit()),
{
    let lit = scheme_bytes();
    proof {
        assert(piece@.skip(0) =~= piece@);
    }
    match_literal(piece, 0, lit.as_slice())
}

/// Whether `piece` starts with `HTTP/1.0\r\n` or `HTTP/1.1\r\n`: `None`
/// while it is a strict prefix of one of them.
pub fn valid_version(piece: &[u8]) -> (r: Option<bool>)
    ensures
        r == version_match(piece@),
{
    let v10 = version_bytes(48);
    let v11 = version_bytes(49);
    proof {
        assert(piece@.skip(0) =~= piece@);
    }
    let a = match_literal(piece, 0, v10.as_slice());
    let b = match_literal(piece, 0, v11.as_slice());
    match (a, b) {
        (Some(true), _) => Some(true),
        (_, Some(true)) => Some(true),
        (None, _) => None,
        (_, None) => None,
        _ => Some(false),
    }
}

/// Moves `buf[src..]` down to `dst`, a copy that is safe although the two
/// ranges overlap, and shortens the buffer by `src - dst`.
fn shift_left(buf: &mut Vec<u8>, dst: usize, src: usize)
    requires
        dst <= src <= old(buf)@.len(),
    ensures
        final(buf)@ == old(buf)@.take(dst as int) + old(buf)@.skip(src as int),
{
    let ghost target = old(buf)@.take(dst as int) + old(buf)@.skip(src as int);
    let len = buf.len();
    let mut j: usize = 0;
    while j < len - src
        invariant
            buf@.len() == len == old(buf)@.len(),
            dst <= src <= len,
            j <= len - src,
            target == old(buf)@.take(dst as int) + old(buf)@.skip(src as int),
            forall|t: int| 0 <= t < dst + j ==> buf@[t] == target[t],
            forall|t: int| src + j <= t < len ==> buf@[t] == old(buf)@[t],
        decreases len - src - j,
    {
        let b = buf[src + j];
        buf.set(dst + j, b);
        j = j + 1;
    }
    buf.truncate(dst + (len - src));
    proof {
        assert(buf@ =~= target);
    }
}

/// Opens a gap of `g` bytes at `at`, moving `buf[at..]` up from its end
/// backwards, which is safe although source and destination overlap.
fn shift_right(buf: &mut Vec<u8>, at: usize, g: usize)
    requires
        at <= old(buf)@.len(),
        old(buf)@.len() + g <= usize::MAX,
    ensures
        final(buf)@.len() == old(buf)@.len() + g,
        final(buf)@.take(at as int) == old(buf)@.take(at as int),
        final(buf)@.skip(at + g) == old(buf)@.skip(at as int),
{
    let len = buf.len();
    let mut k: usize = 0;
    while k < g
        invariant
            k <= g,
            len + g <= usize::MAX,
            len == old(buf)@.len(),
            buf@.len() == len + k,
            forall|t: int| 0 <= t < len ==> buf@[t] == old(buf)@[t],
        decreases g - k,
    {
        buf.push(0u8);
        k = k + 1;
    }
    let mut j = len;
    while j > at
        invariant
            at <= j <= len,
            len + g <= usize::MAX,
            len == old(buf)@.len(),
            buf@.len() == len + g,
            forall|t: int| 0 <= t < j ==> buf@[t] == old(buf)@[t],
            forall|t: int| j <= t < len ==> buf@[t + g] == old(buf)@[t],
        decreases j,
    {
        j = j - 1;
        let b = buf[j];
        buf.set(j + g, b);
    }
    proof {
        assert(buf@.take(at as int) =~= old(buf)@.take(at as int));
        assert forall|t: int| 0 <= t < buf@.skip(at + g).len() implies buf@.skip(at + g)[t]
            == old(buf)@.skip(at as int)[t] by {
            assert(buf@[at + g + t] == old(buf)@[at + t]);
        }
        assert(buf@.skip(at + g) =~= old(buf)@.skip(at as int));
    }
}

/// Overwrites `buf[from..from + lit.len()]` with `lit`.
fn write_at(buf: &mut Vec<u8>, from: usize, lit: &[u8])
    requires
        from + lit@.len() <= old(buf)@.len(),
    ensures
        final(buf)@ == old(buf)@.take(from as int) + lit@ + old(buf)@.skip(from + lit@.len()),
{
    let n = buf.len();
    let mut i: usize = 0;
    while i < lit.len()
        invariant
            i <= lit@.len(),
            n == old(buf)@.len(),
            from + lit@.len() <= old(buf)@.len(),
            buf@.len() == old(buf)@.len(),
            forall|t: int| 0 <= t < from ==> buf@[t] == old(buf)@[t],
            forall|t: int| from <= t < from + i ==> buf@[t] == lit@[t - from],
            forall|t: int| from + i <= t < buf@.len() ==> buf@[t] == old(buf)@[t],
        decreases lit@.len() - i,
    {
        buf.set(from + i, lit[i]);
        i = i + 1;
    }
    proof {
        assert(buf@ =~= old(buf)@.take(from as int) + lit@ + old(buf)@.skip(from + lit@.len()));
    }
}

/// Replaces `buf[from..to]` by `lit` in place, moving the rest of the
/// buffer down or up by the difference in length.
fn replace_range(buf: &mut Vec<u8>, from: usize, to: usize, lit: &[u8])
    requires
        from <= to <= old(buf)@.len(),
        old(buf)@.len() + lit@.len() <= usize::MAX,
    ensures
        final(buf)@ == old(buf)@.take(from as int) + lit@ + old(buf)@.skip(to as int),
{
    let ghost o = buf@;
    if lit.len() <= to - from {
        write_at(buf, from, lit);
        let ghost w = buf@;
        shift_left(buf, from + lit.len(), to);
        proof {
            assert(w.take(from + lit@.len()) =~= o.take(from as int) + lit@);
            assert(w.skip(to as int) =~= o.skip(to as int));
        }
    } else {
        let g = lit.len() - (to - from);
        shift_right(buf, to, g);
        let ghost w = buf@;
        write_at(buf, from, lit);
        proof {
            assert(w.take(from as int) =~= o.take(from as int)) by {
                assert(w.take(from as int) =~= w.take(to as int).take(from as int));
                assert(o.take(from as int) =~= o.take(to as int).take(from as int));
            }
            assert(from + lit@.len() == to + g);
        }
    }
}

/// An incremental parser of one HTTP message over a bounded buffer, which
/// rewrites a request into the form an origin server expects.
pub struct Proxy {
    buffer: Vec<u8>,
    capacity: usize,
    state: ProxyState,
    process_state: ProcessState,
    current_method: HttpMethod,
    host: Vec<u8>,
    content_length: Option<usize>,
}

impl View for Proxy {
    type V = ProxyView;

    closed spec fn view(&self) -> ProxyView {
        ProxyView {
            buf: self.buffer@,
            phase: self.process_state,
            method: self.current_method,
            host: self.host@,
            content_length: self.content_length,
            direction: self.state,
        }
    }
}

impl Proxy {
    /// The buffer's capacity in bytes.
    pub closed spec fn capacity(&self) -> nat {
        self.capacity as nat
    }

    /// The parser is well formed, waits for bytes, and its buffer fits.
    pub closed spec fn inv(&self) -> bool {
        &&& wf(self@)
        &&& step(self@) is None
        &&& self@.buf.len() <= self.capacity <= MAX_CAPACITY
        &&& !overflows(self@, self.capacity as nat)
    }

    fn with_direction(buf_size: usize, direction: ProxyState) -> (r: Proxy)
        requires
            buf_size <= MAX_CAPACITY,
        ensures
            r@ == initial(direction),
            r.capacity() == buf_size,
            r.inv(),
    {
        let r = Proxy {
            buffer: Vec::new(),
            capacity: buf_size,
            state: direction,
            process_state: match direction {
                ProxyState::Request => ProcessState::Method,
                ProxyState::Response => ProcessState::Status(0),
            },
            current_method: HttpMethod::Invalid,
            host: Vec::new(),
            content_length: None,
        };
        proof {
            assert(r@ =~= initial(direction));
            crate::lemmas::lemma_initial(direction, buf_size as nat);
        }
        r
    }

    /// A parser for a client's request, with a buffer of `buf_size` bytes.
    pub fn new(buf_size: usize) -> (r: Proxy)
        requires
            buf_size <= MAX_CAPACITY,
        ensures
            r@ == initial(ProxyState::Request),
            r.capacity() == buf_size,
            r.inv(),
            wf(r@),
    {
        Proxy::with_direction(buf_size, ProxyState::Request)
    }

    /// A parser for an origin's response, with a buffer of `buf_size` bytes.
    pub fn new_response(buf_size: usize) -> (r: Proxy)
        requires
            buf_size <= MAX_CAPACITY,
        ensures
            r@ == initial(ProxyState::Response),
            r.capacity() == buf_size,
            r.inv(),
            wf(r@),
    {
        Proxy::with_direction(buf_size, ProxyState::Response)
    }

    fn set_malformed(&mut self)
        ensures
            final(self)@ == malformed(old(self)@),
            final(self).capacity == old(self).capacity,
    {
        self.buffer = Vec::new();
        self.process_state = ProcessState::Malformed;
        proof {
            assert(self@ =~= malformed(old(self)@));
        }
    }

    fn process_method(&mut self) -> (r: bool)
        requires
            old(self)@.phase == ProcessState::Method,
        ensures
            stepped(old(self)@, final(self)@, r),
            final(self).capacity == old(self).capacity,
    {
        match HttpMethod::valid(self.buffer.as_slice()) {
            None => false,
            Some(m) => {
                match m {
                    HttpMethod::Invalid => {
                        self.set_malformed();
                    },
                    _ => {
                        let n = m.keyword().len();
                        self.current_method = m;
                        self.process_state = ProcessState::Protocol(n);
                    },
                }
                true
            },
        }
    }

    fn process_protocol(&mut self, start: usize) -> (r: bool)
        requires
            old(self)@.phase == ProcessState::Protocol(start),
            wf(old(self)@),
        ensures
            stepped(old(self)@, final(self)@, r),
            final(self).capacity == old(self).capacity,
    {
        let len = self.buffer.len();
        let piece = slice_subrange(self.buffer.as_slice(), start, len);
        proof {
            assert(piece@ =~= self.buffer@.skip(start as int));
        }
        match valid_protocol(piece) {
            None => false,
            Some(ok) => {
                if ok {
                    self.process_state = ProcessState::Host(start + 7);
                } else {
                    self.set_malformed();
                }
                true
            },
        }
    }

    fn process_host(&mut self, start: usize) -> (r: bool)
        requires
            old(self)@.phase == ProcessState::Host(start),
            wf(old(self)@),
        ensures
            stepped(old(self)@, final(self)@, r),
            final(self).capacity == old(self).capacity,
    {
        match scan_byte(self.buffer.as_slice(), start, 47u8) {
            None => false,
            Some(k) => {
                proof {
                    crate::scan::lemma_find_byte_range(self.buffer@, start as int, 47u8);
                }
                let host = bytes_of(slice_subrange(self.buffer.as_slice(), start, k));
                shift_left(&mut self.buffer, start - 7, k);
                self.host = host;
                self.process_state = ProcessState::Path(start - 7);
                proof {
                    assert(self@ =~= step(old(self)@)->0);
                }
                true
            },
        }
    }

    fn process_path(&mut self, start: usize) -> (r: bool)
        requires
            old(self)@.phase == ProcessState::Path(start),
            wf(old(self)@),
        ensures
            stepped(old(self)@, final(self)@, r),
            final(self).capacity == old(self).capacity,
    {
        match scan_byte(self.buffer.as_slice(), start, 32u8) {
            None => false,
            Some(k) => {
                proof {
                    crate::scan::lemma_find_byte_range(self.buffer@, start as int, 32u8);
                }
                self.process_state = ProcessState::Version(k + 1);
                true
            },
        }
    }

    fn process_version(&mut self, start: usize) -> (r: bool)
        requires
            old(self)@.phase == ProcessState::Version(start),
            wf(old(self)@),
        ensures
            stepped(old(self)@, final(self)@, r),
            final(self).capacity == old(self).capacity,
    {
        let len = self.buffer.len();
        let piece = slice_subrange(self.buffer.as_slice(), start, len);
        proof {
            assert(piece@ =~= self.buffer@.skip(start as int));
        }
        match valid_version(piece) {
            None => false,
            Some(ok) => {
                if ok {
                    self.process_state = ProcessState::Headers(start + 10);
                } else {
                    self.set_malformed();
                }
                true
            },
        }
    }

    fn process_status(&mut self, start: usize) -> (r: bool)
        requires
            old(self)@.phase == ProcessState::Status(start),
            wf(old(self)@),
        ensures
            stepped(old(self)@, final(self)@, r),
            final(self).capacity == old(self).capacity,
    {
        let lit = status_bytes();
        match match_literal(self.buffer.as_slice(), start, lit.as_slice()) {
            None => false,
            Some(ok) => {
                if !ok {
                    self.set_malformed();
                    return true;
                }
                match scan_crlf(self.buffer.as_slice(), start) {
                    None => false,
                    Some(k) => {
                        proof {
                            crate::scan::lemma_find_crlf_range(self.buffer@, start as int);
                        }
                        self.process_state = ProcessState::Headers(k + 2);
                        true
                    },
                }
            },
        }
    }

    fn process_headers(&mut self, off: usize) -> (r: bool)
        requires
            old(self)@.phase == ProcessState::Headers(off),
            wf(old(self)@),
        ensures
            stepped(old(self)@, final(self)@, r),
            final(self).capacity == old(self).capacity,
    {
        let k = match scan_crlf(self.buffer.as_slice(), off) {
            None => {
                return false;
            },
            Some(k) => k,
        };
        proof {
            crate::scan::lemma_find_crlf_range(self.buffer@, off as int);
        }
        if k == off {
            self.process_state = ProcessState::Body(off + 2);
            return true;
        }
        let line = slice_subrange(self.buffer.as_slice(), off, k);
        let is_request = match self.state {
            ProxyState::Request => true,
            ProxyState::Response => false,
        };
        let connection = connection_bytes();
        let content_length = content_length_bytes();
        let transfer_encoding = transfer_encoding_bytes();
        if is_request && starts_with_name(line, connection.as_slice()) {
            let close = close_line_bytes();
            replace_range(&mut self.buffer, off, k, close.as_slice());
            self.process_state = ProcessState::Headers(off + 19);
            proof {
                assert(self@ =~= step(old(self)@)->0);
            }
        } else if starts_with_name(line, content_length.as_slice()) {
            let from = skip_spaces(line, 15);
            proof {
                crate::scan::lemma_skip_ws_range(line@, 15);
            }
            match parse_decimal(line, from) {
                Some(n) => {
                    self.content_length = Some(n);
                },
                None => {},
            }
            self.process_state = ProcessState::Headers(k + 2);
        } else if starts_with_name(line, transfer_encoding.as_slice()) {
            let from = skip_spaces(line, 18);
            proof {
                crate::scan::lemma_skip_ws_range(line@, 18);
            }
            let chunked = chunked_bytes();
            let value = slice_subrange(line, from, line.len());
            proof {
                assert(value@ =~= line@.skip(from as int));
            }
            if value.len() == 7 && starts_with_name(value, chunked.as_slice()) {
                self.set_malformed();
            } else {
                self.process_state = ProcessState::Headers(k + 2);
            }
        } else {
            self.process_state = ProcessState::Headers(k + 2);
        }
        true
    }

    fn process_body(&mut self, start: usize) -> (r: bool)
        requires
            old(self)@.phase == ProcessState::Body(start),
            wf(old(self)@),
        ensures
            stepped(old(self)@, final(self)@, r),
            final(self).capacity == old(self).capacity,
    {
        let expects = match (self.state, self.current_method) {
            (ProxyState::Response, _) => true,
            (_, HttpMethod::Post) => true,
            _ => false,
        };
        let complete = if !expects {
            true
        } else {
            match self.content_length {
                None => match self.state {
                    ProxyState::Request => true,
                    ProxyState::Response => false,
                },
                Some(cl) => self.buffer.len() - start >= cl,
            }
        };
        if complete {
            self.process_state = ProcessState::Done;
        }
        complete
    }

    /// Takes one step of the parser, if it can decide one.
    fn step_once(&mut self) -> (r: bool)
        requires
            wf(old(self)@),
        ensures
            stepped(old(self)@, final(self)@, r),
            final(self).capacity == old(self).capacity,
    {
        match self.process_state {
            ProcessState::Method => self.process_method(),
            ProcessState::Protocol(s) => self.process_protocol(s),
            ProcessState::Host(s) => self.process_host(s),
            ProcessState::Path(s) => self.process_path(s),
            ProcessState::Version(s) => self.process_version(s),
            ProcessState::Status(s) => self.process_status(s),
            ProcessState::Headers(s) => self.process_headers(s),
            ProcessState::Body(s) => self.process_body(s),
            _ => false,
        }
    }

    /// Parses as far as the buffered bytes allow.
    fn advance(&mut self)
        requires
            wf(old(self)@),
        ensures
            final(self)@ == fix(old(self)@),
            final(self).capacity == old(self).capacity,
    {
        loop
            invariant
                wf(self@),
                fix(self@) == fix(old(self)@),
                self.capacity == old(self).capacity,
            ensures
                self@ == fix(old(self)@),
                self.capacity == old(self).capacity,
            decreases measure(self@),
        {
            let ghost before = self@;
            if !self.step_once() {
                proof {
                    assert(fix(self@) == self@);
                }
                break;
            }
            proof {
                lemma_step_wf(before);
            }
        }
    }

    /// Hands the parser the bytes of one read. An empty read means that the
    /// peer closed its side.
    pub fn read(&mut self, data: &[u8]) -> (r: ProxyResult)
        requires
            old(self).inv(),
            data@.len() <= old(self).capacity(),
        ensures
            final(self).inv(),
            final(self).capacity() == old(self).capacity(),
            final(self)@ == feed(old(self)@, data@, old(self).capacity()),
            r == read_result(old(self)@, final(self)@, data@.len()),
            wf(final(self)@),
            final(self)@.buf.len() <= final(self).capacity(),
            data@.len() == 0 ==> final(self)@ == old(self)@,
    {
        proof {
            lemma_feed_props(self@, data@, self.capacity as nat);
        }
        let terminal = match self.process_state {
            ProcessState::Malformed => true,
            ProcessState::Overflow => true,
            _ => false,
        };
        if terminal {
            return ProxyResult::Close;
        }
        let ghost start = self@;
        let had_host = self.host_is_known();
        let had_headers = self.headers_complete();
        let was_done = match self.process_state {
            ProcessState::Done => true,
            _ => false,
        };
        let mut i: usize = 0;
        while i < data.len()
            invariant
                i <= data@.len(),
                self@ == append(start, data@.take(i as int)),
                !is_terminal(start.phase),
                self.capacity == old(self).capacity,
            decreases data@.len() - i,
        {
            self.buffer.push(data[i]);
            i = i + 1;
            proof {
                assert(self.buffer@ =~= start.buf + data@.take(i as int));
                assert(self@ =~= append(start, data@.take(i as int)));
            }
        }
        proof {
            assert(data@.take(i as int) =~= data@);
            lemma_append_measure(start, data@);
        }
        self.advance();
        let open_headers = !self.headers_complete();
        let len = self.buffer.len();
        let overflow = match self.process_state {
            ProcessState::Malformed => false,
            ProcessState::Overflow => false,
            _ => len > self.capacity || (open_headers && 0 < self.capacity && self.capacity <= len),
        };
        if overflow {
            self.buffer = Vec::new();
            self.process_state = ProcessState::Overflow;
            proof {
                assert(self@ =~= feed(start, data@, self.capacity as nat));
            }
        }
        if data.len() == 0 {
            return ProxyResult::Close;
        }
        match self.process_state {
            ProcessState::Malformed => ProxyResult::Close,
            ProcessState::Overflow => ProxyResult::Close,
            _ => if !had_host && self.host_is_known() {
                ProxyResult::Connect
            } else if !had_headers && self.headers_complete() {
                ProxyResult::ChangeChannelState
            } else if !was_done && match self.process_state {
                ProcessState::Done => true,
                _ => false,
            } {
                ProxyResult::Complete
            } else {
                ProxyResult::Continue
            },
        }
    }

    /// Drops the first `n` bytes of `pending()`, which have been sent on.
    pub fn write(&mut self, n: usize) -> (r: ProxyResult)
        requires
            old(self).inv(),
            headers_done(old(self)@),
            n <= old(self)@.buf.len(),
        ensures
            final(self).inv(),
            final(self).capacity() == old(self).capacity(),
            final(self)@ == fix(drain(old(self)@, n as nat)),
            r == if final(self)@.buf.len() == 0 && final(self)@.phase is Done {
                ProxyResult::ChangeChannelState
            } else {
                ProxyResult::Continue
            },
    {
        let ghost start = self@;
        shift_left(&mut self.buffer, 0, n);
        proof {
            assert(self.buffer@ =~= start.buf.skip(n as int));
        }
        match self.process_state {
            ProcessState::Body(s) => {
                if n <= s {
                    self.process_state = ProcessState::Body(s - n);
                } else {
                    self.process_state = ProcessState::Body(0);
                    self.content_length = match self.content_length {
                        Some(cl) => Some(
                            if cl >= n - s {
                                cl - (n - s)
                            } else {
                                0
                            },
                        ),
                        None => None,
                    };
                }
            },
            _ => {},
        }
        proof {
            assert(self@ =~= drain(start, n as nat));
        }
        self.advance();
        proof {
            lemma_fix_stable(drain(start, n as nat));
        }
        if self.buffer.len() == 0 && match self.process_state {
            ProcessState::Done => true,
            _ => false,
        } {
            ProxyResult::ChangeChannelState
        } else {
            ProxyResult::Continue
        }
    }

    /// Whether the target host has been read.
    pub fn host_is_known(&self) -> (r: bool)
        ensures
            r == host_known(self@),
    {
        match self.state {
            ProxyState::Response => false,
            ProxyState::Request => match self.process_state {
                ProcessState::Path(_) => true,
                ProcessState::Version(_) => true,
                ProcessState::Headers(_) => true,
                ProcessState::Body(_) => true,
                ProcessState::Done => true,
                _ => false,
            },
        }
    }

    /// Whether the whole header section has been read.
    pub fn headers_complete(&self) -> (r: bool)
        ensures
            r == headers_done(self@),
    {
        match self.process_state {
            ProcessState::Body(_) => true,
            ProcessState::Done => true,
            _ => false,
        }
    }

    /// The host named by the request's absolute URI, once read.
    pub fn host(&self) -> (r: &[u8])
        ensures
            r@ == self@.host,
    {
        self.host.as_slice()
    }

    /// The bytes ready to be sent on: the (rewritten) buffer once the header
    /// section is complete, nothing before.
    pub fn pending(&self) -> (r: &[u8])
        ensures
            r@ == if headers_done(self@) {
                self@.buf
            } else {
                Seq::empty()
            },
    {
        if self.headers_complete() {
            self.buffer.as_slice()
        } else {
            slice_subrange(self.buffer.as_slice(), 0, 0)
        }
    }

    /// Free space left in the buffer: how much the next read may bring.
    pub fn room(&self) -> (r: usize)
        requires
            self.inv(),
        ensures
            r == self.capacity() - self@.buf.len(),
    {
        self.capacity - self.buffer.len()
    }

    /// The grammar step the parser is at.
    pub fn phase(&self) -> (r: ProcessState)
        ensures
            r == self@.phase,
    {
        self.process_state
    }

    /// The declared body length, once a `Content-Length` header was read.
    pub fn content_length(&self) -> (r: Option<usize>)
        ensures
            r == self@.content_length,
    {
        self.content_length
    }

    /// The request method, once read.
    pub fn method(&self) -> (r: HttpMethod)
        ensures
            r == self@.method,
    {
        self.current_method
    }
}

} // verus!
