use crate::scan::{all_digits, decimal, find_byte, find_crlf, has_name, prefix_match, skip_ws};
use vstd::prelude::*;

verus! {

/// The largest buffer a parser may be given: what keeps every offset and
/// `measure` within a `usize` while a read of up to a buffer's worth is parsed.
pub const MAX_CAPACITY: usize = usize::MAX / 64;

/// Which message a parser reads: the client's request or the origin's response.
#[derive(PartialEq, Eq, Structural, Clone, Copy, Debug)]
pub enum ProxyState {
    Request,
    Response,
}

/// The request methods this proxy forwards; `Invalid` marks any other.
#[derive(PartialEq, Eq, Structural, Clone, Copy, Debug)]
pub enum HttpMethod {
    Get,
    Head,
    Post,
    Invalid,
}

/// The grammar step a parser is resolving, with the buffer offset where the
/// step's content begins.
#[derive(PartialEq, Eq, Structural, Clone, Copy, Debug)]
pub enum ProcessState {
    Method,
    Protocol(usize),
    Host(usize),
    Path(usize),
    Version(usize),
    Status(usize),
    Headers(usize),
    Body(usize),
    Done,
    Malformed,
    Overflow,
}

/// The abstract state of one parser: its buffer and what it has learnt.
pub struct ProxyView {
    pub buf: Seq<u8>,
    pub phase: ProcessState,
    pub method: HttpMethod,
    pub host: Seq<u8>,
    pub content_length: Option<usize>,
    pub direction: ProxyState,
}

pub open spec fn get_lit() -> Seq<u8> {
    seq![71u8, 69, 84, 32]
}

pub open spec fn head_lit() -> Seq<u8> {
    seq![72u8, 69, 65, 68, 32]
}

pub open spec fn post_lit() -> Seq<u8> {
    seq![80u8, 79, 83, 84, 32]
}

/// `http://`
pub open spec fn scheme_lit() -> Seq<u8> {
    seq![104u8, 116, 116, 112, 58, 47, 47]
}

/// `HTTP/1.0\r\n`
pub open spec fn version10_lit() -> Seq<u8> {
    seq![72u8, 84, 84, 80, 47, 49, 46, 48, 13, 10]
}

/// `HTTP/1.1\r\n`
pub open spec fn version11_lit() -> Seq<u8> {
    seq![72u8, 84, 84, 80, 47, 49, 46, 49, 13, 10]
}

/// `HTTP/1.`, the start of a status line.
pub open spec fn status_lit() -> Seq<u8> {
    seq![72u8, 84, 84, 80, 47, 49, 46]
}

/// `Connection: close`
pub open spec fn close_line() -> Seq<u8> {
    seq![67u8, 111, 110, 110, 101, 99, 116, 105, 111, 110, 58, 32, 99, 108, 111, 115, 101]
}

/// `connection:`
pub open spec fn connection_name() -> Seq<u8> {
    seq![99u8, 111, 110, 110, 101, 99, 116, 105, 111, 110, 58]
}

/// `content-length:`
pub open spec fn content_length_name() -> Seq<u8> {
    seq![99u8, 111, 110, 116, 101, 110, 116, 45, 108, 101, 110, 103, 116, 104, 58]
}

/// `transfer-encoding:`
pub open spec fn transfer_encoding_name() -> Seq<u8> {
    seq![116u8, 114, 97, 110, 115, 102, 101, 114, 45, 101, 110, 99, 111, 100, 105, 110, 103, 58]
}

/// `chunked`
pub open spec fn chunked_lit() -> Seq<u8> {
    seq![99u8, 104, 117, 110, 107, 101, 100]
}

impl HttpMethod {
    /// The method's keyword followed by its single space.
    pub open spec fn lit(self) -> Seq<u8> {
        match self {
            HttpMethod::Get => get_lit(),
            HttpMethod::Head => head_lit(),
            HttpMethod::Post => post_lit(),
            HttpMethod::Invalid => Seq::empty(),
        }
    }
}

/// The method a request line starts with: `None` while the bytes may still
/// become one of the keywords, `Some(Invalid)` once they cannot.
pub open spec fn method_of(buf: Seq<u8>) -> Option<HttpMethod> {
    if prefix_match(buf, get_lit()) == Some(true) {
        Some(HttpMethod::Get)
    } else if prefix_match(buf, head_lit()) == Some(true) {
        Some(HttpMethod::Head)
    } else if prefix_match(buf, post_lit()) == Some(true) {
        Some(HttpMethod::Post)
    } else if prefix_match(buf, get_lit()) is None || prefix_match(buf, head_lit()) is None
        || prefix_match(buf, post_lit()) is None {
        None
    } else {
        Some(HttpMethod::Invalid)
    }
}

/// Matches `HTTP/1.0\r\n` or `HTTP/1.1\r\n`, in the manner of `prefix_match`.
pub open spec fn version_match(rest: Seq<u8>) -> Option<bool> {
    let a = prefix_match(rest, version10_lit());
    let b = prefix_match(rest, version11_lit());
    if a == Some(true) || b == Some(true) {
        Some(true)
    } else if a is None || b is None {
        None
    } else {
        Some(false)
    }
}

pub open spec fn is_terminal(p: ProcessState) -> bool {
    p is Malformed || p is Overflow
}

/// Offset from which the phase still has to read.
pub open spec fn phase_offset(v: ProxyView) -> int {
    match v.phase {
        ProcessState::Method => 0,
        ProcessState::Protocol(s) => s as int,
        ProcessState::Host(s) => s as int,
        ProcessState::Path(s) => s as int,
        ProcessState::Version(s) => s as int,
        ProcessState::Status(s) => s as int,
        ProcessState::Headers(s) => s as int,
        ProcessState::Body(s) => s as int,
        _ => v.buf.len() as int,
    }
}

pub open spec fn phase_rank(p: ProcessState) -> nat {
    match p {
        ProcessState::Method => 8,
        ProcessState::Protocol(_) => 7,
        ProcessState::Host(_) => 6,
        ProcessState::Path(_) => 5,
        ProcessState::Version(_) => 4,
        ProcessState::Status(_) => 4,
        ProcessState::Headers(_) => 3,
        ProcessState::Body(_) => 2,
        ProcessState::Done => 1,
        _ => 0,
    }
}

/// Decreases with every step of the parser.
pub open spec fn measure(v: ProxyView) -> nat {
    let len = v.buf.len() as int;
    let off = phase_offset(v);
    if 0 <= off <= len {
        ((len + (len - off)) * 16 + phase_rank(v.phase)) as nat
    } else {
        0
    }
}

/// Offsets lie within the buffer, and every quantity the parser computes fits in a `usize`.
pub open spec fn wf(v: ProxyView) -> bool {
    &&& 0 <= phase_offset(v) <= v.buf.len()
    &&& (v.phase matches ProcessState::Host(s) ==> s >= 7)
    &&& (is_terminal(v.phase) ==> v.buf.len() == 0)
    &&& measure(v) <= usize::MAX
}

/// A message that cannot be valid: its bytes are dropped.
pub open spec fn malformed(v: ProxyView) -> ProxyView {
    ProxyView { buf: Seq::empty(), phase: ProcessState::Malformed, ..v }
}

pub open spec fn with_phase(v: ProxyView, p: ProcessState) -> ProxyView {
    ProxyView { phase: p, ..v }
}

/// Whether the message carries a body framed by `Content-Length`.
pub open spec fn expects_body(v: ProxyView) -> bool {
    v.direction == ProxyState::Response || v.method == HttpMethod::Post
}

/// The value of a header line after its name of `n` bytes and any blanks.
pub open spec fn header_value(line: Seq<u8>, n: int) -> Seq<u8> {
    line.skip(skip_ws(line, n))
}

pub open spec fn is_chunked(value: Seq<u8>) -> bool {
    value.len() == chunked_lit().len() && has_name(value, chunked_lit())
}

/// One complete header line `buf[off..k]` that is not the blank line.
pub open spec fn header_step(v: ProxyView, off: int, k: int) -> ProxyView {
    let line = v.buf.subrange(off, k);
    if v.direction == ProxyState::Request && has_name(line, connection_name()) {
        ProxyView {
            buf: v.buf.take(off) + close_line() + v.buf.skip(k),
            phase: ProcessState::Headers((off + close_line().len() + 2) as usize),
            ..v
        }
    } else if has_name(line, content_length_name()) {
        let d = header_value(line, content_length_name().len() as int);
        if d.len() > 0 && all_digits(d) && decimal(d) <= usize::MAX {
            ProxyView {
                phase: ProcessState::Headers((k + 2) as usize),
                content_length: Some(decimal(d) as usize),
                ..v
            }
        } else {
            with_phase(v, ProcessState::Headers((k + 2) as usize))
        }
    } else if has_name(line, transfer_encoding_name()) && is_chunked(
        header_value(line, transfer_encoding_name().len() as int),
    ) {
        malformed(v)
    } else {
        with_phase(v, ProcessState::Headers((k + 2) as usize))
    }
}

/// The body phase starting at `s`: complete once the declared length is there.
pub open spec fn body_step(v: ProxyView, s: int) -> Option<ProxyView> {
    if !expects_body(v) {
        Some(with_phase(v, ProcessState::Done))
    } else {
        match v.content_length {
            None => if v.direction == ProxyState::Request {
                Some(with_phase(v, ProcessState::Done))
            } else {
                None
            },
            Some(cl) => if v.buf.len() - s >= cl {
                Some(with_phase(v, ProcessState::Done))
            } else {
                None
            },
        }
    }
}

/// One step of the parser: `None` when it needs more bytes to decide.
pub open spec fn step(v: ProxyView) -> Option<ProxyView> {
    match v.phase {
        ProcessState::Method => match method_of(v.buf) {
            None => None,
            Some(m) => if m == HttpMethod::Invalid {
                Some(malformed(v))
            } else {
                Some(
                    ProxyView {
                        phase: ProcessState::Protocol(m.lit().len() as usize),
                        method: m,
                        ..v
                    },
                )
            },
        },
        ProcessState::Protocol(s) => match prefix_match(v.buf.skip(s as int), scheme_lit()) {
            None => None,
            Some(ok) => if ok {
                Some(with_phase(v, ProcessState::Host((s + scheme_lit().len()) as usize)))
            } else {
                Some(malformed(v))
            },
        },
        ProcessState::Host(s) => match find_byte(v.buf, s as int, 47u8) {
            None => None,
            Some(k) => Some(
                ProxyView {
                    buf: v.buf.take(s - 7) + v.buf.skip(k),
                    phase: ProcessState::Path((s - 7) as usize),
                    host: v.buf.subrange(s as int, k),
                    ..v
                },
            ),
        },
        ProcessState::Path(s) => match find_byte(v.buf, s as int, 32u8) {
            None => None,
            Some(k) => Some(with_phase(v, ProcessState::Version((k + 1) as usize))),
        },
        ProcessState::Version(s) => match version_match(v.buf.skip(s as int)) {
            None => None,
            Some(ok) => if ok {
                Some(with_phase(v, ProcessState::Headers((s + 10) as usize)))
            } else {
                Some(malformed(v))
            },
        },
        ProcessState::Status(s) => match prefix_match(v.buf.skip(s as int), status_lit()) {
            None => None,
            Some(ok) => if !ok {
                Some(malformed(v))
            } else {
                match find_crlf(v.buf, s as int) {
                    None => None,
                    Some(k) => Some(with_phase(v, ProcessState::Headers((k + 2) as usize))),
                }
            },
        },
        ProcessState::Headers(off) => match find_crlf(v.buf, off as int) {
            None => None,
            Some(k) => if k == off {
                Some(with_phase(v, ProcessState::Body((off + 2) as usize)))
            } else {
                Some(header_step(v, off as int, k))
            },
        },
        ProcessState::Body(s) => body_step(v, s as int),
        _ => None,
    }
}

/// Runs the parser until it needs more bytes or has finished. The guard on
/// `measure` never fails on a well-formed state (`lemma_step_wf`); it makes
/// the recursion's termination evident.
pub open spec fn fix(v: ProxyView) -> ProxyView
    decreases measure(v),
{
    match step(v) {
        Some(w) => if measure(w) < measure(v) {
            fix(w)
        } else {
            v
        },
        None => v,
    }
}

/// Bytes received are appended; a closed parser takes no more.
pub open spec fn append(v: ProxyView, q: Seq<u8>) -> ProxyView {
    if is_terminal(v.phase) {
        v
    } else {
        ProxyView { buf: v.buf + q, ..v }
    }
}

/// A parser that can go no further within `cap` bytes: its buffer is
/// longer than that, or is full while the header section is still open.
pub open spec fn overflows(f: ProxyView, cap: nat) -> bool {
    &&& !is_terminal(f.phase)
    &&& (f.buf.len() > cap || (!(f.phase is Body || f.phase is Done) && 0 < cap <= f.buf.len()))
}

/// What one read of `data` does: append it, parse as far as possible, and
/// give up on a message that cannot be completed within `cap` bytes.
pub open spec fn feed(v: ProxyView, data: Seq<u8>, cap: nat) -> ProxyView {
    if is_terminal(v.phase) {
        v
    } else {
        let f = fix(append(v, data));
        if overflows(f, cap) {
            ProxyView { buf: Seq::empty(), phase: ProcessState::Overflow, ..f }
        } else {
            f
        }
    }
}

/// Feeds fragments one read at a time.
pub open spec fn feed_all(v: ProxyView, parts: Seq<Seq<u8>>, cap: nat) -> ProxyView
    decreases parts.len(),
{
    if parts.len() == 0 {
        v
    } else {
        feed(feed_all(v, parts.drop_last(), cap), parts.last(), cap)
    }
}

/// All fragments, joined.
pub open spec fn concat(parts: Seq<Seq<u8>>) -> Seq<u8>
    decreases parts.len(),
{
    if parts.len() == 0 {
        Seq::empty()
    } else {
        concat(parts.drop_last()) + parts.last()
    }
}

/// The parser's state before any byte arrived.
pub open spec fn initial(direction: ProxyState) -> ProxyView {
    ProxyView {
        buf: Seq::empty(),
        phase: if direction == ProxyState::Request {
            ProcessState::Method
        } else {
            ProcessState::Status(0)
        },
        method: HttpMethod::Invalid,
        host: Seq::empty(),
        content_length: None,
        direction,
    }
}

} // verus!
