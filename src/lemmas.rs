use crate::model::{
    append, close_line, concat, feed, feed_all, fix, get_lit, head_lit, header_step, initial,
    is_terminal, malformed, measure, method_of, overflows, post_lit, scheme_lit, status_lit, step, version10_lit,
    version11_lit, version_match, wf, ProcessState, ProxyState, ProxyView, MAX_CAPACITY,
};
use crate::scan::{
    find_byte, find_crlf, lemma_find_byte_extends, lemma_find_byte_range, lemma_find_crlf_extends,
    lemma_find_crlf_range, lemma_prefix_match_extends, prefix_match,
};
use vstd::prelude::*;

verus! {

pub proof fn lemma_method_extends(buf: Seq<u8>, q: Seq<u8>)
    requires
        method_of(buf) is Some,
    ensures
        method_of(buf + q) == method_of(buf),
{
    let g = prefix_match(buf, get_lit());
    let h = prefix_match(buf, head_lit());
    let p = prefix_match(buf, post_lit());
    if g is Some {
        lemma_prefix_match_extends(buf, get_lit(), q);
    }
    if h is Some {
        lemma_prefix_match_extends(buf, head_lit(), q);
    }
    if p is Some {
        lemma_prefix_match_extends(buf, post_lit(), q);
    }
    if g == Some(true) {
    } else if h == Some(true) {
        assert(buf[0] == buf.take(5)[0]);
        assert(g == Some(false)) by {
            assert(buf.take(4)[0] != get_lit()[0]);
        }
    } else if p == Some(true) {
        assert(buf[0] == buf.take(5)[0]);
        assert(g == Some(false)) by {
            assert(buf.take(4)[0] != get_lit()[0]);
        }
        assert(h == Some(false)) by {
            assert(buf.take(5)[0] != head_lit()[0]);
        }
    }
}

pub proof fn lemma_version_extends(rest: Seq<u8>, q: Seq<u8>)
    requires
        version_match(rest) is Some,
    ensures
        version_match(rest + q) == version_match(rest),
{
    let a = prefix_match(rest, version10_lit());
    let b = prefix_match(rest, version11_lit());
    if a is Some {
        lemma_prefix_match_extends(rest, version10_lit(), q);
    }
    if b is Some {
        lemma_prefix_match_extends(rest, version11_lit(), q);
    }
    if a == Some(true) && b is None {
        assert(rest.take(10)[7] != version11_lit()[7]);
        assert(rest.len() >= 10);
    }
    if b == Some(true) && a is None {
        assert(rest.take(10)[7] != version10_lit()[7]);
        assert(rest.len() >= 10);
    }
}

/// Each step keeps the state well formed and makes progress.
pub proof fn lemma_step_wf(v: ProxyView)
    requires
        wf(v),
        step(v) is Some,
    ensures
        wf(step(v)->0),
        measure(step(v)->0) < measure(v),
{
    let w = step(v)->0;
    match v.phase {
        ProcessState::Method => {
            if w.phase != ProcessState::Malformed {
                assert(v.buf.len() >= w.method.lit().len());
            }
        },
        ProcessState::Host(s) => {
            lemma_find_byte_range(v.buf, s as int, 47u8);
        },
        ProcessState::Path(s) => {
            lemma_find_byte_range(v.buf, s as int, 32u8);
        },
        ProcessState::Status(s) => {
            lemma_find_crlf_range(v.buf, s as int);
        },
        ProcessState::Headers(off) => {
            lemma_find_crlf_range(v.buf, off as int);
            let k = find_crlf(v.buf, off as int)->0;
            if k != off {
                let line = v.buf.subrange(off as int, k);
                assert(line.len() >= 11 ==> (v.buf.take(off as int) + close_line()
                    + v.buf.skip(k)).len() == off + 17 + v.buf.len() - k);
            }
        },
        _ => {},
    }
}

/// Running to the end leaves a state that needs more bytes.
pub proof fn lemma_fix_stable(v: ProxyView)
    requires
        wf(v),
    ensures
        wf(fix(v)),
        step(fix(v)) is None,
        measure(fix(v)) <= measure(v),
    decreases measure(v),
{
    if let Some(w) = step(v) {
        lemma_step_wf(v);
        lemma_fix_stable(w);
    }
}

/// A step taken on a prefix of the bytes is the same step on all of them.
#[verifier::rlimit(60)]
pub proof fn lemma_step_extends(v: ProxyView, q: Seq<u8>)
    requires
        wf(v),
        step(v) is Some,
    ensures
        step(append(v, q)) == Some(append(step(v)->0, q)),
{
    let u = append(v, q);
    let w = step(v)->0;
    let b2 = v.buf + q;
    assert(u.buf == b2);
    match v.phase {
        ProcessState::Method => {
            lemma_method_extends(v.buf, q);
        },
        ProcessState::Protocol(s) => {
            assert(b2.skip(s as int) =~= v.buf.skip(s as int) + q);
            lemma_prefix_match_extends(v.buf.skip(s as int), scheme_lit(), q);
        },
        ProcessState::Host(s) => {
            lemma_find_byte_extends(v.buf, s as int, 47u8, q);
            lemma_find_byte_range(v.buf, s as int, 47u8);
            let k = find_byte(v.buf, s as int, 47u8)->0;
            if k != s {
                assert(b2.take(s - 7) + b2.skip(k) =~= (v.buf.take(s - 7) + v.buf.skip(k)) + q);
                assert(b2.subrange(s as int, k) =~= v.buf.subrange(s as int, k));
            }
        },
        ProcessState::Path(s) => {
            lemma_find_byte_extends(v.buf, s as int, 32u8, q);
        },
        ProcessState::Version(s) => {
            assert(b2.skip(s as int) =~= v.buf.skip(s as int) + q);
            lemma_version_extends(v.buf.skip(s as int), q);
        },
        ProcessState::Status(s) => {
            assert(b2.skip(s as int) =~= v.buf.skip(s as int) + q);
            lemma_prefix_match_extends(v.buf.skip(s as int), status_lit(), q);
            if prefix_match(v.buf.skip(s as int), status_lit()) == Some(true) {
                lemma_find_crlf_extends(v.buf, s as int, q);
            }
        },
        ProcessState::Headers(off) => {
            lemma_find_crlf_extends(v.buf, off as int, q);
            lemma_find_crlf_range(v.buf, off as int);
            let k = find_crlf(v.buf, off as int)->0;
            if k != off {
                lemma_header_step_extends(v, q, off as int, k);
            }
        },
        ProcessState::Body(s) => {},
        _ => {},
    }
}

proof fn lemma_header_step_extends(v: ProxyView, q: Seq<u8>, off: int, k: int)
    requires
        !is_terminal(v.phase),
        0 <= off < k,
        k + 2 <= v.buf.len(),
    ensures
        header_step(append(v, q), off, k) == append(header_step(v, off, k), q),
{
    let b2 = v.buf + q;
    assert(b2.subrange(off, k) =~= v.buf.subrange(off, k));
    assert(b2.take(off) + close_line() + b2.skip(k) =~= (v.buf.take(off) + close_line() + v.buf.skip(
        k,
    )) + q);
}

/// Parsing as far as possible before more bytes arrive changes nothing in
/// the end.
pub proof fn lemma_fix_append(v: ProxyView, q: Seq<u8>)
    requires
        wf(v),
        wf(append(v, q)),
    ensures
        fix(append(fix(v), q)) == fix(append(v, q)),
    decreases measure(v),
{
    if let Some(w) = step(v) {
        lemma_step_wf(v);
        lemma_step_extends(v, q);
        let u = append(v, q);
        if !is_terminal(v.phase) {
            assert(wf(append(w, q))) by {
                lemma_append_measure(w, q);
                lemma_append_measure(v, q);
            }
            lemma_step_wf(u);
            lemma_fix_append(w, q);
        }
    }
}

pub proof fn lemma_append_measure(v: ProxyView, q: Seq<u8>)
    requires
        0 <= crate::model::phase_offset(v) <= v.buf.len(),
    ensures
        measure(append(v, q)) <= measure(v) + 32 * q.len(),
        !is_terminal(v.phase) && !(v.phase is Done) ==> measure(append(v, q)) == measure(v) + 32
            * q.len(),
        is_terminal(v.phase) ==> append(v, q) == v,
        0 <= crate::model::phase_offset(append(v, q)) <= append(v, q).buf.len(),
{
}

/// What a read leaves behind: a well-formed state that waits for more
/// bytes and fits in the buffer.
pub proof fn lemma_feed_props(v: ProxyView, data: Seq<u8>, cap: nat)
    requires
        wf(v),
        step(v) is None,
        v.buf.len() <= cap <= MAX_CAPACITY,
        data.len() <= cap,
    ensures
        wf(feed(v, data, cap)),
        step(feed(v, data, cap)) is None,
        feed(v, data, cap).buf.len() <= cap,
        !overflows(feed(v, data, cap), cap),
        data.len() == 0 && !overflows(v, cap) ==> feed(v, data, cap) == v,
{
    if data.len() == 0 && !is_terminal(v.phase) {
        assert(append(v, data) == v) by {
            assert(v.buf + data =~= v.buf);
        }
        lemma_fix_idle(v);
    }
    if !is_terminal(v.phase) {
        lemma_append_measure(v, data);
        lemma_fix_stable(append(v, data));
    }
}

/// A read that did not overflow left exactly what parsing produced.
proof fn lemma_feed_kept(v: ProxyView, a: Seq<u8>, cap: nat)
    requires
        !is_terminal(v.phase),
        !(feed(v, a, cap).phase is Overflow),
    ensures
        feed(v, a, cap) == fix(append(v, a)),
{
}

/// Parsing a state that waits for bytes changes nothing.
pub proof fn lemma_fix_idle(v: ProxyView)
    requires
        step(v) is None,
    ensures
        fix(v) == v,
{
}

/// Splitting the bytes of one read into two reads gives the same state,
/// unless the first read already overflowed the buffer.
#[verifier::rlimit(100)]
pub proof fn lemma_split_read(v: ProxyView, a: Seq<u8>, b: Seq<u8>, cap: nat)
    requires
        wf(v),
        step(v) is None,
        v.buf.len() <= cap <= MAX_CAPACITY,
        a.len() + b.len() <= cap,
        !(feed(v, a, cap).phase is Overflow),
    ensures
        feed(feed(v, a, cap), b, cap) == feed(v, a + b, cap),
{
    if !is_terminal(v.phase) {
        let va = append(v, a);
        lemma_append_measure(v, a);
        lemma_append_measure(va, b);
        lemma_append_measure(v, a + b);
        assert(append(va, b) == append(v, a + b)) by {
            assert(v.buf + a + b =~= v.buf + (a + b));
        }
        lemma_fix_append(va, b);
        lemma_fix_stable(va);
        let f1 = fix(va);
        lemma_feed_kept(v, a, cap);
        if is_terminal(f1.phase) {
            lemma_fix_idle(f1);
        }
    }
}

/// A fresh parser is well formed and waits for its first bytes.
pub proof fn lemma_initial(direction: ProxyState, cap: nat)
    ensures
        wf(initial(direction)),
        step(initial(direction)) is None,
        feed(initial(direction), Seq::empty(), cap) == initial(direction),
{
    let init = initial(direction);
    if direction == ProxyState::Request {
        assert(prefix_match(Seq::<u8>::empty(), get_lit()) is None) by {
            assert(Seq::<u8>::empty() =~= get_lit().take(0));
        }
        assert(prefix_match(Seq::<u8>::empty(), head_lit()) is None) by {
            assert(Seq::<u8>::empty() =~= head_lit().take(0));
        }
    } else {
        assert(prefix_match(Seq::<u8>::empty().skip(0), status_lit()) is None) by {
            assert(Seq::<u8>::empty().skip(0) =~= status_lit().take(0));
        }
    }
    assert(append(init, Seq::empty()) == init) by {
        assert(init.buf + Seq::<u8>::empty() =~= init.buf);
    }
}

/// Chunk-size invariance: feeding a message to a fresh parser in fragments,
/// one read each, leaves the same buffer and phase as feeding it in one read,
/// as long as no intermediate read overflowed the buffer.
#[verifier::rlimit(40)]
pub proof fn lemma_chunk_invariance(direction: ProxyState, parts: Seq<Seq<u8>>, cap: nat)
    requires
        cap <= MAX_CAPACITY,
        concat(parts).len() <= cap,
        forall|i: int|
            0 < i < parts.len() ==> !(#[trigger] feed_all(initial(direction), parts.take(i), cap).phase is Overflow),
    ensures
        feed_all(initial(direction), parts, cap) == feed(initial(direction), concat(parts), cap),
    decreases parts.len(),
{
    let init = initial(direction);
    lemma_initial(direction, cap);
    if parts.len() == 0 {
    } else {
        let front = parts.drop_last();
        let last = parts.last();
        assert forall|i: int| 0 < i < front.len() implies !(#[trigger] feed_all(init, front.take(i), cap).phase is Overflow) by {
            assert(front.take(i) =~= parts.take(i));
            assert(!(feed_all(init, parts.take(i), cap).phase is Overflow));
        }
        assert(concat(front).len() <= cap);
        lemma_chunk_invariance(direction, front, cap);
        let f = feed(init, concat(front), cap);
        if front.len() > 0 {
            assert(parts.take(front.len() as int) =~= front);
            assert(!(feed_all(init, parts.take(front.len() as int), cap).phase is Overflow));
        } else {
            assert(concat(front) =~= Seq::<u8>::empty());
        }
        lemma_split_read(init, concat(front), last, cap);
    }
}

/// A request whose first byte starts none of `GET `, `HEAD `, `POST ` is
/// malformed at the method step, before any host is known.
pub proof fn lemma_unknown_method_rejected(v: ProxyView)
    requires
        v.phase == ProcessState::Method,
        v.buf.len() > 0,
        v.buf[0] != 71u8 && v.buf[0] != 72u8 && v.buf[0] != 80u8,
    ensures
        step(v) == Some(malformed(v)),
        malformed(v).host == v.host,
{
    let b = v.buf;
    assert(b.len() >= 4 ==> b.take(4)[0] == b[0]);
    assert(b.len() >= 5 ==> b.take(5)[0] == b[0]);
    assert(b.len() < 4 ==> b[0] != get_lit().take(b.len() as int)[0]);
    assert(b.len() < 5 ==> b[0] != head_lit().take(b.len() as int)[0]);
    assert(b.len() < 5 ==> b[0] != post_lit().take(b.len() as int)[0]);
}

/// A request target in origin form (`/` where `http://` must start) is
/// malformed at the authority step.
pub proof fn lemma_origin_form_rejected(v: ProxyView, s: usize)
    requires
        v.phase == ProcessState::Protocol(s),
        s < v.buf.len(),
        v.buf[s as int] == 47u8,
    ensures
        step(v) == Some(malformed(v)),
{
    let rest = v.buf.skip(s as int);
    assert(rest[0] == 47u8);
    assert(rest.len() >= 7 ==> rest.take(7)[0] != scheme_lit()[0]);
    assert(rest.len() < 7 ==> rest[0] != scheme_lit().take(rest.len() as int)[0]);
}

} // verus!
