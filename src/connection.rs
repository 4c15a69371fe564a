use crate::model::{feed, fix, initial, ProxyState, ProxyView};
use crate::proxy::{drain, headers_done, read_result, Proxy, ProxyResult};
use vstd::prelude::*;

verus! {

/// The most pairs the registry holds at once.
pub const MAX_CONNECTIONS_COUNT: usize = 1024;

/// Each parser's buffer size.
pub const BUFFER_SIZE: usize = 8192;

/// One client connection and, once opened, its origin connection, with a
/// parser for each direction.
pub struct HttpConnection {
    client: usize,
    server: Option<usize>,
    request: Proxy,
    response: Proxy,
}

/// What a pair is: its two handles and the state of its two parsers.
pub struct PairView {
    pub client: usize,
    pub server: Option<usize>,
    pub request: ProxyView,
    pub response: ProxyView,
    pub request_capacity: nat,
    pub response_capacity: nat,
}

/// `t` is one of the pair's handles.
pub open spec fn owns(p: PairView, t: usize) -> bool {
    p.client == t || p.server == Some(t)
}

/// The handles to deregister when the pair goes.
pub open spec fn handles(p: PairView) -> Seq<usize> {
    match p.server {
        Some(s) => seq![p.client, s],
        None => seq![p.client],
    }
}

/// Some pair of the registry owns `t`.
pub open spec fn live(v: Seq<PairView>, t: usize) -> bool {
    exists|i: int| 0 <= i < v.len() && owns(#[trigger] v[i], t)
}

/// No handle belongs to two pairs, nor twice to one.
pub open spec fn unique_handles(v: Seq<PairView>) -> bool {
    &&& forall|i: int, j: int, t: usize|
        0 <= i < v.len() && 0 <= j < v.len() && #[trigger] owns(v[i], t) && #[trigger] owns(v[j], t)
            ==> i == j
    &&& forall|i: int| 0 <= i < v.len() ==> (#[trigger] v[i]).server != Some(v[i].client)
}

/// The position of the pair that owns `t`.
pub open spec fn index_of(v: Seq<PairView>, t: usize) -> int {
    choose|i: int| 0 <= i < v.len() && owns(#[trigger] v[i], t)
}

/// Removing the pair that owns `t`, and the handles that go with it.
pub open spec fn teardown_spec(v: Seq<PairView>, t: usize) -> (Seq<PairView>, Seq<usize>) {
    if live(v, t) {
        let i = index_of(v, t);
        (v.remove(i), handles(v[i]))
    } else {
        (v, Seq::empty())
    }
}

/// The pair `p` after the bytes `data` arrived on its handle `t`.
pub open spec fn fed_pair(p: PairView, t: usize, data: Seq<u8>) -> PairView {
    if t == p.client {
        PairView { request: feed(p.request, data, BUFFER_SIZE as nat), ..p }
    } else {
        PairView { response: feed(p.response, data, BUFFER_SIZE as nat), ..p }
    }
}

/// What those bytes mean for the pair.
pub open spec fn fed_result(p: PairView, t: usize, data: Seq<u8>) -> ProxyResult {
    let q = fed_pair(p, t, data);
    if t == p.client {
        read_result(p.request, q.request, data.len())
    } else {
        read_result(p.response, q.response, data.len())
    }
}

impl HttpConnection {
    pub closed spec fn view(&self) -> PairView {
        PairView {
            client: self.client,
            server: self.server,
            request: self.request@,
            response: self.response@,
            request_capacity: self.request.capacity(),
            response_capacity: self.response.capacity(),
        }
    }

    pub closed spec fn inv(&self) -> bool {
        &&& self.request.inv()
        &&& self.request.capacity() == BUFFER_SIZE
        &&& self.response.inv()
        &&& self.response.capacity() == BUFFER_SIZE
        &&& self.server != Some(self.client)
    }

    /// A pair that has only its client side.
    pub fn new(client: usize) -> (r: HttpConnection)
        ensures
            r.view() == (PairView {
                client,
                server: None,
                request: initial(ProxyState::Request),
                response: initial(ProxyState::Response),
                request_capacity: BUFFER_SIZE as nat,
                response_capacity: BUFFER_SIZE as nat,
            }),
            r.inv(),
    {
        HttpConnection {
            client,
            server: None,
            request: Proxy::new(BUFFER_SIZE),
            response: Proxy::new_response(BUFFER_SIZE),
        }
    }
}

/// The pairs that are live, by handle.
pub struct Registry {
    pairs: Vec<HttpConnection>,
}

impl Registry {
    pub closed spec fn view(&self) -> Seq<PairView> {
        Seq::new(self.pairs@.len(), |i: int| self.pairs@[i].view())
    }

    pub closed spec fn inv(&self) -> bool {
        &&& unique_handles(self.view())
        &&& forall|i: int| 0 <= i < self.pairs@.len() ==> (#[trigger] self.pairs@[i]).inv()
    }

    pub fn new() -> (r: Registry)
        ensures
            r.view() == Seq::<PairView>::empty(),
            r.inv(),
    {
        let r = Registry { pairs: Vec::new() };
        proof {
            assert(r.view() =~= Seq::<PairView>::empty());
        }
        r
    }

    pub fn len(&self) -> (r: usize)
        ensures
            r == self.view().len(),
    {
        self.pairs.len()
    }

    /// The position of the pair that owns `t`, if any.
    fn find(&self, t: usize) -> (r: Option<usize>)
        requires
            self.inv(),
        ensures
            match r {
                Some(i) => i < self.view().len() && owns(self.view()[i as int], t) && i == index_of(
                    self.view(),
                    t,
                ),
                None => !live(self.view(), t),
            },
    {
        let mut i: usize = 0;
        while i < self.pairs.len()
            invariant
                i <= self.pairs@.len(),
                self.inv(),
                forall|j: int| 0 <= j < i ==> !owns(#[trigger] self.view()[j], t),
            decreases self.pairs@.len() - i,
        {
            let c = &self.pairs[i];
            let hit = c.client == t || match c.server {
                Some(s) => s == t,
                None => false,
            };
            if hit {
                proof {
                    let v = self.view();
                    assert(owns(v[i as int], t));
                    let k = index_of(v, t);
                    assert(0 <= k < v.len() && owns(v[k], t));
                    assert(k == i as int);
                }
                return Some(i);
            }
            i = i + 1;
        }
        None
    }

    /// Whether `t` belongs to a live pair.
    pub fn is_live(&self, t: usize) -> (r: bool)
        requires
            self.inv(),
        ensures
            r == live(self.view(), t),
    {
        self.find(t).is_some()
    }

    /// Admits a newly accepted client. At the ceiling, or for a handle that
    /// is already in use, nothing changes and the caller closes the socket.
    pub fn accept(&mut self, client: usize) -> (r: bool)
        requires
            old(self).inv(),
        ensures
            final(self).inv(),
            r == (old(self).view().len() < MAX_CONNECTIONS_COUNT && !live(old(self).view(), client)),
            r ==> final(self).view() == old(self).view().push(
                PairView {
                    client,
                    server: None,
                    request: initial(ProxyState::Request),
                    response: initial(ProxyState::Response),
                    request_capacity: BUFFER_SIZE as nat,
                    response_capacity: BUFFER_SIZE as nat,
                },
            ),
            !r ==> final(self).view() == old(self).view(),
    {
        if self.pairs.len() >= MAX_CONNECTIONS_COUNT || self.is_live(client) {
            return false;
        }
        let c = HttpConnection::new(client);
        let ghost v0 = self.view();
        self.pairs.push(c);
        proof {
            let v = self.view();
            assert(v =~= v0.push(c.view()));
            assert forall|i: int, j: int, t: usize|
                0 <= i < v.len() && 0 <= j < v.len() && #[trigger] owns(v[i], t) && #[trigger] owns(v[j], t) implies i == j by {
                if i < v0.len() && j == v0.len() {
                    assert(owns(v0[i], client));
                }
                if j < v0.len() && i == v0.len() {
                    assert(owns(v0[j], client));
                }
            }
            assert forall|i: int| 0 <= i < self.pairs@.len() implies (
            #[trigger] self.pairs@[i]).inv() by {
                if i < v0.len() {
                    assert(self.pairs@[i] == old(self).pairs@[i]);
                }
            }
        }
        true
    }

    /// Records that the pair of client `client` connected to its origin as
    /// `server`. Refused (and nothing changes) unless that pair exists, has
    /// no origin yet, and `server` is not in use.
    pub fn attach_origin(&mut self, client: usize, server: usize) -> (r: bool)
        requires
            old(self).inv(),
        ensures
            final(self).inv(),
            r == (live(old(self).view(), client) && old(self).view()[index_of(
                old(self).view(),
                client,
            )].client == client && old(self).view()[index_of(old(self).view(), client)].server is None
                && !live(old(self).view(), server)),
            r ==> final(self).view() == old(self).view().update(
                index_of(old(self).view(), client),
                PairView { server: Some(server), ..old(self).view()[index_of(old(self).view(), client)] },
            ),
            !r ==> final(self).view() == old(self).view(),
    {
        let i = match self.find(client) {
            Some(i) => i,
            None => {
                return false;
            },
        };
        if self.pairs[i].client != client || self.pairs[i].server.is_some() || self.is_live(server) {
            return false;
        }
        let ghost v0 = self.view();
        self.pairs[i].server = Some(server);
        proof {
            let v = self.view();
            assert(v =~= v0.update(i as int, PairView { server: Some(server), ..v0[i as int] }));
            assert(server != client);
            assert forall|a: int, b: int, t: usize|
                0 <= a < v.len() && 0 <= b < v.len() && #[trigger] owns(v[a], t) && #[trigger] owns(v[b], t) implies a == b by {
                if a != i && b != i {
                    assert(owns(v0[a], t) && owns(v0[b], t));
                } else if a == i && b != i {
                    assert(owns(v0[b], t));
                    if t != server {
                        assert(owns(v0[a], t));
                    }
                } else if b == i && a != i {
                    assert(owns(v0[a], t));
                    if t != server {
                        assert(owns(v0[b], t));
                    }
                }
            }
            assert forall|k: int| 0 <= k < self.pairs@.len() implies (
            #[trigger] self.pairs@[k]).inv() by {
                assert(old(self).pairs@[k].inv());
            }
        }
        true
    }

    fn remove_at(&mut self, i: usize) -> (r: Vec<usize>)
        requires
            old(self).inv(),
            i < old(self).view().len(),
        ensures
            final(self).inv(),
            final(self).view() == old(self).view().remove(i as int),
            r@ == handles(old(self).view()[i as int]),
    {
        let ghost v0 = self.view();
        let c = self.pairs.remove(i);
        let mut r: Vec<usize> = Vec::new();
        r.push(c.client);
        match c.server {
            Some(s) => r.push(s),
            None => {},
        }
        proof {
            let v = self.view();
            assert(v =~= v0.remove(i as int));
            assert(r@ =~= handles(v0[i as int]));
            assert forall|a: int, b: int, u: usize|
                0 <= a < v.len() && 0 <= b < v.len() && #[trigger] owns(v[a], u) && #[trigger] owns(v[b], u)
                    implies a == b by {
                let a2 = if a < i { a } else { a + 1 };
                let b2 = if b < i { b } else { b + 1 };
                assert(v[a] == v0[a2] && v[b] == v0[b2]);
            }
            assert forall|k: int| 0 <= k < self.pairs@.len() implies (#[trigger] self.pairs@[k]).inv() by {
                let k2 = if k < i { k } else { k + 1 };
                assert(self.pairs@[k] == old(self).pairs@[k2]);
            }
        }
        r
    }

    /// Removes the pair that owns `t` and returns its handles, for the caller
    /// to deregister and close together. A handle that no pair owns, as on a
    /// second call, changes nothing and returns none.
    pub fn teardown(&mut self, t: usize) -> (r: Vec<usize>)
        requires
            old(self).inv(),
        ensures
            final(self).inv(),
            (final(self).view(), r@) == teardown_spec(old(self).view(), t),
            forall|h: usize| r@.contains(h) ==> !live(final(self).view(), h),
    {
        proof {
            if live(self.view(), t) {
                lemma_paired_teardown(self.view(), t);
            }
        }
        match self.find(t) {
            None => Vec::new(),
            Some(i) => self.remove_at(i),
        }
    }

    /// Hands the bytes of one read on handle `t` to the parser of that side.
    /// When the result is `Close` (malformed message, overflow, or the peer
    /// closed) the whole pair is torn down in the same call and both of its
    /// handles are returned for deregistration.
    pub fn on_readable(&mut self, t: usize, data: &[u8]) -> (r: (ProxyResult, Vec<usize>))
        requires
            old(self).inv(),
            data@.len() <= BUFFER_SIZE,
        ensures
            final(self).inv(),
            !live(old(self).view(), t) ==> r.0 == ProxyResult::Close && r.1@ == Seq::<usize>::empty()
                && final(self).view() == old(self).view(),
            live(old(self).view(), t) ==> ({
                let v = old(self).view();
                let i = index_of(v, t);
                let res = fed_result(v[i], t, data@);
                &&& r.0 == res
                &&& res == ProxyResult::Close ==> (final(self).view(), r.1@) == teardown_spec(v, t)
                &&& res != ProxyResult::Close ==> final(self).view() == v.update(
                    i,
                    fed_pair(v[i], t, data@),
                ) && r.1@ == Seq::<usize>::empty()
            }),
            forall|h: usize| r.1@.contains(h) ==> !live(final(self).view(), h),
    {
        let i = match self.find(t) {
            None => {
                return (ProxyResult::Close, Vec::new());
            },
            Some(i) => i,
        };
        let ghost v0 = self.view();
        proof {
            assert(self.pairs@[i as int].inv());
        }
        let is_client = self.pairs[i].client == t;
        let res = if is_client {
            self.pairs[i].request.read(data)
        } else {
            self.pairs[i].response.read(data)
        };
        proof {
            let v = self.view();
            assert(v =~= v0.update(i as int, fed_pair(v0[i as int], t, data@)));
            assert forall|a: int, b: int, u: usize|
                0 <= a < v.len() && 0 <= b < v.len() && #[trigger] owns(v[a], u) && #[trigger] owns(v[b], u)
                    implies a == b by {
                assert(owns(v0[a], u) && owns(v0[b], u));
            }
            assert forall|k: int| 0 <= k < self.pairs@.len() implies (#[trigger] self.pairs@[k]).inv() by {
                assert(old(self).pairs@[k].inv());
            }
        }
        match res {
            ProxyResult::Close => {
                proof {
                    assert(owns(self.view()[i as int], t));
                    lemma_paired_teardown(self.view(), t);
                }
                let h = self.remove_at(i);
                proof {
                    assert(self.view() =~= v0.remove(i as int));
                }
                (res, h)
            },
            _ => (res, Vec::new()),
        }
    }
    /// The bytes that arrived on handle `t` and are ready to be sent to the
    /// other side.
    pub fn pending(&self, t: usize) -> (r: &[u8])
        requires
            self.inv(),
        ensures
            live(self.view(), t) ==> r@ == pending_of(side(self.view()[index_of(self.view(), t)], t)),
            !live(self.view(), t) ==> r@ == Seq::<u8>::empty(),
    {
        match self.find(t) {
            None => {
                let e: &[u8] = &[];
                proof {
                    assert(e@ =~= Seq::<u8>::empty());
                }
                e
            },
            Some(i) => {
                let c = &self.pairs[i];
                if c.client == t {
                    c.request.pending()
                } else {
                    c.response.pending()
                }
            },
        }
    }

    /// How many bytes the next read on handle `t` may bring; none for a
    /// handle that no pair owns.
    pub fn room(&self, t: usize) -> (r: usize)
        requires
            self.inv(),
        ensures
            live(self.view(), t) ==> r == BUFFER_SIZE - side(self.view()[index_of(self.view(), t)], t).buf.len(),
            !live(self.view(), t) ==> r == 0,
    {
        match self.find(t) {
            None => 0,
            Some(i) => {
                let c = &self.pairs[i];
                proof {
                    assert(self.pairs@[i as int].inv());
                }
                if c.client == t {
                    c.request.room()
                } else {
                    c.response.room()
                }
            },
        }
    }

    /// The readiness interest for handle `t`: read while its buffer has
    /// room, write while bytes from the other side wait to be sent to it.
    pub fn interest(&self, t: usize) -> (r: (bool, bool))
        requires
            self.inv(),
        ensures
            live(self.view(), t) ==> ({
                let p = self.view()[index_of(self.view(), t)];
                let other = if t == p.client { p.response } else { p.request };
                &&& r.0 == (side(p, t).buf.len() < BUFFER_SIZE)
                &&& r.1 == (p.server is Some && pending_of(other).len() > 0)
            }),
            !live(self.view(), t) ==> r == (false, false),
    {
        match self.find(t) {
            None => (false, false),
            Some(i) => {
                let c = &self.pairs[i];
                proof {
                    assert(self.pairs@[i as int].inv());
                }
                let (mine, other) = if c.client == t {
                    (&c.request, &c.response)
                } else {
                    (&c.response, &c.request)
                };
                (mine.room() > 0, c.server.is_some() && other.pending().len() > 0)
            },
        }
    }

    /// The origin host named by the request of the pair that owns `t`.
    pub fn host(&self, t: usize) -> (r: &[u8])
        requires
            self.inv(),
        ensures
            live(self.view(), t) ==> r@ == self.view()[index_of(self.view(), t)].request.host,
            !live(self.view(), t) ==> r@ == Seq::<u8>::empty(),
    {
        match self.find(t) {
            None => {
                let e: &[u8] = &[];
                proof {
                    assert(e@ =~= Seq::<u8>::empty());
                }
                e
            },
            Some(i) => self.pairs[i].request.host(),
        }
    }

    /// The other handle of the pair that owns `t`, where there is one.
    pub fn peer(&self, t: usize) -> (r: Option<usize>)
        requires
            self.inv(),
        ensures
            live(self.view(), t) ==> r == ({
                let p = self.view()[index_of(self.view(), t)];
                if t == p.client {
                    p.server
                } else {
                    Some(p.client)
                }
            }),
            !live(self.view(), t) ==> r is None,
    {
        match self.find(t) {
            None => None,
            Some(i) => {
                let c = &self.pairs[i];
                if c.client == t {
                    c.server
                } else {
                    Some(c.client)
                }
            },
        }
    }

    /// Records that the first `n` pending bytes of handle `t` were sent to
    /// the other side.
    pub fn on_sent(&mut self, t: usize, n: usize) -> (r: ProxyResult)
        requires
            old(self).inv(),
            live(old(self).view(), t) ==> n <= pending_of(
                side(old(self).view()[index_of(old(self).view(), t)], t),
            ).len(),
        ensures
            final(self).inv(),
            !live(old(self).view(), t) ==> r == ProxyResult::Close && final(self).view() == old(
                self,
            ).view(),
            live(old(self).view(), t) && n == 0 ==> r == ProxyResult::Continue && final(self).view()
                == old(self).view(),
            live(old(self).view(), t) && n > 0 ==> ({
                let v = old(self).view();
                let i = index_of(v, t);
                let q = sent_pair(v[i], t, n as nat);
                &&& final(self).view() == v.update(i, q)
                &&& r == if side(q, t).buf.len() == 0 && side(q, t).phase is Done {
                    ProxyResult::ChangeChannelState
                } else {
                    ProxyResult::Continue
                }
            }),
    {
        let i = match self.find(t) {
            None => {
                return ProxyResult::Close;
            },
            Some(i) => i,
        };
        if n == 0 {
            return ProxyResult::Continue;
        }
        let ghost v0 = self.view();
        proof {
            assert(self.pairs@[i as int].inv());
        }
        let is_client = self.pairs[i].client == t;
        let res = if is_client {
            self.pairs[i].request.write(n)
        } else {
            self.pairs[i].response.write(n)
        };
        proof {
            let v = self.view();
            assert(v =~= v0.update(i as int, sent_pair(v0[i as int], t, n as nat)));
            assert forall|a: int, b: int, u: usize|
                0 <= a < v.len() && 0 <= b < v.len() && #[trigger] owns(v[a], u) && #[trigger] owns(v[b], u)
                    implies a == b by {
                assert(owns(v0[a], u) && owns(v0[b], u));
            }
            assert forall|k: int| 0 <= k < self.pairs@.len() implies (#[trigger] self.pairs@[k]).inv() by {
                assert(old(self).pairs@[k].inv());
            }
        }
        res
    }
}

/// The pair `p` after `n` pending bytes of handle `t` were sent on.
pub open spec fn sent_pair(p: PairView, t: usize, n: nat) -> PairView {
    if t == p.client {
        PairView { request: fix(drain(p.request, n)), ..p }
    } else {
        PairView { response: fix(drain(p.response, n)), ..p }
    }
}

/// The parser that reads from handle `t` of pair `p`.
pub open spec fn side(p: PairView, t: usize) -> ProxyView {
    if t == p.client {
        p.request
    } else {
        p.response
    }
}

/// The bytes of a parser that are ready to be sent on.
pub open spec fn pending_of(v: ProxyView) -> Seq<u8> {
    if headers_done(v) {
        v.buf
    } else {
        Seq::empty()
    }
}

/// Removing a pair keeps every other handle where it was.
pub proof fn lemma_remove_unique(v: Seq<PairView>, i: int)
    requires
        unique_handles(v),
        0 <= i < v.len(),
    ensures
        unique_handles(v.remove(i)),
        forall|h: usize| owns(v[i], h) ==> !live(v.remove(i), h),
{
    let w = v.remove(i);
    assert forall|a: int, b: int, u: usize|
        0 <= a < w.len() && 0 <= b < w.len() && #[trigger] owns(w[a], u) && #[trigger] owns(w[b], u)
            implies a == b by {
        let a2 = if a < i { a } else { a + 1 };
        let b2 = if b < i { b } else { b + 1 };
        assert(w[a] == v[a2] && w[b] == v[b2]);
    }
    assert forall|h: usize| owns(v[i], h) implies !live(w, h) by {
        if live(w, h) {
            let a = choose|a: int| 0 <= a < w.len() && owns(#[trigger] w[a], h);
            let a2 = if a < i { a } else { a + 1 };
            assert(w[a] == v[a2]);
            assert(owns(v[a2], h));
        }
    }
}

/// Paired teardown: tearing down the pair that owns `t` (its client or its
/// origin handle) returns both of the pair's handles, and afterwards neither
/// belongs to any pair.
pub proof fn lemma_paired_teardown(v: Seq<PairView>, t: usize)
    requires
        unique_handles(v),
        live(v, t),
    ensures
        ({
            let (w, hs) = teardown_spec(v, t);
            let p = v[index_of(v, t)];
            &&& hs.contains(p.client)
            &&& (p.server matches Some(s) ==> hs.contains(s))
            &&& hs.contains(t)
            &&& forall|h: usize| hs.contains(h) ==> !live(w, h)
            &&& unique_handles(w)
        }),
{
    let i = index_of(v, t);
    let p = v[i];
    lemma_remove_unique(v, i);
    let hs = handles(p);
    assert(hs[0] == p.client);
    if let Some(s) = p.server {
        assert(hs[1] == s);
    }
    assert forall|h: usize| hs.contains(h) implies owns(p, h) by {
        let k = choose|k: int| 0 <= k < hs.len() && hs[k] == h;
    }
}

/// An empty read on either handle of a pair (its peer closed) yields
/// `Close`, so `on_readable` tears the whole pair down in that same call.
pub proof fn lemma_peer_closed_closes(p: PairView, t: usize)
    ensures
        fed_result(p, t, Seq::empty()) == ProxyResult::Close,
{
}

/// Idempotent teardown: a second teardown of the same handle changes
/// nothing and returns no handle to deregister.
pub proof fn lemma_teardown_idempotent(v: Seq<PairView>, t: usize)
    requires
        unique_handles(v),
    ensures
        teardown_spec(teardown_spec(v, t).0, t) == (teardown_spec(v, t).0, Seq::<usize>::empty()),
{
    if live(v, t) {
        lemma_remove_unique(v, index_of(v, t));
    }
}

} // verus!
