//! The client's routing state: its handler registry, the correlation of
//! requests with their replies, and the handshake exchange.
//!
//! The state is generic over what a handler runs (`F`) and over the sink a
//! request's reply goes to (`A`); the stream, the reader thread and the lock
//! belong to the embedding program.

use vstd::prelude::*;
use vstd::slice::slice_to_vec;
use vstd::utf8::{decode_utf8, encode_utf8, valid_utf8};
use crate::message::{
    body_view, frame_body, frame_id, frame_name, is_req, lossy_text, parsable, text_of, wire,
    Msg, MsgName, MsgReading, MSG_REQ, MSG_WITH_BODY,
};
use crate::server::{msg_name_view, opt_view};

verus! {

pub struct Handler<F, A> {
    pub func: Option<F>,
    pub ans: Option<A>,
    pub once: bool,
    pub called: bool,
    pub msg_id: Option<u128>,
    pub msg_name: Option<String>,
}

pub struct State<F, A> {
    pub handlers: Vec<Handler<F, A>>,
}

impl<F, A> Handler<F, A> {
    /// The handler's filters accept a message with this id and name.
    pub open spec fn matches(&self, id: u128, name: Seq<char>) -> bool {
        &&& (self.msg_id matches Some(x) ==> x == id)
        &&& (self.msg_name matches Some(n) ==> n@ == name)
    }

    /// The handler runs for that message: it matches, and is not a once
    /// handler that already ran.
    pub open spec fn fires(&self, id: u128, name: Seq<char>) -> bool {
        self.matches(id, name) && !(self.once && self.called)
    }

    /// The handler after a message went through the registry.
    pub open spec fn after(self, id: u128, name: Seq<char>) -> Handler<F, A> {
        if self.fires(id, name) && self.once {
            Handler { called: true, ..self }
        } else {
            self
        }
    }

    fn matches_msg(&self, msg: &Msg) -> (b: bool)
        ensures
            b == self.matches(msg.id, msg.name@),
    {
        let mut matched = true;
        if let Some(x) = &self.msg_id {
            if *x != msg.id {
                matched = false;
            }
        }
        if let Some(n) = &self.msg_name {
            if !(*n == msg.name) {
                matched = false;
            }
        }
        matched
    }
}

/// The indices of the handlers in `hs` that run for a message, in
/// registration order.
pub open spec fn fired<F, A>(hs: Seq<Handler<F, A>>, id: u128, name: Seq<char>) -> Seq<int>
    decreases hs.len(),
{
    if hs.len() == 0 {
        Seq::empty()
    } else {
        let before = fired(hs.drop_last(), id, name);
        if hs.last().fires(id, name) {
            before.push(hs.len() - 1)
        } else {
            before
        }
    }
}

impl<F, A> State<F, A> {
    /// An empty registry.
    pub fn new() -> (r: State<F, A>)
        ensures
            r.handlers@.len() == 0,
    {
        State { handlers: Vec::new() }
    }

    fn push_handler(
        &mut self,
        func: Option<F>,
        ans: Option<A>,
        once: bool,
        msg_id: Option<u128>,
        msg_name: Option<String>,
    )
        ensures
            final(self).handlers@ == old(self).handlers@.push(
                Handler { func, ans, once, called: false, msg_id, msg_name },
            ),
    {
        self.handlers.push(Handler { func, ans, once, called: false, msg_id, msg_name });
    }

    /// Subscribe: `func` runs for every message named `msg_name`.
    pub fn on(&mut self, msg_name: MsgName, func: F)
        ensures
            final(self).handlers@.drop_last() == old(self).handlers@,
            final(self).handlers@.len() == old(self).handlers@.len() + 1,
            final(self).handlers@.last().func == Some(func),
            final(self).handlers@.last().ans is None,
            !final(self).handlers@.last().once,
            !final(self).handlers@.last().called,
            final(self).handlers@.last().msg_id is None,
            opt_view(final(self).handlers@.last().msg_name) == msg_name_view(msg_name),
    {
        let name = match msg_name {
            MsgName::Is(name) => Some(name.to_owned()),
            MsgName::Any => None,
        };
        self.push_handler(Some(func), None, false, None, name);
        assert(self.handlers@.drop_last() =~= old(self).handlers@);
    }

    /// Subscribe on next message: `func` runs for the first message named
    /// `msg_name` only.
    pub fn once(&mut self, msg_name: MsgName, func: F)
        ensures
            final(self).handlers@.drop_last() == old(self).handlers@,
            final(self).handlers@.len() == old(self).handlers@.len() + 1,
            final(self).handlers@.last().func == Some(func),
            final(self).handlers@.last().ans is None,
            final(self).handlers@.last().once,
            !final(self).handlers@.last().called,
            final(self).handlers@.last().msg_id is None,
            opt_view(final(self).handlers@.last().msg_name) == msg_name_view(msg_name),
    {
        let name = match msg_name {
            MsgName::Is(name) => Some(name.to_owned()),
            MsgName::Any => None,
        };
        self.push_handler(Some(func), None, true, None, name);
        assert(self.handlers@.drop_last() =~= old(self).handlers@);
    }

    /// The bookkeeping of a request: a once handler keyed on the request's
    /// id and name that hands the reply to `ans`.
    pub fn expect_reply(&mut self, id: u128, name: &str, ans: A)
        ensures
            final(self).handlers@.drop_last() == old(self).handlers@,
            final(self).handlers@.len() == old(self).handlers@.len() + 1,
            final(self).handlers@.last().func is None,
            final(self).handlers@.last().ans == Some(ans),
            final(self).handlers@.last().once,
            !final(self).handlers@.last().called,
            final(self).handlers@.last().msg_id == Some(id),
            opt_view(final(self).handlers@.last().msg_name) == Some(name@),
    {
        self.push_handler(None, Some(ans), true, Some(id), Some(name.to_owned()));
        assert(self.handlers@.drop_last() =~= old(self).handlers@);
    }

    /// Runs a message from the server through the registry. Returns the
    /// indices of the handlers to run, in registration order, and marks
    /// each once handler among them as called.
    pub fn dispatch(&mut self, msg: &Msg) -> (r: Vec<usize>)
        ensures
            crate::server::indices(r@) == fired(old(self).handlers@, msg.id, msg.name@),
            final(self).handlers@ == old(self).handlers@.map_values(
                |h: Handler<F, A>| h.after(msg.id, msg.name@),
            ),
    {
        let ghost hs = self.handlers@;
        let mut r: Vec<usize> = Vec::new();
        let mut i: usize = 0;
        while i < self.handlers.len()
            invariant
                i <= self.handlers@.len(),
                self.handlers@.len() == hs.len(),
                hs == old(self).handlers@,
                forall|j: int|
                    0 <= j < i ==> self.handlers@[j] == (#[trigger] hs[j]).after(msg.id, msg.name@),
                forall|j: int| i <= j < hs.len() ==> self.handlers@[j] == hs[j],
                crate::server::indices(r@) == fired(hs.subrange(0, i as int), msg.id, msg.name@),
            decreases hs.len() - i,
        {
            let matched = self.handlers[i].matches_msg(msg);
            if matched && !(self.handlers[i].once && self.handlers[i].called) {
                r.push(i);
                if self.handlers[i].once {
                    self.handlers[i].called = true;
                }
            }
            proof {
                assert(hs.subrange(0, i as int + 1).drop_last() =~= hs.subrange(0, i as int));
                assert(crate::server::indices(r@) =~= fired(
                    hs.subrange(0, i as int + 1),
                    msg.id,
                    msg.name@,
                ));
            }
            i += 1;
        }
        assert(hs.subrange(0, hs.len() as int) =~= hs);
        assert(self.handlers@ =~= hs.map_values(|h: Handler<F, A>| h.after(msg.id, msg.name@)));
        r
    }
}

/// A message from the server, parsed from one frame. The server is its
/// only peer, so it carries no connection id.
pub fn parse_msg(bin: &[u8]) -> (r: Msg)
    requires
        parsable(bin@),
    ensures
        r.id as nat == frame_id(bin@),
        r.req == is_req(bin@[12]),
        r.name@ == lossy_text(frame_name(bin@)),
        valid_utf8(frame_name(bin@)) ==> r.name@ == decode_utf8(frame_name(bin@)),
        r.client@ == Seq::<char>::empty(),
        body_view(r.body) == frame_body(bin@),
{
    let m = Msg::from_bytes(bin, "");
    proof {
        reveal_strlit("");
    }
    m
}

/// The name of the handshake exchange, as a frame carries it.
pub open spec fn handshake_name() -> Seq<char> {
    "handshake"@
}

/// The client's first frame: a request named `"handshake"` whose body is
/// the client's label, empty when it has none.
pub fn handshake_frame(id: &[u8], label: Option<&str>) -> (r: Vec<u8>)
    requires
        id@.len() == 12,
    ensures
        r@ == wire(
            id@,
            MSG_REQ | MSG_WITH_BODY,
            encode_utf8(handshake_name()),
            Some(
                match label {
                    Some(l) => encode_utf8(l@),
                    None => Seq::empty(),
                },
            ),
        ),
{
    let body = match label {
        Some(l) => slice_to_vec(l.as_bytes()),
        None => Vec::new(),
    };
    let name = "handshake";
    proof {
        reveal_strlit("handshake");
        vstd::string::is_ascii_spec_bytes(name);
        assert(encode_utf8(name@).len() == 9);
    }
    Msg::encode(id, MSG_REQ | MSG_WITH_BODY, name.as_bytes(), &Some(body))
}

/// What the client does with a frame that arrives while it waits for the
/// handshake reply: a frame of another name is skipped; the reply ends the
/// wait and carries the connection id the server assigned.
pub fn handshake_reply(msg: &Msg) -> (r: (MsgReading, Option<String>))
    ensures
        msg.name@ != handshake_name() ==> r.0 == MsgReading::Continue && r.1 is None,
        msg.name@ == handshake_name() ==> r.0 == MsgReading::Stop && match msg.body {
            Some(b) => opt_view(r.1) == Some(lossy_text(b@)) && (valid_utf8(b@) ==> opt_view(r.1)
                == Some(decode_utf8(b@))),
            None => r.1 is None,
        },
{
    let handshake = "handshake".to_owned();
    if !(msg.name == handshake) {
        return (MsgReading::Continue, None);
    }
    let id = match &msg.body {
        Some(b) => Some(text_of(b.as_slice())),
        None => None,
    };
    (MsgReading::Stop, id)
}

/// Handlers run in the order they were registered: the indices a message
/// selects rise strictly, and an index is among them exactly when its
/// handler fires.
pub proof fn lemma_fired_in_registration_order<F, A>(hs: Seq<Handler<F, A>>, id: u128, name: Seq<char>)
    ensures
        forall|a: int, b: int|
            0 <= a < b < fired(hs, id, name).len() ==> #[trigger] fired(hs, id, name)[a]
                < #[trigger] fired(hs, id, name)[b],
        forall|i: int|
            #[trigger] fired(hs, id, name).contains(i) <==> 0 <= i < hs.len() && hs[i].fires(id, name),
    decreases hs.len(),
{
    if hs.len() > 0 {
        let init = hs.drop_last();
        lemma_fired_in_registration_order(init, id, name);
        let before = fired(init, id, name);
        let f = fired(hs, id, name);
        assert forall|a: int, b: int| 0 <= a < b < f.len() implies #[trigger] f[a] < #[trigger] f[b] by {
            if b < before.len() {
                assert(f[a] == before[a] && f[b] == before[b]);
            } else {
                assert(before.contains(f[a]));
            }
        }
        assert forall|i: int| #[trigger] f.contains(i) <==> 0 <= i < hs.len() && hs[i].fires(id, name) by {
            if f.contains(i) && i != hs.len() - 1 {
                let j = choose|j: int| 0 <= j < f.len() && f[j] == i;
                if j < before.len() {
                    assert(before.contains(i));
                }
                assert(init[i] == hs[i]);
            }
            if 0 <= i < hs.len() && hs[i].fires(id, name) {
                if i < hs.len() - 1 {
                    assert(init[i] == hs[i]);
                    assert(before.contains(i));
                    let j = choose|j: int| 0 <= j < before.len() && before[j] == i;
                    assert(f[j] == i);
                } else {
                    assert(f[f.len() - 1] == i);
                }
            }
        }
    }
}

/// A reply reaches the request it answers and no other: the reply to the
/// pending request `k` runs that request's handler exactly when it has not
/// had its reply yet, and runs no handler of a request with another id.
/// With distinct ids, each request's sink thus gets its own reply alone, and
/// once.
pub proof fn lemma_reply_correlation<F, A>(hs: Seq<Handler<F, A>>, k: int, id: u128, name: Seq<char>)
    requires
        0 <= k < hs.len(),
        hs[k].msg_id == Some(id),
        opt_view(hs[k].msg_name) == Some(name),
        hs[k].once,
    ensures
        fired(hs, id, name).contains(k) <==> !hs[k].called,
        hs[k].after(id, name).called,
        forall|j: int|
            0 <= j < hs.len() && (#[trigger] hs[j]).msg_id is Some && hs[j].msg_id != Some(id)
                ==> !fired(hs, id, name).contains(j),
{
    lemma_fired_in_registration_order(hs, id, name);
}

/// A message as the client's registry sees it: message id and name.
pub type Incoming = (u128, Seq<char>);

/// The handler after the messages `msgs` went through the registry, in order.
pub open spec fn after_all<F, A>(h: Handler<F, A>, msgs: Seq<Incoming>) -> Handler<F, A>
    decreases msgs.len(),
{
    if msgs.len() == 0 {
        h
    } else {
        let m = msgs.last();
        after_all(h, msgs.drop_last()).after(m.0, m.1)
    }
}

/// The handler runs for message `j` of `msgs`, after the ones before it.
pub open spec fn fires_at<F, A>(h: Handler<F, A>, msgs: Seq<Incoming>, j: int) -> bool {
    after_all(h, msgs.take(j)).fires(msgs[j].0, msgs[j].1)
}

/// How many of the messages `msgs` ran the handler.
pub open spec fn times_fired<F, A>(h: Handler<F, A>, msgs: Seq<Incoming>) -> nat
    decreases msgs.len(),
{
    if msgs.len() == 0 {
        0
    } else {
        let m = msgs.last();
        times_fired(h, msgs.drop_last()) + if after_all(h, msgs.drop_last()).fires(m.0, m.1) {
            1nat
        } else {
            0nat
        }
    }
}

/// Some message of `msgs` passes the handler's filters.
pub open spec fn matches_some<F, A>(h: Handler<F, A>, msgs: Seq<Incoming>) -> bool {
    exists|j: int| 0 <= j < msgs.len() && h.matches(#[trigger] msgs[j].0, msgs[j].1)
}

/// Messages change no filter of a handler, nor whether it is a once handler.
pub proof fn lemma_after_all_keeps_filters<F, A>(h: Handler<F, A>, msgs: Seq<Incoming>)
    ensures
        after_all(h, msgs).once == h.once,
        forall|i: u128, n: Seq<char>| #[trigger] after_all(h, msgs).matches(i, n) == h.matches(i, n),
        h.called ==> after_all(h, msgs).called,
    decreases msgs.len(),
{
    if msgs.len() > 0 {
        lemma_after_all_keeps_filters(h, msgs.drop_last());
        let p = after_all(h, msgs.drop_last());
        assert forall|i: u128, n: Seq<char>| #[trigger] after_all(h, msgs).matches(i, n) == h.matches(
            i,
            n,
        ) by {
            assert(p.matches(i, n) == h.matches(i, n));
        }
    }
}

/// A once handler runs for the first message it matches and for no other,
/// however many more it matches; its `called` flag goes from false to true
/// then, and never back.
pub proof fn lemma_once_runs_once<F, A>(h: Handler<F, A>, msgs: Seq<Incoming>)
    requires
        h.once,
        !h.called,
    ensures
        times_fired(h, msgs) == if matches_some(h, msgs) {
            1nat
        } else {
            0nat
        },
        after_all(h, msgs).called == matches_some(h, msgs),
    decreases msgs.len(),
{
    if msgs.len() > 0 {
        let init = msgs.drop_last();
        let m = msgs.last();
        lemma_once_runs_once(h, init);
        lemma_after_all_keeps_filters(h, init);
        let p = after_all(h, init);
        assert(p.matches(m.0, m.1) == h.matches(m.0, m.1));
        if matches_some(h, init) {
            let j = choose|j: int| 0 <= j < init.len() && h.matches(#[trigger] init[j].0, init[j].1);
            assert(msgs[j] == init[j]);
        } else if h.matches(m.0, m.1) {
            assert(msgs[msgs.len() - 1] == m);
        } else {
            assert forall|j: int| 0 <= j < msgs.len() implies !h.matches(
                #[trigger] msgs[j].0,
                msgs[j].1,
            ) by {
                if j < init.len() {
                    assert(msgs[j] == init[j]);
                }
            }
        }
    } else {
        assert(!matches_some(h, msgs));
    }
}

/// Each pending request gets its own reply, once: whatever messages arrive,
/// in whatever order, the handler of a request with id `id` and name `name`
/// runs only for a message with that id and name, and runs exactly once
/// when such a message arrives. Requests with distinct ids thus never see
/// each other's replies.
pub proof fn lemma_requests_get_own_replies<F, A>(
    h: Handler<F, A>,
    id: u128,
    name: Seq<char>,
    msgs: Seq<Incoming>,
)
    requires
        h.once,
        !h.called,
        h.msg_id == Some(id),
        opt_view(h.msg_name) == Some(name),
    ensures
        forall|j: int| 0 <= j < msgs.len() && #[trigger] fires_at(h, msgs, j) ==> msgs[j] == (id, name),
        times_fired(h, msgs) == if exists|j: int| 0 <= j < msgs.len() && #[trigger] msgs[j] == (id, name) {
            1nat
        } else {
            0nat
        },
{
    lemma_once_runs_once(h, msgs);
    assert forall|j: int| 0 <= j < msgs.len() && #[trigger] fires_at(h, msgs, j) implies msgs[j] == (
        id,
        name,
    ) by {
        lemma_after_all_keeps_filters(h, msgs.take(j));
        assert(h.matches(msgs[j].0, msgs[j].1));
    }
    if matches_some(h, msgs) {
        let j = choose|j: int| 0 <= j < msgs.len() && h.matches(#[trigger] msgs[j].0, msgs[j].1);
        assert(msgs[j] == (id, name));
    }
    if exists|j: int| 0 <= j < msgs.len() && #[trigger] msgs[j] == (id, name) {
        let j = choose|j: int| 0 <= j < msgs.len() && #[trigger] msgs[j] == (id, name);
        assert(h.matches(msgs[j].0, msgs[j].1));
    }
}

/// When its stream ends, a client's registry gets the `"disconnect"`
/// message (id 0, no body), and each handler subscribed with `on` to any
/// name runs for it.
pub proof fn lemma_disconnect_reaches_any_handler<F, A>(hs: Seq<Handler<F, A>>, k: int)
    requires
        0 <= k < hs.len(),
        hs[k].msg_id is None,
        hs[k].msg_name is None,
        !hs[k].once,
    ensures
        fired(hs, 0, "disconnect"@).contains(k),
{
    lemma_fired_in_registration_order(hs, 0, "disconnect"@);
}

} // verus!
