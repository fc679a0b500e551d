//! The server's routing state: connected clients and the handler registry,
//! with dispatch, the handshake, subscription and client lookup.
//!
//! The state is generic over what a handler runs (`F`) and over the stream
//! kept for each client (`S`); sockets, threads and the lock around the
//! state belong to the embedding program.

use vstd::prelude::*;
use vstd::slice::{slice_subrange, slice_to_vec};
use vstd::utf8::{decode_utf8, encode_utf8, valid_utf8};
use crate::errors::Error;
use crate::message::{
    body_view, frame_name, is_req, lossy_text, parsable, text_of, wire, Msg, MsgName, MSG_REQ,
    MSG_WITH_BODY,
};
use crate::utils::{uid_from, uid_text};

verus! {

/// A client filter.
pub enum ClientName<'a> {
    Any,
    Is(&'a str),
}

/// What a handler runs: the built-in handshake, or a function of the
/// application.
pub enum Action<F> {
    Handshake,
    User(F),
}

pub struct Handler<F> {
    pub func: Action<F>,
    pub once: bool,
    pub called: bool,
    pub msg_id: Option<u128>,
    pub msg_name: Option<String>,
    pub client_id: Option<String>,
    pub client_name: Option<String>,
}

pub struct ConnectedClient<S> {
    pub id: String,
    pub name: Option<String>,
    pub stream: S,
}

pub struct State<F, S> {
    pub clients: Vec<ConnectedClient<S>>,
    pub handlers: Vec<Handler<F>>,
}

/// The text an optional string holds.
pub open spec fn opt_view(o: Option<String>) -> Option<Seq<char>> {
    match o {
        Some(s) => Some(s@),
        None => None,
    }
}

pub open spec fn client_name_view(c: ClientName) -> Option<Seq<char>> {
    match c {
        ClientName::Any => None,
        ClientName::Is(s) => Some(s@),
    }
}

pub open spec fn msg_name_view(m: MsgName) -> Option<Seq<char>> {
    match m {
        MsgName::Any => None,
        MsgName::Is(s) => Some(s@),
    }
}

/// The client carries the label `name`.
pub open spec fn is_named<S>(c: ConnectedClient<S>, name: Seq<char>) -> bool {
    opt_view(c.name) == Some(name)
}

/// `k` is the first client carrying the label `name`.
pub open spec fn first_named<S>(cs: Seq<ConnectedClient<S>>, name: Seq<char>, k: int) -> bool {
    &&& 0 <= k < cs.len()
    &&& is_named(cs[k], name)
    &&& forall|j: int| 0 <= j < k ==> !is_named(#[trigger] cs[j], name)
}

/// `k` is the first client with connection id `id`.
pub open spec fn first_with_id<S>(cs: Seq<ConnectedClient<S>>, id: Seq<char>, k: int) -> bool {
    &&& 0 <= k < cs.len()
    &&& cs[k].id@ == id
    &&& forall|j: int| 0 <= j < k ==> (#[trigger] cs[j]).id@ != id
}

/// The client goes by `r`, as its connection id or as its label.
pub open spec fn is_ref<S>(c: ConnectedClient<S>, r: Seq<char>) -> bool {
    c.id@ == r || is_named(c, r)
}

impl<F> Handler<F> {
    /// The handler's filters accept a message with this connection id, id
    /// and name. A handler that names a client matches nothing until that
    /// client's connection id is bound to it.
    pub open spec fn matches(&self, client: Seq<char>, id: u128, name: Seq<char>) -> bool {
        &&& (self.msg_id matches Some(x) ==> x == id)
        &&& (self.msg_name matches Some(n) ==> n@ == name)
        &&& (self.client_name is Some ==> opt_view(self.client_id) == Some(client))
    }

    /// The handler runs for that message: it matches, and is not a once
    /// handler that already ran.
    pub open spec fn fires(&self, client: Seq<char>, id: u128, name: Seq<char>) -> bool {
        self.matches(client, id, name) && !(self.once && self.called)
    }

    /// The handler after a message went through the registry.
    pub open spec fn after(self, client: Seq<char>, id: u128, name: Seq<char>) -> Handler<F> {
        if self.fires(client, id, name) && self.once {
            Handler { called: true, ..self }
        } else {
            self
        }
    }

    /// The handshake binds the connection id `id` to this handler when the
    /// label `name` is the one it was registered for.
    pub open spec fn bound(self, id: Seq<char>, name: Seq<char>, next: Handler<F>) -> bool {
        &&& next.func == self.func
        &&& next.once == self.once
        &&& next.called == self.called
        &&& next.msg_id == self.msg_id
        &&& next.msg_name == self.msg_name
        &&& next.client_name == self.client_name
        &&& opt_view(next.client_id) == if opt_view(self.client_name) == Some(name) {
            Some(id)
        } else {
            opt_view(self.client_id)
        }
    }

    fn matches_msg(&self, msg: &Msg) -> (b: bool)
        ensures
            b == self.matches(msg.client@, msg.id, msg.name@),
    {
        let mut matched = true;
        if let Some(x) = &self.msg_id {
            if *x != msg.id {
                matched = false;
            }
        }
        if let Some(n) = &self.msg_name {
            if !(*n == msg.name) {
                matched = false;
            }
        }
        if self.client_name.is_some() {
            match &self.client_id {
                Some(c) => {
                    if !(*c == msg.client) {
                        matched = false;
                    }
                },
                None => {
                    matched = false;
                },
            }
        }
        matched
    }
}

/// The indices of the handlers in `hs` that run for a message, in
/// registration order.
pub open spec fn fired<F>(hs: Seq<Handler<F>>, client: Seq<char>, id: u128, name: Seq<char>) -> Seq<
    int,
>
    decreases hs.len(),
{
    if hs.len() == 0 {
        Seq::empty()
    } else {
        let before = fired(hs.drop_last(), client, id, name);
        if hs.last().fires(client, id, name) {
            before.push(hs.len() - 1)
        } else {
            before
        }
    }
}

pub open spec fn indices(v: Seq<usize>) -> Seq<int> {
    v.map_values(|i: usize| i as int)
}

impl<S> ConnectedClient<S> {
    /// A client record whose connection id is made of the random number
    /// `rd` and the clock reading `ns`.
    pub fn new(name: Option<&str>, stream: S, rd: u64, ns: u32) -> (r: ConnectedClient<S>)
        ensures
            r.id@ == uid_text(rd, ns),
            r.name is Some <==> name is Some,
            name matches Some(n) ==> opt_view(r.name) == Some(n@),
            r.stream == stream,
    {
        let name = match name {
            Some(name) => Some(name.to_owned()),
            None => None,
        };
        ConnectedClient { id: uid_from(rd, ns), name: name, stream: stream }
    }
}

/// The clients of `cs` whose connection id is not `id`, in order.
pub open spec fn without_id<S>(cs: Seq<ConnectedClient<S>>, id: Seq<char>) -> Seq<ConnectedClient<S>>
    decreases cs.len(),
{
    if cs.len() == 0 {
        Seq::empty()
    } else {
        let rest = without_id(cs.drop_last(), id);
        if cs.last().id@ == id {
            rest
        } else {
            rest.push(cs.last())
        }
    }
}

/// What removing the clients with connection id `id` leaves: none of them,
/// only clients that were there, and all of them where none had that id.
pub proof fn lemma_without_id<S>(cs: Seq<ConnectedClient<S>>, id: Seq<char>)
    ensures
        forall|j: int|
            0 <= j < without_id(cs, id).len() ==> (#[trigger] without_id(cs, id)[j]).id@ != id
                && cs.contains(without_id(cs, id)[j]),
        (forall|j: int| 0 <= j < cs.len() ==> (#[trigger] cs[j]).id@ != id) ==> without_id(cs, id) == cs,
    decreases cs.len(),
{
    if cs.len() > 0 {
        let init = cs.drop_last();
        lemma_without_id(init, id);
        let w = without_id(cs, id);
        let wi = without_id(init, id);
        assert forall|j: int| 0 <= j < w.len() implies (#[trigger] w[j]).id@ != id && cs.contains(w[j]) by {
            if j < wi.len() {
                assert(w[j] == wi[j]);
                let i = choose|i: int| 0 <= i < init.len() && init[i] == wi[j];
                assert(cs[i] == init[i]);
            } else {
                assert(cs[cs.len() - 1] == w[j]);
            }
        }
        if forall|j: int| 0 <= j < cs.len() ==> (#[trigger] cs[j]).id@ != id {
            assert forall|j: int| 0 <= j < init.len() implies (#[trigger] init[j]).id@ != id by {
                assert(cs[j] == init[j]);
            }
            assert(cs.last() == cs[cs.len() - 1]);
            assert(init.push(cs.last()) =~= cs);
        }
    }
}

/// Removing the connection id that client `k` alone has leaves one client
/// fewer.
pub proof fn lemma_without_unique_id<S>(cs: Seq<ConnectedClient<S>>, k: int)
    requires
        0 <= k < cs.len(),
        forall|j: int| 0 <= j < cs.len() && j != k ==> (#[trigger] cs[j]).id@ != cs[k].id@,
    ensures
        without_id(cs, cs[k].id@).len() == cs.len() - 1,
    decreases cs.len(),
{
    let id = cs[k].id@;
    let init = cs.drop_last();
    if k == cs.len() - 1 {
        assert forall|j: int| 0 <= j < init.len() implies (#[trigger] init[j]).id@ != id by {
            assert(cs[j] == init[j]);
        }
        lemma_without_id(init, id);
    } else {
        assert(init[k] == cs[k]);
        assert forall|j: int| 0 <= j < init.len() && j != k implies (#[trigger] init[j]).id@ != id by {
            assert(cs[j] == init[j]);
        }
        assert(cs.last() == cs[cs.len() - 1]);
        lemma_without_unique_id(init, k);
    }
}

impl<F, S> State<F, S> {
    /// The handshake handler: first in every registry, never removed.
    pub open spec fn is_handshake_handler(h: Handler<F>) -> bool {
        &&& h.func is Handshake
        &&& !h.once
        &&& !h.called
        &&& h.msg_id is None
        &&& opt_view(h.msg_name) == Some("handshake"@)
        &&& h.client_id is None
        &&& h.client_name is None
    }

    /// `next` is `prev` with one handler added for these filters. The client
    /// filter is resolved to the connection id of the first client that
    /// carries that label, if one does.
    pub open spec fn subscribed(
        prev: State<F, S>,
        next: State<F, S>,
        client_name: Option<Seq<char>>,
        msg_name: Option<Seq<char>>,
        once: bool,
        func: F,
    ) -> bool {
        let h = next.handlers@.last();
        &&& next.clients == prev.clients
        &&& next.handlers@.len() == prev.handlers@.len() + 1
        &&& next.handlers@.drop_last() == prev.handlers@
        &&& h.func == Action::User(func)
        &&& h.once == once
        &&& !h.called
        &&& h.msg_id is None
        &&& opt_view(h.msg_name) == msg_name
        &&& opt_view(h.client_name) == client_name
        &&& match client_name {
            None => h.client_id is None,
            Some(x) => match opt_view(h.client_id) {
                Some(c) => exists|k: int|
                    first_named(prev.clients@, x, k) && c == (#[trigger] prev.clients@[k]).id@,
                None => forall|k: int|
                    0 <= k < prev.clients@.len() ==> !is_named(#[trigger] prev.clients@[k], x),
            },
        }
    }

    /// `next` is `prev` after the client with connection id `id` handshaked
    /// with label `body`: that client carries the label, and each handler
    /// registered for the label is bound to `id`. Without a label nothing
    /// changes.
    pub open spec fn handshaked(
        prev: State<F, S>,
        next: State<F, S>,
        id: Seq<char>,
        body: Option<Seq<u8>>,
    ) -> bool {
        match body {
            None => next == prev,
            Some(b) => {
                &&& next.clients@.len() == prev.clients@.len()
                &&& forall|k: int|
                    0 <= k < prev.clients@.len() ==> {
                        let (p, n) = (#[trigger] prev.clients@[k], next.clients@[k]);
                        &&& n.id == p.id
                        &&& n.stream == p.stream
                        &&& if first_with_id(prev.clients@, id, k) {
                            opt_view(n.name) == Some(lossy_text(b))
                        } else {
                            n.name == p.name
                        }
                    }
                &&& next.handlers@.len() == prev.handlers@.len()
                &&& forall|i: int|
                    0 <= i < prev.handlers@.len() ==> (#[trigger] prev.handlers@[i]).bound(
                        id,
                        lossy_text(b),
                        next.handlers@[i],
                    )
            },
        }
    }

    /// `next` is `prev` without the clients whose connection id is `id`.
    pub open spec fn removed(prev: State<F, S>, next: State<F, S>, id: Seq<char>) -> bool {
        &&& next.handlers == prev.handlers
        &&& next.clients@ == without_id(prev.clients@, id)
    }

    /// Construct the state of a new server: no clients, and the handshake
    /// handler alone in the registry.
    pub fn new() -> (r: State<F, S>)
        ensures
            r.clients@.len() == 0,
            r.handlers@.len() == 1,
            Self::is_handshake_handler(r.handlers@[0]),
    {
        let mut handlers: Vec<Handler<F>> = Vec::new();
        handlers.push(
            Handler {
                func: Action::Handshake,
                once: false,
                called: false,
                msg_id: None,
                msg_name: Some("handshake".to_owned()),
                client_id: None,
                client_name: None,
            },
        );
        State { clients: Vec::new(), handlers: handlers }
    }

    /// Registers an accepted client.
    pub fn add_client(&mut self, client: ConnectedClient<S>)
        ensures
            final(self).clients@ == old(self).clients@.push(client),
            final(self).handlers == old(self).handlers,
    {
        self.clients.push(client);
    }

    /// The first client carrying the label `name`.
    pub fn find_named(&self, name: &str) -> (r: Option<usize>)
        ensures
            match r {
                Some(k) => first_named(self.clients@, name@, k as int),
                None => forall|k: int|
                    0 <= k < self.clients@.len() ==> !is_named(#[trigger] self.clients@[k], name@),
            },
    {
        let target = name.to_owned();
        let mut i: usize = 0;
        while i < self.clients.len()
            invariant
                i <= self.clients@.len(),
                target@ == name@,
                forall|j: int| 0 <= j < i ==> !is_named(#[trigger] self.clients@[j], name@),
            decreases self.clients@.len() - i,
        {
            if let Some(n) = &self.clients[i].name {
                if *n == target {
                    return Some(i);
                }
            }
            i += 1;
        }
        None
    }

    /// The first client with connection id `id`.
    pub fn find_by_id(&self, id: &str) -> (r: Option<usize>)
        ensures
            match r {
                Some(k) => first_with_id(self.clients@, id@, k as int),
                None => forall|k: int|
                    0 <= k < self.clients@.len() ==> (#[trigger] self.clients@[k]).id@ != id@,
            },
    {
        let target = id.to_owned();
        let mut i: usize = 0;
        while i < self.clients.len()
            invariant
                i <= self.clients@.len(),
                target@ == id@,
                forall|j: int| 0 <= j < i ==> (#[trigger] self.clients@[j]).id@ != id@,
            decreases self.clients@.len() - i,
        {
            if self.clients[i].id == target {
                return Some(i);
            }
            i += 1;
        }
        None
    }

    /// The first client that goes by `client`, as connection id or label;
    /// the client to disconnect.
    pub fn find_client(&self, client: &str) -> (r: Result<usize, Error>)
        ensures
            match r {
                Ok(k) => 0 <= k < self.clients@.len() && is_ref(self.clients@[k as int], client@)
                    && forall|j: int| 0 <= j < k ==> !is_ref(#[trigger] self.clients@[j], client@),
                Err(e) => e is ClientNotFound && forall|k: int|
                    0 <= k < self.clients@.len() ==> !is_ref(#[trigger] self.clients@[k], client@),
            },
    {
        let target = client.to_owned();
        let mut i: usize = 0;
        while i < self.clients.len()
            invariant
                i <= self.clients@.len(),
                target@ == client@,
                forall|j: int| 0 <= j < i ==> !is_ref(#[trigger] self.clients@[j], client@),
            decreases self.clients@.len() - i,
        {
            let c = &self.clients[i];
            if c.id == target {
                return Ok(i);
            }
            if let Some(n) = &c.name {
                if *n == target {
                    return Ok(i);
                }
            }
            i += 1;
        }
        Err(Error::ClientNotFound)
    }

    /// Removes the clients with connection id `id`, keeping the order of the
    /// others: what the reader of a connection does when its stream ends.
    pub fn remove_client(&mut self, id: &str)
        ensures
            Self::removed(*old(self), *final(self), id@),
    {
        let ghost cs = self.clients@;
        let target = id.to_owned();
        let mut i: usize = 0;
        let ghost mut j: int = 0;
        assert(cs.take(0) =~= Seq::<ConnectedClient<S>>::empty());
        assert(cs.skip(0) =~= cs);
        assert(without_id(cs.take(0), id@) + cs.skip(0) =~= cs);
        while i < self.clients.len()
            invariant
                target@ == id@,
                self.handlers == old(self).handlers,
                cs == old(self).clients@,
                0 <= j <= cs.len(),
                self.clients@ == without_id(cs.take(j), id@) + cs.skip(j),
                i == without_id(cs.take(j), id@).len(),
            decreases self.clients@.len() - i,
        {
            let ghost before = without_id(cs.take(j), id@);
            assert(self.clients@[i as int] == cs[j]);
            assert(cs.take(j + 1).drop_last() =~= cs.take(j));
            assert(cs.take(j + 1).last() == cs[j]);
            if self.clients[i].id == target {
                let _c = self.clients.remove(i);
                assert(self.clients@ =~= without_id(cs.take(j + 1), id@) + cs.skip(j + 1));
            } else {
                i += 1;
                assert(self.clients@ =~= without_id(cs.take(j + 1), id@) + cs.skip(j + 1));
            }
            proof {
                j = j + 1;
            }
        }
        assert(cs.take(j) =~= cs);
        assert(self.clients@ =~= without_id(cs, id@));
    }

    /// Adds a handler for messages named `msg_name` from clients labelled
    /// `client_name`. Where a client with that label is already connected,
    /// the handler is bound to its connection id now; otherwise the
    /// handshake of such a client binds it later.
    pub fn subs(&mut self, client_name: ClientName, msg_name: MsgName, once: bool, func: F)
        ensures
            Self::subscribed(
                *old(self),
                *final(self),
                client_name_view(client_name),
                msg_name_view(msg_name),
                once,
                func,
            ),
    {
        let client_id = match client_name {
            ClientName::Is(name) => match self.find_named(name) {
                Some(k) => Some(self.clients[k].id.clone()),
                None => None,
            },
            ClientName::Any => None,
        };
        let client_name = match client_name {
            ClientName::Is(name) => Some(name.to_owned()),
            ClientName::Any => None,
        };
        let msg_name = match msg_name {
            MsgName::Is(name) => Some(name.to_owned()),
            MsgName::Any => None,
        };
        let ghost prev = self.handlers@;
        self.handlers.push(
            Handler {
                func: Action::User(func),
                once: once,
                called: false,
                msg_id: None,
                msg_name: msg_name,
                client_id: client_id,
                client_name: client_name,
            },
        );
        assert(self.handlers@.drop_last() =~= prev);
    }

    /// Runs a message from a client through the registry. Returns the
    /// indices of the handlers to run, in registration order, and marks
    /// each once handler among them as called.
    pub fn dispatch(&mut self, msg: &Msg) -> (r: Vec<usize>)
        ensures
            indices(r@) == fired(old(self).handlers@, msg.client@, msg.id, msg.name@),
            final(self).handlers@ == old(self).handlers@.map_values(
                |h: Handler<F>| h.after(msg.client@, msg.id, msg.name@),
            ),
            final(self).clients == old(self).clients,
    {
        let ghost hs = self.handlers@;
        let mut r: Vec<usize> = Vec::new();
        let mut i: usize = 0;
        while i < self.handlers.len()
            invariant
                i <= self.handlers@.len(),
                self.handlers@.len() == hs.len(),
                self.clients == old(self).clients,
                hs == old(self).handlers@,
                forall|j: int|
                    0 <= j < i ==> self.handlers@[j] == (#[trigger] hs[j]).after(
                        msg.client@,
                        msg.id,
                        msg.name@,
                    ),
                forall|j: int| i <= j < hs.len() ==> self.handlers@[j] == hs[j],
                indices(r@) == fired(hs.subrange(0, i as int), msg.client@, msg.id, msg.name@),
            decreases hs.len() - i,
        {
            let ghost before = r@;
            let matched = self.handlers[i].matches_msg(msg);
            if matched && !(self.handlers[i].once && self.handlers[i].called) {
                r.push(i);
                if self.handlers[i].once {
                    self.handlers[i].called = true;
                }
            }
            proof {
                assert(hs.subrange(0, i as int + 1).drop_last() =~= hs.subrange(0, i as int));
                assert(indices(r@) =~= fired(
                    hs.subrange(0, i as int + 1),
                    msg.client@,
                    msg.id,
                    msg.name@,
                ));
            }
            i += 1;
        }
        assert(hs.subrange(0, hs.len() as int) =~= hs);
        assert(self.handlers@ =~= hs.map_values(
            |h: Handler<F>| h.after(msg.client@, msg.id, msg.name@),
        ));
        r
    }

    /// The handshake handler: the client with connection id `client_id`
    /// takes the label in `body`, and the handlers registered for that label
    /// are bound to it. Returns the reply body: the connection id.
    pub fn handshake(&mut self, client_id: &str, body: &Option<Vec<u8>>) -> (r: Vec<u8>)
        ensures
            r@ == encode_utf8(client_id@),
            Self::handshaked(*old(self), *final(self), client_id@, body_view(*body)),
            match body_view(*body) {
                Some(b) => valid_utf8(b) ==> lossy_text(b) == decode_utf8(b),
                None => true,
            },
    {
        if let Some(b) = body {
            let new_name = text_of(b.as_slice());
            let ghost cs = self.clients@;
            match self.find_by_id(client_id) {
                Some(k) => {
                    self.clients[k].name = Some(new_name.clone());
                },
                None => {},
            }
            assert(forall|k: int|
                0 <= k < cs.len() ==> {
                    let (p, n) = (#[trigger] cs[k], self.clients@[k]);
                    &&& n.id == p.id
                    &&& n.stream == p.stream
                    &&& if first_with_id(cs, client_id@, k) {
                        opt_view(n.name) == Some(lossy_text(b@))
                    } else {
                        n.name == p.name
                    }
                });
            let ghost hs = self.handlers@;
            let mut i: usize = 0;
            while i < self.handlers.len()
                invariant
                    i <= self.handlers@.len(),
                    self.handlers@.len() == hs.len(),
                    self.clients@.len() == cs.len(),
                    cs == old(self).clients@,
                    hs == old(self).handlers@,
                    new_name@ == lossy_text(b@),
                    forall|k: int|
                        0 <= k < cs.len() ==> {
                            let (p, n) = (#[trigger] cs[k], self.clients@[k]);
                            &&& n.id == p.id
                            &&& n.stream == p.stream
                            &&& if first_with_id(cs, client_id@, k) {
                                opt_view(n.name) == Some(lossy_text(b@))
                            } else {
                                n.name == p.name
                            }
                        },
                    forall|j: int|
                        0 <= j < i ==> (#[trigger] hs[j]).bound(
                            client_id@,
                            lossy_text(b@),
                            self.handlers@[j],
                        ),
                    forall|j: int| i <= j < hs.len() ==> self.handlers@[j] == hs[j],
                decreases hs.len() - i,
            {
                let hit = match &self.handlers[i].client_name {
                    Some(n) => *n == new_name,
                    None => false,
                };
                if hit {
                    self.handlers[i].client_id = Some(client_id.to_owned());
                }
                i += 1;
            }
        }
        slice_to_vec(client_id.as_bytes())
    }
}

/// The frame that answers the frame `request`, when it is a request: the
/// request's id and name bytes unchanged, meta `MSG_WITH_BODY`, and the
/// handler's reply as body, empty when the handler gave none. Nothing
/// answers a frame that is not a request.
pub fn reply(request: &[u8], ans: Option<Vec<u8>>) -> (r: Option<Vec<u8>>)
    requires
        parsable(request@),
    ensures
        match r {
            Some(f) => is_req(request@[12]) && f@ == wire(
                request@.subrange(0, 12),
                MSG_WITH_BODY,
                frame_name(request@),
                Some(
                    match ans {
                        Some(a) => a@,
                        None => Seq::empty(),
                    },
                ),
            ),
            None => !is_req(request@[12]),
        },
{
    if request[12] & MSG_REQ != MSG_REQ {
        return None;
    }
    let body = match ans {
        Some(a) => a,
        None => Vec::new(),
    };
    let name_end: usize = request[13] as usize + 14;
    Some(
        Msg::encode(
            slice_subrange(request, 0, 12),
            MSG_WITH_BODY,
            slice_subrange(request, 14, name_end),
            &Some(body),
        ),
    )
}

/// A message as the dispatcher sees it: connection id, message id, name.
pub type Incoming = (Seq<char>, u128, Seq<char>);

/// The handler after the messages `msgs` went through the registry, in order.
pub open spec fn after_all<F>(h: Handler<F>, msgs: Seq<Incoming>) -> Handler<F>
    decreases msgs.len(),
{
    if msgs.len() == 0 {
        h
    } else {
        let m = msgs.last();
        after_all(h, msgs.drop_last()).after(m.0, m.1, m.2)
    }
}

/// How many of the messages `msgs` ran the handler.
pub open spec fn times_fired<F>(h: Handler<F>, msgs: Seq<Incoming>) -> nat
    decreases msgs.len(),
{
    if msgs.len() == 0 {
        0
    } else {
        let m = msgs.last();
        times_fired(h, msgs.drop_last()) + if after_all(h, msgs.drop_last()).fires(m.0, m.1, m.2) {
            1nat
        } else {
            0nat
        }
    }
}

/// Some message of `msgs` passes the handler's filters.
pub open spec fn matches_some<F>(h: Handler<F>, msgs: Seq<Incoming>) -> bool {
    exists|j: int| 0 <= j < msgs.len() && h.matches(#[trigger] msgs[j].0, msgs[j].1, msgs[j].2)
}

/// Handlers run in the order they were registered: the indices a message
/// selects rise strictly, and an index is among them exactly when its
/// handler fires.
pub proof fn lemma_fired_in_registration_order<F>(
    hs: Seq<Handler<F>>,
    client: Seq<char>,
    id: u128,
    name: Seq<char>,
)
    ensures
        forall|a: int, b: int|
            0 <= a < b < fired(hs, client, id, name).len() ==> #[trigger] fired(
                hs,
                client,
                id,
                name,
            )[a] < #[trigger] fired(hs, client, id, name)[b],
        forall|i: int|
            #[trigger] fired(hs, client, id, name).contains(i) <==> 0 <= i < hs.len()
                && hs[i].fires(client, id, name),
    decreases hs.len(),
{
    if hs.len() > 0 {
        let init = hs.drop_last();
        lemma_fired_in_registration_order(init, client, id, name);
        let before = fired(init, client, id, name);
        assert forall|i: int| #[trigger] before.contains(i) implies i < hs.len() - 1 by {}
        let f = fired(hs, client, id, name);
        assert forall|a: int, b: int| 0 <= a < b < f.len() implies #[trigger] f[a] < #[trigger] f[b] by {
            if b < before.len() {
                assert(f[a] == before[a] && f[b] == before[b]);
            } else {
                assert(before.contains(f[a]));
            }
        }
        assert forall|i: int| #[trigger] f.contains(i) <==> 0 <= i < hs.len() && hs[i].fires(
            client,
            id,
            name,
        ) by {
            if f.contains(i) && i != hs.len() - 1 {
                let j = choose|j: int| 0 <= j < f.len() && f[j] == i;
                if j < before.len() {
                    assert(before.contains(i));
                }
                assert(init[i] == hs[i]);
            }
            if 0 <= i < hs.len() && hs[i].fires(client, id, name) {
                if i < hs.len() - 1 {
                    assert(init[i] == hs[i]);
                    assert(before.contains(i));
                    let j = choose|j: int| 0 <= j < before.len() && before[j] == i;
                    assert(f[j] == i);
                } else {
                    assert(f[f.len() - 1] == i);
                }
            }
        }
    }
}

/// Messages change no filter of a handler, nor whether it is a once handler.
pub proof fn lemma_after_all_keeps_filters<F>(h: Handler<F>, msgs: Seq<Incoming>)
    ensures
        after_all(h, msgs).once == h.once,
        forall|c: Seq<char>, i: u128, n: Seq<char>|
            #[trigger] after_all(h, msgs).matches(c, i, n) == h.matches(c, i, n),
        h.called ==> after_all(h, msgs).called,
    decreases msgs.len(),
{
    if msgs.len() > 0 {
        lemma_after_all_keeps_filters(h, msgs.drop_last());
        let p = after_all(h, msgs.drop_last());
        assert forall|c: Seq<char>, i: u128, n: Seq<char>|
            #[trigger] after_all(h, msgs).matches(c, i, n) == h.matches(c, i, n) by {
            assert(p.matches(c, i, n) == h.matches(c, i, n));
        }
    }
}

/// A once handler runs for the first message it matches and for no other,
/// however many more it matches; its `called` flag goes from false to true
/// then, and never back.
pub proof fn lemma_once_runs_once<F>(h: Handler<F>, msgs: Seq<Incoming>)
    requires
        h.once,
        !h.called,
    ensures
        times_fired(h, msgs) == if matches_some(h, msgs) {
            1nat
        } else {
            0nat
        },
        after_all(h, msgs).called == matches_some(h, msgs),
    decreases msgs.len(),
{
    if msgs.len() > 0 {
        let init = msgs.drop_last();
        let m = msgs.last();
        lemma_once_runs_once(h, init);
        lemma_after_all_keeps_filters(h, init);
        let p = after_all(h, init);
        assert(p.matches(m.0, m.1, m.2) == h.matches(m.0, m.1, m.2));
        if matches_some(h, init) {
            let j = choose|j: int| 0 <= j < init.len() && h.matches(#[trigger] init[j].0, init[j].1, init[j].2);
            assert(msgs[j] == init[j]);
        } else if h.matches(m.0, m.1, m.2) {
            assert(msgs[msgs.len() - 1] == m);
        } else {
            assert forall|j: int| 0 <= j < msgs.len() implies !h.matches(
                #[trigger] msgs[j].0,
                msgs[j].1,
                msgs[j].2,
            ) by {
                if j < init.len() {
                    assert(msgs[j] == init[j]);
                }
            }
        }
    } else {
        assert(!matches_some(h, msgs));
    }
}

/// A handler registered for a label before any client carries it matches
/// nothing at first; once a client that connects later handshakes with that
/// label, the handler runs for that client's messages of its name.
pub proof fn lemma_late_binding<F, S>(
    before: State<F, S>,
    registered: State<F, S>,
    connected: State<F, S>,
    labelled: State<F, S>,
    label: Seq<u8>,
    msg_name: Seq<char>,
    once: bool,
    func: F,
    c: ConnectedClient<S>,
    id: u128,
)
    requires
        forall|k: int| 0 <= k < before.clients@.len() ==> !is_named(#[trigger] before.clients@[k], lossy_text(label)),
        State::subscribed(before, registered, Some(lossy_text(label)), Some(msg_name), once, func),
        connected.clients@ == registered.clients@.push(c),
        connected.handlers == registered.handlers,
        State::handshaked(connected, labelled, c.id@, Some(label)),
    ensures
        forall|cl: Seq<char>, i: u128, n: Seq<char>|
            !(#[trigger] registered.handlers@.last().matches(cl, i, n)),
        labelled.handlers@[registered.handlers@.len() - 1].fires(c.id@, id, msg_name),
{
    let k = registered.handlers@.len() - 1;
    assert(registered.handlers@[k] == registered.handlers@.last());
    assert(connected.handlers@[k] == registered.handlers@[k]);
    assert(connected.handlers@[k].bound(c.id@, lossy_text(label), labelled.handlers@[k]));
}

/// After the reader of a client removed it, no client has its connection
/// id, every client left was there before, and where no other client carried
/// the label `label`, a send to that label finds nobody. Where its
/// connection id was its own, the list is one shorter.
pub proof fn lemma_removed_client_is_gone<F, S>(
    prev: State<F, S>,
    next: State<F, S>,
    k: int,
    label: Seq<char>,
)
    requires
        0 <= k < prev.clients@.len(),
        State::removed(prev, next, prev.clients@[k].id@),
    ensures
        forall|j: int|
            0 <= j < next.clients@.len() ==> (#[trigger] next.clients@[j]).id@ != prev.clients@[k].id@
                && prev.clients@.contains(next.clients@[j]),
        (forall|j: int|
            0 <= j < prev.clients@.len() && (#[trigger] prev.clients@[j]).id@ != prev.clients@[k].id@
                ==> !is_named(prev.clients@[j], label)) ==> forall|j: int|
            0 <= j < next.clients@.len() ==> !is_named(#[trigger] next.clients@[j], label),
        (forall|j: int|
            0 <= j < prev.clients@.len() && j != k ==> (#[trigger] prev.clients@[j]).id@
                != prev.clients@[k].id@) ==> next.clients@.len() == prev.clients@.len() - 1,
{
    let id = prev.clients@[k].id@;
    lemma_without_id(prev.clients@, id);
    if forall|j: int|
        0 <= j < prev.clients@.len() && (#[trigger] prev.clients@[j]).id@ != id ==> !is_named(
            prev.clients@[j],
            label,
        ) {
        assert forall|j: int| 0 <= j < next.clients@.len() implies !is_named(
            #[trigger] next.clients@[j],
            label,
        ) by {
            let i = choose|i: int| 0 <= i < prev.clients@.len() && prev.clients@[i] == next.clients@[j];
            assert(prev.clients@[i].id@ != id);
        }
    }
    if forall|j: int|
        0 <= j < prev.clients@.len() && j != k ==> (#[trigger] prev.clients@[j]).id@ != id {
        lemma_without_unique_id(prev.clients@, k);
    }
}

/// Adding a handler grows the registry by one: a fresh server holds the
/// handshake handler alone, and one subscription brings it to two.
pub proof fn lemma_subscribe_adds_one<F, S>(
    prev: State<F, S>,
    next: State<F, S>,
    client_name: Option<Seq<char>>,
    msg_name: Option<Seq<char>>,
    once: bool,
    func: F,
)
    requires
        State::subscribed(prev, next, client_name, msg_name, once, func),
    ensures
        next.handlers@.len() == prev.handlers@.len() + 1,
        prev.handlers@.len() == 1 ==> next.handlers@.len() == 2,
        next.handlers@[0] == prev.handlers@[0] || prev.handlers@.len() == 0,
{
    if prev.handlers@.len() > 0 {
        assert(next.handlers@.drop_last()[0] == next.handlers@[0]);
    }
}

} // verus!
