use arida::client::{self, handshake_frame, handshake_reply, parse_msg};
use arida::decoder::Decoder;
use arida::message::{MsgReading, MSG_REQ, MSG_WITH_BODY};
use arida::server::{reply, Action, ConnectedClient, State};
use arida::utils::{bid_from, bid_to_u128};
use arida::{ClientName, Error, Msg, MsgName};

/// A message id for test number `n`.
fn bid_n(n: u64) -> [u8; 12] {
    bid_from(0, n)
}

type ServerFn = fn(&Msg) -> Option<Vec<u8>>;
type ServerState = State<ServerFn, usize>;
type ClientState = client::State<&'static str, usize>;

fn none(_: &Msg) -> Option<Vec<u8>> {
    None
}

fn repeat3(m: &Msg) -> Option<Vec<u8>> {
    m.body.as_ref().map(|b| b.repeat(3))
}

fn upper(m: &Msg) -> Option<Vec<u8>> {
    m.body.as_ref().map(|b| b.to_ascii_uppercase())
}

/// Runs one frame from connection `conn` through the server: dispatch, the
/// selected handlers in order, and the replies they give. Returns the
/// indices of the handlers that ran and the reply frames.
fn server_receive(state: &mut ServerState, conn: &str, frame: &[u8]) -> (Vec<usize>, Vec<Vec<u8>>) {
    let msg = Msg::from_bytes(frame, conn);
    let fired = state.dispatch(&msg);
    let mut replies = Vec::new();
    for &i in &fired {
        let ans = match &state.handlers[i].func {
            Action::Handshake => Some(state.handshake(&msg.client, &msg.body)),
            Action::User(f) => f(&msg),
        };
        if let Some(r) = reply(frame, ans) {
            replies.push(r);
        }
    }
    (fired, replies)
}

/// Accepts a connection and runs its handshake; returns its connection id.
fn connect(state: &mut ServerState, label: &str, peer: usize) -> String {
    state.add_client(ConnectedClient::new(None, peer, 1000 + peer as u64, peer as u32));
    let conn = state.clients.last().unwrap().id.clone();
    let (_, replies) = server_receive(state, &conn, &handshake_frame(&bid_n(101), Some(label)));
    assert_eq!(replies.len(), 1);
    let (step, id) = handshake_reply(&parse_msg(&replies[0]));
    assert_eq!(step, MsgReading::Stop);
    assert_eq!(id.as_deref(), Some(conn.as_str()));
    conn
}

/// Decodes what the server sent to a client and runs it through the
/// client's registry; returns, per message, the names of the handlers that
/// ran and the bodies handed to reply sinks.
fn client_receive(
    state: &mut ClientState,
    bytes: &[u8],
) -> Vec<(Msg, Vec<&'static str>, Vec<(usize, Option<Vec<u8>>)>)> {
    let mut d = Decoder::new();
    let mut out = Vec::new();
    for frame in d.feed(bytes) {
        let msg = parse_msg(&frame);
        let fired = state.dispatch(&msg);
        let mut funcs = Vec::new();
        let mut answers = Vec::new();
        for i in fired {
            let h = &state.handlers[i];
            if let Some(sink) = h.ans {
                answers.push((sink, msg.body.clone()));
            }
            if let Some(f) = h.func {
                funcs.push(f);
            }
        }
        out.push((msg, funcs, answers));
    }
    out
}

#[test]
fn adding_new_handler() {
    let mut server: ServerState = State::new();

    // Only one handler - handshake
    assert_eq!(server.handlers.len(), 1);

    // Add handler
    server.subs(ClientName::Any, MsgName::Any, false, none);
    assert_eq!(server.handlers.len(), 2);
}

#[test]
fn fresh_server_has_only_the_handshake_handler() {
    let server: ServerState = State::new();
    assert!(server.clients.is_empty());
    let h = &server.handlers[0];
    assert!(matches!(h.func, Action::Handshake));
    assert_eq!(h.msg_name.as_deref(), Some("handshake"));
    assert!(!h.once && !h.called && h.client_name.is_none());
}

#[test]
fn handlers_fire_in_registration_order() {
    let mut s: ServerState = State::new();
    s.subs(ClientName::Any, MsgName::Is("m"), false, none);
    s.subs(ClientName::Any, MsgName::Any, false, none);
    s.subs(ClientName::Any, MsgName::Is("other"), false, none);
    s.subs(ClientName::Any, MsgName::Is("m"), false, none);
    let msg = Msg::new("c", 1, 0, "m");
    assert_eq!(s.dispatch(&msg), vec![1, 2, 4]);
}

#[test]
fn once_handler_runs_once() {
    let mut s: ServerState = State::new();
    s.subs(ClientName::Any, MsgName::Is("ping"), true, none);
    let ping = Msg::new("c", 1, 0, "ping");
    assert!(!s.handlers[1].called);
    assert_eq!(s.dispatch(&ping), vec![1]);
    assert!(s.handlers[1].called);
    assert_eq!(s.dispatch(&ping), Vec::<usize>::new());
    assert_eq!(s.dispatch(&ping), Vec::<usize>::new());
    assert!(s.handlers[1].called);
}

#[test]
fn handler_for_unbound_label_matches_nothing() {
    let mut s: ServerState = State::new();
    s.subs(ClientName::Is("x"), MsgName::Any, false, none);
    assert!(s.handlers[1].client_id.is_none());
    assert_eq!(s.dispatch(&Msg::new("anyone", 1, 0, "m")), Vec::<usize>::new());
}

#[test]
fn subscribing_binds_an_already_connected_client() {
    let mut s: ServerState = State::new();
    let conn = connect(&mut s, "c1", 0);
    s.subs(ClientName::Is("c1"), MsgName::Is("m"), false, none);
    assert_eq!(s.handlers[1].client_id.as_deref(), Some(conn.as_str()));
    assert_eq!(s.dispatch(&Msg::new(&conn, 1, 0, "m")), vec![1]);
    assert_eq!(s.dispatch(&Msg::new("someone-else", 1, 0, "m")), Vec::<usize>::new());
}

#[test]
fn handshake_labels_client_and_answers_with_connection_id() {
    let mut s: ServerState = State::new();
    s.add_client(ConnectedClient::new(None, 0, 7, 8));
    let conn = s.clients[0].id.clone();
    assert_eq!(conn.len(), 12);
    let r = s.handshake(&conn, &Some(b"label".to_vec()));
    assert_eq!(r, conn.as_bytes().to_vec());
    assert_eq!(s.clients[0].name.as_deref(), Some("label"));
    // no label: nothing changes, the id is still the answer
    let mut other: ServerState = State::new();
    other.add_client(ConnectedClient::new(Some("pre"), 0, 9, 10));
    let other_conn = other.clients[0].id.clone();
    assert_eq!(other.handshake(&other_conn, &None), other_conn.as_bytes().to_vec());
    assert_eq!(other.clients[0].name.as_deref(), Some("pre"));
}

#[test]
fn find_client_by_id_or_label() {
    let mut s: ServerState = State::new();
    let a = connect(&mut s, "c1", 0);
    let b = connect(&mut s, "c2", 1);
    assert_eq!(s.find_client("c2").unwrap(), 1);
    assert_eq!(s.find_client(&a).unwrap(), 0);
    assert_eq!(s.find_by_id(&b), Some(1));
    assert_eq!(s.find_named("c1"), Some(0));
    assert_eq!(s.find_named("c3"), None);
    assert!(matches!(s.find_client("nobody"), Err(Error::ClientNotFound)));
}

#[test]
fn remove_client_by_connection_id() {
    let mut s: ServerState = State::new();
    let a = connect(&mut s, "c1", 0);
    let _b = connect(&mut s, "c2", 1);
    s.remove_client(&a);
    assert_eq!(s.clients.len(), 1);
    assert_eq!(s.find_by_id(&a), None);
    assert_eq!(s.find_named("c1"), None);
    s.remove_client("unknown");
    assert_eq!(s.clients.len(), 1);
}

#[test]
fn client_record_id_made_from_drawn_values() {
    let c = ConnectedClient::new(Some("x"), 5usize, 68699660417, 5);
    assert_eq!(c.id, "bcA0-_afaaaa");
    assert_eq!(c.name.as_deref(), Some("x"));
    assert_eq!(c.stream, 5);
}

#[test]
fn remove_client_drops_every_record_with_the_id() {
    let mut s: ServerState = State::new();
    s.add_client(ConnectedClient::new(Some("a"), 0, 1, 1));
    s.add_client(ConnectedClient::new(Some("b"), 1, 2, 2));
    s.add_client(ConnectedClient::new(Some("c"), 2, 1, 1));
    let dup = s.clients[0].id.clone();
    s.remove_client(&dup);
    assert_eq!(s.clients.len(), 1);
    assert_eq!(s.clients[0].name.as_deref(), Some("b"));
    assert_eq!(s.find_by_id(&dup), None);
}

#[test]
fn reply_only_to_requests_and_always_with_body() {
    let req = Msg::raw(77, MSG_REQ, "q", None);
    let f = reply(&req, None).unwrap();
    assert_eq!(f, Msg::raw(77, MSG_WITH_BODY, "q", Some(vec![])));
    assert_eq!(f.len(), 23);
    let f = reply(&req, Some(vec![1, 2])).unwrap();
    assert_eq!(f, Msg::raw(77, MSG_WITH_BODY, "q", Some(vec![1, 2])));
    let note = Msg::raw(77, 0, "q", None);
    assert!(reply(&note, Some(vec![1])).is_none());
}

#[test]
fn reply_echoes_name_bytes_unchanged() {
    let id = [7u8; 12];
    let req = Msg::encode(&id, MSG_REQ | MSG_WITH_BODY, &[b'n', 0xff], &Some(vec![1]));
    let f = reply(&req, Some(vec![2])).unwrap();
    assert_eq!(f, Msg::encode(&id, MSG_WITH_BODY, &[b'n', 0xff], &Some(vec![2])));
}

#[test]
fn client_handshake_frame_and_wait() {
    let id = [3u8; 12];
    let f = handshake_frame(&id, Some("client-a"));
    assert_eq!(f, Msg::encode(&id, MSG_REQ | MSG_WITH_BODY, b"handshake", &Some(b"client-a".to_vec())));
    let f = handshake_frame(&id, None);
    assert_eq!(f, Msg::encode(&id, MSG_REQ | MSG_WITH_BODY, b"handshake", &Some(vec![])));
    let other = parse_msg(&Msg::raw(1, 0, "tick", None));
    assert_eq!(handshake_reply(&other), (MsgReading::Continue, None));
    let answer = parse_msg(&Msg::raw(1, MSG_WITH_BODY, "handshake", Some(b"abc".to_vec())));
    assert_eq!(handshake_reply(&answer), (MsgReading::Stop, Some("abc".to_string())));
}

#[test]
fn parse_msg_takes_request_flag_from_meta() {
    let m = parse_msg(&Msg::raw(5, MSG_REQ | MSG_WITH_BODY, "n", Some(vec![1])));
    assert!(m.req);
    assert_eq!(m.client, "");
    assert_eq!(m.id, 5);
    assert_eq!(m.name, "n");
    assert_eq!(m.body, Some(vec![1]));
    let m = parse_msg(&Msg::raw(6, MSG_WITH_BODY, "n", Some(vec![])));
    assert!(!m.req);
    assert_eq!(m.body, Some(vec![]));
}

#[test]
fn reply_sink_fed_once_however_many_copies_arrive() {
    let mut cs: ClientState = client::State::new();
    let id = bid_n(102);
    cs.expect_reply(bid_to_u128(&id), "q", 4);
    let other = Msg::encode(&[0; 12], MSG_WITH_BODY, b"q", &Some(b"not mine".to_vec()));
    let mine = Msg::encode(&id, MSG_WITH_BODY, b"q", &Some(b"mine".to_vec()));
    let stream = [other, mine.clone(), mine].concat();
    let got: Vec<(usize, Option<Vec<u8>>)> =
        client_receive(&mut cs, &stream).into_iter().flat_map(|(_, _, a)| a).collect();
    assert_eq!(got, vec![(4, Some(b"mine".to_vec()))]);
    assert!(cs.handlers[0].called);
}

#[test]
fn requests_get_their_own_replies() {
    let mut server: ServerState = State::new();
    server.subs(ClientName::Any, MsgName::Is("up"), false, upper);
    server.subs(ClientName::Any, MsgName::Is("rep"), false, repeat3);
    let conn = connect(&mut server, "c", 0);
    let mut cs: ClientState = client::State::new();
    let mut frames = Vec::new();
    let reqs: [(&str, &[u8]); 3] = [("up", b"ab"), ("rep", b"x"), ("up", b"cd")];
    for (sink, (name, body)) in reqs.iter().enumerate() {
        let id = bid_n(103 + sink as u64);
        cs.expect_reply(bid_to_u128(&id), name, sink);
        frames.push(Msg::outbound(&id, true, name, &Some(body.to_vec())));
    }
    // the server answers in reverse order
    let mut back = Vec::new();
    for f in frames.iter().rev() {
        let (_, replies) = server_receive(&mut server, &conn, f);
        back.extend(replies.concat());
    }
    let got: Vec<(usize, Option<Vec<u8>>)> =
        client_receive(&mut cs, &back).into_iter().flat_map(|(_, _, a)| a).collect();
    assert_eq!(
        got,
        vec![(2, Some(b"CD".to_vec())), (1, Some(b"xxx".to_vec())), (0, Some(b"AB".to_vec()))]
    );
    // a second copy of a reply reaches nobody
    let again = client_receive(&mut cs, &back[..]);
    assert!(again.iter().all(|(_, _, a)| a.is_empty()));
}

#[test]
fn client_once_and_on() {
    let mut cs: ClientState = client::State::new();
    cs.on(MsgName::Any, "all");
    cs.once(MsgName::Is("tick"), "first-tick");
    let tick = Msg::raw(1, 0, "tick", None);
    let two = [tick.clone(), tick].concat();
    let seen = client_receive(&mut cs, &two);
    assert_eq!(seen[0].1, vec!["all", "first-tick"]);
    assert_eq!(seen[1].1, vec!["all"]);
}

#[test]
fn scenario_echo() {
    let mut server: ServerState = State::new();
    server.subs(ClientName::Any, MsgName::Is("repeat"), false, repeat3);
    let conn = connect(&mut server, "client-a", 0);
    assert_eq!(server.clients[0].name.as_deref(), Some("client-a"));
    let mut cs: ClientState = client::State::new();
    let id = bid_n(104);
    cs.expect_reply(bid_to_u128(&id), "repeat", 0);
    let req = Msg::outbound(&id, true, "repeat", &Some(b"this".to_vec()));
    let (_, replies) = server_receive(&mut server, &conn, &req);
    let got = client_receive(&mut cs, &replies.concat());
    assert_eq!(got.len(), 1);
    assert_eq!(got[0].2, vec![(0, Some(b"thisthisthis".to_vec()))]);
}

#[test]
fn scenario_broadcast() {
    let mut server: ServerState = State::new();
    connect(&mut server, "c1", 0);
    connect(&mut server, "c2", 1);
    let frame = Msg::outbound(&bid_n(105), false, "tick", &Some(b"1".to_vec()));
    let mut peers: Vec<ClientState> = vec![client::State::new(), client::State::new()];
    for p in peers.iter_mut() {
        p.on(MsgName::Any, "any");
    }
    for c in &server.clients {
        let got = client_receive(&mut peers[c.stream], &frame);
        assert_eq!(got.len(), 1);
        assert_eq!(got[0].0.name, "tick");
        assert_eq!(got[0].0.body, Some(b"1".to_vec()));
        assert_eq!(got[0].1, vec!["any"]);
    }
}

#[test]
fn scenario_targeted_send() {
    let mut server: ServerState = State::new();
    connect(&mut server, "c1", 0);
    connect(&mut server, "c2", 1);
    let target = server.find_named("c1").unwrap();
    assert_eq!(server.clients[target].stream, 0);
    let frame = Msg::outbound(&bid_n(106), false, "hi", &Some(b"hello".to_vec()));
    let mut c1: ClientState = client::State::new();
    c1.on(MsgName::Any, "any");
    let got = client_receive(&mut c1, &frame);
    assert_eq!(got[0].0.name, "hi");
    assert_eq!(got[0].0.body, Some(b"hello".to_vec()));
    // nobody carries this label: the send does nothing
    assert_eq!(server.find_named("c9"), None);
}

#[test]
fn scenario_once() {
    let mut server: ServerState = State::new();
    server.subs(ClientName::Is("c1"), MsgName::Is("ping"), true, none);
    let conn = connect(&mut server, "c1", 0);
    let ping = Msg::outbound(&bid_n(107), false, "ping", &None);
    let mut runs = 0;
    for _ in 0..3 {
        let (fired, _) = server_receive(&mut server, &conn, &ping);
        runs += fired.iter().filter(|&&i| i == 1).count();
    }
    assert_eq!(runs, 1);
}

#[test]
fn scenario_forced_disconnect() {
    let mut server: ServerState = State::new();
    let c1 = connect(&mut server, "c1", 0);
    connect(&mut server, "c2", 1);
    let k = server.find_client("c1").unwrap();
    assert_eq!(server.clients[k].id, c1);
    // the stream is shut down; c1's reader sees the end of its stream
    let mut reader = Decoder::new();
    let mut cs: ClientState = client::State::new();
    cs.on(MsgName::Any, "any");
    assert!(reader.feed(&[]).is_empty());
    let last = reader.close();
    let got = client_receive(&mut cs, &last);
    assert_eq!(got.len(), 1);
    assert_eq!(got[0].0.name, "disconnect");
    assert_eq!(got[0].0.id, 0);
    assert_eq!(got[0].0.body, None);
    // the server's reader of c1 removes it
    server.remove_client(&c1);
    assert_eq!(server.clients.len(), 1);
    assert_eq!(server.find_named("c1"), None);
}

#[test]
fn scenario_late_binding() {
    let mut server: ServerState = State::new();
    server.subs(ClientName::Is("c3"), MsgName::Is("msg"), false, none);
    assert!(server.handlers[1].client_id.is_none());
    connect(&mut server, "c1", 0);
    let c3 = connect(&mut server, "c3", 1);
    assert_eq!(server.handlers[1].client_id.as_deref(), Some(c3.as_str()));
    let frame = Msg::outbound(&bid_n(108), false, "msg", &None);
    let (fired, _) = server_receive(&mut server, &c3, &frame);
    assert_eq!(fired, vec![1]);
}
