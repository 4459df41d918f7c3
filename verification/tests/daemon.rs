use iroh::SecretKey;
use pai_sho::daemon::{peer_change_reply, Daemon, Step};
use pai_sho::enroll::{Pin, Pins};
use pai_sho::key::PeerKey;
use pai_sho::protocol::{PeerMessage, Request, Response};

fn key(n: u8) -> PeerKey {
    PeerKey::from_bytes(*SecretKey::from_bytes(&[n; 32]).public().as_bytes())
}

fn ticket(n: u8) -> String {
    SecretKey::from_bytes(&[n; 32]).public().to_string()
}

fn daemon() -> Daemon {
    Daemon::new(key(100), Pins::new(Vec::new()))
}

fn reply(step: Step) -> Response {
    match step {
        Step::Reply(r) => r,
        _ => panic!("expected a reply"),
    }
}

#[test]
fn ticket_is_the_iroh_display_of_the_key() {
    let d = daemon();
    assert_eq!(d.ticket(), ticket(100));
    assert_eq!(key(7).to_text(), ticket(7));
    assert_eq!(ticket(7).len(), 64);
}

#[test]
fn parse_reads_hex_tickets() {
    let id = SecretKey::from_bytes(&[9; 32]).public();
    assert_eq!(PeerKey::parse(&id.to_string()), Some(key(9)));
    assert_eq!(PeerKey::parse("not a key"), None);
    assert_eq!(PeerKey::parse(""), None);
}

#[test]
fn expose_to_named_peers_is_directed() {
    let mut d = daemon();
    let known = vec![key(1), key(2)];
    let r = reply(d.handle_request(Request::Expose { port: 4000, to: vec![ticket(1)] }, &known));
    assert!(matches!(r, Response::Done));
    assert!(d.grants().allows(4000, &key(1)));
    assert!(!d.grants().allows(4000, &key(2)));
    assert_eq!(d.get_exposed_ports(), vec![4000]);
}

#[test]
fn expose_to_nobody_grants_every_known_peer() {
    let mut d = daemon();
    let known = vec![key(1), key(2)];
    let r = reply(d.handle_request(Request::Expose { port: 3000, to: vec![] }, &known));
    assert!(matches!(r, Response::Done));
    assert!(d.grants().allows(3000, &key(1)));
    assert!(d.grants().allows(3000, &key(2)));
    assert!(!d.grants().allows(3000, &key(3)));
}

#[test]
fn expose_with_a_bad_key_grants_nothing() {
    let mut d = daemon();
    let r = reply(d.handle_request(
        Request::Expose { port: 4000, to: vec![ticket(1), "bogus".to_string()] },
        &vec![],
    ));
    match r {
        Response::Error(e) => assert_eq!(e, "invalid peer key"),
        _ => panic!("expected an error"),
    }
    assert!(d.get_exposed_ports().is_empty());
}

#[test]
fn unexpose_one_or_all() {
    let mut d = daemon();
    d.handle_request(Request::Expose { port: 4000, to: vec![ticket(1), ticket(2)] }, &vec![]);
    d.handle_request(Request::Expose { port: 4001, to: vec![ticket(2)] }, &vec![]);
    let r = reply(d.handle_request(Request::Unexpose { port: 4000, to: Some(ticket(1)) }, &vec![]));
    assert!(matches!(r, Response::Done));
    assert!(!d.grants().allows(4000, &key(1)));
    assert!(d.grants().allows(4000, &key(2)));
    let r = reply(d.handle_request(Request::Unexpose { port: 4000, to: None }, &vec![]));
    assert!(matches!(r, Response::Done));
    assert_eq!(d.get_exposed_ports(), vec![4001]);
    let r = reply(d.handle_request(Request::Unexpose { port: 4001, to: Some("x".to_string()) }, &vec![]));
    assert!(matches!(r, Response::Error(_)));
    assert_eq!(d.get_exposed_ports(), vec![4001]);
}

#[test]
fn remove_peer_revokes_its_grants() {
    let mut d = daemon();
    d.handle_request(Request::Expose { port: 4000, to: vec![ticket(1), ticket(2)] }, &vec![]);
    d.handle_request(Request::Expose { port: 4001, to: vec![ticket(1)] }, &vec![]);
    match d.handle_request(Request::RemovePeer { ticket: ticket(1) }, &vec![key(2), key(1)]) {
        Step::RemovePeer(k) => assert_eq!(k, key(1)),
        _ => panic!("expected a removal"),
    }
    assert!(d.grants().ports_for(&key(1)).is_empty());
    assert_eq!(d.grants().ports_for(&key(2)), vec![4000]);
}

#[test]
fn removing_an_unknown_peer_changes_nothing() {
    let mut d = daemon();
    d.handle_request(Request::Expose { port: 4000, to: vec![ticket(1)] }, &vec![]);
    match reply(d.handle_request(Request::RemovePeer { ticket: ticket(1) }, &vec![key(2)])) {
        Response::Error(e) => assert_eq!(e, "unknown peer"),
        _ => panic!("expected an error"),
    }
    assert_eq!(d.grants().ports_for(&key(1)), vec![4000]);
    match reply(d.handle_request(Request::RemovePeer { ticket: "nope".to_string() }, &vec![key(2)])) {
        Response::Error(e) => assert_eq!(e, "invalid peer key"),
        _ => panic!("expected an error"),
    }
}

#[test]
fn startup_ports_go_to_the_added_peers() {
    let mut d = daemon();
    d.expose_on_start(&vec![4000, 4001], &vec![key(1), key(2)]);
    assert_eq!(d.grants().ports_for(&key(1)), vec![4000, 4001]);
    assert_eq!(d.grants().ports_for(&key(2)), vec![4000, 4001]);
    assert!(d.grants().ports_for(&key(3)).is_empty());
    let mut lone = daemon();
    lone.expose_on_start(&vec![4000], &vec![]);
    assert!(lone.get_exposed_ports().is_empty());
}

#[test]
fn network_outcome_becomes_the_reply() {
    assert!(matches!(peer_change_reply(Ok(())), Response::Done));
    match peer_change_reply(Err("unknown peer".to_string())) {
        Response::Error(e) => assert_eq!(e, "unknown peer"),
        _ => panic!("expected an error"),
    }
}

#[test]
fn granted_token_is_hex_and_pending() {
    let mut d = daemon();
    let token = match reply(d.handle_request(Request::GrantToken { label: "ci".to_string() }, &vec![])) {
        Response::Token(t) => t,
        _ => panic!("expected a token"),
    };
    assert_eq!(token.len(), 64);
    assert!(token.chars().all(|c| c.is_ascii_hexdigit() && !c.is_ascii_uppercase()));
    assert_eq!(d.enroll(&key(4), &token), Some("ci".to_string()));
}

#[test]
fn network_requests_are_handed_back() {
    let mut d = daemon();
    match d.handle_request(Request::AddPeer { ticket: ticket(5) }, &vec![]) {
        Step::AddPeer(k) => assert_eq!(k, key(5)),
        _ => panic!("expected an add"),
    }
    assert!(matches!(d.handle_request(Request::List, &vec![]), Step::List));
    assert!(matches!(
        d.handle_request(Request::AddPeer { ticket: "nope".to_string() }, &vec![]),
        Step::Reply(Response::Error(_))
    ));
    match reply(d.handle_request(Request::Ticket, &vec![])) {
        Response::Ticket(t) => assert_eq!(t, ticket(100)),
        _ => panic!("expected the ticket"),
    }
}

#[test]
fn token_enrollment_pins_once() {
    let mut d = daemon();
    let token = match reply(d.handle_request(Request::GrantToken { label: "rustdev".to_string() }, &vec![])) {
        Response::Token(t) => t,
        _ => panic!("expected a token"),
    };
    assert!(!d.is_pinned(&key(1)));
    assert_eq!(d.enroll(&key(1), &token), Some("rustdev".to_string()));
    assert!(d.is_pinned(&key(1)));
    assert_eq!(d.label_of(&key(1)), Some("rustdev".to_string()));
    // The token can never admit a second peer.
    assert_eq!(d.enroll(&key(2), &token), None);
    assert!(!d.is_pinned(&key(2)));
    // A pinned peer re-presenting its token is a no-op.
    assert_eq!(d.enroll(&key(1), &token), None);
    assert_eq!(d.pins().pins().len(), 1);
}

#[test]
fn host_attested_pin() {
    let mut d = daemon();
    let r = reply(d.handle_request(Request::Pin { key: ticket(3), label: "webdev".to_string() }, &vec![]));
    assert!(matches!(r, Response::Done));
    assert!(d.is_pinned(&key(3)));
    assert_eq!(d.label_of(&key(3)), Some("webdev".to_string()));
    let r = reply(d.handle_request(Request::Pin { key: "junk".to_string(), label: "x".to_string() }, &vec![]));
    assert!(matches!(r, Response::Error(_)));
    assert_eq!(d.pins().pins().len(), 1);
    assert_eq!(d.label_of(&key(4)), None);
}

#[test]
fn pins_loaded_at_start_are_known() {
    let pins = Pins::new(vec![Pin { key: ticket(1), label: "old".to_string() }]);
    let d = Daemon::new(key(100), pins);
    assert!(d.is_pinned(&key(1)));
    assert_eq!(d.label_of(&key(1)), Some("old".to_string()));
}

#[test]
fn list_shows_ticket_ports_and_grants() {
    let mut d = daemon();
    d.handle_request(Request::Expose { port: 4001, to: vec![ticket(1)] }, &vec![]);
    d.handle_request(Request::Expose { port: 4000, to: vec![ticket(2)] }, &vec![]);
    let info = d.list(Vec::new(), Vec::new());
    assert_eq!(info.me, ticket(100));
    assert_eq!(info.i_expose, vec![4000, 4001]);
    let rows: Vec<(u16, String)> = info.grants.iter().map(|g| (g.port, g.to.clone())).collect();
    assert_eq!(rows, vec![(4000, ticket(2)), (4001, ticket(1))]);
    assert!(info.peers.is_empty() && info.bindings.is_empty());
}

#[test]
fn admits_known_and_pinned_peers_only() {
    let mut d = daemon();
    d.handle_request(Request::Pin { key: ticket(3), label: "vm".to_string() }, &vec![]);
    let known = vec![key(1)];
    assert!(d.admits(&key(1), &known));
    assert!(d.admits(&key(3), &known));
    assert!(!d.admits(&key(2), &known));
}

#[test]
fn announcement_and_tunnels_follow_grants() {
    let mut d = daemon();
    d.handle_request(Request::Expose { port: 4001, to: vec![ticket(1)] }, &vec![]);
    d.handle_request(Request::Expose { port: 4000, to: vec![ticket(1), ticket(2)] }, &vec![]);
    match d.announcement(&key(1)) {
        PeerMessage::ExposedPorts(p) => assert_eq!(p, vec![4000, 4001]),
        _ => panic!("expected an announcement"),
    }
    match d.announcement(&key(3)) {
        PeerMessage::ExposedPorts(p) => assert!(p.is_empty()),
        _ => panic!("expected an announcement"),
    }
    assert!(d.tunnel_allowed(&key(2), 4000));
    assert!(!d.tunnel_allowed(&key(2), 4001));
    assert!(!d.tunnel_allowed(&key(3), 4000));
}
