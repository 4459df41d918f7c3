use iroh::SecretKey;
use pai_sho::bindings::Bindings;
use pai_sho::key::PeerKey;

fn key(n: u8) -> PeerKey {
    PeerKey::from_bytes(*SecretKey::from_bytes(&[n; 32]).public().as_bytes())
}

fn rows(b: &Bindings) -> Vec<(u16, String)> {
    b.list().into_iter().map(|r| (r.port, r.peer)).collect()
}

#[test]
fn a_bound_port_stays_with_its_first_peer() {
    let mut b = Bindings::new();
    assert!(b.bind(4000, key(1)));
    assert!(!b.bind(4000, key(2)));
    assert_eq!(rows(&b), vec![(4000, key(1).to_text())]);
    assert!(b.is_bound(4000));
    assert!(!b.is_bound(4001));
}

#[test]
fn listing_is_ordered_by_port() {
    let mut b = Bindings::new();
    b.bind(9000, key(1));
    b.bind(22, key(2));
    b.bind(4000, key(1));
    let ports: Vec<u16> = rows(&b).into_iter().map(|r| r.0).collect();
    assert_eq!(ports, vec![22, 4000, 9000]);
}

#[test]
fn to_bind_skips_bound_and_repeated_ports() {
    let mut b = Bindings::new();
    b.bind(4000, key(1));
    let fresh = b.to_bind(&vec![4001, 4000, 4001, 4002]);
    assert_eq!(fresh, vec![4001, 4002]);
    assert!(b.to_bind(&vec![]).is_empty());
}

#[test]
fn dropping_a_peer_frees_only_its_ports() {
    let mut b = Bindings::new();
    b.bind(4000, key(1));
    b.bind(4001, key(2));
    b.bind(4002, key(1));
    b.drop_peer(&key(1));
    assert_eq!(rows(&b), vec![(4001, key(2).to_text())]);
    assert!(b.bind(4000, key(3)));
    b.drop_peer(&key(9));
    assert_eq!(rows(&b).len(), 2);
}
