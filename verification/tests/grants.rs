use iroh::SecretKey;
use pai_sho::grants::Grants;
use pai_sho::key::PeerKey;

fn key(n: u8) -> PeerKey {
    PeerKey::from_bytes(*SecretKey::from_bytes(&[n; 32]).public().as_bytes())
}

#[test]
fn default_deny() {
    let grants = Grants::default();
    assert!(!grants.allows(4000, &key(1)));
    assert!(grants.ports_for(&key(1)).is_empty());
}

#[test]
fn grant_is_directed() {
    let (a, b) = (key(1), key(2));
    let mut grants = Grants::default();
    grants.add(4000, a);

    assert!(grants.allows(4000, &a));
    assert!(!grants.allows(4000, &b));
    assert!(!grants.allows(4001, &a));
    assert_eq!(grants.ports_for(&a), vec![4000]);
    assert!(grants.ports_for(&b).is_empty());
}

#[test]
fn revoke_grantee_clears_all_their_grants() {
    let (a, b) = (key(1), key(2));
    let mut grants = Grants::default();
    grants.add(4000, a);
    grants.add(4001, a);
    grants.add(4000, b);

    grants.revoke_grantee(&a);
    assert!(!grants.allows(4000, &a));
    assert!(!grants.allows(4001, &a));
    assert!(grants.allows(4000, &b));
    assert_eq!(grants.ports(), vec![4000]);
}

#[test]
fn remove_one_grantee_keeps_others() {
    let (a, b) = (key(1), key(2));
    let mut grants = Grants::default();
    grants.add(4000, a);
    grants.add(4000, b);

    grants.remove(4000, Some(a));
    assert!(!grants.allows(4000, &a));
    assert!(grants.allows(4000, &b));

    grants.remove(4000, None);
    assert!(!grants.allows(4000, &b));
    assert!(grants.ports().is_empty());
}

#[test]
fn new_grants_are_empty() {
    let grants = Grants::new();
    assert!(grants.ports().is_empty());
    assert!(grants.all().is_empty());
}

#[test]
fn ports_and_ports_for_come_sorted() {
    let (a, b) = (key(1), key(2));
    let mut grants = Grants::default();
    for port in [9000u16, 22, 4000, 80, 65535, 0] {
        grants.add(port, a);
    }
    grants.add(3000, b);
    grants.add(22, b);
    assert_eq!(grants.ports(), vec![0, 22, 80, 3000, 4000, 9000, 65535]);
    assert_eq!(grants.ports_for(&a), vec![0, 22, 80, 4000, 9000, 65535]);
    assert_eq!(grants.ports_for(&b), vec![22, 3000]);
    assert!(grants.ports_for(&key(3)).is_empty());
}

#[test]
fn all_lists_every_pair_by_port() {
    let (a, b, c) = (key(1), key(2), key(3));
    let mut grants = Grants::default();
    grants.add(4001, a);
    grants.add(4000, b);
    grants.add(4000, a);
    grants.add(7331, c);
    let rows = grants.all();
    assert_eq!(rows.len(), 4);
    let ports: Vec<u16> = rows.iter().map(|(p, _)| *p).collect();
    assert_eq!(ports, vec![4000, 4000, 4001, 7331]);
    assert!(rows.contains(&(4000, a)));
    assert!(rows.contains(&(4000, b)));
    assert!(rows.contains(&(4001, a)));
    assert!(rows.contains(&(7331, c)));
}

#[test]
fn granting_twice_is_granting_once() {
    let a = key(1);
    let mut grants = Grants::default();
    grants.add(4000, a);
    grants.add(4000, a);
    assert_eq!(grants.all(), vec![(4000, a)]);
}

#[test]
fn remove_undoes_add() {
    let (a, b) = (key(1), key(2));
    let mut grants = Grants::default();
    grants.add(4000, b);
    grants.add(4000, a);
    grants.remove(4000, Some(a));
    assert_eq!(grants.all(), vec![(4000, b)]);
    assert_eq!(grants.ports(), vec![4000]);
}

#[test]
fn remove_of_unknown_grant_changes_nothing() {
    let (a, b) = (key(1), key(2));
    let mut grants = Grants::default();
    grants.add(4000, a);
    grants.remove(4000, Some(b));
    grants.remove(5000, Some(a));
    grants.remove(5000, None);
    assert_eq!(grants.all(), vec![(4000, a)]);
}

#[test]
fn remove_port_keeps_other_ports() {
    let (a, b) = (key(1), key(2));
    let mut grants = Grants::default();
    grants.add(4000, a);
    grants.add(4000, b);
    grants.add(4001, b);
    grants.remove(4000, None);
    assert_eq!(grants.ports(), vec![4001]);
    assert!(grants.allows(4001, &b));
    assert!(grants.ports_for(&a).is_empty());
}

#[test]
fn revoke_keeps_other_grantees_ports() {
    let (a, b, c) = (key(1), key(2), key(3));
    let mut grants = Grants::default();
    grants.add(4000, a);
    grants.add(4001, b);
    grants.add(4002, c);
    grants.add(4002, a);
    grants.revoke_grantee(&a);
    assert!(grants.ports_for(&a).is_empty());
    assert_eq!(grants.ports_for(&b), vec![4001]);
    assert_eq!(grants.ports_for(&c), vec![4002]);
    assert_eq!(grants.ports(), vec![4001, 4002]);
}

#[test]
fn laptop_and_workloads_example() {
    // The worked example of directed grants: A and B never see each other.
    let (l, a, b) = (key(10), key(11), key(12));
    let mut on_a = Grants::default();
    on_a.add(4000, l);
    on_a.add(3000, l);
    let mut on_b = Grants::default();
    on_b.add(4001, l);
    let mut on_l = Grants::default();
    on_l.add(7331, a);

    assert!(on_a.allows(4000, &l) && on_a.allows(3000, &l) && on_b.allows(4001, &l));
    assert!(on_l.allows(7331, &a));
    assert!(!on_b.allows(4001, &a));
    assert!(!on_a.allows(4000, &b) && !on_a.allows(3000, &b));
    assert!(!on_l.allows(7331, &b));
    assert!(on_a.ports_for(&b).is_empty() && on_l.ports_for(&b).is_empty());
}

#[test]
fn peer_key_bytes_round_trip() {
    let bytes = [7u8; 32];
    let k = PeerKey::from_bytes(bytes);
    assert_eq!(k.to_bytes(), bytes);
    assert!(k.same_as(&PeerKey::from_bytes(bytes)));
    let mut other = bytes;
    other[31] = 8;
    assert!(!k.same_as(&PeerKey::from_bytes(other)));
}
