//! The daemon's bookkeeping: who may reach which port, the enrollment
//! tokens it minted, and the peers it pinned. Requests from the client are
//! decided here; what needs the network is handed back to the caller.

use crate::enroll::{
    after_claim, claim_result, pin_view, saturating_sum, without_key, Pin, Pins, Tokens,
    TOKEN_TTL_NS,
};
use crate::grants::Grants;
use crate::hex::{hex_of, is_hex_digit};
use crate::key::{endpoint_id_bytes, PeerKey};
use crate::protocol::{BindingInfo, GrantInfo, ListInfo, PeerInfo, PeerMessage, Request, Response};
use crate::seqs::{lemma_push_contains, lemma_take_all, lemma_take_next};
use vstd::prelude::*;

verus! {

/// Every text of `to` names an endpoint.
pub open spec fn all_named(to: Seq<String>) -> bool {
    forall|i: int| 0 <= i < to.len() ==> (#[trigger] endpoint_id_bytes(to[i]@)) is Some
}

/// Whether one of the peers `known` has the key bytes `b`.
pub open spec fn knows(known: Seq<PeerKey>, b: Seq<u8>) -> bool {
    exists|i: int| 0 <= i < known.len() && (#[trigger] known[i])@ == b
}

/// The grants after granting every port of `ports` to every peer of `peers`.
pub open spec fn granted_to_all(
    grants: Set<(u16, PeerKey)>,
    ports: Seq<u16>,
    peers: Seq<PeerKey>,
) -> Set<(u16, PeerKey)> {
    grants.union(Set::new(|pair: (u16, PeerKey)| ports.contains(pair.0) && peers.contains(pair.1)))
}

/// The answer to the client once the network has added or removed a peer:
/// done where it succeeded, else the error it gave.
pub fn peer_change_reply(outcome: Result<(), String>) -> (r: Response)
    ensures
        match outcome {
            Ok(()) => r is Done,
            Err(e) => r matches Response::Error(m) && m@ == e@,
        },
{
    match outcome {
        Ok(()) => Response::Done,
        Err(e) => Response::Error(e),
    }
}

/// Whether `key` is one of `known`.
fn contains_key(known: &Vec<PeerKey>, key: &PeerKey) -> (r: bool)
    ensures
        r == known@.contains(*key),
{
    let mut i: usize = 0;
    while i < known.len()
        invariant
            i <= known@.len(),
            forall|j: int| 0 <= j < i ==> known@[j] != *key,
        decreases known@.len() - i,
    {
        if known[i].same_as(key) {
            return true;
        }
        i = i + 1;
    }
    false
}

/// Whether `key` is one of the peers an exposure to `to` reaches: those
/// that `to` names, or every known peer where `to` is empty.
pub open spec fn expose_reaches(to: Seq<String>, known: Seq<PeerKey>, key: PeerKey) -> bool {
    if to.len() == 0 {
        known.contains(key)
    } else {
        exists|i: int| 0 <= i < to.len() && endpoint_id_bytes(#[trigger] to[i]@) == Some(key@)
    }
}

/// The grants after exposing `port` to the peers that `to` (and `known`) reach.
pub open spec fn exposed(
    grants: Set<(u16, PeerKey)>,
    port: u16,
    to: Seq<String>,
    known: Seq<PeerKey>,
) -> Set<(u16, PeerKey)> {
    grants.union(Set::new(|pair: (u16, PeerKey)| pair.0 == port && expose_reaches(to, known, pair.1)))
}

/// `rows` show exactly the grants `grants`, one row per `(port, grantee)`
/// with the grantee's ticket, ordered by port.
pub open spec fn rows_show(rows: Seq<GrantInfo>, grants: Set<(u16, PeerKey)>) -> bool {
    exists|pairs: Seq<(u16, PeerKey)>|
        {
            &&& pairs.no_duplicates()
            &&& pairs.to_set() == grants
            &&& pairs.len() == rows.len()
            &&& forall|i: int|
                0 <= i < rows.len() ==> (#[trigger] rows[i]).port == pairs[i].0 && rows[i].to@ == hex_of(
                    pairs[i].1@,
                )
            &&& forall|i: int, j: int| 0 <= i < j < pairs.len() ==> pairs[i].0 <= pairs[j].0
        }
}

/// What a client request leaves for the caller to do over the network.
pub enum Step {
    /// Answer the client with this response.
    Reply(Response),
    /// Connect to this peer, then announce the granted ports.
    AddPeer(PeerKey),
    /// Disconnect this peer (its grants are already revoked).
    RemovePeer(PeerKey),
    /// Gather the peers and bindings, and answer with `Daemon::list`.
    List,
}

/// A daemon: its own key, its grants, its pending enrollment tokens, and its pins.
pub struct Daemon {
    me: PeerKey,
    grants: Grants,
    tokens: Tokens,
    pins: Pins,
}

impl Daemon {
    /// A daemon with key `me` and the pins `pins`, that grants nothing yet.
    pub fn new(me: PeerKey, pins: Pins) -> (d: Daemon)
        ensures
            d.key() == me,
            d.grant_set() == Set::<(u16, PeerKey)>::empty(),
            d.pending() == Map::<Seq<char>, (Seq<char>, u64)>::empty(),
            d.pinned() == pins@,
            d.clock() == 0,
    {
        Daemon { me, grants: Grants::new(), tokens: Tokens::new(), pins }
    }

    /// The daemon's own key.
    pub closed spec fn key(&self) -> PeerKey {
        self.me
    }

    /// The `(port, grantee)` pairs granted.
    pub closed spec fn grant_set(&self) -> Set<(u16, PeerKey)> {
        self.grants@
    }

    /// The pending enrollment tokens.
    pub closed spec fn pending(&self) -> Map<Seq<char>, (Seq<char>, u64)> {
        self.tokens@
    }

    /// The latest reading of the token clock; readings never go back.
    pub closed spec fn clock(&self) -> u64 {
        self.tokens.clock()
    }

    /// The pins, as `(key, label)` text.
    pub closed spec fn pinned(&self) -> Seq<(Seq<char>, Seq<char>)> {
        self.pins@
    }

    /// The daemon's grants.
    pub fn grants(&self) -> (g: &Grants)
        ensures
            g@ == self.grant_set(),
    {
        &self.grants
    }

    /// The daemon's pins.
    pub fn pins(&self) -> (p: &Pins)
        ensures
            p@ == self.pinned(),
    {
        &self.pins
    }

    /// This daemon's ticket: its key as text.
    pub fn ticket(&self) -> (t: String)
        ensures
            t@ == hex_of(self.key()@),
    {
        self.me.to_text()
    }

    /// Grant `port` to the peers that `to` names, or to every known peer
    /// where `to` is empty. Nothing is granted where some text of `to`
    /// names no peer.
    pub fn expose(&mut self, port: u16, to: &Vec<String>, known: &Vec<PeerKey>) -> (r: Result<(), String>)
        ensures
            match r {
                Ok(()) => all_named(to@) && final(self).grant_set() == exposed(
                    old(self).grant_set(),
                    port,
                    to@,
                    known@,
                ),
                Err(e) => !all_named(to@) && final(self).grant_set() == old(self).grant_set()
                    && e@ == "invalid peer key"@,
            },
            final(self).key() == old(self).key(),
            final(self).pending() == old(self).pending(),
            final(self).clock() == old(self).clock(),
            final(self).pinned() == old(self).pinned(),
    {
        let mut targets: Vec<PeerKey> = Vec::new();
        if to.len() == 0 {
            let mut i: usize = 0;
            while i < known.len()
                invariant
                    i <= known.len(),
                    targets@ == known@.take(i as int),
                decreases known.len() - i,
            {
                targets.push(known[i]);
                proof {
                    assert(targets@ =~= known@.take(i + 1));
                }
                i = i + 1;
            }
            proof {
                assert(known@.take(known@.len() as int) =~= known@);
                assert forall|k: PeerKey| targets@.contains(k) <==> expose_reaches(to@, known@, k) by {}
            }
        } else {
            let mut i: usize = 0;
            while i < to.len()
                invariant
                    i <= to.len(),
                    targets@.len() == i,
                    forall|j: int| 0 <= j < i ==> endpoint_id_bytes(#[trigger] to@[j]@) == Some(targets@[j]@),
                decreases to.len() - i,
            {
                match PeerKey::parse(to[i].as_str()) {
                    Some(k) => {
                        targets.push(k);
                    },
                    None => {
                        proof {
                            assert(endpoint_id_bytes(to@[i as int]@) is None);
                        }
                        return Err(String::from_str("invalid peer key"));
                    },
                }
                i = i + 1;
            }
            proof {
                assert forall|k: PeerKey| targets@.contains(k) <==> expose_reaches(to@, known@, k) by {
                    if targets@.contains(k) {
                        let j = choose|j: int| 0 <= j < targets@.len() && targets@[j] == k;
                        assert(endpoint_id_bytes(to@[j]@) == Some(k@));
                    }
                    if expose_reaches(to@, known@, k) {
                        let j = choose|j: int| 0 <= j < to@.len() && endpoint_id_bytes(#[trigger] to@[j]@) == Some(k@);
                        PeerKey::lemma_view_injective(k, targets@[j]);
                        assert(targets@[j] == k);
                    }
                }
            }
        }
        let ghost start = self.grants@;
        let mut i: usize = 0;
        while i < targets.len()
            invariant
                i <= targets.len(),
                self.me == old(self).me,
                self.tokens == old(self).tokens,
                self.pins == old(self).pins,
                start == old(self).grants@,
                self.grants@ == start.union(Set::new(|pair: (u16, PeerKey)| pair.0 == port && targets@.take(i as int).contains(pair.1))),
            decreases targets.len() - i,
        {
            let k = targets[i];
            self.grants.add(port, k);
            proof {
                lemma_take_next(targets@, i as int);
                lemma_push_contains(targets@.take(i as int), k);
                assert(self.grants@ =~= start.union(Set::new(|pair: (u16, PeerKey)| pair.0 == port && targets@.take(i + 1).contains(pair.1))));
            }
            i = i + 1;
        }
        proof {
            lemma_take_all(targets@);
            assert(self.grants@ =~= exposed(start, port, to@, known@));
            assert forall|j: int| 0 <= j < to@.len() implies (#[trigger] endpoint_id_bytes(to@[j]@)) is Some by {}
        }
        Ok(())
    }

    /// The ports exposed at startup: grant each of `ports` to each peer that
    /// was added at startup.
    pub fn expose_on_start(&mut self, ports: &Vec<u16>, added: &Vec<PeerKey>)
        ensures
            final(self).grant_set() == granted_to_all(old(self).grant_set(), ports@, added@),
            final(self).key() == old(self).key(),
            final(self).pending() == old(self).pending(),
            final(self).clock() == old(self).clock(),
            final(self).pinned() == old(self).pinned(),
    {
        let everyone: Vec<String> = Vec::new();
        let ghost start = self.grant_set();
        let mut i: usize = 0;
        while i < ports.len()
            invariant
                i <= ports@.len(),
                everyone@.len() == 0,
                self.key() == old(self).key(),
                self.pending() == old(self).pending(),
                self.clock() == old(self).clock(),
                self.pinned() == old(self).pinned(),
                start == old(self).grant_set(),
                self.grant_set() == granted_to_all(start, ports@.take(i as int), added@),
            decreases ports@.len() - i,
        {
            let port = ports[i];
            let r = self.expose(port, &everyone, added);
            proof {
                assert(r is Ok) by {
                    assert(all_named(everyone@));
                }
                lemma_take_next(ports@, i as int);
                lemma_push_contains(ports@.take(i as int), port);
                assert(self.grant_set() =~= granted_to_all(start, ports@.take(i + 1), added@));
            }
            i = i + 1;
        }
        proof {
            lemma_take_all(ports@);
        }
    }

    /// Revoke grants for `port`: the grant to the peer that `to` names, or
    /// every grant for the port where `to` is absent. Nothing is revoked
    /// where `to` names no peer.
    pub fn unexpose(&mut self, port: u16, to: &Option<String>) -> (r: Result<(), String>)
        ensures
            match to {
                None => r is Ok && final(self).grant_set() == old(self).grant_set().filter(
                    |pair: (u16, PeerKey)| pair.0 != port,
                ),
                Some(t) => match endpoint_id_bytes(t@) {
                    Some(b) => r is Ok && final(self).grant_set() == old(self).grant_set().filter(
                        |pair: (u16, PeerKey)| !(pair.0 == port && pair.1@ == b),
                    ),
                    None => r matches Err(e) && e@ == "invalid peer key"@ && final(self).grant_set()
                        == old(self).grant_set(),
                },
            },
            final(self).key() == old(self).key(),
            final(self).pending() == old(self).pending(),
            final(self).clock() == old(self).clock(),
            final(self).pinned() == old(self).pinned(),
    {
        match to {
            None => {
                self.grants.remove(port, None);
                Ok(())
            },
            Some(t) => match PeerKey::parse(t.as_str()) {
                Some(k) => {
                    let ghost before = self.grants@;
                    self.grants.remove(port, Some(k));
                    proof {
                        assert forall|pair: (u16, PeerKey)| #[trigger] self.grants@.contains(pair) <==> (before.contains(pair) && !(pair.0 == port && pair.1@ == k@)) by {
                            PeerKey::lemma_view_injective(pair.1, k);
                        }
                        assert(self.grants@ =~= before.filter(|pair: (u16, PeerKey)| !(pair.0 == port && pair.1@ == k@)));
                    }
                    Ok(())
                },
                None => Err(String::from_str("invalid peer key")),
            },
        }
    }

    /// Mint a one-time enrollment token for `label`.
    pub fn grant_token(&mut self, label: String) -> (token: String)
        ensures
            token@.len() == 64,
            forall|i: int| 0 <= i < token@.len() ==> is_hex_digit(#[trigger] token@[i]),
            final(self).pending().contains_key(token@),
            final(self).pending()[token@].0 == label@,
            exists|now: u64| final(self).pending()[token@].1 == saturating_sum(now, TOKEN_TTL_NS),
            final(self).pending().remove(token@) == old(self).pending().remove(token@),
            exists|bytes: Seq<u8>, now: u64|
                bytes.len() == 32 && token@ == hex_of(bytes) && now >= old(self).clock()
                    && final(self).clock() == now && final(self).pending()
                    == old(self).pending().insert(token@, (label@, saturating_sum(now, TOKEN_TTL_NS))),
            final(self).key() == old(self).key(),
            final(self).grant_set() == old(self).grant_set(),
            final(self).pinned() == old(self).pinned(),
    {
        self.tokens.mint(label)
    }

    /// Pin the peer that `key` names under `label` (host-attested
    /// enrollment). The pin records the key as its ticket text.
    pub fn pin(&mut self, key: &str, label: &str) -> (r: Result<(), String>)
        ensures
            match endpoint_id_bytes(key@) {
                Some(b) => r is Ok && final(self).pinned() == without_key(old(self).pinned(), hex_of(b)).push(
                    (hex_of(b), label@),
                ),
                None => r matches Err(e) && e@ == "invalid peer key"@ && final(self).pinned()
                    == old(self).pinned(),
            },
            final(self).key() == old(self).key(),
            final(self).grant_set() == old(self).grant_set(),
            final(self).pending() == old(self).pending(),
            final(self).clock() == old(self).clock(),
    {
        match PeerKey::parse(key) {
            Some(k) => {
                let text = k.to_text();
                self.pins.add(text.as_str(), label);
                Ok(())
            },
            None => Err(String::from_str("invalid peer key")),
        }
    }

    /// Whether `peer` is pinned.
    pub fn is_pinned(&self, peer: &PeerKey) -> (r: bool)
        ensures
            r == exists|i: int| 0 <= i < self.pinned().len() && (#[trigger] self.pinned()[i]).0 == hex_of(peer@),
    {
        let text = peer.to_text();
        let pins = self.pins.pins();
        let mut i: usize = 0;
        while i < pins.len()
            invariant
                i <= pins@.len(),
                pins@.map_values(|p: Pin| pin_view(p)) == self.pinned(),
                text@ == hex_of(peer@),
                forall|j: int| 0 <= j < i ==> (#[trigger] self.pinned()[j]).0 != hex_of(peer@),
            decreases pins@.len() - i,
        {
            if pins[i].key == text {
                proof {
                    assert(self.pinned()[i as int].0 == hex_of(peer@));
                }
                return true;
            }
            proof {
                assert(self.pinned()[i as int] == pin_view(pins@[i as int]));
            }
            i = i + 1;
        }
        false
    }

    /// The label under which `peer` was pinned last, if it was pinned.
    pub fn label_of(&self, peer: &PeerKey) -> (r: Option<String>)
        ensures
            match r {
                Some(l) => exists|i: int|
                    0 <= i < self.pinned().len() && #[trigger] self.pinned()[i] == (hex_of(peer@), l@)
                        && forall|j: int| i < j < self.pinned().len() ==> (#[trigger] self.pinned()[j]).0 != hex_of(peer@),
                None => forall|j: int| 0 <= j < self.pinned().len() ==> (#[trigger] self.pinned()[j]).0 != hex_of(peer@),
            },
    {
        let text = peer.to_text();
        let pins = self.pins.pins();
        let mut i: usize = pins.len();
        while i > 0
            invariant
                i <= pins@.len(),
                pins@.map_values(|p: Pin| pin_view(p)) == self.pinned(),
                text@ == hex_of(peer@),
                forall|j: int| i <= j < pins@.len() ==> (#[trigger] self.pinned()[j]).0 != hex_of(peer@),
            decreases i,
        {
            i = i - 1;
            proof {
                assert(self.pinned()[i as int] == pin_view(pins@[i as int]));
            }
            if pins[i].key == text {
                let label = pins[i].label.clone();
                return Some(label);
            }
        }
        None
    }

    /// A peer that is not pinned presents `token` (token enrollment). Once
    /// pinned, a peer's token is ignored; otherwise a valid claim pins the
    /// peer under the token's label, which is handed back.
    pub fn enroll(&mut self, peer: &PeerKey, token: &str) -> (r: Option<String>)
        ensures
            (exists|i: int| 0 <= i < old(self).pinned().len() && (#[trigger] old(self).pinned()[i]).0 == hex_of(peer@))
                ==> r is None && final(self).pending() == old(self).pending() && final(self).pinned() == old(self).pinned()
                    && final(self).clock() == old(self).clock(),
            !(exists|i: int| 0 <= i < old(self).pinned().len() && (#[trigger] old(self).pinned()[i]).0 == hex_of(peer@))
                ==> exists|now: u64| {
                &&& now >= old(self).clock()
                &&& final(self).clock() == now
                &&& final(self).pending() == after_claim(old(self).pending(), token@, now)
                &&& match r {
                    Some(l) => claim_result(old(self).pending(), token@, now) == Some(l@)
                        && final(self).pinned() == without_key(old(self).pinned(), hex_of(peer@)).push((hex_of(peer@), l@)),
                    None => claim_result(old(self).pending(), token@, now) is None
                        && final(self).pinned() == old(self).pinned(),
                }
            },
            final(self).key() == old(self).key(),
            final(self).grant_set() == old(self).grant_set(),
    {
        if self.is_pinned(peer) {
            return None;
        }
        let ghost pending0 = self.tokens@;
        let claimed = self.tokens.claim(token);
        let ghost now = choose|now: u64| {
            &&& now >= old(self).clock()
            &&& self.tokens.clock() == now
            &&& self.tokens@ == after_claim(pending0, token@, now)
            &&& match claimed {
                Some(l) => claim_result(pending0, token@, now) == Some(l@),
                None => claim_result(pending0, token@, now) is None,
            }
        };
        match claimed {
            Some(label) => {
                let text = peer.to_text();
                self.pins.add(text.as_str(), label.as_str());
                proof {
                    assert(claim_result(pending0, token@, now) == Some(label@));
                    assert(self.pending() == after_claim(old(self).pending(), token@, now));
                    assert(self.pinned() == without_key(old(self).pinned(), hex_of(peer@)).push((hex_of(peer@), label@)));
                }
                Some(label)
            },
            None => {
                proof {
                    assert(self.pending() == after_claim(old(self).pending(), token@, now));
                    assert(self.pinned() == old(self).pinned());
                }
                None
            },
        }
    }

    /// The listing for the client: this daemon's ticket, the peers and
    /// bindings the caller gathered, the granted ports and every grant.
    pub fn list(&self, peers: Vec<PeerInfo>, bindings: Vec<BindingInfo>) -> (info: ListInfo)
        ensures
            info.me@ == hex_of(self.key()@),
            info.peers@ == peers@,
            crate::grants::strictly_ascending(info.i_expose@),
            info.i_expose@.to_set() == crate::grants::ports_of(self.grant_set()),
            rows_show(info.grants@, self.grant_set()),
            info.bindings@ == bindings@,
    {
        let all = self.grants.all();
        let mut rows: Vec<GrantInfo> = Vec::new();
        let mut i: usize = 0;
        while i < all.len()
            invariant
                i <= all@.len(),
                rows@.len() == i,
                forall|j: int| 0 <= j < i ==> (#[trigger] rows@[j]).port == all@[j].0 && rows@[j].to@ == hex_of(all@[j].1@),
            decreases all@.len() - i,
        {
            let (port, key) = all[i];
            rows.push(GrantInfo { port, to: key.to_text() });
            i = i + 1;
        }
        proof {
            assert(rows_show(rows@, self.grant_set())) by {
                let pairs = all@;
                assert(forall|j: int| 0 <= j < rows@.len() ==> (#[trigger] rows@[j]).port == pairs[j].0 && rows@[j].to@ == hex_of(pairs[j].1@));
            }
        }
        ListInfo {
            me: self.ticket(),
            peers,
            i_expose: self.grants.ports(),
            grants: rows,
            bindings,
        }
    }

    /// Decide a client request. Requests on grants, tokens, pins and the
    /// ticket are carried out here and answered; adding, removing and
    /// listing peers are handed back for the caller to do over the network.
    pub fn handle_request(&mut self, request: Request, known: &Vec<PeerKey>) -> (step: Step)
        ensures
            final(self).key() == old(self).key(),
            match request {
                Request::AddPeer { ticket } => (match endpoint_id_bytes(ticket@) {
                    Some(b) => step matches Step::AddPeer(k) && k@ == b,
                    None => step matches Step::Reply(Response::Error(e)) && e@ == "invalid peer key"@,
                }) && final(self).grant_set() == old(self).grant_set(),
                Request::RemovePeer { ticket } => match endpoint_id_bytes(ticket@) {
                    Some(b) => if knows(known@, b) {
                        step matches Step::RemovePeer(k) && k@ == b
                            && final(self).grant_set() == old(self).grant_set().filter(|pair: (u16, PeerKey)| pair.1 != k)
                    } else {
                        step matches Step::Reply(Response::Error(e)) && e@ == "unknown peer"@
                            && final(self).grant_set() == old(self).grant_set()
                    },
                    None => step matches Step::Reply(Response::Error(e)) && e@ == "invalid peer key"@
                        && final(self).grant_set() == old(self).grant_set(),
                },
                Request::Expose { port, to } => if all_named(to@) {
                    step matches Step::Reply(Response::Done)
                        && final(self).grant_set() == exposed(old(self).grant_set(), port, to@, known@)
                } else {
                    step matches Step::Reply(Response::Error(e)) && e@ == "invalid peer key"@
                        && final(self).grant_set() == old(self).grant_set()
                },
                Request::Unexpose { port, to } => match to {
                    None => step matches Step::Reply(Response::Done) && final(self).grant_set()
                        == old(self).grant_set().filter(|pair: (u16, PeerKey)| pair.0 != port),
                    Some(t) => match endpoint_id_bytes(t@) {
                        Some(b) => step matches Step::Reply(Response::Done) && final(self).grant_set()
                            == old(self).grant_set().filter(|pair: (u16, PeerKey)| !(pair.0 == port && pair.1@ == b)),
                        None => step matches Step::Reply(Response::Error(e)) && e@ == "invalid peer key"@
                            && final(self).grant_set() == old(self).grant_set(),
                    },
                },
                Request::List => step is List && final(self).grant_set() == old(self).grant_set(),
                Request::Ticket => step matches Step::Reply(Response::Ticket(t)) && t@ == hex_of(old(self).key()@)
                    && final(self).grant_set() == old(self).grant_set(),
                Request::GrantToken { label } => step matches Step::Reply(Response::Token(t))
                    && t@.len() == 64
                    && (forall|i: int| 0 <= i < t@.len() ==> is_hex_digit(#[trigger] t@[i]))
                    && final(self).pending().contains_key(t@)
                    && final(self).pending()[t@].0 == label@
                    && (exists|now: u64| final(self).pending()[t@].1 == saturating_sum(now, TOKEN_TTL_NS))
                    && final(self).pending().remove(t@) == old(self).pending().remove(t@)
                    && (exists|bytes: Seq<u8>, now: u64| bytes.len() == 32 && t@ == hex_of(bytes)
                        && now >= old(self).clock() && final(self).clock() == now
                        && final(self).pending() == old(self).pending().insert(
                            t@,
                            (label@, saturating_sum(now, TOKEN_TTL_NS)),
                        ))
                    && final(self).grant_set() == old(self).grant_set(),
                Request::Pin { key, label } => (match endpoint_id_bytes(key@) {
                    Some(b) => step matches Step::Reply(Response::Done)
                        && final(self).pinned() == without_key(old(self).pinned(), hex_of(b)).push((hex_of(b), label@)),
                    None => step matches Step::Reply(Response::Error(e)) && e@ == "invalid peer key"@
                        && final(self).pinned() == old(self).pinned(),
                }) && final(self).grant_set() == old(self).grant_set(),
            },
            !(request is GrantToken) ==> final(self).pending() == old(self).pending()
                && final(self).clock() == old(self).clock(),
            !(request is Pin) ==> final(self).pinned() == old(self).pinned(),
    {
        match request {
            Request::AddPeer { ticket } => match PeerKey::parse(ticket.as_str()) {
                Some(k) => Step::AddPeer(k),
                None => Step::Reply(Response::Error(String::from_str("invalid peer key"))),
            },
            Request::RemovePeer { ticket } => match PeerKey::parse(ticket.as_str()) {
                Some(k) => {
                    if contains_key(known, &k) {
                        self.grants.revoke_grantee(&k);
                        Step::RemovePeer(k)
                    } else {
                        proof {
                            assert forall|i: int| 0 <= i < known@.len() implies (#[trigger] known@[i])@ != k@ by {
                                PeerKey::lemma_view_injective(known@[i], k);
                            }
                        }
                        Step::Reply(Response::Error(String::from_str("unknown peer")))
                    }
                },
                None => Step::Reply(Response::Error(String::from_str("invalid peer key"))),
            },
            Request::Expose { port, to } => match self.expose(port, &to, known) {
                Ok(()) => Step::Reply(Response::Done),
                Err(e) => Step::Reply(Response::Error(e)),
            },
            Request::Unexpose { port, to } => match self.unexpose(port, &to) {
                Ok(()) => Step::Reply(Response::Done),
                Err(e) => Step::Reply(Response::Error(e)),
            },
            Request::List => Step::List,
            Request::Ticket => Step::Reply(Response::Ticket(self.ticket())),
            Request::GrantToken { label } => Step::Reply(Response::Token(self.grant_token(label))),
            Request::Pin { key, label } => match self.pin(key.as_str(), label.as_str()) {
                Ok(()) => Step::Reply(Response::Done),
                Err(e) => Step::Reply(Response::Error(e)),
            },
        }
    }

    /// Whether a connecting `peer` is admitted at once: it is pinned, or it
    /// is one of the peers `known` by ticket. Anyone else must enroll first.
    pub fn admits(&self, peer: &PeerKey, known: &Vec<PeerKey>) -> (r: bool)
        ensures
            r == (known@.contains(*peer) || exists|i: int|
                0 <= i < self.pinned().len() && (#[trigger] self.pinned()[i]).0 == hex_of(peer@)),
    {
        contains_key(known, peer) || self.is_pinned(peer)
    }

    /// What `peer` is announced: the ports granted to it, and no others.
    pub fn announcement(&self, peer: &PeerKey) -> (m: PeerMessage)
        ensures
            m matches PeerMessage::ExposedPorts(ports) && crate::grants::strictly_ascending(ports@)
                && ports@.to_set() == crate::grants::ports_granted_to(self.grant_set(), *peer),
    {
        PeerMessage::ExposedPorts(self.grants.ports_for(peer))
    }

    /// Whether `peer` may open a tunnel to `port`: only to a port granted to it.
    pub fn tunnel_allowed(&self, peer: &PeerKey, port: u16) -> (r: bool)
        ensures
            r == self.grant_set().contains((port, *peer)),
    {
        self.grants.allows(port, peer)
    }

    /// Distinct granted ports, in ascending order.
    pub fn get_exposed_ports(&self) -> (r: Vec<u16>)
        ensures
            crate::grants::strictly_ascending(r@),
            r@.to_set() == crate::grants::ports_of(self.grant_set()),
    {
        self.grants.ports()
    }
}

} // verus!
