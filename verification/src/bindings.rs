//! The local ports this daemon has bound to tunnel into the ports that its
//! peers announce: at most one peer per local port, and a port once bound
//! stays with the peer that got it until that peer is removed.

use crate::hex::hex_of;
use crate::key::PeerKey;
use crate::protocol::BindingInfo;
use crate::seqs::{lemma_push_contains, lemma_push_unique, lemma_take_all, lemma_take_next};
use vstd::prelude::*;

verus! {

/// Whether `port` is bound in `s`, to whichever peer.
pub open spec fn bound(s: Set<(u16, PeerKey)>, port: u16) -> bool {
    exists|k: PeerKey| s.contains((port, k))
}

/// No port is bound to two peers.
pub open spec fn one_peer_per_port(s: Set<(u16, PeerKey)>) -> bool {
    forall|p: u16, a: PeerKey, b: PeerKey| s.contains((p, a)) && s.contains((p, b)) ==> a == b
}

/// `row` shows a binding of `s`: a bound port with its peer's ticket.
pub open spec fn shows(s: Set<(u16, PeerKey)>, row: BindingInfo) -> bool {
    exists|k: PeerKey| #[trigger] s.contains((row.port, k)) && row.peer@ == hex_of(k@)
}

/// `rows` list the bindings `s`, one row per bound port, in ascending
/// order of port, each with its peer's ticket.
pub open spec fn rows_list(rows: Seq<BindingInfo>, s: Set<(u16, PeerKey)>) -> bool {
    &&& forall|i: int, j: int| 0 <= i < j < rows.len() ==> rows[i].port < rows[j].port
    &&& forall|i: int| 0 <= i < rows.len() ==> shows(s, #[trigger] rows[i])
    &&& forall|p: u16| bound(s, p) ==> exists|i: int| 0 <= i < rows.len() && #[trigger] rows[i].port == p
}

/// Dropping `peer` frees exactly the ports bound to it: every other bound
/// port stays bound (to the same peer).
pub proof fn law_drop_frees_only_its_ports(s: Set<(u16, PeerKey)>, peer: PeerKey, port: u16)
    requires
        one_peer_per_port(s),
    ensures
        bound(s.filter(|pair: (u16, PeerKey)| pair.1 != peer), port) <==> (bound(s, port) && !s.contains((port, peer))),
        forall|k: PeerKey| k != peer ==> (s.filter(|pair: (u16, PeerKey)| pair.1 != peer).contains((port, k)) <==> s.contains((port, k))),
{
    let t = s.filter(|pair: (u16, PeerKey)| pair.1 != peer);
    if bound(s, port) && !s.contains((port, peer)) {
        let k = choose|k: PeerKey| s.contains((port, k));
        assert(t.contains((port, k)));
    }
}

/// Ports in strictly ascending order.
spec fn ascending(entries: Seq<(u16, PeerKey)>) -> bool {
    forall|i: int, j: int| 0 <= i < j < entries.len() ==> entries[i].0 < entries[j].0
}

/// Whether `p` occurs in `v`.
fn has_port(v: &Vec<u16>, p: u16) -> (r: bool)
    ensures
        r == v@.contains(p),
{
    let mut i: usize = 0;
    while i < v.len()
        invariant
            i <= v@.len(),
            forall|j: int| 0 <= j < i ==> v@[j] != p,
        decreases v@.len() - i,
    {
        if v[i] == p {
            return true;
        }
        i = i + 1;
    }
    false
}

/// The local port bindings, kept in ascending order of port.
pub struct Bindings {
    entries: Vec<(u16, PeerKey)>,
}

impl View for Bindings {
    type V = Set<(u16, PeerKey)>;

    closed spec fn view(&self) -> Set<(u16, PeerKey)> {
        self.entries@.to_set()
    }
}

impl Bindings {
    #[verifier::type_invariant]
    closed spec fn inv(self) -> bool {
        ascending(self.entries@)
    }

    /// No port is bound to two peers.
    proof fn lemma_one_peer_per_port(entries: Seq<(u16, PeerKey)>)
        requires
            ascending(entries),
        ensures
            one_peer_per_port(entries.to_set()),
    {
        assert forall|p: u16, a: PeerKey, b: PeerKey|
            entries.to_set().contains((p, a)) && entries.to_set().contains((p, b)) implies a == b by {
            let i = choose|i: int| 0 <= i < entries.len() && entries[i] == (p, a);
            let j = choose|j: int| 0 <= j < entries.len() && entries[j] == (p, b);
            assert(i == j);
        }
    }

    /// No bindings.
    pub fn new() -> (b: Bindings)
        ensures
            b@ == Set::<(u16, PeerKey)>::empty(),
    {
        let b = Bindings { entries: Vec::new() };
        proof {
            assert(b@ =~= Set::<(u16, PeerKey)>::empty());
        }
        b
    }

    /// Whether `port` is bound.
    pub fn is_bound(&self, port: u16) -> (r: bool)
        ensures
            r == bound(self@, port),
    {
        let mut i: usize = 0;
        while i < self.entries.len()
            invariant
                i <= self.entries@.len(),
                forall|j: int| 0 <= j < i ==> self.entries@[j].0 != port,
            decreases self.entries@.len() - i,
        {
            if self.entries[i].0 == port {
                proof {
                    let e = self.entries@[i as int];
                    assert(self.entries@.contains(e));
                    assert(self@.contains((port, e.1)));
                }
                return true;
            }
            i = i + 1;
        }
        proof {
            if bound(self@, port) {
                let k = choose|k: PeerKey| self@.contains((port, k));
                let j = choose|j: int| 0 <= j < self.entries@.len() && self.entries@[j] == (port, k);
                assert(self.entries@[j].0 == port);
            }
        }
        false
    }

    /// The ports of `announced` that still need a local listener: each one
    /// that is not bound yet, once.
    pub fn to_bind(&self, announced: &Vec<u16>) -> (r: Vec<u16>)
        ensures
            r@.no_duplicates(),
            forall|p: u16| r@.contains(p) <==> (announced@.contains(p) && !bound(self@, p)),
    {
        let mut r: Vec<u16> = Vec::new();
        let mut i: usize = 0;
        while i < announced.len()
            invariant
                i <= announced@.len(),
                r@.no_duplicates(),
                forall|p: u16| r@.contains(p) <==> (announced@.take(i as int).contains(p) && !bound(self@, p)),
            decreases announced@.len() - i,
        {
            let p = announced[i];
            proof {
                lemma_take_next(announced@, i as int);
                lemma_push_contains(announced@.take(i as int), p);
            }
            if !self.is_bound(p) && !has_port(&r, p) {
                proof {
                    lemma_push_unique(r@, p);
                    lemma_push_contains(r@, p);
                }
                r.push(p);
            }
            i = i + 1;
        }
        proof {
            lemma_take_all(announced@);
        }
        r
    }

    /// Bind `port` to `peer`, unless `port` is bound already (then the
    /// binding it has stays). Whether it was bound now is returned.
    pub fn bind(&mut self, port: u16, peer: PeerKey) -> (r: bool)
        ensures
            r == !bound(old(self)@, port),
            r ==> final(self)@ == old(self)@.insert((port, peer)),
            !r ==> final(self)@ == old(self)@,
            one_peer_per_port(final(self)@),
    {
        proof {
            use_type_invariant(&*self);
        }
        let mut entries: Vec<(u16, PeerKey)> = Vec::new();
        std::mem::swap(&mut entries, &mut self.entries);
        let ghost e = entries@;
        let mut i: usize = 0;
        while i < entries.len() && entries[i].0 < port
            invariant
                i <= e.len(),
                entries@ == e,
                ascending(e),
                forall|j: int| 0 <= j < i ==> e[j].0 < port,
            decreases e.len() - i,
        {
            i = i + 1;
        }
        if i < entries.len() && entries[i].0 == port {
            proof {
                assert(e.contains(e[i as int]));
                assert(e.to_set().contains((port, e[i as int].1)));
                Self::lemma_one_peer_per_port(e);
            }
            self.entries = entries;
            return false;
        }
        proof {
            assert forall|j: int| 0 <= j < e.len() implies #[trigger] e[j].0 != port by {
                if j >= i {
                    assert(e[i as int].0 > port);
                }
            }
            assert(!bound(e.to_set(), port)) by {
                if bound(e.to_set(), port) {
                    let k = choose|k: PeerKey| e.to_set().contains((port, k));
                    let j = choose|j: int| 0 <= j < e.len() && e[j] == (port, k);
                }
            }
        }
        entries.insert(i, (port, peer));
        proof {
            let n = entries@;
            assert(n == e.insert(i as int, (port, peer)));
            assert forall|a: int, b: int| 0 <= a < b < n.len() implies n[a].0 < n[b].0 by {
                if b < i {
                } else if a < i && b == i {
                } else if a < i {
                    assert(n[b] == e[b - 1]);
                } else if a == i {
                    assert(n[b] == e[b - 1]);
                    assert(e[i as int].0 > port || b - 1 == i);
                } else {
                    assert(n[a] == e[a - 1]);
                    assert(n[b] == e[b - 1]);
                }
            }
            assert forall|x: (u16, PeerKey)| #[trigger] n.to_set().contains(x) <==> (x == (port, peer) || e.to_set().contains(x)) by {
                if n.to_set().contains(x) {
                    let j = choose|j: int| 0 <= j < n.len() && n[j] == x;
                    if j < i {
                        assert(e[j] == x);
                    } else if j > i {
                        assert(e[j - 1] == x);
                    }
                }
                if x == (port, peer) {
                    assert(n[i as int] == x);
                }
                if e.to_set().contains(x) {
                    let j = choose|j: int| 0 <= j < e.len() && e[j] == x;
                    if j < i {
                        assert(n[j] == x);
                    } else {
                        assert(n[j + 1] == x);
                    }
                }
            }
            assert(n.to_set() =~= e.to_set().insert((port, peer)));
            Self::lemma_one_peer_per_port(n);
        }
        self.entries = entries;
        true
    }

    /// Drop every binding to `peer` (a removed peer).
    pub fn drop_peer(&mut self, peer: &PeerKey)
        ensures
            final(self)@ == old(self)@.filter(|pair: (u16, PeerKey)| pair.1 != *peer),
            one_peer_per_port(final(self)@),
    {
        proof {
            use_type_invariant(&*self);
        }
        let mut entries: Vec<(u16, PeerKey)> = Vec::new();
        std::mem::swap(&mut entries, &mut self.entries);
        let ghost e = entries@;
        let mut kept: Vec<(u16, PeerKey)> = Vec::new();
        let mut i: usize = 0;
        while i < entries.len()
            invariant
                i <= e.len(),
                entries@ == e,
                ascending(e),
                ascending(kept@),
                forall|j: int| 0 <= j < kept@.len() ==> exists|m: int| 0 <= m < i && #[trigger] kept@[j] == e[m],
                forall|x: (u16, PeerKey)| kept@.contains(x) <==> (e.take(i as int).contains(x) && x.1 != *peer),
            decreases e.len() - i,
        {
            let x = entries[i];
            proof {
                lemma_take_next(e, i as int);
                lemma_push_contains(e.take(i as int), x);
            }
            if !x.1.same_as(peer) {
                let ghost before = kept@;
                proof {
                    lemma_push_contains(before, x);
                }
                kept.push(x);
                proof {
                    assert forall|a: int, b: int| 0 <= a < b < kept@.len() implies kept@[a].0 < kept@[b].0 by {
                        if b == before.len() {
                            let m = choose|m: int| 0 <= m < i && #[trigger] before[a] == e[m];
                            assert(kept@[a] == before[a]);
                        } else {
                            assert(kept@[a] == before[a]);
                            assert(kept@[b] == before[b]);
                        }
                    }
                    assert forall|j: int| 0 <= j < kept@.len() implies exists|m: int| 0 <= m < i + 1 && #[trigger] kept@[j] == e[m] by {
                        if j == before.len() {
                            assert(kept@[j] == e[i as int]);
                        } else {
                            assert(kept@[j] == before[j]);
                            let m = choose|m: int| 0 <= m < i && #[trigger] before[j] == e[m];
                        }
                    }
                }
            } else {
                proof {
                    assert forall|j: int| 0 <= j < kept@.len() implies exists|m: int| 0 <= m < i + 1 && #[trigger] kept@[j] == e[m] by {
                        let m = choose|m: int| 0 <= m < i && #[trigger] kept@[j] == e[m];
                    }
                }
            }
            i = i + 1;
        }
        proof {
            lemma_take_all(e);
            assert(kept@.to_set() =~= e.to_set().filter(|pair: (u16, PeerKey)| pair.1 != *peer));
            Self::lemma_one_peer_per_port(kept@);
        }
        self.entries = kept;
    }

    /// The bindings as rows for the listing, in ascending order of port.
    pub fn list(&self) -> (rows: Vec<BindingInfo>)
        ensures
            rows_list(rows@, self@),
    {
        proof {
            use_type_invariant(self);
        }
        let mut rows: Vec<BindingInfo> = Vec::new();
        let mut i: usize = 0;
        while i < self.entries.len()
            invariant
                i <= self.entries@.len(),
                ascending(self.entries@),
                rows@.len() == i,
                forall|j: int|
                    0 <= j < i ==> (#[trigger] rows@[j]).port == self.entries@[j].0 && rows@[j].peer@ == hex_of(
                        self.entries@[j].1@,
                    ),
            decreases self.entries@.len() - i,
        {
            let (port, key) = self.entries[i];
            rows.push(BindingInfo { port, peer: key.to_text() });
            i = i + 1;
        }
        proof {
            let e = self.entries@;
            assert forall|j: int| 0 <= j < rows@.len() implies shows(self@, #[trigger] rows@[j]) by {
                assert(e.contains(e[j]));
                assert(self@.contains((rows@[j].port, e[j].1)));
            }
            assert forall|p: u16| bound(self@, p) implies exists|j: int| 0 <= j < rows@.len() && #[trigger] rows@[j].port == p by {
                let k = choose|k: PeerKey| self@.contains((p, k));
                let j = choose|j: int| 0 <= j < e.len() && e[j] == (p, k);
                assert(rows@[j].port == p);
            }
        }
        rows
    }
}

} // verus!
