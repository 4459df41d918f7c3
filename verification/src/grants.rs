//! Directed grants: `port -> grantee`. A grant says this daemon exposes
//! `port` to `grantee` and to no one else. Default deny: no grant, no
//! access. Each peer is announced only the ports granted to it, and a
//! tunnel is opened only for a port granted to the requesting peer.

use crate::key::PeerKey;
use crate::seqs::{lemma_push_contains, lemma_push_unique, lemma_take_all, lemma_take_next};
use std::collections::HashMap;
use vstd::prelude::*;
use vstd::std_specs::iter::IteratorSpec;

verus! {

broadcast use vstd::std_specs::hash::group_hash_axioms;

/// The grants of one daemon, indexed by port.
pub struct Grants {
    by_port: HashMap<u16, Vec<PeerKey>>,
}

/// The `(port, grantee)` pairs that a port-indexed table holds.
pub closed spec fn pairs_of(table: Map<u16, Vec<PeerKey>>) -> Set<(u16, PeerKey)> {
    Set::new(|pair: (u16, PeerKey)| table.contains_key(pair.0) && table[pair.0]@.contains(pair.1))
}

/// Every port listed in the table has at least one grantee, and no grantee twice.
pub closed spec fn table_wf(table: Map<u16, Vec<PeerKey>>) -> bool {
    forall|p: u16|
        #[trigger] table.contains_key(p) ==> table[p]@.len() > 0 && table[p]@.no_duplicates()
}

/// The ports that some grant names.
pub open spec fn ports_of(grants: Set<(u16, PeerKey)>) -> Set<u16> {
    Set::new(|p: u16| exists|k: PeerKey| #[trigger] grants.contains((p, k)))
}

/// The ports granted to `peer`.
pub open spec fn ports_granted_to(grants: Set<(u16, PeerKey)>, peer: PeerKey) -> Set<u16> {
    Set::new(|p: u16| grants.contains((p, peer)))
}

/// Each element is smaller than every later one.
pub open spec fn strictly_ascending(s: Seq<u16>) -> bool {
    forall|i: int, j: int| 0 <= i < j < s.len() ==> s[i] < s[j]
}

impl View for Grants {
    type V = Set<(u16, PeerKey)>;

    closed spec fn view(&self) -> Set<(u16, PeerKey)> {
        pairs_of(self.by_port@)
    }
}

/// Whether `key` is listed in `list`.
fn lists(list: &Vec<PeerKey>, key: &PeerKey) -> (r: bool)
    ensures
        r == list@.contains(*key),
{
    let mut i: usize = 0;
    while i < list.len()
        invariant
            i <= list.len(),
            forall|j: int| 0 <= j < i ==> list@[j] != *key,
        decreases list.len() - i,
    {
        if list[i].same_as(key) {
            return true;
        }
        i = i + 1;
    }
    false
}

/// The keys of `list` other than `key`, in order.
fn without(list: &Vec<PeerKey>, key: &PeerKey) -> (r: Vec<PeerKey>)
    requires
        list@.no_duplicates(),
    ensures
        r@.no_duplicates(),
        forall|k: PeerKey| r@.contains(k) <==> (list@.contains(k) && k != *key),
{
    let mut r: Vec<PeerKey> = Vec::new();
    let mut i: usize = 0;
    while i < list.len()
        invariant
            i <= list.len(),
            list@.no_duplicates(),
            r@.no_duplicates(),
            forall|k: PeerKey| r@.contains(k) <==> (list@.take(i as int).contains(k) && k != *key),
        decreases list.len() - i,
    {
        let k = list[i];
        proof {
            lemma_take_next(list@, i as int);
            lemma_push_contains(list@.take(i as int), k);
            assert(!list@.take(i as int).contains(k)) by {
                if list@.take(i as int).contains(k) {
                    let j = choose|j: int| 0 <= j < i && list@.take(i as int)[j] == k;
                    assert(list@[j] == list@[i as int]);
                }
            }
        }
        if !k.same_as(key) {
            proof {
                lemma_push_contains(r@, k);
                lemma_push_unique(r@, k);
            }
            r.push(k);
        }
        i = i + 1;
    }
    proof {
        assert(list@.take(list@.len() as int) =~= list@);
    }
    r
}

/// Puts `p` into its place in an ascending list that lacks it.
fn insert_sorted(r: &mut Vec<u16>, p: u16)
    requires
        strictly_ascending(old(r)@),
        !old(r)@.contains(p),
    ensures
        strictly_ascending(final(r)@),
        forall|x: u16| final(r)@.contains(x) <==> (x == p || old(r)@.contains(x)),
{
    let mut pos: usize = 0;
    while pos < r.len() && r[pos] < p
        invariant
            pos <= r.len(),
            forall|j: int| 0 <= j < pos ==> r@[j] < p,
        decreases r.len() - pos,
    {
        pos = pos + 1;
    }
    let ghost before = r@;
    proof {
        if pos < r.len() {
            assert(r@[pos as int] != p);
        }
    }
    r.insert(pos, p);
    proof {
        assert(r@ =~= before.take(pos as int).push(p) + before.skip(pos as int));
        assert forall|i: int, j: int| 0 <= i < j < r@.len() implies r@[i] < r@[j] by {
            if j < pos {
            } else if j == pos {
                assert(r@[i] == before[i]);
            } else if i < pos {
                assert(r@[j] == before[j - 1]);
                assert(before[pos as int] > p);
                assert(before[i] < p);
            } else if i == pos {
                assert(r@[j] == before[j - 1]);
                if j - 1 > pos {
                    assert(before[pos as int] < before[j - 1]);
                }
            } else {
                assert(r@[j] == before[j - 1] && r@[i] == before[i - 1]);
            }
        }
        assert forall|x: u16| r@.contains(x) <==> (x == p || before.contains(x)) by {
            if r@.contains(x) {
                let j = choose|j: int| 0 <= j < r@.len() && r@[j] == x;
                if j < pos {
                    assert(before[j] == x);
                } else if j > pos {
                    assert(before[j - 1] == x);
                }
            }
            if before.contains(x) {
                let j = choose|j: int| 0 <= j < before.len() && before[j] == x;
                if j < pos {
                    assert(r@[j] == x);
                } else {
                    assert(r@[j + 1] == x);
                }
            }
            if x == p {
                assert(r@[pos as int] == x);
            }
        }
    }
}

/// The ports of a table, in ascending order.
fn sorted_ports(table: &HashMap<u16, Vec<PeerKey>>) -> (r: Vec<u16>)
    ensures
        strictly_ascending(r@),
        forall|p: u16| r@.contains(p) <==> table@.contains_key(p),
{
    let mut r: Vec<u16> = Vec::new();
    proof {
        let ks = vstd::std_specs::hash::spec_keys_iter(table).remaining();
        assert forall|x: u16| table@.contains_key(x) <==> ks.contains(&x) by {
            if ks.contains(&x) {
                let j = choose|j: int| 0 <= j < ks.len() && ks[j] == &x;
                assert(ks.unref()[j] == x);
                assert(ks.unref().to_set().contains(x));
            }
            if table@.contains_key(x) {
                assert(ks.unref().to_set().contains(x));
                let j = choose|j: int| 0 <= j < ks.unref().len() && ks.unref()[j] == x;
                assert(ks[j] == &x);
            }
        }
    }
    for p in it: table.keys()
        invariant
            strictly_ascending(r@),
            it.seq().no_duplicates(),
            forall|x: u16| table@.contains_key(x) <==> it.seq().contains(&x),
            forall|x: u16| r@.contains(x) <==> it.seq().take(it.index()).contains(&x),
            it.index() == it.seq().len() ==> forall|x: u16|
                r@.contains(x) <==> table@.contains_key(x),
    {
        proof {
            lemma_take_next(it.seq(), it.index());
            lemma_push_contains(it.seq().take(it.index()), p);
            assert(!it.seq().take(it.index()).contains(p)) by {
                if it.seq().take(it.index()).contains(p) {
                    let j = choose|j: int| 0 <= j < it.index() && it.seq().take(it.index())[j] == p;
                    assert(it.seq()[j] == it.seq()[it.index()]);
                }
            }
        }
        insert_sorted(&mut r, *p);
        proof {
            lemma_take_all(it.seq());
            assert forall|x: u16| it.index() + 1 == it.seq().len() implies (r@.contains(x)
                <==> table@.contains_key(x)) by {
                assert(r@.contains(x) <==> it.seq().take(it.index() + 1).contains(&x));
            }
        }
    }
    r
}

impl Grants {
    #[verifier::type_invariant]
    closed spec fn inv(self) -> bool {
        table_wf(self.by_port@)
    }

    /// No grants at all.
    pub fn new() -> (g: Grants)
        ensures
            g@ == Set::<(u16, PeerKey)>::empty(),
    {
        let g = Grants { by_port: HashMap::new() };
        assert(g@ =~= Set::<(u16, PeerKey)>::empty());
        g
    }

    /// Grant `port` to `grantee`.
    pub fn add(&mut self, port: u16, grantee: PeerKey)
        ensures
            final(self)@ == old(self)@.insert((port, grantee)),
    {
        proof {
            use_type_invariant(&*self);
        }
        let mut table: HashMap<u16, Vec<PeerKey>> = HashMap::new();
        std::mem::swap(&mut table, &mut self.by_port);
        let ghost before = table@;
        let grantees = match table.remove(&port) {
            Some(list) => {
                let mut list = list;
                proof {
                    lemma_push_contains(list@, grantee);
                }
                if !lists(&list, &grantee) {
                    proof {
                        lemma_push_unique(list@, grantee);
                    }
                    list.push(grantee);
                }
                list
            },
            None => {
                let mut list: Vec<PeerKey> = Vec::new();
                proof {
                    lemma_push_contains(list@, grantee);
                }
                list.push(grantee);
                list
            },
        };
        proof {
            assert(grantees@.len() > 0);
            assert(forall|k: PeerKey|
                grantees@.contains(k) <==> (k == grantee || (before.contains_key(port)
                    && before[port]@.contains(k))));
        }
        table.insert(port, grantees);
        proof {
            assert(table_wf(table@));
            assert(pairs_of(table@) =~= pairs_of(before).insert((port, grantee)));
        }
        self.by_port = table;
    }

    /// Is `port` granted to `peer`?
    pub fn allows(&self, port: u16, peer: &PeerKey) -> (r: bool)
        ensures
            r == self@.contains((port, *peer)),
    {
        match self.by_port.get(&port) {
            Some(list) => lists(list, peer),
            None => false,
        }
    }

    /// Revoke a grant. With a grantee, remove just that grant; without,
    /// remove every grant for the port.
    pub fn remove(&mut self, port: u16, grantee: Option<PeerKey>)
        ensures
            match grantee {
                Some(g) => final(self)@ == old(self)@.remove((port, g)),
                None => final(self)@ == old(self)@.filter(|pair: (u16, PeerKey)| pair.0 != port),
            },
    {
        proof {
            use_type_invariant(&*self);
        }
        let mut table: HashMap<u16, Vec<PeerKey>> = HashMap::new();
        std::mem::swap(&mut table, &mut self.by_port);
        let ghost before = table@;
        match grantee {
            Some(g) => {
                match table.remove(&port) {
                    Some(list) => {
                        let rest = without(&list, &g);
                        if rest.len() > 0 {
                            table.insert(port, rest);
                        }
                        proof {
                            assert(pairs_of(table@) =~= pairs_of(before).remove((port, g)));
                        }
                    },
                    None => {
                        proof {
                            assert(pairs_of(table@) =~= pairs_of(before).remove((port, g)));
                        }
                    },
                }
            },
            None => {
                table.remove(&port);
                proof {
                    assert(pairs_of(table@) =~= pairs_of(before).filter(
                        |pair: (u16, PeerKey)| pair.0 != port,
                    ));
                }
            },
        }
        self.by_port = table;
    }

    /// Drop every grant naming `peer` (peer evicted).
    pub fn revoke_grantee(&mut self, peer: &PeerKey)
        ensures
            final(self)@ == old(self)@.filter(|pair: (u16, PeerKey)| pair.1 != *peer),
    {
        proof {
            use_type_invariant(&*self);
        }
        let mut table: HashMap<u16, Vec<PeerKey>> = HashMap::new();
        std::mem::swap(&mut table, &mut self.by_port);
        let ghost before = table@;
        let ports = sorted_ports(&table);
        proof {
            assert forall|j: int| 0 <= j < ports@.len() implies #[trigger] table@.contains_key(ports@[j]) by {
                assert(ports@.contains(ports@[j]));
            }
            assert forall|pair: (u16, PeerKey)| #[trigger] pairs_of(table@).contains(pair) <==> (
                pairs_of(before).contains(pair) && !(pair.1 == *peer && ports@.take(0).contains(pair.0))) by {
            }
        }
        let mut i: usize = 0;
        while i < ports.len()
            invariant
                i <= ports.len(),
                strictly_ascending(ports@),
                forall|p: u16| ports@.contains(p) <==> before.contains_key(p),
                table_wf(table@),
                forall|j: int| i <= j < ports@.len() ==> #[trigger] table@.contains_key(ports@[j])
                    && table@[ports@[j]] == before[ports@[j]],
                forall|pair: (u16, PeerKey)|
                    #[trigger] pairs_of(table@).contains(pair) <==> (pairs_of(before).contains(pair)
                        && !(pair.1 == *peer && ports@.take(i as int).contains(pair.0))),
            decreases ports.len() - i,
        {
            let p = ports[i];
            let ghost prev = table@;
            proof {
                lemma_take_next(ports@, i as int);
                lemma_push_contains(ports@.take(i as int), p);
                assert(table@.contains_key(p));
            }
            match table.remove(&p) {
                Some(list) => {
                    let rest = without(&list, peer);
                    if rest.len() > 0 {
                        table.insert(p, rest);
                    }
                },
                None => {},
            }
            proof {
                assert forall|j: int| i + 1 <= j < ports@.len() implies #[trigger] table@.contains_key(
                    ports@[j],
                ) && table@[ports@[j]] == before[ports@[j]] by {
                    assert(ports@[j] != p);
                }
                assert forall|pair: (u16, PeerKey)| #[trigger]
                    pairs_of(table@).contains(pair) <==> (pairs_of(before).contains(pair) && !(
                    pair.1 == *peer && ports@.take(i + 1).contains(pair.0))) by {
                    if pair.0 != p {
                        assert(pairs_of(table@).contains(pair) == pairs_of(prev).contains(pair));
                    }
                }
            }
            i = i + 1;
        }
        proof {
            lemma_take_all(ports@);
            assert(pairs_of(table@) =~= pairs_of(before).filter(
                |pair: (u16, PeerKey)| pair.1 != *peer,
            ));
        }
        self.by_port = table;
    }

    /// Ports granted to `peer` (what it is announced), in ascending order.
    pub fn ports_for(&self, peer: &PeerKey) -> (r: Vec<u16>)
        ensures
            strictly_ascending(r@),
            r@.to_set() == ports_granted_to(self@, *peer),
    {
        proof {
            use_type_invariant(self);
        }
        let ports = sorted_ports(&self.by_port);
        let mut r: Vec<u16> = Vec::new();
        let mut i: usize = 0;
        while i < ports.len()
            invariant
                i <= ports.len(),
                strictly_ascending(ports@),
                forall|p: u16| ports@.contains(p) <==> self.by_port@.contains_key(p),
                strictly_ascending(r@),
                forall|p: u16| r@.contains(p) <==> (ports@.take(i as int).contains(p) && self@.contains((p, *peer))),
            decreases ports.len() - i,
        {
            let p = ports[i];
            proof {
                lemma_take_next(ports@, i as int);
                lemma_push_contains(ports@.take(i as int), p);
            }
            if self.allows(p, peer) {
                let ghost before = r@;
                proof {
                    lemma_push_contains(r@, p);
                }
                r.push(p);
                proof {
                    assert forall|a: int, b: int| 0 <= a < b < r@.len() implies r@[a] < r@[b] by {
                        if b == r@.len() - 1 {
                            assert(before.contains(before[a]));
                            assert(ports@.take(i as int).contains(before[a]));
                            let k = choose|k: int| 0 <= k < i && ports@.take(i as int)[k] == before[a];
                            assert(ports@[k] < ports@[i as int]);
                        } else {
                            assert(r@[a] == before[a] && r@[b] == before[b]);
                        }
                    }
                }
            }
            i = i + 1;
        }
        proof {
            lemma_take_all(ports@);
            assert forall|p: u16| self@.contains((p, *peer)) implies ports@.contains(p) by {
                assert(self.by_port@.contains_key(p));
            }
            assert(r@.to_set() =~= ports_granted_to(self@, *peer));
        }
        r
    }

    /// Distinct granted ports, in ascending order.
    pub fn ports(&self) -> (r: Vec<u16>)
        ensures
            strictly_ascending(r@),
            r@.to_set() == ports_of(self@),
    {
        proof {
            use_type_invariant(self);
        }
        let r = sorted_ports(&self.by_port);
        proof {
            assert forall|p: u16| r@.to_set().contains(p) <==> ports_of(self@).contains(p) by {
                if self.by_port@.contains_key(p) {
                    let k = self.by_port@[p]@[0];
                    assert(self@.contains((p, k)));
                }
                if ports_of(self@).contains(p) {
                    let k = choose|k: PeerKey| self@.contains((p, k));
                    assert(self.by_port@.contains_key(p));
                }
            }
            assert(r@.to_set() =~= ports_of(self@));
        }
        r
    }

    /// Every `(port, grantee)` pair, ordered by port.
    pub fn all(&self) -> (r: Vec<(u16, PeerKey)>)
        ensures
            r@.no_duplicates(),
            r@.to_set() == self@,
            forall|i: int, j: int| 0 <= i < j < r@.len() ==> r@[i].0 <= r@[j].0,
    {
        proof {
            use_type_invariant(self);
        }
        let ports = sorted_ports(&self.by_port);
        let mut rows: Vec<(u16, PeerKey)> = Vec::new();
        let mut i: usize = 0;
        while i < ports.len()
            invariant
                i <= ports.len(),
                table_wf(self.by_port@),
                strictly_ascending(ports@),
                forall|p: u16| ports@.contains(p) <==> self.by_port@.contains_key(p),
                rows@.no_duplicates(),
                forall|a: int, b: int| 0 <= a < b < rows@.len() ==> rows@[a].0 <= rows@[b].0,
                forall|pair: (u16, PeerKey)| rows@.contains(pair) <==> (ports@.take(i as int).contains(pair.0) && self@.contains(pair)),
            decreases ports.len() - i,
        {
            let p = ports[i];
            proof {
                lemma_take_next(ports@, i as int);
                lemma_push_contains(ports@.take(i as int), p);
                assert(ports@.contains(ports@[i as int]));
                assert(self.by_port@.contains_key(p));
            }
            let list = match self.by_port.get(&p) {
                Some(list) => list,
                None => { return rows; },
            };
            let ghost start = rows@;
            let mut j: usize = 0;
            while j < list.len()
                invariant
                    j <= list.len(),
                    list@.no_duplicates(),
                    self.by_port@.contains_key(p),
                    self.by_port@[p] == *list,
                    strictly_ascending(ports@),
                    ports@[i as int] == p,
                    i < ports@.len(),
                    start.no_duplicates(),
                    forall|pair: (u16, PeerKey)| start.contains(pair) ==> ports@.take(i as int).contains(pair.0),
                    forall|a: int, b: int| 0 <= a < b < start.len() ==> start[a].0 <= start[b].0,
                    rows@.len() == start.len() + j,
                    forall|a: int| 0 <= a < start.len() ==> rows@[a] == start[a],
                    forall|a: int| 0 <= a < j ==> rows@[start.len() + a] == (p, list@[a]),
                decreases list.len() - j,
            {
                rows.push((p, list[j]));
                j = j + 1;
            }
            proof {
                assert forall|a: int| 0 <= a < start.len() implies start[a].0 < p by {
                    assert(start.contains(start[a]));
                    let k = choose|k: int| 0 <= k < i && ports@.take(i as int)[k] == start[a].0;
                    assert(ports@[k] < ports@[i as int]);
                }
                assert forall|a: int| 0 <= a < rows@.len() implies #[trigger] rows@[a] == (if a
                    < start.len() { start[a] } else { (p, list@[a - start.len()]) }) by {}
                assert forall|a: int, b: int|
                    0 <= a < rows@.len() && 0 <= b < rows@.len() && a != b implies rows@[a]
                    != rows@[b] by {
                    if a >= start.len() && b >= start.len() {
                        assert(list@[a - start.len()] != list@[b - start.len()]);
                    } else if a < start.len() && b < start.len() {
                        assert(start[a] != start[b]);
                    } else if a < start.len() {
                        assert(start[a].0 < p);
                    } else {
                        assert(start[b].0 < p);
                    }
                }
                assert forall|a: int, b: int| 0 <= a < b < rows@.len() implies rows@[a].0
                    <= rows@[b].0 by {
                    if a < start.len() && b >= start.len() {
                        assert(start[a].0 < p);
                    } else if b < start.len() {
                        assert(start[a].0 <= start[b].0);
                    }
                }
                assert forall|pair: (u16, PeerKey)| rows@.contains(pair) <==> (ports@.take(i + 1).contains(pair.0) && self@.contains(pair)) by {
                    if rows@.contains(pair) {
                        let a = choose|a: int| 0 <= a < rows@.len() && rows@[a] == pair;
                        if a < start.len() {
                            assert(start.contains(pair));
                        } else {
                            assert(list@.contains(pair.1));
                        }
                    }
                    if ports@.take(i + 1).contains(pair.0) && self@.contains(pair) {
                        if pair.0 == p {
                            let b = choose|b: int| 0 <= b < list@.len() && list@[b] == pair.1;
                            assert(rows@[start.len() + b] == pair);
                        } else {
                            assert(start.contains(pair));
                            let a = choose|a: int| 0 <= a < start.len() && start[a] == pair;
                            assert(rows@[a] == pair);
                        }
                    }
                }
            }
            i = i + 1;
        }
        proof {
            lemma_take_all(ports@);
            assert forall|pair: (u16, PeerKey)| self@.contains(pair) implies ports@.contains(pair.0) by {
                assert(self.by_port@.contains_key(pair.0));
            }
            assert(rows@.to_set() =~= self@);
        }
        rows
    }
}

impl Default for Grants {
    /// No grants at all.
    fn default() -> (g: Grants)
        ensures
            g@ == Set::<(u16, PeerKey)>::empty(),
    {
        Grants::new()
    }
}

/// Default deny: where nothing was granted, no port is granted to any peer
/// and nothing is announced to it.
pub proof fn law_default_deny(port: u16, peer: PeerKey)
    ensures
        !Set::<(u16, PeerKey)>::empty().contains((port, peer)),
        ports_granted_to(Set::<(u16, PeerKey)>::empty(), peer) == Set::<u16>::empty(),
        ports_of(Set::<(u16, PeerKey)>::empty()) == Set::<u16>::empty(),
{
    assert(ports_granted_to(Set::<(u16, PeerKey)>::empty(), peer) =~= Set::<u16>::empty());
    assert(ports_of(Set::<(u16, PeerKey)>::empty()) =~= Set::<u16>::empty());
}

/// A grant is directed: granting `port` to `grantee` lets `grantee`, and no
/// one else, reach `port`; what every other peer is announced is unchanged,
/// and `grantee` is announced `port` besides what it had.
pub proof fn law_grant_is_directed(
    grants: Set<(u16, PeerKey)>,
    port: u16,
    grantee: PeerKey,
    other_port: u16,
    other: PeerKey,
)
    ensures
        grants.insert((port, grantee)).contains((port, grantee)),
        (other_port, other) != (port, grantee) ==> (grants.insert((port, grantee)).contains(
            (other_port, other),
        ) == grants.contains((other_port, other))),
        ports_granted_to(grants.insert((port, grantee)), grantee) == ports_granted_to(
            grants,
            grantee,
        ).insert(port),
        other != grantee ==> ports_granted_to(grants.insert((port, grantee)), other)
            == ports_granted_to(grants, other),
{
    assert(ports_granted_to(grants.insert((port, grantee)), grantee) =~= ports_granted_to(
        grants,
        grantee,
    ).insert(port));
    if other != grantee {
        assert(ports_granted_to(grants.insert((port, grantee)), other) =~= ports_granted_to(
            grants,
            other,
        ));
    }
}

/// Revoking a grantee clears all of its grants and leaves every other
/// peer's grants as they were.
pub proof fn law_revoke_clears_grantee(grants: Set<(u16, PeerKey)>, peer: PeerKey, other: PeerKey)
    ensures
        ports_granted_to(grants.filter(|pair: (u16, PeerKey)| pair.1 != peer), peer) == Set::<
            u16,
        >::empty(),
        other != peer ==> ports_granted_to(grants.filter(|pair: (u16, PeerKey)| pair.1 != peer), other)
            == ports_granted_to(grants, other),
{
    assert(ports_granted_to(grants.filter(|pair: (u16, PeerKey)| pair.1 != peer), peer) =~= Set::<
        u16,
    >::empty());
    if other != peer {
        assert(ports_granted_to(grants.filter(|pair: (u16, PeerKey)| pair.1 != peer), other)
            =~= ports_granted_to(grants, other));
    }
}

/// Revoking one grantee of a port keeps the port's other grantees.
pub proof fn law_remove_one_keeps_others(
    grants: Set<(u16, PeerKey)>,
    port: u16,
    grantee: PeerKey,
    other: PeerKey,
)
    ensures
        !grants.remove((port, grantee)).contains((port, grantee)),
        other != grantee ==> grants.remove((port, grantee)).contains((port, other))
            == grants.contains((port, other)),
{
}

/// Revoking a port for everyone leaves no grant on it and keeps every other
/// port's grants; the port drops out of the granted ports.
pub proof fn law_remove_port(grants: Set<(u16, PeerKey)>, port: u16, other_port: u16, peer: PeerKey)
    ensures
        !grants.filter(|pair: (u16, PeerKey)| pair.0 != port).contains((port, peer)),
        other_port != port ==> grants.filter(|pair: (u16, PeerKey)| pair.0 != port).contains(
            (other_port, peer),
        ) == grants.contains((other_port, peer)),
        ports_of(grants.filter(|pair: (u16, PeerKey)| pair.0 != port)) == ports_of(grants).remove(
            port,
        ),
{
    let after = grants.filter(|pair: (u16, PeerKey)| pair.0 != port);
    assert forall|p: u16| ports_of(after).contains(p) <==> ports_of(grants).remove(port).contains(p) by {
        if ports_of(grants).remove(port).contains(p) {
            let k = choose|k: PeerKey| grants.contains((p, k));
            assert(after.contains((p, k)));
        }
        if ports_of(after).contains(p) {
            let k = choose|k: PeerKey| after.contains((p, k));
            assert(grants.contains((p, k)));
        }
    }
    assert(ports_of(after) =~= ports_of(grants).remove(port));
}

/// Granting a pair that was not granted and then revoking it restores the
/// grants as they were.
pub proof fn law_remove_undoes_add(grants: Set<(u16, PeerKey)>, port: u16, grantee: PeerKey)
    requires
        !grants.contains((port, grantee)),
    ensures
        grants.insert((port, grantee)).remove((port, grantee)) == grants,
{
    assert(grants.insert((port, grantee)).remove((port, grantee)) =~= grants);
}

/// Granting twice is granting once.
pub proof fn law_add_idempotent(grants: Set<(u16, PeerKey)>, port: u16, grantee: PeerKey)
    ensures
        grants.insert((port, grantee)).insert((port, grantee)) == grants.insert((port, grantee)),
{
    assert(grants.insert((port, grantee)).insert((port, grantee)) =~= grants.insert((port, grantee)));
}

/// What a peer is announced is part of the granted ports, and a port is
/// announced to a peer exactly when it is granted to that peer.
pub proof fn law_announced_ports_are_granted(grants: Set<(u16, PeerKey)>, peer: PeerKey, port: u16)
    ensures
        ports_granted_to(grants, peer).subset_of(ports_of(grants)),
        ports_granted_to(grants, peer).contains(port) == grants.contains((port, peer)),
{
}

} // verus!
