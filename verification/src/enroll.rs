//! Enrollment: one-time tokens minted by the operator, and pinned peers.
//!
//! `grant-token --label <name>` mints a token; a workload presents it on
//! first connect (`--enroll TOKEN`). A valid claim pins the workload's key
//! under that label and consumes the token. Pins persist across restarts.

use crate::clock::{instant_now, nanos_since, random_bytes};
use crate::hex::{hex_lower, hex_of, is_hex_digit, lemma_hex_shape};
use crate::seqs::{lemma_push_contains, lemma_take_all};
use std::time::Instant;
use vstd::prelude::*;

verus! {

/// How long a minted token stays claimable, in nanoseconds (five minutes).
pub const TOKEN_TTL_NS: u64 = 300_000_000_000;

/// A token waiting to be claimed: its text, the label it pins under, and
/// the nanosecond (on the owning `Tokens` clock) at which it expires.
struct PendingToken {
    token: String,
    label: String,
    expires: u64,
}

/// What a table of pending tokens maps each token text to: its label and expiry.
spec fn pending_map(entries: Seq<PendingToken>) -> Map<Seq<char>, (Seq<char>, u64)>
    decreases entries.len(),
{
    if entries.len() == 0 {
        Map::empty()
    } else {
        let e = entries.last();
        pending_map(entries.drop_last()).insert(e.token@, (e.label@, e.expires))
    }
}

/// No token text occurs twice.
closed spec fn distinct_tokens(entries: Seq<PendingToken>) -> bool {
    forall|i: int, j: int|
        0 <= i < entries.len() && 0 <= j < entries.len() && i != j ==> entries[i].token@
            != entries[j].token@
}

/// The pending tokens that are still live at `now`: those whose expiry is later.
pub open spec fn live_at(pending: Map<Seq<char>, (Seq<char>, u64)>, now: u64) -> Map<
    Seq<char>,
    (Seq<char>, u64),
> {
    Map::new(|t: Seq<char>| pending.contains_key(t) && pending[t].1 > now, |t: Seq<char>| pending[t])
}

/// The label that claiming `token` at `now` hands out: that of a live token
/// of that text, and none for a reused, expired or unknown token.
pub open spec fn claim_result(pending: Map<Seq<char>, (Seq<char>, u64)>, token: Seq<char>, now: u64) -> Option<Seq<char>> {
    if pending.contains_key(token) && pending[token].1 > now {
        Some(pending[token].0)
    } else {
        None
    }
}

/// The pending tokens after claiming `token` at `now`: expired tokens are
/// swept out and the claimed token is consumed.
pub open spec fn after_claim(
    pending: Map<Seq<char>, (Seq<char>, u64)>,
    token: Seq<char>,
    now: u64,
) -> Map<Seq<char>, (Seq<char>, u64)> {
    live_at(pending, now).remove(token)
}

/// `a + b`, or `u64::MAX` where that overflows.
pub open spec fn saturating_sum(a: u64, b: u64) -> u64 {
    if a + b > u64::MAX { u64::MAX } else { (a + b) as u64 }
}

/// The map of a prefix grows by the next entry.
proof fn lemma_pending_map_step(entries: Seq<PendingToken>, i: int)
    requires
        0 <= i < entries.len(),
    ensures
        pending_map(entries.take(i + 1)) == pending_map(entries.take(i)).insert(
            entries[i].token@,
            (entries[i].label@, entries[i].expires),
        ),
{
    assert(entries.take(i + 1).drop_last() =~= entries.take(i));
}

/// With distinct token texts, the map holds exactly the entries, each with its own label and expiry.
proof fn lemma_pending_map_entries(entries: Seq<PendingToken>)
    requires
        distinct_tokens(entries),
    ensures
        forall|t: Seq<char>|
            #[trigger] pending_map(entries).contains_key(t) <==> exists|i: int|
                0 <= i < entries.len() && entries[i].token@ == t,
        forall|i: int|
            0 <= i < entries.len() ==> #[trigger] pending_map(entries)[entries[i].token@] == (
                entries[i].label@,
                entries[i].expires,
            ),
    decreases entries.len(),
{
    if entries.len() > 0 {
        let init = entries.drop_last();
        assert(distinct_tokens(init));
        lemma_pending_map_entries(init);
        let n = entries.len() - 1;
        assert forall|t: Seq<char>| #[trigger] pending_map(entries).contains_key(t) <==> exists|i: int|
            0 <= i < entries.len() && entries[i].token@ == t by {
            if pending_map(init).contains_key(t) {
                let i = choose|i: int| 0 <= i < init.len() && init[i].token@ == t;
                assert(entries[i].token@ == t);
            }
            if exists|i: int| 0 <= i < entries.len() && entries[i].token@ == t {
                let i = choose|i: int| 0 <= i < entries.len() && entries[i].token@ == t;
                if i < n {
                    assert(init[i].token@ == t);
                }
            }
        }
        assert forall|i: int| 0 <= i < entries.len() implies #[trigger] pending_map(entries)[entries[i].token@]
            == (entries[i].label@, entries[i].expires) by {
            if i < n {
                assert(init[i] == entries[i]);
                assert(entries[i].token@ != entries[n].token@);
                assert(pending_map(init)[init[i].token@] == (init[i].label@, init[i].expires));
            }
        }
    }
}

/// One-time enrollment tokens, held in memory (a daemon restart voids them).
pub struct Tokens {
    pending: Vec<PendingToken>,
    origin: Instant,
    latest: u64,
}

impl View for Tokens {
    type V = Map<Seq<char>, (Seq<char>, u64)>;

    closed spec fn view(&self) -> Map<Seq<char>, (Seq<char>, u64)> {
        pending_map(self.pending@)
    }
}

/// Whether an entry expiring at `expires` survives a sweep at `cutoff`
/// (every entry survives where there is no cutoff).
spec fn survives(expires: u64, cutoff: Option<u64>) -> bool {
    match cutoff {
        Some(now) => expires > now,
        None => true,
    }
}

/// The entries of `pending` that survive a sweep at `cutoff`, except `token`.
spec fn swept(pending: Map<Seq<char>, (Seq<char>, u64)>, token: Seq<char>, cutoff: Option<u64>) -> Map<
    Seq<char>,
    (Seq<char>, u64),
> {
    Map::new(
        |t: Seq<char>| pending.contains_key(t) && survives(pending[t].1, cutoff) && t != token,
        |t: Seq<char>| pending[t],
    )
}

/// The label of `token` where it survives a sweep at `cutoff`.
spec fn swept_label(pending: Map<Seq<char>, (Seq<char>, u64)>, token: Seq<char>, cutoff: Option<u64>) -> Option<Seq<char>> {
    if pending.contains_key(token) && survives(pending[token].1, cutoff) {
        Some(pending[token].0)
    } else {
        None
    }
}

/// The entries of `entries` that survive a sweep at `cutoff`, except
/// `token`, and the label of `token` where it survives.
fn sweep(entries: Vec<PendingToken>, token: &String, cutoff: Option<u64>) -> (r: (Vec<PendingToken>, Option<String>))
    requires
        distinct_tokens(entries@),
    ensures
        distinct_tokens(r.0@),
        pending_map(r.0@) == swept(pending_map(entries@), token@, cutoff),
        match r.1 {
            Some(label) => swept_label(pending_map(entries@), token@, cutoff) == Some(label@),
            None => swept_label(pending_map(entries@), token@, cutoff) is None,
        },
{
    let ghost all = entries@;
    let mut kept: Vec<PendingToken> = Vec::new();
    let mut found: Option<String> = None;
    proof {
        lemma_pending_map_entries(all);
        assert(all.take(0) =~= Seq::<PendingToken>::empty());
        assert(pending_map(kept@) =~= swept(pending_map(all.take(0)), token@, cutoff));
    }
    for e in it: entries
        invariant
            it.seq() == all,
            distinct_tokens(all),
            distinct_tokens(kept@),
            forall|j: int| 0 <= j < kept@.len() ==> exists|k: int| 0 <= k < it.index() && #[trigger] kept@[j].token@ == all[k].token@,
            pending_map(kept@) == swept(pending_map(all.take(it.index())), token@, cutoff),
            match found {
                Some(label) => swept_label(pending_map(all.take(it.index())), token@, cutoff) == Some(label@),
                None => swept_label(pending_map(all.take(it.index())), token@, cutoff) is None,
            },
            it.index() == all.len() ==> pending_map(kept@) == swept(pending_map(all), token@, cutoff),
            it.index() == all.len() ==> match found {
                Some(label) => swept_label(pending_map(all), token@, cutoff) == Some(label@),
                None => swept_label(pending_map(all), token@, cutoff) is None,
            },
    {
        let ghost i = it.index();
        let ghost prev = pending_map(all.take(i));
        proof {
            lemma_pending_map_step(all, i);
            assert(!prev.contains_key(e.token@)) by {
                lemma_pending_map_entries(all.take(i));
                if prev.contains_key(e.token@) {
                    let k = choose|k: int| 0 <= k < i && all.take(i)[k].token@ == e.token@;
                    assert(all[k].token@ == all[i].token@);
                }
            }
        }
        let live = match cutoff {
            Some(now) => e.expires > now,
            None => true,
        };
        if live {
            if e.token == *token {
                found = Some(e.label);
                proof {
                    assert(pending_map(kept@) =~= swept(pending_map(all.take(i + 1)), token@, cutoff));
                }
            } else {
                let ghost before = kept@;
                proof {
                    assert forall|j: int| 0 <= j < before.len() implies before[j].token@ != e.token@ by {
                        let k = choose|k: int| 0 <= k < i && #[trigger] before[j].token@ == all[k].token@;
                        assert(all[k].token@ != all[i].token@);
                    }
                }
                kept.push(e);
                proof {
                    assert(kept@.drop_last() =~= before);
                    assert(pending_map(kept@) =~= swept(pending_map(all.take(i + 1)), token@, cutoff));
                    assert forall|j: int| 0 <= j < kept@.len() implies exists|k: int| 0 <= k < i + 1 && #[trigger] kept@[j].token@ == all[k].token@ by {
                        if j == before.len() {
                            assert(kept@[j].token@ == all[i].token@);
                        } else {
                            assert(kept@[j] == before[j]);
                        }
                    }
                }
            }
        } else {
            proof {
                assert(pending_map(kept@) =~= swept(pending_map(all.take(i + 1)), token@, cutoff));
            }
        }
        proof {
            lemma_take_all(all);
        }
    }
    (kept, found)
}

impl Tokens {
    #[verifier::type_invariant]
    closed spec fn inv(self) -> bool {
        distinct_tokens(self.pending@)
    }

    /// The latest reading of this table's clock (in nanoseconds since the
    /// table was made); readings never go back.
    pub closed spec fn clock(&self) -> u64 {
        self.latest
    }

    /// No pending tokens; expiries are counted from now.
    pub fn new() -> (t: Tokens)
        ensures
            t@ == Map::<Seq<char>, (Seq<char>, u64)>::empty(),
            t.clock() == 0,
    {
        Tokens { pending: Vec::new(), origin: instant_now(), latest: 0 }
    }

    /// Read this table's clock: nanoseconds since the table was made, never
    /// earlier than a previous reading.
    fn now(&mut self) -> (r: u64)
        ensures
            r >= old(self).clock(),
            final(self).clock() == r,
            final(self)@ == old(self)@,
    {
        proof {
            use_type_invariant(&*self);
        }
        let t = nanos_since(&self.origin);
        if t > self.latest {
            self.latest = t;
        }
        self.latest
    }

    /// Mint a token for `label`, claimable for five minutes.
    pub fn mint(&mut self, label: String) -> (token: String)
        ensures
            token@.len() == 64,
            forall|i: int| 0 <= i < token@.len() ==> is_hex_digit(#[trigger] token@[i]),
            final(self)@.contains_key(token@),
            final(self)@[token@].0 == label@,
            exists|now: u64| final(self)@[token@].1 == saturating_sum(now, TOKEN_TTL_NS),
            final(self)@.remove(token@) == old(self)@.remove(token@),
            exists|bytes: Seq<u8>, now: u64|
                bytes.len() == 32 && token@ == hex_of(bytes) && now >= old(self).clock()
                    && final(self).clock() == now && final(self)@ == old(self)@.insert(
                    token@,
                    (label@, saturating_sum(now, TOKEN_TTL_NS)),
                ),
    {
        self.mint_with_ttl(label, TOKEN_TTL_NS)
    }

    /// Mint a token for `label`, claimable for `ttl_ns` nanoseconds.
    pub fn mint_with_ttl(&mut self, label: String, ttl_ns: u64) -> (token: String)
        ensures
            token@.len() == 64,
            forall|i: int| 0 <= i < token@.len() ==> is_hex_digit(#[trigger] token@[i]),
            final(self)@.contains_key(token@),
            final(self)@[token@].0 == label@,
            exists|now: u64| final(self)@[token@].1 == saturating_sum(now, ttl_ns),
            final(self)@.remove(token@) == old(self)@.remove(token@),
            exists|bytes: Seq<u8>, now: u64|
                bytes.len() == 32 && token@ == hex_of(bytes) && now >= old(self).clock()
                    && final(self).clock() == now && final(self)@ == old(self)@.insert(
                    token@,
                    (label@, saturating_sum(now, ttl_ns)),
                ),
    {
        let bytes = random_bytes();
        let now = self.now();
        let token = self.mint_at(label, &bytes, now, ttl_ns);
        proof {
            assert(bytes@.len() == 32 && token@ == hex_of(bytes@));
        }
        token
    }

    /// Mint the token of `bytes` for `label` at nanosecond `now` of this
    /// table's clock, claimable for `ttl_ns` nanoseconds: its text is the
    /// lower-case hex of the bytes, and it replaces any pending token of
    /// that text.
    pub fn mint_at(&mut self, label: String, bytes: &[u8; 32], now: u64, ttl_ns: u64) -> (token: String)
        ensures
            token@ == hex_of(bytes@),
            token@.len() == 64,
            forall|i: int| 0 <= i < token@.len() ==> is_hex_digit(#[trigger] token@[i]),
            final(self)@ == old(self)@.insert(token@, (label@, saturating_sum(now, ttl_ns))),
            final(self).clock() == old(self).clock(),
    {
        let token = hex_lower(bytes);
        proof {
            lemma_hex_shape(bytes@);
        }
        let expires = now.saturating_add(ttl_ns);
        self.record(token.clone(), label, expires);
        token
    }

    /// Add (or replace) the pending token `token`.
    fn record(&mut self, token: String, label: String, expires: u64)
        ensures
            final(self)@ == old(self)@.insert(token@, (label@, expires)),
            final(self).clock() == old(self).clock(),
    {
        proof {
            use_type_invariant(&*self);
        }
        let mut entries: Vec<PendingToken> = Vec::new();
        std::mem::swap(&mut entries, &mut self.pending);
        let ghost before = pending_map(entries@);
        let (mut kept, _) = sweep(entries, &token, None);
        let ghost rest = kept@;
        proof {
            lemma_pending_map_entries(rest);
            assert forall|j: int| 0 <= j < rest.len() implies rest[j].token@ != token@ by {
                assert(pending_map(rest).contains_key(rest[j].token@));
            }
        }
        kept.push(PendingToken { token, label, expires });
        proof {
            assert(kept@.drop_last() =~= rest);
            assert(pending_map(kept@) =~= before.insert(token@, (label@, expires)));
        }
        self.pending = kept;
    }
    /// Claim `token`. Single use: a valid claim consumes it and returns its
    /// label; reused, expired, or unknown tokens return `None`. Expired
    /// tokens are swept out on the way.
    pub fn claim(&mut self, token: &str) -> (label: Option<String>)
        ensures
            exists|now: u64| {
                &&& now >= old(self).clock()
                &&& final(self).clock() == now
                &&& final(self)@ == after_claim(old(self)@, token@, now)
                &&& match label {
                    Some(l) => claim_result(old(self)@, token@, now) == Some(l@),
                    None => claim_result(old(self)@, token@, now) is None,
                }
            },
            !final(self)@.contains_key(token@),
            label is Some ==> old(self)@.contains_key(token@) && label->0@ == old(self)@[token@].0,
            !old(self)@.contains_key(token@) ==> label is None,
    {
        let now = self.now();
        let label = self.claim_at(token, now);
        assert(final(self)@ == after_claim(old(self)@, token@, now));
        assert(final(self).clock() == now);
        label
    }

    /// Claim `token` at nanosecond `now` of this table's clock: sweep out
    /// the tokens that have expired by `now`, then consume `token` and hand
    /// out its label if it was still live.
    pub fn claim_at(&mut self, token: &str, now: u64) -> (label: Option<String>)
        ensures
            final(self)@ == after_claim(old(self)@, token@, now),
            match label {
                Some(l) => claim_result(old(self)@, token@, now) == Some(l@),
                None => claim_result(old(self)@, token@, now) is None,
            },
            final(self).clock() == old(self).clock(),
    {
        proof {
            use_type_invariant(&*self);
        }
        let wanted = String::from_str(token);
        let mut entries: Vec<PendingToken> = Vec::new();
        std::mem::swap(&mut entries, &mut self.pending);
        let ghost before = pending_map(entries@);
        let (kept, label) = sweep(entries, &wanted, Some(now));
        proof {
            assert(pending_map(kept@) =~= after_claim(before, token@, now));
        }
        self.pending = kept;
        label
    }
}

/// A peer key pinned at enrollment, under a label.
#[derive(Clone, Debug)]
pub struct Pin {
    pub key: String,
    pub label: String,
}

/// A pin as text: its key and its label.
pub open spec fn pin_view(pin: Pin) -> (Seq<char>, Seq<char>) {
    (pin.key@, pin.label@)
}

/// The pins of `pins`, in order, except those of `key`.
pub open spec fn without_key(pins: Seq<(Seq<char>, Seq<char>)>, key: Seq<char>) -> Seq<(Seq<char>, Seq<char>)>
    decreases pins.len(),
{
    if pins.len() == 0 {
        Seq::empty()
    } else {
        let rest = without_key(pins.drop_last(), key);
        if pins.last().0 == key {
            rest
        } else {
            rest.push(pins.last())
        }
    }
}

/// Pinned peers, in the order in which they are stored.
pub struct Pins {
    pins: Vec<Pin>,
}

impl View for Pins {
    type V = Seq<(Seq<char>, Seq<char>)>;

    closed spec fn view(&self) -> Seq<(Seq<char>, Seq<char>)> {
        self.pins@.map_values(|p: Pin| pin_view(p))
    }
}

/// Dropping `key` from a list that grew by one pin.
proof fn lemma_without_key_push(pins: Seq<(Seq<char>, Seq<char>)>, pin: (Seq<char>, Seq<char>), key: Seq<char>)
    ensures
        without_key(pins.push(pin), key) == if pin.0 == key {
            without_key(pins, key)
        } else {
            without_key(pins, key).push(pin)
        },
{
    assert(pins.push(pin).drop_last() =~= pins);
}

/// `pins` without the pins of `key`.
fn drop_key(pins: Vec<Pin>, key: &String) -> (r: Vec<Pin>)
    ensures
        r@.map_values(|p: Pin| pin_view(p)) == without_key(pins@.map_values(|p: Pin| pin_view(p)), key@),
{
    let ghost all = pins@;
    let mut kept: Vec<Pin> = Vec::new();
    proof {
        assert(all.take(0).map_values(|p: Pin| pin_view(p)) =~= Seq::<(Seq<char>, Seq<char>)>::empty());
        assert(kept@.map_values(|p: Pin| pin_view(p)) =~= Seq::<(Seq<char>, Seq<char>)>::empty());
    }
    for pin in it: pins
        invariant
            it.seq() == all,
            kept@.map_values(|p: Pin| pin_view(p)) == without_key(all.take(it.index()).map_values(|p: Pin| pin_view(p)), key@),
            it.index() == all.len() ==> kept@.map_values(|p: Pin| pin_view(p)) == without_key(all.map_values(|p: Pin| pin_view(p)), key@),
    {
        let ghost i = it.index();
        proof {
            assert(all.take(i + 1).map_values(|p: Pin| pin_view(p)) =~= all.take(i).map_values(|p: Pin| pin_view(p)).push(pin_view(pin)));
            lemma_without_key_push(all.take(i).map_values(|p: Pin| pin_view(p)), pin_view(pin), key@);
        }
        if pin.key != *key {
            let ghost before = kept@;
            kept.push(pin);
            proof {
                assert(kept@.map_values(|p: Pin| pin_view(p)) =~= before.map_values(|p: Pin| pin_view(p)).push(pin_view(pin)));
            }
        }
        proof {
            lemma_take_all(all);
        }
    }
    kept
}

impl Pins {
    /// The pins held by a store, as loaded from it.
    pub fn new(pins: Vec<Pin>) -> (r: Pins)
        ensures
            r@ == pins@.map_values(|p: Pin| pin_view(p)),
    {
        Pins { pins }
    }

    /// Pin `key` under `label`. A key is pinned once: a re-pin replaces the
    /// earlier pin of that key, and the new pin comes last.
    pub fn add(&mut self, key: &str, label: &str)
        ensures
            final(self)@ == without_key(old(self)@, key@).push((key@, label@)),
    {
        let key = String::from_str(key);
        let label = String::from_str(label);
        let mut pins: Vec<Pin> = Vec::new();
        std::mem::swap(&mut pins, &mut self.pins);
        let mut kept = drop_key(pins, &key);
        let ghost before = kept@;
        kept.push(Pin { key, label });
        proof {
            assert(kept@.map_values(|p: Pin| pin_view(p)) =~= before.map_values(|p: Pin| pin_view(p)).push((key@, label@)));
        }
        self.pins = kept;
    }

    /// Unpin `key`.
    pub fn remove(&mut self, key: &str)
        ensures
            final(self)@ == without_key(old(self)@, key@),
    {
        let key = String::from_str(key);
        let mut pins: Vec<Pin> = Vec::new();
        std::mem::swap(&mut pins, &mut self.pins);
        self.pins = drop_key(pins, &key);
    }

    /// The pins, in stored order.
    pub fn pins(&self) -> (r: &Vec<Pin>)
        ensures
            r@.map_values(|p: Pin| pin_view(p)) == self@,
    {
        &self.pins
    }

    /// The pins, in stored order, taken out of the table.
    pub fn into_pins(self) -> (r: Vec<Pin>)
        ensures
            r@.map_values(|p: Pin| pin_view(p)) == self@,
    {
        self.pins
    }
}

impl Default for Tokens {
    /// No pending tokens; expiries are counted from now.
    fn default() -> (t: Tokens)
        ensures
            t@ == Map::<Seq<char>, (Seq<char>, u64)>::empty(),
            t.clock() == 0,
    {
        Tokens::new()
    }
}

/// A token can be claimed once: after any claim of it, a later claim of the
/// same token, at any time, hands out nothing.
pub proof fn law_token_single_use(
    pending: Map<Seq<char>, (Seq<char>, u64)>,
    token: Seq<char>,
    first: u64,
    second: u64,
)
    ensures
        claim_result(after_claim(pending, token, first), token, second) is None,
{
}

/// An unknown token is refused.
pub proof fn law_unknown_token_fails(pending: Map<Seq<char>, (Seq<char>, u64)>, token: Seq<char>, now: u64)
    requires
        !pending.contains_key(token),
    ensures
        claim_result(pending, token, now) is None,
{
}

/// An expired token is refused.
pub proof fn law_expired_token_fails(pending: Map<Seq<char>, (Seq<char>, u64)>, token: Seq<char>, now: u64)
    requires
        pending.contains_key(token),
        pending[token].1 <= now,
    ensures
        claim_result(pending, token, now) is None,
{
}

/// A minted token claimed before it expires hands out the label it was minted for.
pub proof fn law_mint_then_claim(
    pending: Map<Seq<char>, (Seq<char>, u64)>,
    token: Seq<char>,
    label: Seq<char>,
    expires: u64,
    now: u64,
)
    requires
        now < expires,
    ensures
        claim_result(pending.insert(token, (label, expires)), token, now) == Some(label),
{
}

/// A token is claimable for five minutes from the moment it was minted:
/// claimed less than `TOKEN_TTL_NS` after `minted` it hands out its label,
/// and from then on nothing. (A clock at `u64::MAX` is past every expiry.)
pub proof fn law_token_lifetime(
    pending: Map<Seq<char>, (Seq<char>, u64)>,
    token: Seq<char>,
    label: Seq<char>,
    minted: u64,
    now: u64,
)
    ensures
        now < minted + TOKEN_TTL_NS && now < u64::MAX ==> claim_result(
            pending.insert(token, (label, saturating_sum(minted, TOKEN_TTL_NS))),
            token,
            now,
        ) == Some(label),
        minted + TOKEN_TTL_NS <= now ==> claim_result(
            pending.insert(token, (label, saturating_sum(minted, TOKEN_TTL_NS))),
            token,
            now,
        ) is None,
{
}

/// A claim leaves every other token that is still live as it was.
pub proof fn law_claim_keeps_other_live_tokens(
    pending: Map<Seq<char>, (Seq<char>, u64)>,
    token: Seq<char>,
    other: Seq<char>,
    now: u64,
)
    requires
        other != token,
        pending.contains_key(other),
        pending[other].1 > now,
    ensures
        after_claim(pending, token, now).contains_key(other),
        after_claim(pending, token, now)[other] == pending[other],
{
}

/// Dropping a key keeps exactly the pins of other keys.
pub proof fn lemma_without_key_contains(pins: Seq<(Seq<char>, Seq<char>)>, key: Seq<char>)
    ensures
        forall|e: (Seq<char>, Seq<char>)|
            #[trigger] without_key(pins, key).contains(e) <==> (pins.contains(e) && e.0 != key),
    decreases pins.len(),
{
    if pins.len() > 0 {
        let init = pins.drop_last();
        lemma_without_key_contains(init, key);
        assert(init.push(pins.last()) =~= pins);
        lemma_push_contains(init, pins.last());
        lemma_push_contains(without_key(init, key), pins.last());
    }
}

/// Dropping a key twice is dropping it once.
pub proof fn lemma_without_key_idempotent(pins: Seq<(Seq<char>, Seq<char>)>, key: Seq<char>)
    ensures
        without_key(without_key(pins, key), key) == without_key(pins, key),
    decreases pins.len(),
{
    if pins.len() > 0 {
        let init = pins.drop_last();
        lemma_without_key_idempotent(init, key);
        if pins.last().0 != key {
            lemma_without_key_push(without_key(init, key), pins.last(), key);
        }
    }
}

/// After pinning `key` under `label`, `key` is pinned exactly once, under
/// `label`, and the pins of every other key are those there were.
pub proof fn law_pin_once(pins: Seq<(Seq<char>, Seq<char>)>, key: Seq<char>, label: Seq<char>)
    ensures
        ({
            let after = without_key(pins, key).push((key, label));
            &&& after.contains((key, label))
            &&& forall|i: int| 0 <= i < after.len() && after[i].0 == key ==> after[i] == (key, label)
                && i == after.len() - 1
            &&& forall|e: (Seq<char>, Seq<char>)|
                e.0 != key ==> (after.contains(e) <==> pins.contains(e))
        }),
{
    let rest = without_key(pins, key);
    let after = rest.push((key, label));
    lemma_without_key_contains(pins, key);
    lemma_push_contains(rest, (key, label));
    assert forall|i: int| 0 <= i < after.len() && after[i].0 == key implies after[i] == (key, label)
        && i == after.len() - 1 by {
        if i < rest.len() {
            assert(rest.contains(rest[i]));
        }
    }
}

/// A re-pin replaces: pinning a key again gives what pinning it only the
/// second time would.
pub proof fn law_repin_replaces(
    pins: Seq<(Seq<char>, Seq<char>)>,
    key: Seq<char>,
    first: Seq<char>,
    second: Seq<char>,
)
    ensures
        without_key(without_key(pins, key).push((key, first)), key).push((key, second))
            == without_key(pins, key).push((key, second)),
{
    lemma_without_key_push(without_key(pins, key), (key, first), key);
    lemma_without_key_idempotent(pins, key);
}

/// After unpinning `key`, no pin of `key` is left, and the pins of every
/// other key are those there were.
pub proof fn law_unpin(pins: Seq<(Seq<char>, Seq<char>)>, key: Seq<char>)
    ensures
        forall|e: (Seq<char>, Seq<char>)| without_key(pins, key).contains(e) <==> (pins.contains(e) && e.0 != key),
{
    lemma_without_key_contains(pins, key);
}

/// Unpinning a key just pinned gives the same as unpinning it at once.
pub proof fn law_unpin_undoes_pin(pins: Seq<(Seq<char>, Seq<char>)>, key: Seq<char>, label: Seq<char>)
    ensures
        without_key(without_key(pins, key).push((key, label)), key) == without_key(pins, key),
{
    lemma_without_key_push(without_key(pins, key), (key, label), key);
    lemma_without_key_idempotent(pins, key);
}

} // verus!
