//! The drand session: its stages, the messages of the protocol, the book of
//! commitments, and what a node does on each event.

use crate::common::{
    beacon_spec, combine, commitment_bytes, commitment_digests, commitment_of, commitment_spec,
    generate_entropy, is_secret_shape, lemma_xor_all_len, lemma_xor_all_remove, xor_all,
    xor_bytes, xor_reduce, xor_sha_commits, zero_digest,
};
use vstd::prelude::*;

verus! {

/// Whether a list of pairs names each key at most once.
pub open spec fn keys_distinct<V>(ps: Seq<(Seq<char>, V)>) -> bool {
    forall|i: int, j: int| 0 <= i < j < ps.len() ==> #[trigger] ps[i].0 != #[trigger] ps[j].0
}

/// Whether some pair is recorded under a key.
pub open spec fn has_key<V>(ps: Seq<(Seq<char>, V)>, k: Seq<char>) -> bool {
    exists|i: int| 0 <= i < ps.len() && #[trigger] ps[i].0 == k
}

/// The map from key to value that a list of pairs with distinct keys stands for.
pub open spec fn pairs_map<V>(ps: Seq<(Seq<char>, V)>) -> Map<Seq<char>, V> {
    Map::new(
        |k: Seq<char>| has_key(ps, k),
        |k: Seq<char>| ps[choose|i: int| 0 <= i < ps.len() && #[trigger] ps[i].0 == k].1,
    )
}

/// A pair of a list with distinct keys is what the map holds under its key.
pub proof fn lemma_pairs_map_at<V>(ps: Seq<(Seq<char>, V)>, i: int)
    requires
        keys_distinct(ps),
        0 <= i < ps.len(),
    ensures
        pairs_map(ps).contains_key(ps[i].0),
        pairs_map(ps)[ps[i].0] == ps[i].1,
{
    let k = ps[i].0;
    assert(has_key(ps, k));
    let j = choose|j: int| 0 <= j < ps.len() && #[trigger] ps[j].0 == k;
    if j != i {
        if j < i {
            assert(ps[j].0 != ps[i].0);
        } else {
            assert(ps[i].0 != ps[j].0);
        }
    }
}

/// Replacing the value of a recorded key updates the map at that key.
pub(crate) proof fn lemma_pairs_map_update<V>(ps: Seq<(Seq<char>, V)>, i: int, v: V)
    requires
        keys_distinct(ps),
        0 <= i < ps.len(),
    ensures
        keys_distinct(ps.update(i, (ps[i].0, v))),
        pairs_map(ps.update(i, (ps[i].0, v))) == pairs_map(ps).insert(ps[i].0, v),
{
    let k = ps[i].0;
    let qs = ps.update(i, (k, v));
    assert(keys_distinct(qs));
    assert forall|x: Seq<char>| has_key(qs, x) <==> has_key(ps, x) || x == k by {
        if has_key(ps, x) {
            let j = choose|j: int| 0 <= j < ps.len() && #[trigger] ps[j].0 == x;
            assert(qs[j].0 == x);
        }
        if has_key(qs, x) {
            let j = choose|j: int| 0 <= j < qs.len() && #[trigger] qs[j].0 == x;
            assert(ps[j].0 == x);
        }
        if x == k {
            assert(qs[i].0 == x);
        }
    }
    assert forall|x: Seq<char>| #[trigger] pairs_map(qs).contains_key(x) implies pairs_map(qs)[x]
        == pairs_map(ps).insert(k, v)[x] by {
        let j = choose|j: int| 0 <= j < qs.len() && #[trigger] qs[j].0 == x;
        lemma_pairs_map_at(qs, j);
        if j != i {
            lemma_pairs_map_at(ps, j);
        }
    }
    assert(pairs_map(qs) =~= pairs_map(ps).insert(k, v));
}

/// Appending a pair under a new key inserts it into the map.
pub(crate) proof fn lemma_pairs_map_push<V>(ps: Seq<(Seq<char>, V)>, k: Seq<char>, v: V)
    requires
        keys_distinct(ps),
        !has_key(ps, k),
    ensures
        keys_distinct(ps.push((k, v))),
        pairs_map(ps.push((k, v))) == pairs_map(ps).insert(k, v),
{
    let qs = ps.push((k, v));
    assert forall|a: int, b: int| 0 <= a < b < qs.len() implies #[trigger] qs[a].0
        != #[trigger] qs[b].0 by {
        if b == ps.len() {
            if qs[a].0 == k {
                assert(ps[a].0 == k);
            }
        } else {
            assert(ps[a].0 != ps[b].0);
        }
    }
    assert forall|x: Seq<char>| has_key(qs, x) <==> has_key(ps, x) || x == k by {
        if has_key(ps, x) {
            let j = choose|j: int| 0 <= j < ps.len() && #[trigger] ps[j].0 == x;
            assert(qs[j].0 == x);
        }
        if has_key(qs, x) {
            let j = choose|j: int| 0 <= j < qs.len() && #[trigger] qs[j].0 == x;
            if j < ps.len() {
                assert(ps[j].0 == x);
            }
        }
        if x == k {
            assert(qs[ps.len() as int].0 == x);
        }
    }
    assert forall|x: Seq<char>| #[trigger] pairs_map(qs).contains_key(x) implies pairs_map(qs)[x]
        == pairs_map(ps).insert(k, v)[x] by {
        let j = choose|j: int| 0 <= j < qs.len() && #[trigger] qs[j].0 == x;
        lemma_pairs_map_at(qs, j);
        if j < ps.len() {
            lemma_pairs_map_at(ps, j);
        }
    }
    assert(pairs_map(qs) =~= pairs_map(ps).insert(k, v));
}

/// A map with `v` recorded under `k`, unless `k` holds a value already.
pub open spec fn bind<V>(m: Map<Seq<char>, V>, k: Seq<char>, v: V) -> Map<Seq<char>, V> {
    if m.contains_key(k) {
        m
    } else {
        m.insert(k, v)
    }
}

/// The commitments a node has recorded in a session: one per peer address.
#[derive(Debug)]
pub struct CommitBook {
    entries: Vec<(String, String)>,
}

impl CommitBook {
    /// The recorded pairs (address, commitment), in the order of first record.
    pub closed spec fn pairs(self) -> Seq<(Seq<char>, Seq<char>)> {
        self.entries@.map_values(|e: (String, String)| (e.0@, e.1@))
    }

    #[verifier::type_invariant]
    closed spec fn addresses_distinct(self) -> bool {
        keys_distinct(self.pairs())
    }

    /// An empty book.
    pub fn new() -> (book: CommitBook)
        ensures
            book.pairs() == Seq::<(Seq<char>, Seq<char>)>::empty(),
            book@ == Map::<Seq<char>, Seq<char>>::empty(),
    {
        let book = CommitBook { entries: Vec::new() };
        assert(book.pairs() =~= Seq::<(Seq<char>, Seq<char>)>::empty());
        assert(book@ =~= Map::<Seq<char>, Seq<char>>::empty());
        book
    }

    /// Number of recorded addresses.
    pub fn len(&self) -> (n: usize)
        ensures
            n == self.pairs().len(),
    {
        self.entries.len()
    }

    /// Position of an address, if recorded.
    fn position(&self, address: &String) -> (r: Option<usize>)
        ensures
            r matches Some(i) ==> i < self.pairs().len() && self.pairs()[i as int].0 == address@,
            r is None ==> !has_key(self.pairs(), address@),
    {
        let mut i: usize = 0;
        while i < self.entries.len()
            invariant
                i <= self.entries@.len(),
                forall|j: int| 0 <= j < i ==> #[trigger] self.pairs()[j].0 != address@,
            decreases self.entries@.len() - i,
        {
            if self.entries[i].0 == *address {
                return Some(i);
            }
            i = i + 1;
        }
        None
    }

    /// The commitment recorded for an address.
    pub fn get(&self, address: &String) -> (r: Option<String>)
        ensures
            r is Some <==> self@.contains_key(address@),
            r matches Some(c) ==> c@ == self@[address@],
    {
        proof {
            use_type_invariant(self);
        }
        match self.position(address) {
            Some(i) => {
                proof {
                    lemma_pairs_map_at(self.pairs(), i as int);
                }
                Some(self.entries[i].1.clone())
            },
            None => None,
        }
    }

    /// The commitments of the addresses that are not blacklisted, in book
    /// order.
    pub fn accepted(&self, blacklist: &Vec<String>) -> (r: Vec<String>)
        ensures
            r.deep_view() == accepted_spec(self.pairs(), blacklist.deep_view()),
            keys_distinct(self.pairs()),
    {
        proof {
            use_type_invariant(self);
        }
        let ghost bl = blacklist.deep_view();
        let mut out: Vec<String> = Vec::new();
        let mut i: usize = 0;
        while i < self.entries.len()
            invariant
                i <= self.entries@.len(),
                bl == blacklist.deep_view(),
                out.deep_view() =~= accepted_spec(self.pairs().take(i as int), bl),
            decreases self.entries@.len() - i,
        {
            let ghost before = out.deep_view();
            assert(self.pairs().take(i + 1).drop_last() =~= self.pairs().take(i as int));
            assert(self.pairs().take(i + 1).last() == self.pairs()[i as int]);
            if !list_contains(blacklist, &self.entries[i].0) {
                out.push(self.entries[i].1.clone());
                assert(out.deep_view() =~= before.push(self.entries@[i as int].1@));
            }
            i = i + 1;
        }
        assert(self.pairs().take(self.entries@.len() as int) =~= self.pairs());
        out
    }

    /// Records `commitment` for `address` unless the address has committed
    /// already: a commitment, once recorded, binds its maker and is never
    /// replaced. Returns whether it was recorded.
    pub fn record(&mut self, address: String, commitment: String) -> (added: bool)
        ensures
            added == !old(self)@.contains_key(address@),
            final(self)@ == bind(old(self)@, address@, commitment@),
            final(self).pairs() == if added {
                old(self).pairs().push((address@, commitment@))
            } else {
                old(self).pairs()
            },
    {
        proof {
            use_type_invariant(&*self);
        }
        let ghost old_pairs = self.pairs();
        match self.position(&address) {
            Some(i) => {
                proof {
                    lemma_pairs_map_at(old_pairs, i as int);
                }
                false
            },
            None => {
                proof {
                    lemma_pairs_map_push(old_pairs, address@, commitment@);
                }
                let ghost k = address@;
                let ghost v = commitment@;
                let mut entries: Vec<(String, String)> = Vec::new();
                std::mem::swap(&mut entries, &mut self.entries);
                entries.push((address, commitment));
                assert(entries@.map_values(|e: (String, String)| (e.0@, e.1@)) =~= old_pairs.push(
                    (k, v),
                ));
                self.entries = entries;
                true
            },
        }
    }
}

/// The commitments that count towards the beacon, in book order: those of
/// addresses not on the blacklist.
pub open spec fn accepted_spec(
    ps: Seq<(Seq<char>, Seq<char>)>,
    blacklist: Seq<Seq<char>>,
) -> Seq<Seq<char>>
    decreases ps.len(),
{
    if ps.len() == 0 {
        Seq::empty()
    } else {
        let rest = accepted_spec(ps.drop_last(), blacklist);
        if blacklist.contains(ps.last().0) {
            rest
        } else {
            rest.push(ps.last().1)
        }
    }
}

/// What one recorded pair adds to the beacon: nothing (the zero digest) for a
/// blacklisted address, else the digest of its commitment.
pub open spec fn pair_contribution(
    p: (Seq<char>, Seq<char>),
    blacklist: Seq<Seq<char>>,
) -> Option<Seq<u8>> {
    if blacklist.contains(p.0) {
        Some(zero_digest())
    } else {
        commitment_bytes(p.1)
    }
}

/// The contributions of all recorded pairs, in book order.
pub open spec fn contributions(
    ps: Seq<(Seq<char>, Seq<char>)>,
    blacklist: Seq<Seq<char>>,
) -> Seq<Option<Seq<u8>>> {
    ps.map_values(|p: (Seq<char>, Seq<char>)| pair_contribution(p, blacklist))
}

/// Reducing the accepted commitments is folding every pair's contribution.
proof fn lemma_accepted_contributions(ps: Seq<(Seq<char>, Seq<char>)>, blacklist: Seq<Seq<char>>)
    ensures
        xor_reduce(accepted_spec(ps, blacklist)) == xor_all(contributions(ps, blacklist)),
    decreases ps.len(),
{
    let cs = contributions(ps, blacklist);
    if ps.len() == 0 {
        assert(commitment_digests(accepted_spec(ps, blacklist)) =~= Seq::<Option<Seq<u8>>>::empty());
        assert(cs =~= Seq::<Option<Seq<u8>>>::empty());
    } else {
        let rest = ps.drop_last();
        lemma_accepted_contributions(rest, blacklist);
        assert(cs.drop_last() =~= contributions(rest, blacklist));
        let acc = accepted_spec(rest, blacklist);
        lemma_xor_all_len(cs.drop_last());
        assert(cs.last() == pair_contribution(ps.last(), blacklist));
        if blacklist.contains(ps.last().0) {
            assert(accepted_spec(ps, blacklist) == acc);
            let prior = xor_all(cs.drop_last());
            if prior is Some {
                let a = prior->0;
                assert(xor_bytes(a, zero_digest()) =~= a) by {
                    assert forall|i: int| 0 <= i < a.len() implies #[trigger] xor_bytes(
                        a,
                        zero_digest(),
                    )[i] == a[i] by {
                        let x = a[i];
                        assert(x ^ 0u8 == x) by (bit_vector);
                    }
                }
            }
        } else {
            let pushed = commitment_digests(acc.push(ps.last().1));
            assert(pushed =~= commitment_digests(acc).push(commitment_bytes(ps.last().1)));
            assert(pushed.drop_last() =~= commitment_digests(acc));
            assert(xor_all(pushed) == combine(xor_all(commitment_digests(acc)), pushed.last()));
        }
    }
}

/// Removing the pair at a position removes its key from the map.
proof fn lemma_pairs_map_remove<V>(ps: Seq<(Seq<char>, V)>, j: int)
    requires
        keys_distinct(ps),
        0 <= j < ps.len(),
    ensures
        keys_distinct(ps.remove(j)),
        pairs_map(ps.remove(j)) == pairs_map(ps).remove(ps[j].0),
{
    let k = ps[j].0;
    let qs = ps.remove(j);
    assert forall|a: int, b: int| 0 <= a < b < qs.len() implies #[trigger] qs[a].0
        != #[trigger] qs[b].0 by {
        let a2 = if a < j { a } else { a + 1 };
        let b2 = if b < j { b } else { b + 1 };
        assert(qs[a] == ps[a2] && qs[b] == ps[b2]);
        assert(ps[a2].0 != ps[b2].0);
    }
    assert forall|x: Seq<char>| has_key(qs, x) <==> has_key(ps, x) && x != k by {
        if has_key(ps, x) && x != k {
            let i = choose|i: int| 0 <= i < ps.len() && #[trigger] ps[i].0 == x;
            if i < j {
                assert(qs[i].0 == x);
            } else {
                assert(i != j);
                assert(qs[i - 1].0 == x);
            }
        }
        if has_key(qs, x) {
            let i = choose|i: int| 0 <= i < qs.len() && #[trigger] qs[i].0 == x;
            let i2 = if i < j { i } else { i + 1 };
            assert(ps[i2].0 == x);
            if x == k {
                if i2 < j {
                    assert(ps[i2].0 != ps[j].0);
                } else {
                    assert(ps[j].0 != ps[i2].0);
                }
            }
        }
    }
    assert forall|x: Seq<char>| #[trigger] pairs_map(qs).contains_key(x) implies pairs_map(qs)[x]
        == pairs_map(ps).remove(k)[x] by {
        let i = choose|i: int| 0 <= i < qs.len() && #[trigger] qs[i].0 == x;
        lemma_pairs_map_at(qs, i);
        let i2 = if i < j { i } else { i + 1 };
        assert(qs[i] == ps[i2]);
        lemma_pairs_map_at(ps, i2);
    }
    assert(pairs_map(qs) =~= pairs_map(ps).remove(k));
}

/// Two books that record the same commitment for the same addresses fold the
/// same contributions, whatever order the pairs were recorded in.
proof fn lemma_contributions_same_map(
    p1: Seq<(Seq<char>, Seq<char>)>,
    p2: Seq<(Seq<char>, Seq<char>)>,
    blacklist: Seq<Seq<char>>,
)
    requires
        keys_distinct(p1),
        keys_distinct(p2),
        pairs_map(p1) == pairs_map(p2),
    ensures
        xor_all(contributions(p1, blacklist)) == xor_all(contributions(p2, blacklist)),
    decreases p1.len(),
{
    if p1.len() == 0 {
        if p2.len() > 0 {
            lemma_pairs_map_at(p2, 0);
            assert(pairs_map(p1).contains_key(p2[0].0));
        }
        assert(contributions(p1, blacklist) =~= contributions(p2, blacklist));
    } else {
        let last = p1.len() - 1;
        let (k, v) = p1[last];
        lemma_pairs_map_at(p1, last);
        assert(has_key(p2, k));
        let j = choose|j: int| 0 <= j < p2.len() && #[trigger] p2[j].0 == k;
        lemma_pairs_map_at(p2, j);
        assert(p2[j] == p1[last]);
        lemma_pairs_map_remove(p1, last);
        lemma_pairs_map_remove(p2, j);
        lemma_contributions_same_map(p1.remove(last), p2.remove(j), blacklist);
        let c1 = contributions(p1, blacklist);
        let c2 = contributions(p2, blacklist);
        lemma_xor_all_remove(c1, last);
        lemma_xor_all_remove(c2, j);
        assert(c1.remove(last) =~= contributions(p1.remove(last), blacklist));
        assert(c2.remove(j) =~= contributions(p2.remove(j), blacklist));
    }
}

/// Nodes whose books record the same commitment for the same addresses, and
/// whose blacklists name the same addresses, compute the same beacon, in
/// whatever order the commitments reached them.
pub proof fn lemma_beacon_depends_only_on_book(
    p1: Seq<(Seq<char>, Seq<char>)>,
    p2: Seq<(Seq<char>, Seq<char>)>,
    blacklist1: Seq<Seq<char>>,
    blacklist2: Seq<Seq<char>>,
)
    requires
        keys_distinct(p1),
        keys_distinct(p2),
        pairs_map(p1) == pairs_map(p2),
        forall|k: Seq<char>| blacklist1.contains(k) <==> blacklist2.contains(k),
    ensures
        beacon_spec(accepted_spec(p1, blacklist1)) == beacon_spec(accepted_spec(p2, blacklist2)),
{
    lemma_accepted_contributions(p1, blacklist1);
    lemma_accepted_contributions(p2, blacklist2);
    assert(contributions(p2, blacklist1) =~= contributions(p2, blacklist2));
    lemma_contributions_same_map(p1, p2, blacklist1);
}

/// Whether a list of strings holds one with the given text.
pub fn list_contains(list: &Vec<String>, s: &String) -> (r: bool)
    ensures
        r == list.deep_view().contains(s@),
{
    let mut i: usize = 0;
    while i < list.len()
        invariant
            i <= list@.len(),
            forall|j: int| 0 <= j < i ==> #[trigger] list.deep_view()[j] != s@,
        decreases list@.len() - i,
    {
        if list[i] == *s {
            assert(list.deep_view()[i as int] == s@);
            return true;
        }
        i = i + 1;
    }
    proof {
        if list.deep_view().contains(s@) {
            let j = choose|j: int| 0 <= j < list.deep_view().len() && list.deep_view()[j] == s@;
            assert(list.deep_view()[j] != s@);
        }
    }
    false
}

impl View for CommitBook {
    type V = Map<Seq<char>, Seq<char>>;

    open spec fn view(&self) -> Map<Seq<char>, Seq<char>> {
        pairs_map(self.pairs())
    }
}


/// The stages a session goes through.
#[derive(Clone, Copy, PartialEq, Eq, Structural, Debug)]
pub enum SessionStage {
    Ack,
    Commit,
    Reveal,
    Reduction,
    Concensus,
}

/// A protocol message of a session, published on the session's topic.
#[derive(Debug)]
pub struct SessionPayload {
    pub source: String,
    pub stage: SessionStage,
    pub participants: Option<Vec<String>>,
    pub commit_hash: Option<String>,
    pub secret: Option<String>,
    pub drand: Option<String>,
    pub timestamp: u64,
}

/// The text of an optional string.
pub open spec fn opt_text(o: Option<String>) -> Option<Seq<char>> {
    match o {
        Some(s) => Some(s@),
        None => None,
    }
}

/// A message from `source` at `stage` and time `now`, carrying exactly the
/// given fields.
pub open spec fn payload_is(
    p: SessionPayload,
    source: Seq<char>,
    stage: SessionStage,
    participants: Option<Seq<String>>,
    commit_hash: Option<Seq<char>>,
    secret: Option<Seq<char>>,
    drand: Option<Seq<char>>,
    now: u64,
) -> bool {
    &&& p.source@ == source
    &&& p.stage == stage
    &&& match p.participants {
        Some(v) => participants == Some(v@),
        None => participants is None,
    }
    &&& opt_text(p.commit_hash) == commit_hash
    &&& opt_text(p.secret) == secret
    &&& opt_text(p.drand) == drand
    &&& p.timestamp == now
}

fn make_payload(
    source: &String,
    stage: SessionStage,
    participants: Option<Vec<String>>,
    commit_hash: Option<String>,
    secret: Option<String>,
    drand: Option<String>,
    now: u64,
) -> (p: SessionPayload)
    ensures
        p.source@ == source@,
        p.stage == stage,
        p.participants == participants,
        p.commit_hash == commit_hash,
        p.secret == secret,
        p.drand == drand,
        p.timestamp == now,
{
    SessionPayload {
        source: source.clone(),
        stage,
        participants,
        commit_hash,
        secret,
        drand,
        timestamp: now,
    }
}

/// What a node knows of one session.
#[derive(Debug)]
pub struct SessionState {
    pub stage: SessionStage,
    pub session_id: String,
    pub participants: Vec<String>,
    pub blacklist: Vec<String>,
    pub commit_hashes: CommitBook,
    pub drand: Option<String>,
    pub local_rand: Option<(String, String)>,
    pub leader: String,
    pub is_leader: bool,
}

/// The parts of a session that no event changes.
pub open spec fn same_identity(a: SessionState, b: SessionState) -> bool {
    &&& a.session_id == b.session_id
    &&& a.leader == b.leader
    &&& a.is_leader == b.is_leader
    &&& a.drand == b.drand
}

/// Whether every commit message carries a commitment.
pub open spec fn carries_commitment(payload: Option<SessionPayload>) -> bool {
    payload matches Some(p) ==> p.commit_hash is Some
}

/// Whether a commit event makes a node commit to a secret of its own: it has
/// none yet, and either it starts the commit phase (no message) or the
/// leader's commitment has arrived.
pub open spec fn commit_draws(old: SessionState, payload: Option<SessionPayload>) -> bool {
    &&& old.local_rand is None
    &&& match payload {
        None => true,
        Some(p) => p.source@ == old.leader@,
    }
}

/// The book after the commitment a message carries is recorded.
pub open spec fn received(
    m: Map<Seq<char>, Seq<char>>,
    payload: Option<SessionPayload>,
) -> Map<Seq<char>, Seq<char>> {
    match payload {
        None => m,
        Some(p) => bind(m, p.source@, p.commit_hash->0@),
    }
}

/// What a commit event does to a session, given the fresh secret and
/// commitment `entropy` that a node draws when it commits.
///
/// A node that has not committed yet commits when it starts the commit phase
/// (no message: it is the leader) or when the leader's commitment arrives: it
/// keeps the secret, records its own commitment, and publishes it. A node
/// that has committed already stays locked into its contribution and
/// publishes nothing. The commitment a message carries is recorded for its
/// sender, unless the sender has committed already: a recorded commitment is
/// never replaced.
pub open spec fn commit_step(
    old: SessionState,
    new: SessionState,
    payload: Option<SessionPayload>,
    local: Seq<char>,
    now: u64,
    entropy: (Seq<char>, Seq<char>),
    r: Option<SessionPayload>,
) -> bool {
    &&& same_identity(old, new)
    &&& new.participants == old.participants
    &&& new.blacklist == old.blacklist
    &&& if commit_draws(old, payload) {
        &&& new.stage == SessionStage::Commit
        &&& new.local_rand matches Some(e) && e.0@ == entropy.0 && e.1@ == entropy.1
        &&& r matches Some(out) && payload_is(
            out,
            local,
            SessionStage::Commit,
            None,
            Some(entropy.1),
            None,
            None,
            now,
        )
        &&& new.commit_hashes@ == received(bind(old.commit_hashes@, local, entropy.1), payload)
    } else {
        &&& r is None
        &&& new.stage == old.stage
        &&& new.local_rand == old.local_rand
        &&& new.commit_hashes@ == received(old.commit_hashes@, payload)
    }
}

/// The secret a node keeps, once it has committed.
pub open spec fn kept_secret(state: SessionState) -> Seq<char> {
    match state.local_rand {
        Some(e) => e.0@,
        None => Seq::empty(),
    }
}

/// The commitment recorded for `address`, if any.
pub open spec fn recorded(state: SessionState, address: Seq<char>) -> Option<Seq<char>> {
    if state.commit_hashes@.contains_key(address) {
        Some(state.commit_hashes@[address])
    } else {
        None
    }
}

/// The ordered commitments that count towards a session's beacon.
pub open spec fn accepted_of(state: SessionState) -> Seq<Seq<char>> {
    accepted_spec(state.commit_hashes.pairs(), state.blacklist.deep_view())
}

/// What the reduction of a session comes to.
#[derive(Debug)]
pub enum ReductionOutcome {
    /// The leader's beacon, to be published.
    Announce(SessionPayload),
    /// The leader's beacon agrees with the one computed here.
    Agreed(String),
    /// The leader's beacon differs from the one computed here.
    Disagreed { local: String, remote: String },
    /// Some accepted commitment is not the hexadecimal text of a digest, so
    /// there is no beacon.
    Unusable,
}

impl SessionState {
    /// The session a leader opens when it advertises `session_id`.
    pub fn new_leader(session_id: String, local: String) -> (s: SessionState)
        ensures
            s.stage == SessionStage::Ack,
            s.session_id == session_id,
            s.participants@.len() == 0,
            s.blacklist@.len() == 0,
            s.commit_hashes@ == Map::<Seq<char>, Seq<char>>::empty(),
            s.drand is None,
            s.local_rand is None,
            s.leader == local,
            s.is_leader,
    {
        SessionState {
            stage: SessionStage::Ack,
            session_id,
            participants: Vec::new(),
            blacklist: Vec::new(),
            commit_hashes: CommitBook::new(),
            drand: None,
            local_rand: None,
            leader: local,
            is_leader: true,
        }
    }

    /// The session a participant joins, led by `leader`.
    pub fn new_participant(session_id: String, leader: String) -> (s: SessionState)
        ensures
            s.stage == SessionStage::Ack,
            s.session_id == session_id,
            s.participants@.len() == 0,
            s.blacklist@.len() == 0,
            s.commit_hashes@ == Map::<Seq<char>, Seq<char>>::empty(),
            s.drand is None,
            s.local_rand is None,
            s.leader == leader,
            !s.is_leader,
    {
        SessionState {
            stage: SessionStage::Ack,
            session_id,
            participants: Vec::new(),
            blacklist: Vec::new(),
            commit_hashes: CommitBook::new(),
            drand: None,
            local_rand: None,
            leader,
            is_leader: false,
        }
    }

    /// The leader fixes the participants: the peers it sees on the session's
    /// topic, and itself last. Returns the acknowledgement to publish.
    pub fn acknowledge(&mut self, mesh_peers: Vec<String>, local: &String, now: u64) -> (ack:
        SessionPayload)
        ensures
            final(self).participants@ == mesh_peers@.push(*local),
            payload_is(
                ack,
                local@,
                SessionStage::Ack,
                Some(final(self).participants@),
                None,
                None,
                None,
                now,
            ),
            same_identity(*old(self), *final(self)),
            final(self).stage == old(self).stage,
            final(self).blacklist == old(self).blacklist,
            final(self).commit_hashes == old(self).commit_hashes,
            final(self).local_rand == old(self).local_rand,
    {
        let mut participants = mesh_peers;
        participants.push(local.clone());
        let listed = participants.clone();
        assert(listed@ =~= participants@);
        self.participants = participants;
        make_payload(local, SessionStage::Ack, Some(listed), None, None, None, now)
    }

    /// An acknowledgement from the leader: while the session is still at the
    /// `Ack` stage, adopt its list of participants. Returns whether it was
    /// adopted.
    pub fn apply_ack(&mut self, payload: SessionPayload) -> (adopted: bool)
        requires
            payload.participants is Some,
        ensures
            adopted == (old(self).stage == SessionStage::Ack),
            adopted ==> {
                &&& final(self).participants == payload.participants->0
                &&& same_identity(*old(self), *final(self))
                &&& final(self).stage == old(self).stage
                &&& final(self).blacklist == old(self).blacklist
                &&& final(self).commit_hashes == old(self).commit_hashes
                &&& final(self).local_rand == old(self).local_rand
            },
            !adopted ==> *final(self) == *old(self),
    {
        match payload.participants {
            None => false,
            Some(list) => {
                if self.stage == SessionStage::Ack {
                    self.participants = list;
                    true
                } else {
                    false
                }
            },
        }
    }

    /// A commit event, with the fresh `entropy` (secret, commitment) that the
    /// node commits to where the event calls for it; see `commit_step`.
    pub fn apply_commit(
        &mut self,
        payload: Option<SessionPayload>,
        local: &String,
        now: u64,
        entropy: (String, String),
    ) -> (r: Option<SessionPayload>)
        requires
            carries_commitment(payload),
        ensures
            commit_step(*old(self), *final(self), payload, local@, now, (entropy.0@, entropy.1@), r),
            payload matches Some(p) ==> (p.source@ != local@ && !old(
                self,
            ).commit_hashes@.contains_key(p.source@) ==> recorded(*final(self), p.source@) == Some(
                p.commit_hash->0@,
            )),
    {
        let draws = self.local_rand.is_none() && match &payload {
            None => true,
            Some(p) => p.source == self.leader,
        };
        let mut out: Option<SessionPayload> = None;
        if draws {
            let (secret, hash) = entropy;
            self.stage = SessionStage::Commit;
            self.commit_hashes.record(local.clone(), hash.clone());
            let published = hash.clone();
            self.local_rand = Some((secret, hash));
            out = Some(make_payload(local, SessionStage::Commit, None, Some(published), None, None, now));
        }
        match payload {
            None => {},
            Some(p) => {
                match p.commit_hash {
                    Some(h) => {
                        self.commit_hashes.record(p.source, h);
                    },
                    None => {},
                }
            },
        }
        out
    }

    /// A commit event: draws a fresh secret where the event calls for it (see
    /// `commit_draws`) and acts as `commit_step` says. The secret is random;
    /// what holds of it is that it has the shape of a drawn secret and that
    /// the commitment is its own.
    pub fn on_commit(&mut self, payload: Option<SessionPayload>, local: &String, now: u64) -> (r:
        Option<SessionPayload>)
        requires
            carries_commitment(payload),
        ensures
            exists|e: (Seq<char>, Seq<char>)|
                {
                    &&& is_secret_shape(e.0)
                    &&& e.1 == commitment_spec(e.0)
                    &&& commit_step(*old(self), *final(self), payload, local@, now, e, r)
                },
            payload matches Some(p) ==> (p.source@ != local@ && !old(
                self,
            ).commit_hashes@.contains_key(p.source@) ==> recorded(*final(self), p.source@) == Some(
                p.commit_hash->0@,
            )),
    {
        let draws = self.local_rand.is_none() && match &payload {
            None => true,
            Some(p) => p.source == self.leader,
        };
        let entropy = if draws {
            generate_entropy()
        } else {
            (String::new(), String::new())
        };
        let ghost drawn = (entropy.0@, entropy.1@);
        let ghost filler: Seq<char> = Seq::new(16, |i: int| 'a');
        let r = self.apply_commit(payload, local, now, entropy);
        proof {
            if draws {
                assert(commit_step(*old(self), *final(self), payload, local@, now, drawn, r));
            } else {
                let w = (filler, commitment_spec(filler));
                assert(is_secret_shape(filler));
                assert(commit_step(*old(self), *final(self), payload, local@, now, w, r));
            }
        }
        r
    }
}

impl SessionState {
    /// A reveal event from `source`: when the leader reveals, the node
    /// answers with its own secret and moves to the `Reveal` stage. Returns
    /// the message to publish, if any.
    pub fn reveal_reply(&mut self, source: &String, local: &String, now: u64) -> (r: Option<
        SessionPayload,
    >)
        requires
            old(self).local_rand is Some,
        ensures
            if source@ == old(self).leader@ {
                &&& r matches Some(out) && payload_is(
                    out,
                    local@,
                    SessionStage::Reveal,
                    None,
                    None,
                    Some(kept_secret(*old(self))),
                    None,
                    now,
                )
                &&& r matches Some(out) && old(self).local_rand matches Some(own)
                    && out.secret matches Some(x) && x@ == own.0@
                &&& final(self).stage == SessionStage::Reveal
                &&& same_identity(*old(self), *final(self))
                &&& final(self).participants == old(self).participants
                &&& final(self).blacklist == old(self).blacklist
                &&& final(self).commit_hashes == old(self).commit_hashes
                &&& final(self).local_rand == old(self).local_rand
            } else {
                &&& r is None
                &&& *final(self) == *old(self)
            },
    {
        let secret = match &self.local_rand {
            None => String::new(),
            Some(own) => own.0.clone(),
        };
        if *source == self.leader {
            self.stage = SessionStage::Reveal;
            Some(make_payload(local, SessionStage::Reveal, None, None, Some(secret), None, now))
        } else {
            None
        }
    }

    /// Checks a revealed secret against the commitment recorded for its
    /// source. A source whose secret does not hash to its commitment is
    /// blacklisted. Returns whether the source was honest.
    pub fn check_reveal(&mut self, payload: SessionPayload) -> (honest: bool)
        requires
            payload.secret is Some,
            old(self).commit_hashes@.contains_key(payload.source@),
        ensures
            honest == (commitment_spec(payload.secret->0@) == old(
                self,
            ).commit_hashes@[payload.source@]),
            final(self).blacklist@ == if honest {
                old(self).blacklist@
            } else {
                old(self).blacklist@.push(payload.source)
            },
            same_identity(*old(self), *final(self)),
            final(self).stage == old(self).stage,
            final(self).participants == old(self).participants,
            final(self).commit_hashes == old(self).commit_hashes,
            final(self).local_rand == old(self).local_rand,
    {
        let secret = match payload.secret {
            None => String::new(),
            Some(s) => s,
        };
        let committed = match self.commit_hashes.get(&payload.source) {
            None => String::new(),
            Some(c) => c,
        };
        let computed = commitment_of(secret.as_str());
        if computed == committed {
            true
        } else {
            self.blacklist.push(payload.source);
            false
        }
    }

    /// The reduction: moves to the `Reduction` stage and folds the accepted
    /// commitments into the beacon. With no message the node is the leader
    /// and announces its beacon; with the leader's message it compares the
    /// two.
    pub fn apply_reduction(
        &mut self,
        payload: Option<SessionPayload>,
        local: &String,
        now: u64,
    ) -> (r: ReductionOutcome)
        requires
            payload matches Some(p) ==> p.drand is Some,
        ensures
            final(self).stage == SessionStage::Reduction,
            same_identity(*old(self), *final(self)),
            final(self).participants == old(self).participants,
            final(self).blacklist == old(self).blacklist,
            final(self).commit_hashes == old(self).commit_hashes,
            final(self).local_rand == old(self).local_rand,
            keys_distinct(old(self).commit_hashes.pairs()),
            match beacon_spec(accepted_of(*old(self))) {
                None => r is Unusable,
                Some(b) => match payload {
                    None => r matches ReductionOutcome::Announce(out) && payload_is(
                        out,
                        local@,
                        SessionStage::Reduction,
                        None,
                        None,
                        None,
                        Some(b),
                        now,
                    ),
                    Some(p) => if p.drand->0@ == b {
                        r matches ReductionOutcome::Agreed(d) && d@ == b
                    } else {
                        r matches ReductionOutcome::Disagreed { local: l, remote: m } && l@ == b
                            && m@ == p.drand->0@
                    },
                },
            },
    {
        self.stage = SessionStage::Reduction;
        let accepted = self.commit_hashes.accepted(&self.blacklist);
        let remote = match payload {
            None => None,
            Some(p) => match p.drand {
                None => Some(String::new()),
                Some(d) => Some(d),
            },
        };
        let beacon = match xor_sha_commits(&accepted) {
            None => {
                return ReductionOutcome::Unusable;
            },
            Some(b) => b,
        };
        match remote {
            None => {
                let out = make_payload(
                    local,
                    SessionStage::Reduction,
                    None,
                    None,
                    None,
                    Some(beacon),
                    now,
                );
                ReductionOutcome::Announce(out)
            },
            Some(d) => {
                if d == beacon {
                    ReductionOutcome::Agreed(beacon)
                } else {
                    ReductionOutcome::Disagreed { local: beacon, remote: d }
                }
            },
        }
    }

    /// The node reveals its own secret on command: the session moves to the
    /// `Reveal` stage and the secret goes out in a `Reveal` message.
    pub fn begin_reveal(&mut self, local: &String, now: u64) -> (out: SessionPayload)
        requires
            old(self).local_rand is Some,
        ensures
            payload_is(
                out,
                local@,
                SessionStage::Reveal,
                None,
                None,
                Some(kept_secret(*old(self))),
                None,
                now,
            ),
            old(self).local_rand matches Some(own) && out.secret matches Some(x) && x@ == own.0@,
            final(self).stage == SessionStage::Reveal,
            same_identity(*old(self), *final(self)),
            final(self).participants == old(self).participants,
            final(self).blacklist == old(self).blacklist,
            final(self).commit_hashes == old(self).commit_hashes,
            final(self).local_rand == old(self).local_rand,
    {
        let secret = match &self.local_rand {
            None => String::new(),
            Some(own) => own.0.clone(),
        };
        self.stage = SessionStage::Reveal;
        make_payload(local, SessionStage::Reveal, None, None, Some(secret), None, now)
    }
}

/// Whom a node joining a session connects to: the first peer listed on the
/// session's topic (taken as the leader) and a peer drawn at random from the
/// list, so that its view of the session does not rest on one peer.
pub fn plan_join(peers: &Vec<String>) -> (plan: (String, String))
    requires
        peers@.len() > 0,
    ensures
        plan.0 == peers@[0],
        peers@.contains(plan.1),
{
    let leader = peers[0].clone();
    match crate::trusted::random_item(peers) {
        Some(other) => (leader, other),
        None => (leader.clone(), leader),
    }
}

/// An address that is blacklisted counts for nothing: dropping its record
/// leaves the accepted commitments as they were, as if it had never
/// committed.
pub proof fn lemma_blacklisted_excluded(
    ps: Seq<(Seq<char>, Seq<char>)>,
    blacklist: Seq<Seq<char>>,
    i: int,
)
    requires
        0 <= i < ps.len(),
        blacklist.contains(ps[i].0),
    ensures
        accepted_spec(ps.remove(i), blacklist) == accepted_spec(ps, blacklist),
    decreases ps.len(),
{
    if i == ps.len() - 1 {
        assert(ps.remove(i) =~= ps.drop_last());
    } else {
        lemma_blacklisted_excluded(ps.drop_last(), blacklist, i);
        assert(ps.remove(i).drop_last() =~= ps.drop_last().remove(i));
        assert(ps.remove(i).last() == ps.last());
    }
}

/// A node that commits to a secret of its own, and whose address holds no
/// commitment yet, records under its own address the commitment of the
/// secret it keeps and publishes that same commitment, so that its own
/// reveal later checks out.
pub proof fn lemma_own_commitment_recorded(
    old: SessionState,
    new: SessionState,
    payload: Option<SessionPayload>,
    local: Seq<char>,
    now: u64,
    entropy: (Seq<char>, Seq<char>),
    r: Option<SessionPayload>,
)
    requires
        commit_step(old, new, payload, local, now, entropy, r),
        entropy.1 == commitment_spec(entropy.0),
        commit_draws(old, payload),
        !old.commit_hashes@.contains_key(local),
    ensures
        new.local_rand matches Some(own) && recorded(new, local) == Some(
            commitment_spec(own.0@),
        ),
        r matches Some(out) && out.commit_hash matches Some(h) && h@ == commitment_spec(
            entropy.0,
        ),
{
}

/// A commitment, once recorded, binds its maker: no commit event removes or
/// replaces it, whatever the event and whoever sends it.
pub proof fn lemma_commitments_bind(
    old: SessionState,
    new: SessionState,
    payload: Option<SessionPayload>,
    local: Seq<char>,
    now: u64,
    entropy: (Seq<char>, Seq<char>),
    r: Option<SessionPayload>,
    address: Seq<char>,
)
    requires
        commit_step(old, new, payload, local, now, entropy, r),
        old.commit_hashes@.contains_key(address),
    ensures
        recorded(new, address) == recorded(old, address),
{
}

/// A node that has committed stays locked into its contribution: a commit
/// event leaves its secret and its own recorded commitment as they were and
/// publishes nothing.
pub proof fn lemma_committed_node_locked(
    old: SessionState,
    new: SessionState,
    payload: Option<SessionPayload>,
    local: Seq<char>,
    now: u64,
    entropy: (Seq<char>, Seq<char>),
    r: Option<SessionPayload>,
)
    requires
        commit_step(old, new, payload, local, now, entropy, r),
        old.local_rand is Some,
    ensures
        new.local_rand == old.local_rand,
        old.commit_hashes@.contains_key(local) ==> recorded(new, local) == recorded(old, local),
        r is None,
{
}

/// A commitment that arrives from another address, which has not committed
/// yet, is recorded for its sender, whether or not the receiving node has
/// committed itself: every peer's reveal can then be checked and its digest
/// enters the beacon.
pub proof fn lemma_arriving_commitment_recorded(
    old: SessionState,
    new: SessionState,
    payload: Option<SessionPayload>,
    local: Seq<char>,
    now: u64,
    entropy: (Seq<char>, Seq<char>),
    r: Option<SessionPayload>,
    p: SessionPayload,
)
    requires
        commit_step(old, new, payload, local, now, entropy, r),
        payload == Some(p),
        p.commit_hash is Some,
        p.source@ != local,
        !old.commit_hashes@.contains_key(p.source@),
    ensures
        recorded(new, p.source@) == Some(p.commit_hash->0@),
{
}

/// What a node reveals checks out against the commitment it recorded for
/// itself: a node that committed to its kept secret, and reveals the kept
/// secret, reveals a secret whose commitment is its own recorded one, so its
/// peers accept it.
pub proof fn lemma_revealed_secret_checks_out(
    old: SessionState,
    out: SessionPayload,
    local: Seq<char>,
    now: u64,
)
    requires
        old.local_rand matches Some(e) && e.1@ == commitment_spec(e.0@) && recorded(old, local)
            == Some(e.1@),
        payload_is(out, local, SessionStage::Reveal, None, None, Some(kept_secret(old)), None, now),
    ensures
        out.secret matches Some(x) && old.local_rand matches Some(e) && x@ == e.0@ && Some(
            commitment_spec(x@),
        ) == recorded(old, local),
{
}

} // verus!
