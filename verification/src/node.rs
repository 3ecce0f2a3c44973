//! The two roles a node can take, and what each role fixes.

use crate::drand::{
    has_key, keys_distinct, lemma_pairs_map_at, lemma_pairs_map_push, lemma_pairs_map_update,
    pairs_map,
};
use crate::text::{blank, is_blank, text_eq};
use vstd::prelude::*;
use vstd::string::StringExecFns;

verus! {

/// The bootstrap node's map of topics to the peers subscribed to them: one
/// entry per topic.
#[derive(Debug)]
pub struct TopicMesh {
    entries: Vec<(String, Vec<String>)>,
}

impl TopicMesh {
    /// The entries (topic, peers), in the order topics were first set.
    pub closed spec fn pairs(self) -> Seq<(Seq<char>, Seq<String>)> {
        self.entries@.map_values(|e: (String, Vec<String>)| (e.0@, e.1@))
    }

    #[verifier::type_invariant]
    closed spec fn topics_distinct(self) -> bool {
        keys_distinct(self.pairs())
    }

    /// An empty map.
    pub fn new() -> (mesh: TopicMesh)
        ensures
            mesh.pairs() == Seq::<(Seq<char>, Seq<String>)>::empty(),
            mesh@ == Map::<Seq<char>, Seq<String>>::empty(),
    {
        let mesh = TopicMesh { entries: Vec::new() };
        assert(mesh.pairs() =~= Seq::<(Seq<char>, Seq<String>)>::empty());
        assert(mesh@ =~= Map::<Seq<char>, Seq<String>>::empty());
        mesh
    }

    /// Position of a topic, if set.
    fn position(&self, topic: &String) -> (r: Option<usize>)
        ensures
            r matches Some(i) ==> i < self.pairs().len() && self.pairs()[i as int].0 == topic@,
            r is None ==> !has_key(self.pairs(), topic@),
    {
        let mut i: usize = 0;
        while i < self.entries.len()
            invariant
                i <= self.entries@.len(),
                forall|j: int| 0 <= j < i ==> #[trigger] self.pairs()[j].0 != topic@,
            decreases self.entries@.len() - i,
        {
            if self.entries[i].0 == *topic {
                return Some(i);
            }
            i = i + 1;
        }
        None
    }

    /// Sets the peers of a topic, in place of those it had.
    pub fn set(&mut self, topic: String, peers: Vec<String>)
        ensures
            final(self)@ == old(self)@.insert(topic@, peers@),
    {
        proof {
            use_type_invariant(&*self);
        }
        let ghost old_pairs = self.pairs();
        let ghost k = topic@;
        let ghost v = peers@;
        let mut entries: Vec<(String, Vec<String>)> = Vec::new();
        match self.position(&topic) {
            Some(i) => {
                proof {
                    lemma_pairs_map_update(old_pairs, i as int, v);
                }
                std::mem::swap(&mut entries, &mut self.entries);
                entries.set(i, (topic, peers));
                assert(entries@.map_values(|e: (String, Vec<String>)| (e.0@, e.1@)) =~= old_pairs.update(
                    i as int,
                    (old_pairs[i as int].0, v),
                ));
                self.entries = entries;
            },
            None => {
                proof {
                    lemma_pairs_map_push(old_pairs, k, v);
                }
                std::mem::swap(&mut entries, &mut self.entries);
                entries.push((topic, peers));
                assert(entries@.map_values(|e: (String, Vec<String>)| (e.0@, e.1@)) =~= old_pairs.push(
                    (k, v),
                ));
                self.entries = entries;
            },
        }
    }

    /// The peers of a topic; none for a topic that is not set.
    pub fn peers_of(&self, topic: &String) -> (peers: Vec<String>)
        ensures
            peers@ == if self@.contains_key(topic@) {
                self@[topic@]
            } else {
                Seq::<String>::empty()
            },
    {
        proof {
            use_type_invariant(self);
        }
        match self.position(topic) {
            Some(i) => {
                proof {
                    lemma_pairs_map_at(self.pairs(), i as int);
                }
                let peers = self.entries[i].1.clone();
                assert(peers@ =~= self.entries@[i as int].1@);
                peers
            },
            None => Vec::new(),
        }
    }

    /// The peers of each topic, as text.
    pub open spec fn text(self) -> Map<Seq<char>, Seq<Seq<char>>> {
        self@.map_values(|ps: Seq<String>| ps.map_values(|p: String| p@))
    }

    /// A copy of the map, entry for entry.
    pub fn duplicate(&self) -> (copy: TopicMesh)
        ensures
            copy.pairs() == self.pairs(),
            copy@ == self@,
    {
        proof {
            use_type_invariant(self);
        }
        let mut out: Vec<(String, Vec<String>)> = Vec::new();
        let mut i: usize = 0;
        while i < self.entries.len()
            invariant
                i <= self.entries@.len(),
                out@.map_values(|e: (String, Vec<String>)| (e.0@, e.1@)) =~= self.pairs().take(
                    i as int,
                ),
            decreases self.entries@.len() - i,
        {
            let topic = self.entries[i].0.clone();
            let peers = self.entries[i].1.clone();
            assert(peers@ =~= self.entries@[i as int].1@);
            out.push((topic, peers));
            assert(self.pairs().take(i + 1) =~= self.pairs().take(i as int).push(self.pairs()[i as int]));
            i = i + 1;
        }
        assert(self.pairs().take(self.entries@.len() as int) =~= self.pairs());
        TopicMesh { entries: out }
    }

    /// Whether two maps list the same peers, by text, for the same topics.
    pub fn same_text(&self, other: &TopicMesh) -> (same: bool)
        ensures
            same == (self.text() == other.text()),
    {
        proof {
            use_type_invariant(self);
            use_type_invariant(other);
        }
        let ghost ps = self.pairs();
        let ghost qs = other.pairs();
        let mut i: usize = 0;
        while i < self.entries.len()
            invariant
                i <= self.entries@.len(),
                ps == self.pairs(),
                qs == other.pairs(),
                keys_distinct(ps),
                keys_distinct(qs),
                forall|j: int|
                    0 <= j < i ==> #[trigger] other@.contains_key(ps[j].0) && other.text()[ps[j].0]
                        == ps[j].1.map_values(|p: String| p@),
            decreases self.entries@.len() - i,
        {
            proof {
                lemma_pairs_map_at(ps, i as int);
            }
            let k = &self.entries[i].0;
            assert(k@ == ps[i as int].0);
            match other.position(k) {
                None => {
                    assert(self.text().contains_key(k@));
                    assert(!other.text().contains_key(k@));
                    return false;
                },
                Some(j) => {
                    proof {
                        lemma_pairs_map_at(qs, j as int);
                    }
                    let equal = texts_equal(&self.entries[i].1, &other.entries[j].1);
                    assert(self.entries@[i as int].1.deep_view() =~= ps[i as int].1.map_values(
                        |p: String| p@,
                    ));
                    assert(other.entries@[j as int].1.deep_view() =~= qs[j as int].1.map_values(
                        |p: String| p@,
                    ));
                    if !equal {
                        assert(self.text()[k@] != other.text()[k@]);
                        return false;
                    }
                },
            }
            i = i + 1;
        }
        let mut i: usize = 0;
        while i < other.entries.len()
            invariant
                i <= other.entries@.len(),
                ps == self.pairs(),
                qs == other.pairs(),
                keys_distinct(ps),
                keys_distinct(qs),
                forall|j: int| 0 <= j < self.entries@.len() ==> #[trigger] other@.contains_key(ps[j].0)
                    && other.text()[ps[j].0] == ps[j].1.map_values(|p: String| p@),
                forall|j: int| 0 <= j < i ==> #[trigger] self@.contains_key(qs[j].0),
            decreases other.entries@.len() - i,
        {
            proof {
                lemma_pairs_map_at(qs, i as int);
            }
            let k = &other.entries[i].0;
            assert(k@ == qs[i as int].0);
            match self.position(k) {
                None => {
                    assert(other.text().contains_key(k@));
                    assert(!self.text().contains_key(k@));
                    return false;
                },
                Some(_) => {},
            }
            i = i + 1;
        }
        proof {
            assert forall|x: Seq<char>| self.text().contains_key(x) <==> other.text().contains_key(
                x,
            ) by {
                if self.text().contains_key(x) {
                    let j = choose|j: int| 0 <= j < ps.len() && #[trigger] ps[j].0 == x;
                    assert(other@.contains_key(ps[j].0));
                }
                if other.text().contains_key(x) {
                    let j = choose|j: int| 0 <= j < qs.len() && #[trigger] qs[j].0 == x;
                    assert(self@.contains_key(qs[j].0));
                }
            }
            assert forall|x: Seq<char>| #[trigger] self.text().contains_key(x) implies self.text()[x]
                == other.text()[x] by {
                let j = choose|j: int| 0 <= j < ps.len() && #[trigger] ps[j].0 == x;
                lemma_pairs_map_at(ps, j);
                assert(other@.contains_key(ps[j].0));
            }
            assert(self.text() =~= other.text());
        }
        true
    }

    /// The bootstrap node's upkeep of its map: it adopts the latest map, and
    /// broadcasts it when it lists other peers, by text, than the map it kept;
    /// otherwise it waits.
    pub fn refresh(&mut self, latest: TopicMesh) -> (step: MeshStep)
        ensures
            final(self)@ == latest@,
            step is Wait <==> old(self).text() == latest.text(),
            step matches MeshStep::Broadcast(m) ==> m@ == latest@,
    {
        let same = self.same_text(&latest);
        if same {
            *self = latest;
            MeshStep::Wait
        } else {
            let copy = latest.duplicate();
            *self = latest;
            MeshStep::Broadcast(copy)
        }
    }

    /// The entries (topic, peers), one per topic.
    pub fn into_entries(self) -> (entries: Vec<(String, Vec<String>)>)
        ensures
            entries@.map_values(|e: (String, Vec<String>)| (e.0@, e.1@)) == self.pairs(),
            keys_distinct(self.pairs()),
    {
        proof {
            use_type_invariant(&self);
        }
        let TopicMesh { entries } = self;
        entries
    }
}

/// What the bootstrap node does after looking at the latest map.
#[derive(Debug)]
pub enum MeshStep {
    /// Nothing changed: wait before looking again.
    Wait,
    /// The map changed: broadcast it.
    Broadcast(TopicMesh),
}

/// Once the map has been adopted, the same map, by text, makes the bootstrap
/// node wait: a settled map is broadcast once, not again.
pub proof fn lemma_mesh_settles(kept: TopicMesh, latest: TopicMesh, again: TopicMesh)
    requires
        kept@ == latest@,
        again.text() == latest.text(),
    ensures
        kept.text() == again.text(),
{
}

/// Whether two lists of strings hold the same texts in the same order.
pub fn texts_equal(a: &Vec<String>, b: &Vec<String>) -> (r: bool)
    ensures
        r == (a.deep_view() == b.deep_view()),
{
    if a.len() != b.len() {
        assert(a.deep_view().len() != b.deep_view().len());
        return false;
    }
    let mut i: usize = 0;
    while i < a.len()
        invariant
            a@.len() == b@.len(),
            i <= a@.len(),
            forall|j: int| 0 <= j < i ==> a.deep_view()[j] == b.deep_view()[j],
        decreases a@.len() - i,
    {
        if a[i] != b[i] {
            assert(a.deep_view()[i as int] != b.deep_view()[i as int]);
            return false;
        }
        i = i + 1;
    }
    assert(a.deep_view() =~= b.deep_view());
    true
}

impl View for TopicMesh {
    type V = Map<Seq<char>, Seq<String>>;

    open spec fn view(&self) -> Map<Seq<char>, Seq<String>> {
        pairs_map(self.pairs())
    }
}

/// The coordination topic every node subscribes to, where sessions are
/// advertised and the bootstrap node broadcasts its map.
pub fn common_topic() -> (t: String)
    ensures
        t@ == "mpc-common"@,
{
    String::from_str("mpc-common")
}

/// The role of a node.
#[derive(Clone, Copy, PartialEq, Eq, Structural, Debug)]
pub enum NodeMode {
    /// The well-known node that keeps and broadcasts the map of topics to
    /// peers.
    Bootstrap,
    /// A participant.
    General,
}

/// The name of a role.
pub open spec fn mode_name(m: NodeMode) -> Seq<char> {
    match m {
        NodeMode::Bootstrap => "bootstrap"@,
        NodeMode::General => "general"@,
    }
}

/// The role a name stands for.
pub open spec fn mode_of_name(name: Seq<char>) -> NodeMode {
    if name == "bootstrap"@ {
        NodeMode::Bootstrap
    } else {
        NodeMode::General
    }
}

/// A role's name reads back as the same role.
pub proof fn lemma_mode_name_round_trip(m: NodeMode)
    ensures
        mode_of_name(mode_name(m)) == m,
{
    reveal_strlit("bootstrap");
    reveal_strlit("general");
    assert("general"@[0] != "bootstrap"@[0]);
}

/// The role chosen by the answer to the start-up question: the bootstrap
/// role for an answer that is blank once trimmed, the general role for
/// anything else.
pub fn select_mode(answer: &str) -> (mode: NodeMode)
    ensures
        mode == (if is_blank(answer@) {
            NodeMode::Bootstrap
        } else {
            NodeMode::General
        }),
{
    if blank(answer) {
        NodeMode::Bootstrap
    } else {
        NodeMode::General
    }
}

impl NodeMode {
    /// The role a node started under the given name takes: the bootstrap
    /// role for `bootstrap`, the general role for any other name.
    pub fn from_name(name: &str) -> (mode: NodeMode)
        ensures
            mode == mode_of_name(name@),
    {
        if text_eq(name, "bootstrap") {
            NodeMode::Bootstrap
        } else {
            NodeMode::General
        }
    }

    /// The name of the role.
    pub fn name(&self) -> (s: String)
        ensures
            s@ == mode_name(*self),
    {
        match self {
            NodeMode::Bootstrap => String::from_str("bootstrap"),
            NodeMode::General => String::from_str("general"),
        }
    }

    /// The address a node of the role listens on: the fixed port 8888 for
    /// the bootstrap node, a port of the system's choice otherwise.
    pub fn listen_addr(&self) -> (s: String)
        ensures
            s@ == (match self {
                NodeMode::Bootstrap => "ip4/127.0.0.1/tcp/8888"@,
                NodeMode::General => "ip4/127.0.0.1/tcp/0"@,
            }),
    {
        match self {
            NodeMode::Bootstrap => String::from_str("ip4/127.0.0.1/tcp/8888"),
            NodeMode::General => String::from_str("ip4/127.0.0.1/tcp/0"),
        }
    }

    /// Whether a node of the role takes part in drand sessions announced on
    /// the common topic; the bootstrap node ignores them.
    pub fn follows_sessions(&self) -> (b: bool)
        ensures
            b == (*self == NodeMode::General),
    {
        match self {
            NodeMode::Bootstrap => false,
            NodeMode::General => true,
        }
    }
}

} // verus!
