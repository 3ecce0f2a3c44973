use rnet_drand::common::{commitment_of, xor_sha_commits};
use rnet_drand::drand::{
    list_contains, plan_join, CommitBook, ReductionOutcome, SessionPayload, SessionStage,
    SessionState,
};
use rnet_drand::node::{texts_equal, MeshStep, TopicMesh};

const LEADER: &str = "/ip4/127.0.0.1/tcp/8888";
const ALICE: &str = "/ip4/127.0.0.1/tcp/1001";
const BOB: &str = "/ip4/127.0.0.1/tcp/1002";

fn s(x: &str) -> String {
    x.to_string()
}

fn payload(source: &str, stage: SessionStage) -> SessionPayload {
    SessionPayload {
        source: s(source),
        stage,
        participants: None,
        commit_hash: None,
        secret: None,
        drand: None,
        timestamp: 7,
    }
}

fn commit_from(source: &str, hash: &str) -> SessionPayload {
    let mut p = payload(source, SessionStage::Commit);
    p.commit_hash = Some(s(hash));
    p
}

#[test]
fn book_keeps_first_commitment_per_address() {
    let mut book = CommitBook::new();
    assert_eq!(book.len(), 0);
    assert_eq!(book.get(&s(ALICE)), None);
    assert!(book.record(s(ALICE), s("h1")));
    assert!(book.record(s(BOB), s("h2")));
    assert!(!book.record(s(ALICE), s("h3")));
    assert_eq!(book.len(), 2);
    assert_eq!(book.get(&s(ALICE)), Some(s("h1")));
    assert_eq!(book.get(&s(BOB)), Some(s("h2")));
    assert_eq!(book.accepted(&vec![]), vec![s("h1"), s("h2")]);
    assert_eq!(book.accepted(&vec![s(ALICE)]), vec![s("h2")]);
}

#[test]
fn list_contains_by_text() {
    let list = vec![s("a"), s("b")];
    assert!(list_contains(&list, &s("b")));
    assert!(!list_contains(&list, &s("c")));
}

#[test]
fn topic_mesh_keeps_one_entry_per_topic() {
    let mut mesh = TopicMesh::new();
    assert!(mesh.peers_of(&s("t")).is_empty());
    mesh.set(s("t"), vec![s(ALICE)]);
    mesh.set(s("u"), vec![s(BOB)]);
    mesh.set(s("t"), vec![s(LEADER), s(ALICE)]);
    assert_eq!(mesh.peers_of(&s("t")), vec![s(LEADER), s(ALICE)]);
    assert_eq!(mesh.peers_of(&s("u")), vec![s(BOB)]);
    assert_eq!(
        mesh.into_entries(),
        vec![(s("t"), vec![s(LEADER), s(ALICE)]), (s("u"), vec![s(BOB)])]
    );
}

#[test]
fn new_sessions_start_at_ack() {
    let led = SessionState::new_leader(s("t"), s(LEADER));
    assert_eq!(led.stage, SessionStage::Ack);
    assert!(led.is_leader);
    assert_eq!(led.leader, LEADER);
    let joined = SessionState::new_participant(s("t"), s(LEADER));
    assert!(!joined.is_leader);
    assert_eq!(joined.leader, LEADER);
    assert_eq!(joined.commit_hashes.len(), 0);
}

#[test]
fn leader_acknowledges_mesh_and_itself() {
    let mut st = SessionState::new_leader(s("t"), s(LEADER));
    let ack = st.acknowledge(vec![s(ALICE), s(BOB)], &s(LEADER), 9);
    assert_eq!(st.participants, vec![s(ALICE), s(BOB), s(LEADER)]);
    assert_eq!(ack.stage, SessionStage::Ack);
    assert_eq!(ack.source, LEADER);
    assert_eq!(ack.participants, Some(vec![s(ALICE), s(BOB), s(LEADER)]));
    assert_eq!(ack.timestamp, 9);
}

#[test]
fn participant_adopts_ack_only_at_ack_stage() {
    let mut st = SessionState::new_participant(s("t"), s(LEADER));
    let mut ack = payload(LEADER, SessionStage::Ack);
    ack.participants = Some(vec![s(ALICE), s(LEADER)]);
    assert!(st.apply_ack(ack));
    assert_eq!(st.participants, vec![s(ALICE), s(LEADER)]);

    st.stage = SessionStage::Commit;
    let mut late = payload(LEADER, SessionStage::Ack);
    late.participants = Some(vec![s(BOB)]);
    assert!(!st.apply_ack(late));
    assert_eq!(st.participants, vec![s(ALICE), s(LEADER)]);
}

#[test]
fn leader_commits_first() {
    let mut st = SessionState::new_leader(s("t"), s(LEADER));
    let out = st.on_commit(None, &s(LEADER), 11).unwrap();
    assert_eq!(st.stage, SessionStage::Commit);
    let (secret, hash) = st.local_rand.clone().unwrap();
    assert_eq!(hash, commitment_of(&secret));
    assert_eq!(out.commit_hash, Some(hash.clone()));
    assert_eq!(out.stage, SessionStage::Commit);
    assert_eq!(out.source, LEADER);
    assert_eq!(out.timestamp, 11);
    assert_eq!(st.commit_hashes.get(&s(LEADER)), Some(hash));
}

#[test]
fn committed_node_stays_locked() {
    let mut st = SessionState::new_leader(s("t"), s(LEADER));
    st.on_commit(None, &s(LEADER), 1).unwrap();
    let kept = st.local_rand.clone();
    let own = st.commit_hashes.get(&s(LEADER));
    assert!(st.on_commit(None, &s(LEADER), 2).is_none());
    assert_eq!(st.local_rand, kept);
    assert_eq!(st.commit_hashes.get(&s(LEADER)), own);

    let mut joined = SessionState::new_participant(s("t"), s(LEADER));
    joined.on_commit(Some(commit_from(LEADER, "lh")), &s(ALICE), 3).unwrap();
    let kept = joined.local_rand.clone();
    assert!(joined.on_commit(Some(commit_from(LEADER, "lh2")), &s(ALICE), 4).is_none());
    assert_eq!(joined.local_rand, kept);
    assert_eq!(joined.commit_hashes.get(&s(LEADER)), Some(s("lh")));
}

#[test]
fn apply_commit_with_given_entropy() {
    let mut st = SessionState::new_participant(s("t"), s(LEADER));
    let out = st
        .apply_commit(Some(commit_from(LEADER, "lh")), &s(ALICE), 3, (s("sec"), s("ah")))
        .unwrap();
    assert_eq!(out.commit_hash, Some(s("ah")));
    assert_eq!(st.local_rand, Some((s("sec"), s("ah"))));
    assert_eq!(st.commit_hashes.get(&s(ALICE)), Some(s("ah")));
    assert_eq!(st.commit_hashes.get(&s(LEADER)), Some(s("lh")));
    assert_eq!(st.stage, SessionStage::Commit);
}

#[test]
fn participant_follows_leader_commit_and_records_others() {
    let mut st = SessionState::new_participant(s("t"), s(LEADER));
    assert!(st.on_commit(Some(commit_from(BOB, "bh")), &s(ALICE), 1).is_none());
    assert_eq!(st.stage, SessionStage::Ack);
    assert!(st.local_rand.is_none());
    assert_eq!(st.commit_hashes.get(&s(BOB)), Some(s("bh")));

    let out = st.on_commit(Some(commit_from(LEADER, "lh")), &s(ALICE), 2).unwrap();
    let (secret, hash) = st.local_rand.clone().unwrap();
    assert_eq!(out.commit_hash, Some(hash.clone()));
    assert_eq!(hash, commitment_of(&secret));
    assert_eq!(st.commit_hashes.get(&s(ALICE)), Some(hash));
    assert_eq!(st.commit_hashes.get(&s(LEADER)), Some(s("lh")));
    assert_eq!(st.stage, SessionStage::Commit);
}

#[test]
fn a_commitment_cannot_be_rerolled() {
    let mut st = SessionState::new_participant(s("t"), s(LEADER));
    assert!(st.on_commit(Some(commit_from(BOB, "first")), &s(ALICE), 1).is_none());
    assert!(st.on_commit(Some(commit_from(BOB, "second")), &s(ALICE), 2).is_none());
    assert_eq!(st.commit_hashes.get(&s(BOB)), Some(s("first")));
}

#[test]
fn reveal_reply_only_to_leader() {
    let mut st = SessionState::new_participant(s("t"), s(LEADER));
    st.local_rand = Some((s("mysecret"), commitment_of("mysecret")));
    assert!(st.reveal_reply(&s(BOB), &s(ALICE), 1).is_none());
    assert_eq!(st.stage, SessionStage::Ack);
    let out = st.reveal_reply(&s(LEADER), &s(ALICE), 5).unwrap();
    assert_eq!(out.secret, Some(s("mysecret")));
    assert_eq!(out.stage, SessionStage::Reveal);
    assert_eq!(out.source, ALICE);
    assert_eq!(st.stage, SessionStage::Reveal);
}

#[test]
fn honest_reveal_passes_dishonest_is_blacklisted() {
    let mut st = SessionState::new_participant(s("t"), s(LEADER));
    st.commit_hashes.record(s(BOB), commitment_of("bob-secret"));
    st.commit_hashes.record(s(LEADER), commitment_of("leader-secret"));

    let mut honest = payload(BOB, SessionStage::Reveal);
    honest.secret = Some(s("bob-secret"));
    assert!(st.check_reveal(honest));
    assert!(st.blacklist.is_empty());

    let mut liar = payload(LEADER, SessionStage::Reveal);
    liar.secret = Some(s("another-secret"));
    assert!(!st.check_reveal(liar));
    assert_eq!(st.blacklist, vec![s(LEADER)]);
}

#[test]
fn reduction_leaves_out_blacklisted_commitments() {
    let mut st = SessionState::new_leader(s("t"), s(LEADER));
    st.commit_hashes.record(s(LEADER), commitment_of("l"));
    st.commit_hashes.record(s(ALICE), commitment_of("a"));
    st.commit_hashes.record(s(BOB), commitment_of("b"));
    st.blacklist.push(s(BOB));
    let expected = xor_sha_commits(&vec![commitment_of("l"), commitment_of("a")]).unwrap();
    match st.apply_reduction(None, &s(LEADER), 4) {
        ReductionOutcome::Announce(out) => {
            assert_eq!(out.drand, Some(expected));
            assert_eq!(out.stage, SessionStage::Reduction);
            assert_eq!(out.source, LEADER);
        }
        other => panic!("unexpected {:?}", other),
    }
    assert_eq!(st.stage, SessionStage::Reduction);
}

#[test]
fn participants_agree_whatever_order_they_recorded() {
    let mut leader = SessionState::new_leader(s("t"), s(LEADER));
    leader.commit_hashes.record(s(LEADER), commitment_of("l"));
    leader.commit_hashes.record(s(ALICE), commitment_of("a"));
    let mut alice = SessionState::new_participant(s("t"), s(LEADER));
    alice.commit_hashes.record(s(ALICE), commitment_of("a"));
    alice.commit_hashes.record(s(LEADER), commitment_of("l"));

    let announced = match leader.apply_reduction(None, &s(LEADER), 1) {
        ReductionOutcome::Announce(p) => p,
        other => panic!("unexpected {:?}", other),
    };
    let beacon = announced.drand.clone().unwrap();
    match alice.apply_reduction(Some(announced), &s(ALICE), 2) {
        ReductionOutcome::Agreed(d) => assert_eq!(d, beacon),
        other => panic!("unexpected {:?}", other),
    }

    let mut forged = payload(LEADER, SessionStage::Reduction);
    forged.drand = Some(commitment_of("forged"));
    match alice.apply_reduction(Some(forged), &s(ALICE), 3) {
        ReductionOutcome::Disagreed { local, remote } => {
            assert_eq!(local, beacon);
            assert_eq!(remote, commitment_of("forged"));
        }
        other => panic!("unexpected {:?}", other),
    }
}

#[test]
fn reduction_with_malformed_commitment_is_unusable() {
    let mut st = SessionState::new_leader(s("t"), s(LEADER));
    st.commit_hashes.record(s(ALICE), s("not-hex"));
    assert!(matches!(st.apply_reduction(None, &s(LEADER), 1), ReductionOutcome::Unusable));
}

#[test]
fn begin_reveal_moves_to_reveal() {
    let mut st = SessionState::new_leader(s("t"), s(LEADER));
    st.local_rand = Some((s("sec"), commitment_of("sec")));
    let out = st.begin_reveal(&s(LEADER), 8);
    assert_eq!(out.secret, Some(s("sec")));
    assert_eq!(out.stage, SessionStage::Reveal);
    assert_eq!(out.timestamp, 8);
    assert_eq!(st.stage, SessionStage::Reveal);
}

#[test]
fn join_plan_picks_leader_and_known_peer() {
    let peers = vec![s(LEADER), s(ALICE), s(BOB)];
    for _ in 0..50 {
        let (leader, other) = plan_join(&peers);
        assert_eq!(leader, LEADER);
        assert!(peers.contains(&other));
    }
    assert_eq!(plan_join(&vec![s(ALICE)]), (s(ALICE), s(ALICE)));
}

fn mesh(entries: &[(&str, &[&str])]) -> TopicMesh {
    let mut m = TopicMesh::new();
    for (t, ps) in entries {
        m.set(s(t), ps.iter().map(|p| s(p)).collect());
    }
    m
}

#[test]
fn mesh_refresh_broadcasts_changes_once() {
    let mut kept = TopicMesh::new();
    match kept.refresh(mesh(&[("t", &[ALICE])])) {
        MeshStep::Broadcast(m) => assert_eq!(m.into_entries(), vec![(s("t"), vec![s(ALICE)])]),
        MeshStep::Wait => panic!("a new map must be broadcast"),
    }
    assert!(matches!(kept.refresh(mesh(&[("t", &[ALICE])])), MeshStep::Wait));
    assert!(matches!(kept.refresh(mesh(&[("t", &[ALICE, BOB])])), MeshStep::Broadcast(_)));
    assert!(matches!(kept.refresh(mesh(&[("t", &[BOB, ALICE])])), MeshStep::Broadcast(_)));
    assert!(matches!(kept.refresh(mesh(&[("t", &[BOB, ALICE])])), MeshStep::Wait));
    assert!(matches!(kept.refresh(mesh(&[("u", &[]), ("t", &[BOB, ALICE])])), MeshStep::Broadcast(_)));
    assert!(matches!(kept.refresh(mesh(&[("t", &[BOB, ALICE]), ("u", &[])])), MeshStep::Wait));
    assert!(matches!(kept.refresh(TopicMesh::new()), MeshStep::Broadcast(_)));
    assert!(kept.peers_of(&s("t")).is_empty());
}

#[test]
fn mesh_text_comparison() {
    let a = mesh(&[("t", &[ALICE]), ("u", &[BOB])]);
    let b = mesh(&[("u", &[BOB]), ("t", &[ALICE])]);
    let c = mesh(&[("t", &[ALICE])]);
    assert!(a.same_text(&b));
    assert!(!a.same_text(&c));
    assert!(!c.same_text(&a));
    assert!(a.duplicate().same_text(&a));
    assert!(texts_equal(&vec![s("x")], &vec![s("x")]));
    assert!(!texts_equal(&vec![s("x")], &vec![s("x"), s("y")]));
}
