use rnet_drand::common::{
    advertisement, commitment_of, generate_entropy, jitter_millis, unix_epoch, xor_sha_commits,
    MpcMsgType, ADVERTISED_ACK_DEADLINE, ADVERTISED_COMMIT_DEADLINE,
};

const ABC_SHA256: &str = "ba7816bf8f01cfea414140de5dae2223b00361a396177a9cb410ff61f20015ad";
const EMPTY_SHA256: &str = "e3b0c44298fc1c149afbf4c8996fb92427ae41e4649b934ca495991b7852b855";
const ZERO_BEACON: &str = "0000000000000000000000000000000000000000000000000000000000000000";

fn s(x: &str) -> String {
    x.to_string()
}

#[test]
fn commitment_is_lower_hex_sha256() {
    assert_eq!(commitment_of("abc"), ABC_SHA256);
    assert_eq!(commitment_of(""), EMPTY_SHA256);
}

#[test]
fn commitment_hashes_utf8_bytes() {
    // "é" is two bytes in UTF-8: c3 a9.
    let c = commitment_of("é");
    assert_eq!(c.len(), 64);
    assert_ne!(c, commitment_of("e"));
}

#[test]
fn generated_entropy_is_committed() {
    let (secret, hash) = generate_entropy();
    assert_eq!(secret.chars().count(), 16);
    assert!(secret.chars().all(|c| c.is_ascii_alphanumeric()));
    assert_eq!(hash, commitment_of(&secret));
}

#[test]
fn beacon_of_nothing_is_zero() {
    assert_eq!(xor_sha_commits(&vec![]), Some(s(ZERO_BEACON)));
}

#[test]
fn beacon_of_one_commitment_is_itself() {
    assert_eq!(xor_sha_commits(&vec![s(ABC_SHA256)]), Some(s(ABC_SHA256)));
}

#[test]
fn beacon_of_upper_case_commitment_is_lower_case() {
    let upper = ABC_SHA256.to_uppercase();
    assert_eq!(xor_sha_commits(&vec![upper]), Some(s(ABC_SHA256)));
}

#[test]
fn beacon_cancels_repeated_commitment() {
    assert_eq!(
        xor_sha_commits(&vec![s(ABC_SHA256), s(ABC_SHA256)]),
        Some(s(ZERO_BEACON))
    );
}

#[test]
fn beacon_xors_bytes() {
    let a = s("ff00000000000000000000000000000000000000000000000000000000000001");
    let b = s("0f00000000000000000000000000000000000000000000000000000000000003");
    assert_eq!(
        xor_sha_commits(&vec![a, b]),
        Some(s("f000000000000000000000000000000000000000000000000000000000000002"))
    );
}

#[test]
fn beacon_does_not_depend_on_order() {
    let a = commitment_of("alpha");
    let b = commitment_of("beta");
    let c = commitment_of("gamma");
    let one = xor_sha_commits(&vec![a.clone(), b.clone(), c.clone()]);
    let two = xor_sha_commits(&vec![c, a, b]);
    assert!(one.is_some());
    assert_eq!(one, two);
}

#[test]
fn beacon_rejects_malformed_commitments() {
    assert_eq!(xor_sha_commits(&vec![s("abc")]), None);
    assert_eq!(xor_sha_commits(&vec![s(ABC_SHA256), s("zz")]), None);
    let short = s("ba7816bf8f01cfea414140de5dae2223b00361a396177a9cb410ff61f20015");
    assert_eq!(xor_sha_commits(&vec![short]), None);
    let long = format!("{}00", ABC_SHA256);
    assert_eq!(xor_sha_commits(&vec![long]), None);
    let bad_digit = ABC_SHA256.replace('b', "g");
    assert_eq!(xor_sha_commits(&vec![bad_digit]), None);
}

#[test]
fn jitter_stays_in_range() {
    for _ in 0..200 {
        let ms = jitter_millis();
        assert!((1..500).contains(&ms));
    }
}

#[test]
fn clock_is_after_epoch() {
    assert!(unix_epoch() > 1_600_000_000);
}

#[test]
fn advertisement_carries_deadlines() {
    match advertisement(s("topic-1")) {
        MpcMsgType::Advertize((id, commit, ack)) => {
            assert_eq!(id, "topic-1");
            assert_eq!(commit, 15);
            assert_eq!(ack, 15);
            assert_eq!(commit, ADVERTISED_COMMIT_DEADLINE);
            assert_eq!(ack, ADVERTISED_ACK_DEADLINE);
        }
        other => panic!("unexpected message {:?}", other),
    }
}
