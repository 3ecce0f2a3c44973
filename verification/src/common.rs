//! Commitments, entropy and the clock.

use crate::drand::SessionPayload;
use crate::node::TopicMesh;
use crate::text::{
    has_prefix, join_parts, join_with, lemma_lines_of_join, lemma_lines_one_line, lines, no_cr,
    no_lf, one_line, split_lines, starts_with, strip_cr,
};
use crate::trusted::{
    clock_now, hex_decode, hex_decode_spec, hex_digit, hex_encode, hex_encode_spec, hex_value,
    is_ascii_alphanumeric, is_hex_text, push_char, random_alphanumeric, random_in_range, sha256,
    sha256_digest, since_unix_epoch, whole_seconds,
};
use vstd::prelude::*;
use vstd::string::StringExecFns;
use vstd::utf8::{encode_utf8, is_ascii_chars, is_ascii_chars_encode_utf8};

verus! {

/// A session's name: the topic its messages go to.
pub type SessionId = String;

/// Seconds the leader gives participants to commit.
pub type CommitDeadline = u64;

/// Seconds the leader gives participants to acknowledge.
pub type AckDeadline = u64;

/// The deadlines a leader advertises with a new session.
pub const ADVERTISED_COMMIT_DEADLINE: u64 = 15;

/// See `ADVERTISED_COMMIT_DEADLINE`.
pub const ADVERTISED_ACK_DEADLINE: u64 = 15;

/// The messages nodes publish to each other.
#[derive(Debug)]
pub enum MpcMsgType {
    /// Free text.
    General(String),
    /// A message of a drand session.
    Session(SessionPayload),
    /// A new drand session, with its deadlines.
    Advertize((SessionId, CommitDeadline, AckDeadline)),
    /// The bootstrap node's map of topics to the peers subscribed to them.
    Bootmesh(TopicMesh),
}

/// The advertisement of a new session.
pub fn advertisement(session_id: String) -> (m: MpcMsgType)
    ensures
        m matches MpcMsgType::Advertize((id, commit, ack)) && id == session_id && commit
            == ADVERTISED_COMMIT_DEADLINE && ack == ADVERTISED_ACK_DEADLINE,
{
    MpcMsgType::Advertize((session_id, ADVERTISED_COMMIT_DEADLINE, ADVERTISED_ACK_DEADLINE))
}

/// The line of the settings file that names the bootstrap node.
pub open spec fn bootstrap_entry(addr: Seq<char>) -> Seq<char> {
    "BOOTSTRAP_NODE="@ + addr
}

/// A line of the settings file, with the bootstrap node's line replaced.
pub open spec fn rewrite_line(line: Seq<char>, addr: Seq<char>) -> Seq<char> {
    if starts_with(line, "BOOTSTRAP_NODE="@) {
        bootstrap_entry(addr)
    } else {
        line
    }
}

/// Whether some line names the bootstrap node.
pub open spec fn names_bootstrap(ls: Seq<Seq<char>>) -> bool {
    exists|i: int| 0 <= i < ls.len() && starts_with(#[trigger] ls[i], "BOOTSTRAP_NODE="@)
}

/// The lines of the settings file after the bootstrap node is set to `addr`:
/// every line naming it is replaced; if none did, the entry is appended.
pub open spec fn env_lines(content: Seq<char>, addr: Seq<char>) -> Seq<Seq<char>> {
    let ls = lines(content);
    let mapped = ls.map_values(|l: Seq<char>| rewrite_line(l, addr));
    if names_bootstrap(ls) {
        mapped
    } else {
        mapped.push(bootstrap_entry(addr))
    }
}

/// The settings file `content` with the bootstrap node set to `addr`: its
/// lines, rewritten, joined by `\n`.
pub fn set_bootstrap_entry(content: &str, addr: &str) -> (r: String)
    ensures
        r@ == join_with(env_lines(content@, addr@), '\n'),
{
    let ls = split_lines(content);
    let ghost lv = ls.deep_view();
    let mut entry = String::from_str("BOOTSTRAP_NODE=");
    entry.append(addr);
    let mut out: Vec<String> = Vec::new();
    let mut found = false;
    let mut i: usize = 0;
    while i < ls.len()
        invariant
            i <= ls@.len(),
            lv == ls.deep_view(),
            lv == lines(content@),
            entry@ == bootstrap_entry(addr@),
            out@.map_values(|p: String| p@) =~= lv.take(i as int).map_values(
                |l: Seq<char>| rewrite_line(l, addr@),
            ),
            found == names_bootstrap(lv.take(i as int)),
        decreases ls@.len() - i,
    {
        let ghost before = out@.map_values(|p: String| p@);
        assert(lv.take(i + 1) =~= lv.take(i as int).push(lv[i as int]));
        let named = has_prefix(ls[i].as_str(), "BOOTSTRAP_NODE=");
        if named {
            found = true;
            out.push(entry.clone());
        } else {
            out.push(ls[i].clone());
        }
        assert(out@.map_values(|p: String| p@) =~= before.push(rewrite_line(lv[i as int], addr@)));
        proof {
            let t = lv.take(i + 1);
            if named {
                assert(starts_with(t[i as int], "BOOTSTRAP_NODE="@));
            } else if names_bootstrap(t) {
                let j = choose|j: int| 0 <= j < t.len() && starts_with(#[trigger] t[j], "BOOTSTRAP_NODE="@);
                if j < i {
                    assert(lv.take(i as int)[j] == t[j]);
                }
            }
            if names_bootstrap(lv.take(i as int)) {
                let j = choose|j: int| 0 <= j < i && starts_with(#[trigger] lv.take(i as int)[j], "BOOTSTRAP_NODE="@);
                assert(t[j] == lv.take(i as int)[j]);
            }
        }
        i = i + 1;
    }
    assert(lv.take(ls@.len() as int) =~= lv);
    if !found {
        let ghost before = out@.map_values(|p: String| p@);
        out.push(entry);
        assert(out@.map_values(|p: String| p@) =~= before.push(bootstrap_entry(addr@)));
    }
    join_parts(out.as_slice(), '\n')
}

/// Number of characters of a freshly drawn secret.
pub const SECRET_LEN: usize = 16;

/// The commitment to a secret: lower-case hex of SHA-256 of its UTF-8 bytes.
pub open spec fn commitment_spec(secret: Seq<char>) -> Seq<char> {
    hex_encode_spec(sha256(encode_utf8(secret)))
}

/// Whether a secret has the shape `generate_entropy` draws: `SECRET_LEN`
/// ASCII letters and digits.
pub open spec fn is_secret_shape(secret: Seq<char>) -> bool {
    &&& secret.len() == SECRET_LEN
    &&& forall|i: int| 0 <= i < secret.len() ==> is_ascii_alphanumeric(#[trigger] secret[i])
}

/// Computes the commitment to a secret.
pub fn commitment_of(secret: &str) -> (hash: String)
    ensures
        hash@ == commitment_spec(secret@),
        sha256(encode_utf8(secret@)).len() == DIGEST_LEN,
{
    let bytes = secret.as_bytes();
    let digest = sha256_digest(bytes);
    hex_encode(digest.as_slice())
}

/// Draws a random secret and commits to it: returns `(secret, commitment)`.
pub fn generate_entropy() -> (r: (String, String))
    ensures
        is_secret_shape(r.0@),
        r.1@ == commitment_spec(r.0@),
        sha256(encode_utf8(r.0@)).len() == DIGEST_LEN,
{
    let mut secret = String::new();
    let mut i: usize = 0;
    while i < SECRET_LEN
        invariant
            i <= SECRET_LEN,
            secret@.len() == i,
            forall|j: int| 0 <= j < i ==> is_ascii_alphanumeric(#[trigger] secret@[j]),
        decreases SECRET_LEN - i,
    {
        let c = random_alphanumeric();
        push_char(&mut secret, c);
        i = i + 1;
    }
    let hash = commitment_of(secret.as_str());
    (secret, hash)
}

/// The current time in whole seconds since the Unix epoch (0 for a clock set
/// before the epoch).
pub fn unix_epoch() -> u64 {
    let now = clock_now();
    match since_unix_epoch(&now) {
        Ok(d) => whole_seconds(&d),
        Err(_) => 0,
    }
}

/// Random delay, in milliseconds, before a node publishes during a session:
/// from 1 up to but not including 500.
pub fn jitter_millis() -> (ms: u64)
    ensures
        1 <= ms < 500,
{
    match random_in_range(1, 500) {
        Some(v) => v,
        None => 1,
    }
}


/// Number of bytes of a SHA-256 digest, the unit the beacon is made of.
pub const DIGEST_LEN: usize = 32;

/// The all-zero digest: the beacon of no commitments.
pub open spec fn zero_digest() -> Seq<u8> {
    Seq::new(DIGEST_LEN as nat, |i: int| 0u8)
}

/// Byte-wise exclusive or, as long as the first operand.
pub open spec fn xor_bytes(a: Seq<u8>, b: Seq<u8>) -> Seq<u8> {
    Seq::new(a.len(), |i: int| a[i] ^ b[i])
}

/// The digest a commitment stands for: its text must be hexadecimal for
/// exactly `DIGEST_LEN` bytes.
pub open spec fn commitment_bytes(c: Seq<char>) -> Option<Seq<u8>> {
    let text = encode_utf8(c);
    if is_hex_text(text) && text.len() == 2 * DIGEST_LEN {
        Some(hex_decode_spec(text))
    } else {
        None
    }
}

/// Folds one contribution into a running digest; a missing one spoils it.
pub open spec fn combine(acc: Option<Seq<u8>>, d: Option<Seq<u8>>) -> Option<Seq<u8>> {
    match (acc, d) {
        (Some(a), Some(b)) => Some(xor_bytes(a, b)),
        _ => None,
    }
}

/// Exclusive or of all contributions, starting from the zero digest.
pub open spec fn xor_all(ds: Seq<Option<Seq<u8>>>) -> Option<Seq<u8>>
    decreases ds.len(),
{
    if ds.len() == 0 {
        Some(zero_digest())
    } else {
        combine(xor_all(ds.drop_last()), ds.last())
    }
}

/// The digests of a list of commitments.
pub open spec fn commitment_digests(cs: Seq<Seq<char>>) -> Seq<Option<Seq<u8>>> {
    cs.map_values(|c: Seq<char>| commitment_bytes(c))
}

/// Exclusive or of the digests of a list of commitments; nothing when one of
/// them is not a hexadecimal digest.
pub open spec fn xor_reduce(cs: Seq<Seq<char>>) -> Option<Seq<u8>> {
    xor_all(commitment_digests(cs))
}

/// The beacon of a list of commitments, as lower-case hexadecimal text.
pub open spec fn beacon_spec(cs: Seq<Seq<char>>) -> Option<Seq<char>> {
    match xor_reduce(cs) {
        Some(b) => Some(hex_encode_spec(b)),
        None => None,
    }
}

/// A running digest, where there is one, is `DIGEST_LEN` bytes long.
pub proof fn lemma_xor_all_len(ds: Seq<Option<Seq<u8>>>)
    ensures
        xor_all(ds) matches Some(a) ==> a.len() == DIGEST_LEN,
    decreases ds.len(),
{
    if ds.len() > 0 {
        lemma_xor_all_len(ds.drop_last());
    }
}

/// Once a contribution is missing, the fold over any longer list is nothing.
proof fn lemma_xor_all_none_extends(ds: Seq<Option<Seq<u8>>>, n: int)
    requires
        0 <= n <= ds.len(),
        xor_all(ds.take(n)) is None,
    ensures
        xor_all(ds) is None,
    decreases ds.len() - n,
{
    if n < ds.len() {
        assert(ds.take(n + 1).drop_last() =~= ds.take(n));
        lemma_xor_all_none_extends(ds, n + 1);
    } else {
        assert(ds.take(n) =~= ds);
    }
}

/// Computes the beacon of a list of commitments: the exclusive or of the
/// digests they stand for, as lower-case hexadecimal text. Gives nothing when
/// one of them is not the hexadecimal text of a 32-byte digest.
pub fn xor_sha_commits(hashes: &Vec<String>) -> (beacon: Option<String>)
    ensures
        beacon is Some <==> beacon_spec(hashes.deep_view()) is Some,
        beacon matches Some(b) ==> beacon_spec(hashes.deep_view()) == Some(b@),
{
    let ghost cs = hashes.deep_view();
    let ghost ds = commitment_digests(cs);
    let mut acc: Vec<u8> = Vec::new();
    let mut k: usize = 0;
    while k < DIGEST_LEN
        invariant
            k <= DIGEST_LEN,
            acc@ =~= zero_digest().take(k as int),
        decreases DIGEST_LEN - k,
    {
        acc.push(0u8);
        k = k + 1;
    }
    assert(ds.take(0) =~= Seq::<Option<Seq<u8>>>::empty());
    let mut i: usize = 0;
    while i < hashes.len()
        invariant
            i <= hashes.len(),
            cs == hashes.deep_view(),
            ds == commitment_digests(cs),
            xor_all(ds.take(i as int)) == Some(acc@),
            acc@.len() == DIGEST_LEN,
        decreases hashes.len() - i,
    {
        assert(ds.take(i + 1).drop_last() =~= ds.take(i as int));
        assert(ds[i as int] == commitment_bytes(hashes[i as int]@));
        let text = hashes[i].as_str().as_bytes();
        let decoded = hex_decode(text);
        match decoded {
            None => {
                proof {
                    lemma_xor_all_none_extends(ds, i + 1);
                }
                return None;
            },
            Some(d) => {
                if d.len() != DIGEST_LEN {
                    proof {
                        lemma_xor_all_none_extends(ds, i + 1);
                    }
                    return None;
                }
                let mut next: Vec<u8> = Vec::new();
                let mut j: usize = 0;
                while j < DIGEST_LEN
                    invariant
                        j <= DIGEST_LEN,
                        acc@.len() == DIGEST_LEN,
                        d@.len() == DIGEST_LEN,
                        next@ =~= xor_bytes(acc@, d@).take(j as int),
                    decreases DIGEST_LEN - j,
                {
                    next.push(acc[j] ^ d[j]);
                    j = j + 1;
                }
                assert(next@ =~= xor_bytes(acc@, d@));
                acc = next;
            },
        }
        i = i + 1;
    }
    assert(ds.take(hashes.len() as int) =~= ds);
    let text = hex_encode(acc.as_slice());
    Some(text)
}


/// Folding two contributions in either order gives the same digest.
proof fn lemma_combine_swap(x: Option<Seq<u8>>, a: Option<Seq<u8>>, b: Option<Seq<u8>>)
    ensures
        combine(combine(x, a), b) == combine(combine(x, b), a),
{
    if x is Some && a is Some && b is Some {
        let v = x->0;
        let p = a->0;
        let q = b->0;
        assert forall|i: int| 0 <= i < v.len() implies #[trigger] xor_bytes(xor_bytes(v, p), q)[i]
            == xor_bytes(xor_bytes(v, q), p)[i] by {
            let (e, f, g) = (v[i], p[i], q[i]);
            assert((e ^ f) ^ g == (e ^ g) ^ f) by (bit_vector);
        }
        assert(xor_bytes(xor_bytes(v, p), q) =~= xor_bytes(xor_bytes(v, q), p));
    }
}

/// Any one contribution may be folded in last.
pub(crate) proof fn lemma_xor_all_remove(ds: Seq<Option<Seq<u8>>>, i: int)
    requires
        0 <= i < ds.len(),
    ensures
        xor_all(ds) == combine(xor_all(ds.remove(i)), ds[i]),
    decreases ds.len(),
{
    if i == ds.len() - 1 {
        assert(ds.remove(i) =~= ds.drop_last());
    } else {
        let rest = ds.drop_last();
        lemma_xor_all_remove(rest, i);
        assert(rest.remove(i) =~= ds.remove(i).drop_last());
        assert(ds.remove(i).last() == ds.last());
        lemma_combine_swap(xor_all(rest.remove(i)), ds[i], ds.last());
    }
}

/// The beacon does not depend on the order in which commitments are listed,
/// only on how often each one occurs: two lists holding the same commitments
/// the same number of times reduce to the same value.
pub proof fn lemma_xor_reduce_permutation(a: Seq<Seq<char>>, b: Seq<Seq<char>>)
    requires
        a.to_multiset() == b.to_multiset(),
    ensures
        xor_reduce(a) == xor_reduce(b),
        beacon_spec(a) == beacon_spec(b),
    decreases a.len(),
{
    broadcast use vstd::seq_lib::group_to_multiset_ensures;
    broadcast use vstd::multiset::group_multiset_axioms;

    if a.len() == 0 {
        assert(a.to_multiset().len() == 0);
        assert(b.len() == 0);
        assert(commitment_digests(a) =~= commitment_digests(b));
    } else {
        let x = a.last();
        assert(a =~= a.drop_last().push(x));
        assert(a.to_multiset().count(x) > 0);
        assert(b.contains(x));
        let j = choose|j: int| 0 <= j < b.len() && b[j] == x;
        assert(b.remove(j).to_multiset() =~= b.to_multiset().remove(x));
        assert(a.drop_last().to_multiset() =~= a.to_multiset().remove(x));
        lemma_xor_reduce_permutation(a.drop_last(), b.remove(j));
        let da = commitment_digests(a);
        let db = commitment_digests(b);
        assert(da.drop_last() =~= commitment_digests(a.drop_last()));
        assert(db.remove(j) =~= commitment_digests(b.remove(j)));
        lemma_xor_all_remove(db, j);
    }
}

/// A hexadecimal digit is ASCII, and reads back as the value it writes.
proof fn lemma_hex_digit(n: int)
    requires
        0 <= n < 16,
    ensures
        '\0' <= hex_digit(n) <= '\u{7f}',
        hex_value(hex_digit(n) as u8) == n,
{
    if n < 10 {
        assert(hex_digit(n) as u32 == n + 48);
    } else {
        assert(hex_digit(n) as u32 == n + 87);
    }
}

/// Reading back the hexadecimal text of a digest gives the digest.
pub proof fn lemma_commitment_bytes_of_hex(d: Seq<u8>)
    requires
        d.len() == DIGEST_LEN,
    ensures
        commitment_bytes(hex_encode_spec(d)) == Some(d),
{
    let c = hex_encode_spec(d);
    assert forall|i: int| 0 <= i < c.len() implies '\0' <= #[trigger] c[i] <= '\u{7f}' by {
        if i % 2 == 0 {
            lemma_hex_digit(d[i / 2] as int / 16);
        } else {
            lemma_hex_digit(d[i / 2] as int % 16);
        }
    }
    assert(is_ascii_chars(c));
    is_ascii_chars_encode_utf8(c);
    let text = encode_utf8(c);
    assert forall|i: int| 0 <= i < text.len() implies hex_value(#[trigger] text[i])
        == if i % 2 == 0 {
        d[i / 2] as int / 16
    } else {
        d[i / 2] as int % 16
    } by {
        assert(text[i] == c[i] as u8);
        if i % 2 == 0 {
            lemma_hex_digit(d[i / 2] as int / 16);
        } else {
            lemma_hex_digit(d[i / 2] as int % 16);
        }
    }
    assert(is_hex_text(text));
    assert forall|k: int| 0 <= k < DIGEST_LEN implies #[trigger] hex_decode_spec(text)[k] == d[k] by {
        assert((2 * k) % 2 == 0);
        assert((2 * k + 1) % 2 == 1);
        assert((2 * k) / 2 == k);
        assert((2 * k + 1) / 2 == k);
        assert(hex_value(text[2 * k]) == d[k] as int / 16);
        assert(hex_value(text[2 * k + 1]) == d[k] as int % 16);
    }
    assert(hex_decode_spec(text) =~= d);
}

/// A commitment made by `commitment_of` stands for the SHA-256 digest of the
/// secret's bytes: folded into a beacon, it contributes that digest.
pub proof fn lemma_commitment_digest(secret: Seq<char>)
    requires
        sha256(encode_utf8(secret)).len() == DIGEST_LEN,
    ensures
        commitment_bytes(commitment_spec(secret)) == Some(sha256(encode_utf8(secret))),
{
    lemma_commitment_bytes_of_hex(sha256(encode_utf8(secret)));
}

/// The bootstrap entry for an address without line feeds has none either,
/// is not empty, and names the bootstrap node, also once a final carriage
/// return is dropped.
proof fn lemma_bootstrap_entry(addr: Seq<char>)
    requires
        no_lf(addr),
    ensures
        no_lf(bootstrap_entry(addr)),
        bootstrap_entry(addr).len() > 0,
        starts_with(bootstrap_entry(addr), "BOOTSTRAP_NODE="@),
        starts_with(strip_cr(bootstrap_entry(addr)), "BOOTSTRAP_NODE="@),
{
    reveal_strlit("BOOTSTRAP_NODE=");
    let key = "BOOTSTRAP_NODE="@;
    let e = bootstrap_entry(addr);
    assert forall|i: int| 0 <= i < e.len() implies #[trigger] e[i] != '\n' by {
        if i < key.len() {
            assert(e[i] == key[i]);
        } else {
            assert(e[i] == addr[i - key.len()]);
        }
    }
    assert(e.subrange(0, key.len() as int) =~= key);
    let t = strip_cr(e);
    if addr.len() == 0 {
        assert(e =~= key);
        assert(e.last() == '=');
    } else {
        assert(t.subrange(0, key.len() as int) =~= key);
    }
}

/// Setting the bootstrap node to `a` and then to `b` leaves the settings as
/// setting it to `b` alone does; with `a == b`, setting it twice is setting
/// it once. This holds for settings without carriage returns and a first
/// address without line feeds, except where a line names the bootstrap node
/// and the settings end in an empty line: the first rewrite drops that line.
pub proof fn lemma_bootstrap_entry_last_wins(c: Seq<char>, a: Seq<char>, b: Seq<char>)
    requires
        no_cr(c),
        no_lf(a),
        names_bootstrap(lines(c)) ==> lines(c).last().len() > 0,
    ensures
        join_with(env_lines(join_with(env_lines(c, a), '\n'), b), '\n') == join_with(
            env_lines(c, b),
            '\n',
        ),
{
    let key = "BOOTSTRAP_NODE="@;
    let ls = lines(c);
    lemma_lines_one_line(c);
    lemma_bootstrap_entry(a);
    let once = env_lines(c, a);
    assert forall|k: int| 0 <= k < ls.len() implies #[trigger] strip_cr(ls[k]) == ls[k] && no_lf(
        ls[k],
    ) by {
        assert(one_line(ls[k]));
        if ls[k].len() > 0 {
            assert(ls[k][ls[k].len() - 1] != '\r');
        }
    }
    assert forall|k: int| 0 <= k < once.len() implies no_lf(#[trigger] once[k]) by {
        if k < ls.len() {
            assert(once[k] == rewrite_line(ls[k], a));
        }
    }
    let reread = lines(join_with(once, '\n'));
    if names_bootstrap(ls) {
        assert(once.len() == ls.len());
        assert(once.last() == rewrite_line(ls.last(), a));
        lemma_lines_of_join(once);
        assert(reread.len() == ls.len());
        assert forall|k: int| 0 <= k < ls.len() implies #[trigger] rewrite_line(reread[k], b)
            == rewrite_line(ls[k], b) by {
            assert(once[k] == rewrite_line(ls[k], a));
            if starts_with(ls[k], key) {
                assert(once[k] == bootstrap_entry(a));
                assert(starts_with(reread[k], key));
            } else {
                assert(once[k] == ls[k]);
                assert(reread[k] == ls[k]);
            }
        }
        let i = choose|i: int| 0 <= i < ls.len() && starts_with(#[trigger] ls[i], key);
        assert(once[i] == bootstrap_entry(a));
        assert(starts_with(reread[i], key));
        assert(names_bootstrap(reread));
        assert(env_lines(join_with(once, '\n'), b) =~= env_lines(c, b));
    } else {
        assert forall|k: int| 0 <= k < ls.len() implies #[trigger] rewrite_line(ls[k], a)
            == ls[k] by {
            if starts_with(ls[k], key) {
                assert(names_bootstrap(ls));
            }
        }
        assert(once =~= ls.push(bootstrap_entry(a)));
        lemma_lines_of_join(once);
        assert(reread.len() == ls.len() + 1);
        assert forall|k: int| 0 <= k < ls.len() implies #[trigger] reread[k] == ls[k] by {
            assert(once[k] == ls[k]);
        }
        assert(reread[ls.len() as int] == bootstrap_entry(a));
        assert(starts_with(reread[ls.len() as int], key));
        assert(names_bootstrap(reread));
        assert forall|k: int| 0 <= k < ls.len() implies #[trigger] rewrite_line(ls[k], b)
            == ls[k] by {
            if starts_with(ls[k], key) {
                assert(names_bootstrap(ls));
            }
        }
        assert(env_lines(join_with(once, '\n'), b) =~= env_lines(c, b));
    }
}

} // verus!
