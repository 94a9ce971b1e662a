use vstd::prelude::*;

use std::collections::hash_map::DefaultHasher;
use std::collections::HashMap;
use std::hash::Hasher;

verus! {

broadcast use
    vstd::std_specs::hash::group_hash_axioms,
    vstd::seq_lib::group_filter_ensures,
    Seq::lemma_filter_push,
    Seq::lemma_filter_contains_rev,
;

use vstd::std_specs::hash::DefaultHasherAdditionalSpecFns;

/// The stable identifier of a peer: a fixed-size digest of its public key.
/// The overlay keys its bookkeeping by this 64-bit digest, a model of the
/// full multihash identifier; the identity module keeps the full base58
/// form for display beside it.
#[derive(Clone, Copy, Debug, PartialEq, Eq, Hash, Structural)]
pub struct PeerId {
    pub digest: u64,
}

/// The digest a byte string hashes to. Hashing is deterministic: the digest
/// depends on the bytes alone, which is what makes message identifiers
/// content-addressed.
pub open spec fn bytes_digest(b: Seq<u8>) -> u64 {
    DefaultHasher::spec_finish(seq![b])
}

/// Digest a byte string. Used both for message identifiers (content
/// addressing) and for deriving the local peer digest from the encoded
/// public key.
pub fn hash_bytes(b: &Vec<u8>) -> (r: u64)
    ensures
        r == bytes_digest(b@),
{
    let mut h = DefaultHasher::new();
    h.write(b.as_slice());
    h.finish()
}

/// The content-addressed identifier of a message payload.
pub open spec fn payload_id(p: Seq<u8>) -> u64 {
    bytes_digest(p)
}

/// Compute the identifier of a message from its payload bytes.
pub fn message_id(payload: &Vec<u8>) -> (r: u64)
    ensures
        r == payload_id(payload@),
{
    hash_bytes(payload)
}

/// Content addressing: a payload's identifier depends on its bytes alone,
/// so computing it twice — or for two messages with equal payloads — yields
/// the same identifier.
pub proof fn lemma_message_id_deterministic(p1: Seq<u8>, p2: Seq<u8>)
    requires
        p1 == p2,
    ensures
        payload_id(p1) == payload_id(p2),
{
}

/// Byte-string equality, stated over the views.
pub fn bytes_eq(a: &Vec<u8>, b: &Vec<u8>) -> (r: bool)
    ensures
        r == (a@ == b@),
{
    if a.len() != b.len() {
        return false;
    }
    let mut i: usize = 0;
    while i < a.len()
        invariant
            0 <= i <= a.len(),
            a.len() == b.len(),
            forall|k: int| 0 <= k < i ==> a@[k] == b@[k],
        decreases a.len() - i,
    {
        if a[i] != b[i] {
            return false;
        }
        i += 1;
    }
    proof {
        assert(a@ =~= b@);
    }
    true
}

/// Copy a byte string.
pub fn copy_bytes(v: &Vec<u8>) -> (out: Vec<u8>)
    ensures
        out@ == v@,
{
    let mut out: Vec<u8> = Vec::new();
    let mut i: usize = 0;
    while i < v.len()
        invariant
            0 <= i <= v.len(),
            out@ == v@.take(i as int),
        decreases v.len() - i,
    {
        out.push(v[i]);
        proof {
            assert(out@ =~= v@.take(i + 1 as int));
        }
        i += 1;
    }
    proof {
        assert(v@.take(v@.len() as int) =~= v@);
    }
    out
}

/// Whether a peer identifier occurs in a list.
pub fn contains_peer(v: &Vec<PeerId>, p: PeerId) -> (r: bool)
    ensures
        r == v@.contains(p),
{
    let mut i: usize = 0;
    while i < v.len()
        invariant
            0 <= i <= v.len(),
            forall|k: int| 0 <= k < i ==> v@[k] != p,
        decreases v.len() - i,
    {
        if v[i].digest == p.digest {
            return true;
        }
        i += 1;
    }
    false
}

/// The views of a list of byte strings.
pub open spec fn names_of(list: Seq<Vec<u8>>) -> Seq<Seq<u8>> {
    list.map_values(|v: Vec<u8>| v@)
}

/// Whether a byte string occurs in a list, compared by contents.
pub fn contains_name(list: &Vec<Vec<u8>>, name: &Vec<u8>) -> (r: bool)
    ensures
        r == names_of(list@).contains(name@),
{
    let mut i: usize = 0;
    while i < list.len()
        invariant
            0 <= i <= list.len(),
            forall|k: int| 0 <= k < i ==> list@[k]@ != name@,
        decreases list.len() - i,
    {
        if bytes_eq(&list[i], name) {
            proof {
                assert(names_of(list@)[i as int] == name@);
            }
            return true;
        }
        i += 1;
    }
    proof {
        assert forall|k: int| 0 <= k < names_of(list@).len() implies names_of(list@)[k]
            != name@ by {
            assert(list@[k]@ != name@);
        }
    }
    false
}

/// The peers of `mesh` other than `p`.
pub fn filter_out_peer(mesh: &Vec<PeerId>, p: PeerId) -> (out: Vec<PeerId>)
    ensures
        out@ == mesh@.filter(|q: PeerId| q != p),
{
    let mut out: Vec<PeerId> = Vec::new();
    let mut i: usize = 0;
    while i < mesh.len()
        invariant
            0 <= i <= mesh.len(),
            out@ == mesh@.take(i as int).filter(|q: PeerId| q != p),
        decreases mesh.len() - i,
    {
        proof {
            assert(mesh@.take(i + 1 as int) =~= mesh@.take(i as int).push(mesh@[i as int]));
        }
        if mesh[i].digest != p.digest {
            out.push(mesh[i]);
        }
        i += 1;
    }
    proof {
        assert(mesh@.take(mesh@.len() as int) =~= mesh@);
    }
    out
}

/// The peers of `a` that are not in `b`.
pub fn peers_not_in(a: &Vec<PeerId>, b: &Vec<PeerId>) -> (out: Vec<PeerId>)
    ensures
        out@ == a@.filter(|q: PeerId| !b@.contains(q)),
{
    let mut out: Vec<PeerId> = Vec::new();
    let mut i: usize = 0;
    while i < a.len()
        invariant
            0 <= i <= a.len(),
            out@ == a@.take(i as int).filter(|q: PeerId| !b@.contains(q)),
        decreases a.len() - i,
    {
        proof {
            assert(a@.take(i + 1 as int) =~= a@.take(i as int).push(a@[i as int]));
        }
        if !contains_peer(b, a[i]) {
            out.push(a[i]);
        }
        i += 1;
    }
    proof {
        assert(a@.take(a@.len() as int) =~= a@);
    }
    out
}

/// Filtering out a peer that is not in the list leaves the list unchanged.
pub proof fn lemma_filter_absent(s: Seq<PeerId>, p: PeerId)
    requires
        !s.contains(p),
    ensures
        s.filter(|q: PeerId| q != p) == s,
    decreases s.len(),
{
    let pred = |q: PeerId| q != p;
    if s.len() == 0 {
        assert(s.filter(pred).len() <= 0);
        assert(s.filter(pred) =~= s);
    } else {
        let rest = s.drop_last();
        assert forall|k: int| 0 <= k < rest.len() implies rest[k] != p by {
            assert(s[k] == rest[k]);
        }
        assert(!rest.contains(p));
        lemma_filter_absent(rest, p);
        assert(s.last() != p && pred(s.last()));
        assert(rest.push(s.last()) =~= s);
        assert(s.filter(pred) == rest.push(s.last()).filter(pred));
        assert(rest.push(s.last()).filter(pred) == rest.filter(pred).push(s.last()));
        assert(rest.filter(pred).push(s.last()) =~= s);
    }
}

/// Filtering keeps distinctness: a list without repeats stays without
/// repeats.
pub proof fn lemma_filter_distinct<A>(s: Seq<A>, pred: spec_fn(A) -> bool)
    requires
        forall|a: int, b: int| 0 <= a < b < s.len() ==> s[a] != s[b],
    ensures
        forall|a: int, b: int|
            0 <= a < b < s.filter(pred).len() ==> s.filter(pred)[a] != s.filter(pred)[b],
        forall|x: A| #[trigger] s.filter(pred).contains(x) ==> s.contains(x),
    decreases s.len(),
{
    if s.len() == 0 {
        assert(s.filter(pred).len() <= 0);
    } else {
        let rest = s.drop_last();
        let last = s.last();
        assert forall|a: int, b: int| 0 <= a < b < rest.len() implies rest[a] != rest[b] by {
            assert(s[a] != s[b]);
        }
        lemma_filter_distinct(rest, pred);
        assert(rest.push(last) =~= s);
        assert(s.filter(pred) == rest.push(last).filter(pred));
        if pred(last) {
            let out = rest.filter(pred).push(last);
            assert(s.filter(pred) == out);
            assert forall|a: int, b: int| 0 <= a < b < out.len() implies out[a] != out[b] by {
                if b == out.len() - 1 {
                    if out[a] == last {
                        assert(rest.filter(pred).contains(out[a]));
                        assert(rest.contains(last));
                        let k = choose|k: int| 0 <= k < rest.len() && rest[k] == last;
                        assert(s[k] != s[s.len() - 1]);
                    }
                } else {
                    assert(rest.filter(pred)[a] != rest.filter(pred)[b]);
                }
            }
            assert forall|x: A| #[trigger] s.filter(pred).contains(x) implies s.contains(x) by {
                let k = choose|k: int| 0 <= k < out.len() && out[k] == x;
                if k < out.len() - 1 {
                    assert(rest.filter(pred).contains(x));
                    let j = choose|j: int| 0 <= j < rest.len() && rest[j] == x;
                    assert(s[j] == x);
                } else {
                    assert(s[s.len() - 1] == x);
                }
            }
        } else {
            assert(s.filter(pred) == rest.filter(pred));
            assert forall|x: A| #[trigger] s.filter(pred).contains(x) implies s.contains(x) by {
                assert(rest.contains(x));
                let j = choose|j: int| 0 <= j < rest.len() && rest[j] == x;
                assert(s[j] == x);
            }
        }
    }
}

/// The eligible mesh members for a topic among `peers`: the identifiers of
/// the peers that announced interest in it. With distinct peer identifiers
/// the result is itself free of repeats.
pub fn eligible_peers(peers: &Vec<PeerInfo>, name: &Vec<u8>) -> (out: Vec<PeerId>)
    requires
        forall|a: int, b: int| 0 <= a < b < peers@.len() ==> peers@[a].id != peers@[b].id,
    ensures
        out@ == eligible_in(peers@, name@),
        forall|x: PeerId| #[trigger] out@.contains(x) ==> exists|k: int|
            0 <= k < peers@.len() && peers@[k].id == x,
        forall|a: int, b: int| 0 <= a < b < out@.len() ==> out@[a] != out@[b],
{
    let mut out: Vec<PeerId> = Vec::new();
    let mut i: usize = 0;
    while i < peers.len()
        invariant
            0 <= i <= peers@.len(),
            forall|a: int, b: int| 0 <= a < b < peers@.len() ==> peers@[a].id != peers@[b].id,
            out@ == eligible_in(peers@.take(i as int), name@),
            forall|x: PeerId| #[trigger] out@.contains(x) ==> exists|k: int|
                0 <= k < i && peers@[k].id == x,
            forall|a: int, b: int| 0 <= a < b < out@.len() ==> out@[a] != out@[b],
        decreases peers@.len() - i,
    {
        let ghost prefix = peers@.take(i as int);
        let ghost pred = |pi: PeerInfo| names_of(pi.topics@).contains(name@);
        proof {
            assert(peers@.take(i + 1 as int) =~= prefix.push(peers@[i as int]));
        }
        if contains_name(&peers[i].topics, name) {
            let ghost before = out@;
            out.push(peers[i].id);
            proof {
                assert(prefix.push(peers@[i as int]).filter(pred) == prefix.filter(pred).push(
                    peers@[i as int],
                ));
                assert(out@ =~= eligible_in(peers@.take(i + 1 as int), name@));
                assert forall|a: int, b: int| 0 <= a < b < out@.len() implies out@[a]
                    != out@[b] by {
                    if b == out@.len() - 1 && out@[a] == out@[b] {
                        assert(before.contains(out@[a]));
                        let k = choose|k: int| 0 <= k < i && peers@[k].id == out@[a];
                        assert(peers@[k].id != peers@[i as int].id);
                    }
                }
                assert forall|x: PeerId| #[trigger] out@.contains(x) implies exists|k: int|
                    0 <= k < i + 1 && peers@[k].id == x by {
                    let j = choose|j: int| 0 <= j < out@.len() && out@[j] == x;
                    if j < out@.len() - 1 {
                        assert(before.contains(x));
                        let k = choose|k: int| 0 <= k < i && peers@[k].id == x;
                        assert(0 <= k < i + 1 && peers@[k].id == x);
                    } else {
                        assert(peers@[i as int].id == x);
                    }
                }
            }
        } else {
            proof {
                assert(prefix.push(peers@[i as int]).filter(pred) == prefix.filter(pred));
                assert(out@ =~= eligible_in(peers@.take(i + 1 as int), name@));
            }
        }
        i += 1;
    }
    proof {
        assert(peers@.take(peers@.len() as int) =~= peers@);
    }
    out
}

/// A time-bounded record of message identifiers already processed.
///
/// Each identifier stays live for `horizon` ticks after it is recorded; a
/// lookup past that horizon treats the identifier as unseen again, and
/// `prune` evicts expired entries so the record's memory is bounded by the
/// horizon too. The log keeps each recorded identifier with its expiry in
/// recording order; the cursor marks how far pruning has advanced.
pub struct SeenSet {
    horizon: u64,
    entries: HashMap<u64, u64>,
    log: Vec<(u64, u64)>,
    cursor: usize,
}

impl SeenSet {
    pub closed spec fn horizon_spec(self) -> u64 {
        self.horizon
    }

    /// The expiry tick recorded for each identifier.
    pub closed spec fn entries_spec(self) -> Map<u64, u64> {
        self.entries@
    }

    /// Whether `id` was recorded and is still within its horizon at `now`.
    pub open spec fn seen(self, id: u64, now: u64) -> bool {
        self.entries_spec().contains_key(id) && now < self.entries_spec()[id]
    }

    pub fn new(horizon: u64) -> (r: SeenSet)
        ensures
            r.horizon_spec() == horizon,
            r.entries_spec() == Map::<u64, u64>::empty(),
            forall|id: u64, now: u64| !r.seen(id, now),
    {
        SeenSet { horizon, entries: HashMap::new(), log: Vec::new(), cursor: 0 }
    }

    pub fn check(&self, id: u64, now: u64) -> (r: bool)
        ensures
            r == self.seen(id, now),
    {
        match self.entries.get(&id) {
            Some(expiry) => now < *expiry,
            None => false,
        }
    }

    /// Record `id` as seen at `now`; it stays seen until `now + horizon`.
    pub fn record(&mut self, id: u64, now: u64)
        requires
            now <= u64::MAX - old(self).horizon_spec(),
        ensures
            final(self).horizon_spec() == old(self).horizon_spec(),
            final(self).entries_spec() == old(self).entries_spec().insert(
                id,
                (now + old(self).horizon_spec()) as u64,
            ),
            old(self).horizon_spec() > 0 ==> final(self).seen(id, now),
    {
        let expiry = now + self.horizon;
        self.entries.insert(id, expiry);
        self.log.push((id, expiry));
    }

    /// Evict expired entries: walk the recording log from the cursor and
    /// drop every identifier whose recorded expiry has passed and still
    /// stands in the map. What a lookup at `now` or later answers is
    /// untouched, since only identifiers already unseen at `now` leave.
    #[verifier::loop_isolation(false)]
    pub fn prune(&mut self, now: u64)
        ensures
            final(self).horizon_spec() == old(self).horizon_spec(),
            forall|id: u64, t: u64|
                t >= now ==> final(self).seen(id, t) == old(self).seen(id, t),
    {
        let ghost pre = *self;
        while self.cursor < self.log.len()
            invariant
                self.log == pre.log,
                self.horizon == pre.horizon,
                forall|id: u64, t: u64| t >= now ==> self.seen(id, t) == pre.seen(id, t),
            decreases self.log@.len() - self.cursor,
        {
            let (id, expiry) = self.log[self.cursor];
            if expiry > now {
                break;
            }
            let ghost snap = *self;
            let mut stale = false;
            match self.entries.get(&id) {
                Some(cur) => {
                    if *cur == expiry {
                        stale = true;
                    }
                },
                None => {},
            }
            if stale {
                self.entries.remove(&id);
                proof {
                    assert(self.entries@ == snap.entries@.remove(id));
                    assert forall|id2: u64, t: u64| t >= now implies self.seen(id2, t) == pre.seen(
                        id2,
                        t,
                    ) by {
                        if id2 == id {
                            assert(snap.entries@[id] == expiry);
                            assert(!snap.seen(id, t));
                        } else {
                            assert(self.seen(id2, t) == snap.seen(id2, t));
                        }
                    }
                }
            }
            self.cursor += 1;
        }
    }
}

/// One topic the node is subscribed to, with the peers it actively pushes
/// messages to (its mesh).
pub struct TopicState {
    pub name: Vec<u8>,
    pub mesh: Vec<PeerId>,
}

/// One connected peer, with the topics it has announced interest in.
pub struct PeerInfo {
    pub id: PeerId,
    pub topics: Vec<Vec<u8>>,
}

/// The eligible mesh members for topic `n` among the peers `ps`: the
/// identifiers of the connected peers that announced interest in `n`.
pub open spec fn eligible_in(ps: Seq<PeerInfo>, n: Seq<u8>) -> Seq<PeerId> {
    ps.filter(|pi: PeerInfo| names_of(pi.topics@).contains(n)).map_values(|pi: PeerInfo| pi.id)
}

/// The gossip overlay state of one node: its identity, subscriptions with
/// their meshes, connected peers with their announced interests, and the
/// record of already-processed message identifiers.
pub struct Overlay {
    pub local: PeerId,
    pub topics: Vec<TopicState>,
    pub peers: Vec<PeerInfo>,
    pub seen: SeenSet,
}

impl Overlay {
    /// The names of the topics the node is subscribed to, in subscription
    /// order.
    pub open spec fn topic_names(self) -> Seq<Seq<u8>> {
        self.topics@.map_values(|t: TopicState| t.name@)
    }

    pub open spec fn subscribed(self, n: Seq<u8>) -> bool {
        self.topic_names().contains(n)
    }

    pub open spec fn topic_idx(self, n: Seq<u8>) -> int {
        choose|i: int| 0 <= i < self.topics@.len() && self.topics@[i].name@ == n
    }

    /// The mesh for topic `n`: the peers the node pushes messages on `n` to.
    pub open spec fn mesh_of(self, n: Seq<u8>) -> Seq<PeerId> {
        if self.subscribed(n) {
            self.topics@[self.topic_idx(n)].mesh@
        } else {
            Seq::<PeerId>::empty()
        }
    }

    pub open spec fn connected(self, p: PeerId) -> bool {
        exists|i: int| 0 <= i < self.peers@.len() && self.peers@[i].id == p
    }

    pub open spec fn peer_idx(self, p: PeerId) -> int {
        choose|i: int| 0 <= i < self.peers@.len() && self.peers@[i].id == p
    }

    /// The topics a connected peer has announced interest in.
    pub open spec fn interests_of(self, p: PeerId) -> Seq<Seq<u8>> {
        if self.connected(p) {
            names_of(self.peers@[self.peer_idx(p)].topics@)
        } else {
            Seq::<Seq<u8>>::empty()
        }
    }

    pub open spec fn interested(self, p: PeerId, n: Seq<u8>) -> bool {
        self.interests_of(p).contains(n)
    }

    /// The peers eligible for the mesh of topic `n` right now.
    pub open spec fn eligible(self, n: Seq<u8>) -> Seq<PeerId> {
        eligible_in(self.peers@, n)
    }

    /// Structural invariant: topic names are distinct, peer identifiers are
    /// distinct and never the node's own, every mesh holds distinct,
    /// currently-connected peers, and each peer's interest list holds
    /// distinct topic names.
    pub open spec fn wf(self) -> bool {
        &&& forall|i: int, j: int|
            0 <= i < j < self.topics@.len() ==> self.topics@[i].name@ != self.topics@[j].name@
        &&& forall|i: int, j: int|
            0 <= i < j < self.peers@.len() ==> self.peers@[i].id != self.peers@[j].id
        &&& forall|i: int| 0 <= i < self.peers@.len() ==> self.peers@[i].id != self.local
        &&& forall|t: int, a: int, b: int|
            0 <= t < self.topics@.len() && 0 <= a < b < self.topics@[t].mesh@.len()
                ==> self.topics@[t].mesh@[a] != self.topics@[t].mesh@[b]
        &&& forall|t: int, a: int|
            0 <= t < self.topics@.len() && 0 <= a < self.topics@[t].mesh@.len()
                ==> self.connected(#[trigger] self.topics@[t].mesh@[a])
        &&& forall|i: int, a: int, b: int|
            0 <= i < self.peers@.len() && 0 <= a < b < self.peers@[i].topics@.len()
                ==> self.peers@[i].topics@[a]@ != self.peers@[i].topics@[b]@
    }

    /// With distinct topic names, any index whose name matches `n` is the
    /// index `mesh_of` speaks of.
    pub proof fn lemma_topic_idx_is(self, n: Seq<u8>, i: int)
        requires
            forall|a: int, b: int|
                0 <= a < b < self.topics@.len() ==> self.topics@[a].name@ != self.topics@[b].name@,
            0 <= i < self.topics@.len(),
            self.topics@[i].name@ == n,
        ensures
            self.subscribed(n),
            self.topic_idx(n) == i,
            self.mesh_of(n) == self.topics@[i].mesh@,
    {
        assert(self.topic_names()[i] == n);
        assert(self.subscribed(n));
        let j = self.topic_idx(n);
        assert(0 <= j < self.topics@.len() && self.topics@[j].name@ == n);
        if i < j {
            assert(self.topics@[i].name@ != self.topics@[j].name@);
        }
        if j < i {
            assert(self.topics@[j].name@ != self.topics@[i].name@);
        }
    }

    /// With distinct peer identifiers, any index whose identifier matches
    /// `p` is the index `interests_of` speaks of.
    pub proof fn lemma_peer_idx_is(self, p: PeerId, i: int)
        requires
            forall|a: int, b: int|
                0 <= a < b < self.peers@.len() ==> self.peers@[a].id != self.peers@[b].id,
            0 <= i < self.peers@.len(),
            self.peers@[i].id == p,
        ensures
            self.connected(p),
            self.peer_idx(p) == i,
            self.interests_of(p) == names_of(self.peers@[i].topics@),
    {
        assert(self.connected(p));
        let j = self.peer_idx(p);
        assert(0 <= j < self.peers@.len() && self.peers@[j].id == p);
        if i < j {
            assert(self.peers@[i].id != self.peers@[j].id);
        }
        if j < i {
            assert(self.peers@[j].id != self.peers@[i].id);
        }
    }

    /// A fresh node: no subscriptions, no peers, nothing seen.
    pub fn new(local: PeerId, horizon: u64) -> (r: Overlay)
        ensures
            r.wf(),
            r.local == local,
            r.topics@.len() == 0,
            r.peers@.len() == 0,
            r.seen.horizon_spec() == horizon,
            forall|id: u64, now: u64| !r.seen.seen(id, now),
    {
        Overlay { local, topics: Vec::new(), peers: Vec::new(), seen: SeenSet::new(horizon) }
    }

    /// The position of topic `name` among the subscriptions, if subscribed.
    fn find_topic(&self, name: &Vec<u8>) -> (r: Option<usize>)
        ensures
            match r {
                Some(i) => i < self.topics@.len() && self.topics@[i as int].name@ == name@,
                None => !self.subscribed(name@),
            },
    {
        let mut i: usize = 0;
        while i < self.topics.len()
            invariant
                0 <= i <= self.topics@.len(),
                forall|k: int| 0 <= k < i ==> self.topics@[k].name@ != name@,
            decreases self.topics@.len() - i,
        {
            if bytes_eq(&self.topics[i].name, name) {
                return Some(i);
            }
            i += 1;
        }
        proof {
            assert forall|k: int| 0 <= k < self.topic_names().len() implies self.topic_names()[k]
                != name@ by {
                assert(self.topics@[k].name@ != name@);
            }
        }
        None
    }

    /// The position of peer `p` among the connected peers, if connected.
    fn find_peer(&self, p: PeerId) -> (r: Option<usize>)
        ensures
            match r {
                Some(i) => i < self.peers@.len() && self.peers@[i as int].id == p,
                None => !self.connected(p),
            },
    {
        let mut i: usize = 0;
        while i < self.peers.len()
            invariant
                0 <= i <= self.peers@.len(),
                forall|k: int| 0 <= k < i ==> self.peers@[k].id != p,
            decreases self.peers@.len() - i,
        {
            if self.peers[i].id.digest == p.digest {
                return Some(i);
            }
            i += 1;
        }
        None
    }

    /// Register interest in a topic. A new subscription starts with an
    /// empty mesh (peers join it on later heartbeats); the returned list is
    /// the connected peers the subscription must be announced to. A repeated
    /// subscription changes nothing and is announced to nobody.
    pub fn subscribe(&mut self, name: Vec<u8>) -> (announce: Vec<PeerId>)
        requires
            old(self).wf(),
        ensures
            final(self).wf(),
            final(self).local == old(self).local,
            final(self).peers == old(self).peers,
            final(self).seen == old(self).seen,
            final(self).subscribed(name@),
            old(self).subscribed(name@) ==> *final(self) == *old(self) && announce@.len() == 0,
            !old(self).subscribed(name@) ==> {
                &&& final(self).topic_names() == old(self).topic_names().push(name@)
                &&& final(self).mesh_of(name@) == Seq::<PeerId>::empty()
                &&& announce@ == old(self).peers@.map_values(|pi: PeerInfo| pi.id)
            },
            forall|m: Seq<u8>|
                m != name@ ==> final(self).subscribed(m) == old(self).subscribed(m)
                    && final(self).mesh_of(m) == old(self).mesh_of(m),
    {
        match self.find_topic(&name) {
            Some(i) => {
                proof {
                    self.lemma_topic_idx_is(name@, i as int);
                }
                Vec::new()
            },
            None => {
                let ghost pre = *self;
                self.topics.push(TopicState { name, mesh: Vec::new() });
                let mut announce: Vec<PeerId> = Vec::new();
                let mut k: usize = 0;
                while k < self.peers.len()
                    invariant
                        0 <= k <= self.peers@.len(),
                        announce@ == self.peers@.take(k as int).map_values(|pi: PeerInfo| pi.id),
                    decreases self.peers@.len() - k,
                {
                    announce.push(self.peers[k].id);
                    proof {
                        assert(self.peers@.take(k + 1 as int) =~= self.peers@.take(
                            k as int,
                        ).push(self.peers@[k as int]));
                        assert(announce@ =~= self.peers@.take(k + 1 as int).map_values(
                            |pi: PeerInfo| pi.id,
                        ));
                    }
                    k += 1;
                }
                proof {
                    assert(self.peers@.take(self.peers@.len() as int) =~= self.peers@);
                    let nlen = pre.topics@.len() as int;
                    assert(self.topics@ == pre.topics@.push(self.topics@[nlen]));
                    assert(self.topics@[nlen].name@ == name@);
                    assert(self.topics@[nlen].mesh@ =~= Seq::<PeerId>::empty());
                    assert(final(self).topic_names() =~= pre.topic_names().push(name@));
                    // distinct topic names still hold: the new name was not subscribed
                    assert forall|a: int, b: int|
                        0 <= a < b < self.topics@.len() implies self.topics@[a].name@
                        != self.topics@[b].name@ by {
                        if b == nlen {
                            assert(pre.topic_names()[a] == self.topics@[a].name@);
                            if self.topics@[a].name@ == name@ {
                                assert(pre.subscribed(name@));
                            }
                        }
                    }
                    assert(final(self).wf());
                    self.lemma_topic_idx_is(name@, nlen);
                    // other topics keep their subscription and mesh
                    assert forall|m: Seq<u8>| m != name@ implies final(self).subscribed(m) == pre
                        .subscribed(m) && final(self).mesh_of(m) == pre.mesh_of(m) by {
                        if pre.subscribed(m) {
                            let i = choose|i: int|
                                0 <= i < pre.topic_names().len() && pre.topic_names()[i] == m;
                            assert(pre.topics@[i].name@ == m);
                            pre.lemma_topic_idx_is(m, i);
                            self.lemma_topic_idx_is(m, i);
                        } else {
                            if self.subscribed(m) {
                                let names = self.topic_names();
                                let i = choose|i: int| 0 <= i < names.len() && names[i] == m;
                                assert(self.topics@[i].name@ == m);
                                assert(i != nlen);
                                assert(pre.topic_names()[i] == m);
                            }
                        }
                    }
                }
                announce
            },
        }
    }

    /// Drop a subscription: the topic's mesh is cleared with it. Other
    /// topics, the peers and the seen record are untouched.
    pub fn unsubscribe(&mut self, name: &Vec<u8>) -> (found: bool)
        requires
            old(self).wf(),
        ensures
            final(self).wf(),
            final(self).local == old(self).local,
            final(self).peers == old(self).peers,
            final(self).seen == old(self).seen,
            found == old(self).subscribed(name@),
            !final(self).subscribed(name@),
            forall|m: Seq<u8>|
                m != name@ ==> final(self).subscribed(m) == old(self).subscribed(m)
                    && final(self).mesh_of(m) == old(self).mesh_of(m),
    {
        match self.find_topic(name) {
            Some(i) => {
                let ghost pre = *self;
                proof {
                    pre.lemma_topic_idx_is(name@, i as int);
                }
                self.topics.remove(i);
                proof {
                    let ii = i as int;
                    assert forall|a: int, b: int|
                        0 <= a < b < self.topics@.len() implies self.topics@[a].name@
                        != self.topics@[b].name@ by {
                        let oa = if a < ii { a } else { a + 1 };
                        let ob = if b < ii { b } else { b + 1 };
                        assert(self.topics@[a] == pre.topics@[oa]);
                        assert(self.topics@[b] == pre.topics@[ob]);
                        assert(pre.topics@[oa].name@ != pre.topics@[ob].name@);
                    }
                    assert forall|t: int, a: int|
                        0 <= t < self.topics@.len() && 0 <= a
                            < self.topics@[t].mesh@.len() implies self.connected(
                        #[trigger] self.topics@[t].mesh@[a],
                    ) by {
                        let ot = if t < ii { t } else { t + 1 };
                        assert(self.topics@[t] == pre.topics@[ot]);
                        assert(pre.connected(pre.topics@[ot].mesh@[a]));
                        let k = pre.peer_idx(pre.topics@[ot].mesh@[a]);
                        assert(self.peers@[k].id == self.topics@[t].mesh@[a]);
                    }
                    assert(self.wf());
                    if self.subscribed(name@) {
                        let names = self.topic_names();
                        let k = choose|k: int| 0 <= k < names.len() && names[k] == name@;
                        let ok = if k < ii { k } else { k + 1 };
                        assert(self.topics@[k] == pre.topics@[ok]);
                        assert(pre.topics@[ok].name@ == name@);
                        assert(ok != ii);
                        assert(pre.topics@[ok].name@ != pre.topics@[ii].name@);
                    }
                    assert forall|m: Seq<u8>| m != name@ implies self.subscribed(m) == pre
                        .subscribed(m) && self.mesh_of(m) == pre.mesh_of(m) by {
                        if pre.subscribed(m) {
                            let names = pre.topic_names();
                            let k = choose|k: int| 0 <= k < names.len() && names[k] == m;
                            assert(pre.topics@[k].name@ == m);
                            assert(k != ii);
                            pre.lemma_topic_idx_is(m, k);
                            let nk = if k < ii { k } else { k - 1 };
                            assert(self.topics@[nk] == pre.topics@[k]);
                            assert(self.topics@[nk].name@ == m);
                            assert(self.topics@[nk].mesh@ == pre.topics@[k].mesh@);
                            self.lemma_topic_idx_is(m, nk);
                        } else {
                            if self.subscribed(m) {
                                let names = self.topic_names();
                                let k = choose|k: int| 0 <= k < names.len() && names[k] == m;
                                let ok = if k < ii { k } else { k + 1 };
                                assert(self.topics@[k] == pre.topics@[ok]);
                                assert(pre.topics@[ok].name@ == m);
                                assert(pre.topic_names()[ok] == m);
                            }
                        }
                    }
                }
                true
            },
            None => false,
        }
    }

    /// Record a newly connected peer, with no announced interests yet.
    /// Reconnecting an already-connected peer changes nothing.
    pub fn peer_connected(&mut self, p: PeerId) -> (added: bool)
        requires
            old(self).wf(),
            p != old(self).local,
        ensures
            final(self).wf(),
            final(self).local == old(self).local,
            final(self).topics == old(self).topics,
            final(self).seen == old(self).seen,
            added == !old(self).connected(p),
            final(self).connected(p),
            !added ==> *final(self) == *old(self),
            added ==> final(self).interests_of(p) == Seq::<Seq<u8>>::empty(),
            forall|q: PeerId|
                q != p ==> final(self).connected(q) == old(self).connected(q)
                    && final(self).interests_of(q) == old(self).interests_of(q),
    {
        match self.find_peer(p) {
            Some(i) => {
                proof {
                    self.lemma_peer_idx_is(p, i as int);
                }
                false
            },
            None => {
                let ghost pre = *self;
                self.peers.push(PeerInfo { id: p, topics: Vec::new() });
                proof {
                    let nlen = pre.peers@.len() as int;
                    assert(self.peers@ == pre.peers@.push(self.peers@[nlen]));
                    assert forall|a: int, b: int|
                        0 <= a < b < self.peers@.len() implies self.peers@[a].id
                        != self.peers@[b].id by {
                        if b == nlen && self.peers@[a].id == p {
                            assert(pre.connected(p));
                        }
                    }
                    assert forall|t: int, a: int|
                        0 <= t < self.topics@.len() && 0 <= a
                            < self.topics@[t].mesh@.len() implies self.connected(
                        #[trigger] self.topics@[t].mesh@[a],
                    ) by {
                        assert(pre.connected(pre.topics@[t].mesh@[a]));
                        let k = pre.peer_idx(pre.topics@[t].mesh@[a]);
                        assert(self.peers@[k].id == pre.topics@[t].mesh@[a]);
                    }
                    assert(self.peers@[nlen].topics@ =~= Seq::<Vec<u8>>::empty());
                    assert(self.wf());
                    self.lemma_peer_idx_is(p, nlen);
                    assert(names_of(self.peers@[nlen].topics@) =~= Seq::<Seq<u8>>::empty());
                    assert forall|q: PeerId| q != p implies self.connected(q) == pre.connected(q)
                        && self.interests_of(q) == pre.interests_of(q) by {
                        if pre.connected(q) {
                            let k = pre.peer_idx(q);
                            assert(self.peers@[k].id == q);
                            pre.lemma_peer_idx_is(q, k);
                            self.lemma_peer_idx_is(q, k);
                        } else {
                            if self.connected(q) {
                                let k = choose|k: int|
                                    0 <= k < self.peers@.len() && self.peers@[k].id == q;
                                assert(k != nlen);
                                assert(pre.peers@[k].id == q);
                                assert(pre.connected(q));
                            }
                        }
                    }
                }
                true
            },
        }
    }

    /// Record that connected peer `p` announced (or withdrew) interest in a
    /// topic, as carried by subscription and graft/prune control messages.
    /// Control traffic from an unknown peer is ignored.
    #[verifier::loop_isolation(false)]
    pub fn set_peer_interest(&mut self, p: PeerId, name: &Vec<u8>, interested: bool) -> (known:
        bool)
        requires
            old(self).wf(),
        ensures
            final(self).wf(),
            final(self).local == old(self).local,
            final(self).topics == old(self).topics,
            final(self).seen == old(self).seen,
            known == old(self).connected(p),
            forall|q: PeerId| final(self).connected(q) == old(self).connected(q),
            !known ==> *final(self) == *old(self),
            known ==> final(self).interested(p, name@) == interested,
            known ==> forall|m: Seq<u8>|
                m != name@ ==> final(self).interested(p, m) == old(self).interested(p, m),
            forall|q: PeerId| q != p ==> final(self).interests_of(q) == old(self).interests_of(q),
    {
        match self.find_peer(p) {
            Some(i) => {
                let ghost pre = *self;
                proof {
                    pre.lemma_peer_idx_is(p, i as int);
                }
                let mut info = self.peers.remove(i);
                let ghost base = pre.peers@[i as int].topics@;
                if interested {
                    if !contains_name(&info.topics, name) {
                        info.topics.push(copy_bytes(name));
                        proof {
                            let nlen = base.len() as int;
                            assert(info.topics@ == base.push(info.topics@[nlen]));
                            assert(names_of(info.topics@) =~= names_of(base).push(name@));
                            assert(names_of(info.topics@)[nlen] == name@);
                            assert(names_of(info.topics@).contains(name@));
                            assert forall|m: Seq<u8>| m != name@ implies names_of(
                                info.topics@,
                            ).contains(m) == names_of(base).contains(m) by {
                                if names_of(base).contains(m) {
                                    let k = choose|k: int|
                                        0 <= k < names_of(base).len() && names_of(base)[k] == m;
                                    assert(names_of(info.topics@)[k] == m);
                                } else {
                                    if names_of(info.topics@).contains(m) {
                                        let k = choose|k: int|
                                            0 <= k < names_of(info.topics@).len() && names_of(
                                                info.topics@,
                                            )[k] == m;
                                        assert(k != nlen);
                                        assert(names_of(base)[k] == m);
                                    }
                                }
                            }
                            assert forall|a: int, b: int|
                                0 <= a < b < info.topics@.len() implies info.topics@[a]@
                                != info.topics@[b]@ by {
                                if b == nlen {
                                    assert(info.topics@[a] == base[a]);
                                    assert(names_of(base)[a] == base[a]@);
                                    if base[a]@ == name@ {
                                        assert(names_of(base).contains(name@));
                                    }
                                } else {
                                    assert(base[a]@ != base[b]@);
                                }
                            }
                        }
                    } else {
                        proof {
                            assert(info.topics@ == base);
                        }
                    }
                } else {
                    let mut j: usize = 0;
                    let mut removed = false;
                    while j < info.topics.len() && !removed
                        invariant
                            0 <= j <= info.topics@.len(),
                            info.id == pre.peers@[i as int].id,
                            !removed ==> forall|k: int| 0 <= k < j ==> info.topics@[k]@ != name@,
                            !removed ==> info.topics == pre.peers@[i as int].topics,
                            removed ==> !names_of(info.topics@).contains(name@) && (forall|
                                m: Seq<u8>,
                            |
                                m != name@ ==> names_of(info.topics@).contains(m) == names_of(
                                    pre.peers@[i as int].topics@,
                                ).contains(m)) && (forall|a: int, b: int|
                                0 <= a < b < info.topics@.len() ==> info.topics@[a]@
                                    != info.topics@[b]@),
                        decreases info.topics@.len() - j,
                    {
                        if bytes_eq(&info.topics[j], name) {
                            let ghost before = info.topics@;
                            info.topics.remove(j);
                            proof {
                                let jj = j as int;
                                assert forall|a: int, b: int|
                                    0 <= a < b < info.topics@.len() implies info.topics@[a]@
                                    != info.topics@[b]@ by {
                                    let oa = if a < jj { a } else { a + 1 };
                                    let ob = if b < jj { b } else { b + 1 };
                                    assert(before[oa]@ != before[ob]@);
                                }
                                assert forall|k: int|
                                    0 <= k < info.topics@.len() implies info.topics@[k]@
                                    != name@ by {
                                    let ok = if k < jj { k } else { k + 1 };
                                    assert(before[ok]@ == info.topics@[k]@);
                                    if ok != jj && before[ok]@ == name@ {
                                        assert(before[ok]@ != before[jj]@ || before[jj]@ != before[
                                            ok]@);
                                    }
                                }
                                if names_of(info.topics@).contains(name@) {
                                    let k = choose|k: int|
                                        0 <= k < names_of(info.topics@).len() && names_of(
                                            info.topics@,
                                        )[k] == name@;
                                    assert(info.topics@[k]@ == name@);
                                }
                                assert forall|m: Seq<u8>| m != name@ implies names_of(
                                    info.topics@,
                                ).contains(m) == names_of(before).contains(m) by {
                                    if names_of(before).contains(m) {
                                        let k = choose|k: int|
                                            0 <= k < names_of(before).len() && names_of(before)[k]
                                                == m;
                                        assert(before[k]@ == m);
                                        assert(k != jj);
                                        let nk = if k < jj { k } else { k - 1 };
                                        assert(info.topics@[nk]@ == m);
                                        assert(names_of(info.topics@)[nk] == m);
                                    } else {
                                        if names_of(info.topics@).contains(m) {
                                            let k = choose|k: int|
                                                0 <= k < names_of(info.topics@).len() && names_of(
                                                    info.topics@,
                                                )[k] == m;
                                            let ok = if k < jj { k } else { k + 1 };
                                            assert(before[ok]@ == m);
                                            assert(names_of(before)[ok] == m);
                                        }
                                    }
                                }
                            }
                            removed = true;
                        } else {
                            j += 1;
                        }
                    }
                    proof {
                        if !removed {
                            assert(info.topics@ == base);
                            assert forall|k: int|
                                0 <= k < names_of(info.topics@).len() implies names_of(
                                info.topics@,
                            )[k] != name@ by {
                                assert(info.topics@[k]@ != name@);
                            }
                            assert forall|a: int, b: int|
                                0 <= a < b < info.topics@.len() implies info.topics@[a]@
                                != info.topics@[b]@ by {
                                assert(pre.peers@[i as int].topics@[a]@ != pre.peers@[i as int]
                                    .topics@[b]@);
                            }
                        }
                        assert(!names_of(info.topics@).contains(name@));
                    }
                }
                proof {
                    assert(names_of(info.topics@).contains(name@) == interested);
                    assert(forall|m: Seq<u8>|
                        m != name@ ==> names_of(info.topics@).contains(m) == names_of(
                            base,
                        ).contains(m));
                    assert(forall|a: int, b: int|
                        0 <= a < b < info.topics@.len() ==> info.topics@[a]@
                            != info.topics@[b]@);
                }
                let ghost info2 = info;
                self.peers.insert(i, info);
                proof {
                    assert(info2.id == pre.peers@[i as int].id);
                    assert(self.peers@ =~= pre.peers@.update(i as int, info2));
                    assert forall|a: int, b: int|
                        0 <= a < b < self.peers@.len() implies self.peers@[a].id
                        != self.peers@[b].id by {
                        assert(self.peers@[a].id == pre.peers@[a].id);
                        assert(self.peers@[b].id == pre.peers@[b].id);
                        assert(pre.peers@[a].id != pre.peers@[b].id);
                    }
                    assert forall|t: int, a: int|
                        0 <= t < self.topics@.len() && 0 <= a
                            < self.topics@[t].mesh@.len() implies self.connected(
                        #[trigger] self.topics@[t].mesh@[a],
                    ) by {
                        assert(pre.connected(pre.topics@[t].mesh@[a]));
                        let k = pre.peer_idx(pre.topics@[t].mesh@[a]);
                        assert(self.peers@[k].id == pre.topics@[t].mesh@[a]);
                    }
                    assert forall|k: int, a: int, b: int|
                        0 <= k < self.peers@.len() && 0 <= a < b
                            < self.peers@[k].topics@.len() implies self.peers@[k].topics@[a]@
                        != self.peers@[k].topics@[b]@ by {
                        if k == i as int {
                            assert(self.peers@[k] == info2);
                        } else {
                            assert(self.peers@[k] == pre.peers@[k]);
                            assert(pre.peers@[k].topics@[a]@ != pre.peers@[k].topics@[b]@);
                        }
                    }
                    assert(self.wf());
                    self.lemma_peer_idx_is(p, i as int);
                    assert(self.peers@[i as int] == info2);
                    assert(self.interests_of(p) == names_of(info2.topics@));
                    assert(self.interested(p, name@) == interested);
                    assert forall|m: Seq<u8>| m != name@ implies self.interested(p, m) == pre
                        .interested(p, m) by {
                        assert(names_of(info2.topics@).contains(m) == names_of(base).contains(m));
                        assert(pre.interests_of(p) == names_of(base));
                    }
                    assert forall|q: PeerId| self.connected(q) == pre.connected(q) by {
                        if pre.connected(q) {
                            let k = pre.peer_idx(q);
                            if k == i as int {
                                assert(self.peers@[k].id == q);
                            } else {
                                assert(self.peers@[k].id == q);
                            }
                        } else {
                            if self.connected(q) {
                                let k = choose|k: int|
                                    0 <= k < self.peers@.len() && self.peers@[k].id == q;
                                assert(pre.peers@[k].id == q);
                            }
                        }
                    }
                    assert forall|q: PeerId| q != p implies self.interests_of(q) == pre
                        .interests_of(q) by {
                        if pre.connected(q) {
                            let k = pre.peer_idx(q);
                            assert(k != i as int);
                            pre.lemma_peer_idx_is(q, k);
                            self.lemma_peer_idx_is(q, k);
                        }
                    }
                }
                true
            },
            None => false,
        }
    }

    /// Forget a disconnected peer: it leaves the connected set and every
    /// mesh at once.
    #[verifier::loop_isolation(false)]
    pub fn peer_disconnected(&mut self, p: PeerId)
        requires
            old(self).wf(),
        ensures
            final(self).wf(),
            final(self).local == old(self).local,
            final(self).seen == old(self).seen,
            !final(self).connected(p),
            forall|q: PeerId|
                q != p ==> final(self).connected(q) == old(self).connected(q)
                    && final(self).interests_of(q) == old(self).interests_of(q),
            final(self).topic_names() == old(self).topic_names(),
            forall|n: Seq<u8>|
                old(self).subscribed(n) ==> final(self).mesh_of(n) == old(self).mesh_of(n).filter(
                    |q: PeerId| q != p,
                ),
    {
        let ghost pre = *self;
        match self.find_peer(p) {
            Some(i) => {
                self.peers.remove(i);
                proof {
                    let ii = i as int;
                    assert forall|a: int, b: int|
                        0 <= a < b < self.peers@.len() implies self.peers@[a].id
                        != self.peers@[b].id by {
                        let oa = if a < ii { a } else { a + 1 };
                        let ob = if b < ii { b } else { b + 1 };
                        assert(self.peers@[a] == pre.peers@[oa]);
                        assert(self.peers@[b] == pre.peers@[ob]);
                        assert(pre.peers@[oa].id != pre.peers@[ob].id);
                    }
                    assert forall|k: int| 0 <= k < self.peers@.len() implies self.peers@[k].id
                        != pre.local by {
                        let ok = if k < ii { k } else { k + 1 };
                        assert(self.peers@[k] == pre.peers@[ok]);
                    }
                    assert forall|k: int, a: int, b: int|
                        0 <= k < self.peers@.len() && 0 <= a < b
                            < self.peers@[k].topics@.len() implies self.peers@[k].topics@[a]@
                        != self.peers@[k].topics@[b]@ by {
                        let ok = if k < ii { k } else { k + 1 };
                        assert(self.peers@[k] == pre.peers@[ok]);
                        assert(pre.peers@[ok].topics@[a]@ != pre.peers@[ok].topics@[b]@);
                    }
                    if self.connected(p) {
                        let k = choose|k: int|
                            0 <= k < self.peers@.len() && self.peers@[k].id == p;
                        let ok = if k < ii { k } else { k + 1 };
                        assert(self.peers@[k] == pre.peers@[ok]);
                        assert(ok != ii);
                        assert(pre.peers@[ok].id != pre.peers@[ii].id);
                    }
                    assert forall|q: PeerId| q != p implies self.connected(q) == pre.connected(q)
                        && self.interests_of(q) == pre.interests_of(q) by {
                        if pre.connected(q) {
                            let k = pre.peer_idx(q);
                            assert(pre.peers@[k].id == q);
                            assert(k != ii);
                            pre.lemma_peer_idx_is(q, k);
                            let nk = if k < ii { k } else { k - 1 };
                            assert(self.peers@[nk] == pre.peers@[k]);
                            self.lemma_peer_idx_is(q, nk);
                        } else {
                            if self.connected(q) {
                                let k = choose|k: int|
                                    0 <= k < self.peers@.len() && self.peers@[k].id == q;
                                let ok = if k < ii { k } else { k + 1 };
                                assert(self.peers@[k] == pre.peers@[ok]);
                                assert(pre.connected(q));
                            }
                        }
                    }
                }
                self.rebuild_meshes_without(p);
            },
            None => {
                proof {
                    assert forall|n: Seq<u8>| pre.subscribed(n) implies self.mesh_of(n) == pre
                        .mesh_of(n).filter(|q: PeerId| q != p) by {
                        let mesh = pre.mesh_of(n);
                        let names = pre.topic_names();
                        let t = choose|t: int| 0 <= t < names.len() && names[t] == n;
                        pre.lemma_topic_idx_is(n, t);
                        assert forall|k: int| 0 <= k < mesh.len() implies mesh[k] != p by {
                            assert(pre.connected(mesh[k]));
                        }
                        assert(!mesh.contains(p));
                        lemma_filter_absent(mesh, p);
                    }
                }
            },
        }
    }

    /// Replace every mesh by the same mesh with `p` filtered out. The
    /// connected-peer list must no longer hold `p` and must satisfy the
    /// peer clauses of `wf`.
    #[verifier::loop_isolation(false)]
    fn rebuild_meshes_without(&mut self, p: PeerId)
        requires
            forall|i: int, j: int|
                0 <= i < j < old(self).topics@.len() ==> old(self).topics@[i].name@ != old(
                    self,
                ).topics@[j].name@,
            forall|i: int, j: int|
                0 <= i < j < old(self).peers@.len() ==> old(self).peers@[i].id != old(
                    self,
                ).peers@[j].id,
            forall|i: int| 0 <= i < old(self).peers@.len() ==> old(self).peers@[i].id != old(
                self,
            ).local,
            forall|i: int, a: int, b: int|
                0 <= i < old(self).peers@.len() && 0 <= a < b < old(self).peers@[i].topics@.len()
                    ==> old(self).peers@[i].topics@[a]@ != old(self).peers@[i].topics@[b]@,
            forall|t: int, a: int, b: int|
                0 <= t < old(self).topics@.len() && 0 <= a < b < old(self).topics@[t].mesh@.len()
                    ==> old(self).topics@[t].mesh@[a] != old(self).topics@[t].mesh@[b],
            forall|t: int, a: int|
                0 <= t < old(self).topics@.len() && 0 <= a < old(self).topics@[t].mesh@.len()
                    ==> old(self).connected(#[trigger] old(self).topics@[t].mesh@[a]) || old(
                    self,
                ).topics@[t].mesh@[a] == p,
        ensures
            final(self).wf(),
            final(self).local == old(self).local,
            final(self).peers == old(self).peers,
            final(self).seen == old(self).seen,
            final(self).topic_names() == old(self).topic_names(),
            forall|n: Seq<u8>|
                old(self).subscribed(n) ==> final(self).mesh_of(n) == old(self).mesh_of(n).filter(
                    |q: PeerId| q != p,
                ),
    {
        let ghost pre = *self;
        let mut new_topics: Vec<TopicState> = Vec::new();
        let mut t: usize = 0;
        while t < self.topics.len()
            invariant
                0 <= t <= self.topics@.len(),
                *self == pre,
                new_topics@.len() == t as int,
                forall|k: int| 0 <= k < t ==> new_topics@[k].name@ == pre.topics@[k].name@,
                forall|k: int|
                    0 <= k < t ==> new_topics@[k].mesh@ == pre.topics@[k].mesh@.filter(
                        |q: PeerId| q != p,
                    ),
            decreases self.topics@.len() - t,
        {
            let name = copy_bytes(&self.topics[t].name);
            let mesh = filter_out_peer(&self.topics[t].mesh, p);
            new_topics.push(TopicState { name, mesh });
            t += 1;
        }
        self.topics = new_topics;
        proof {
            assert(final(self).topic_names() =~= pre.topic_names());
            assert forall|tt: int, a: int, b: int|
                0 <= tt < self.topics@.len() && 0 <= a < b
                    < self.topics@[tt].mesh@.len() implies self.topics@[tt].mesh@[a]
                != self.topics@[tt].mesh@[b] by {
                lemma_filter_distinct(pre.topics@[tt].mesh@, |q: PeerId| q != p);
            }
            assert forall|tt: int, a: int|
                0 <= tt < self.topics@.len() && 0 <= a
                    < self.topics@[tt].mesh@.len() implies self.connected(
                #[trigger] self.topics@[tt].mesh@[a],
            ) by {
                lemma_filter_distinct(pre.topics@[tt].mesh@, |q: PeerId| q != p);
                let x = self.topics@[tt].mesh@[a];
                assert(pre.topics@[tt].mesh@.filter(|q: PeerId| q != p)[a] == x);
                assert(x != p);
                assert(self.topics@[tt].mesh@.contains(x));
                assert(pre.topics@[tt].mesh@.contains(x));
                let k = choose|k: int|
                    0 <= k < pre.topics@[tt].mesh@.len() && pre.topics@[tt].mesh@[k] == x;
                assert(pre.connected(x) || x == p);
                let kk = choose|kk: int| 0 <= kk < pre.peers@.len() && pre.peers@[kk].id == x;
                assert(self.peers@[kk].id == x);
            }
            assert(self.wf());
            assert forall|n: Seq<u8>| pre.subscribed(n) implies self.mesh_of(n) == pre.mesh_of(
                n,
            ).filter(|q: PeerId| q != p) by {
                let names = pre.topic_names();
                let k = choose|k: int| 0 <= k < names.len() && names[k] == n;
                assert(pre.topics@[k].name@ == n);
                pre.lemma_topic_idx_is(n, k);
                assert(self.topics@[k].name@ == n);
                self.lemma_topic_idx_is(n, k);
            }
        }
    }

    /// Refresh every topic's mesh from the peers currently connected and
    /// interested in it, and report, per topic, which peers were grafted
    /// into and pruned out of the mesh, for announcement on the control
    /// streams. Peers, subscriptions and the seen record are untouched.
    #[verifier::loop_isolation(false)]
    pub fn heartbeat(&mut self) -> (deltas: Vec<MeshDelta>)
        requires
            old(self).wf(),
        ensures
            final(self).wf(),
            final(self).local == old(self).local,
            final(self).peers == old(self).peers,
            final(self).seen == old(self).seen,
            final(self).topic_names() == old(self).topic_names(),
            forall|n: Seq<u8>|
                old(self).subscribed(n) ==> final(self).mesh_of(n) == old(self).eligible(n),
            deltas@.len() == old(self).topics@.len(),
            forall|t: int|
                0 <= t < deltas@.len() ==> #[trigger] deltas@[t].topic@ == old(self).topic_names()[t]
                    && deltas@[t].grafts@ == old(self).eligible(old(self).topic_names()[t]).filter(
                    |q: PeerId| !old(self).mesh_of(old(self).topic_names()[t]).contains(q),
                ) && deltas@[t].prunes@ == old(self).mesh_of(old(self).topic_names()[t]).filter(
                    |q: PeerId| !old(self).eligible(old(self).topic_names()[t]).contains(q),
                ),
    {
        let ghost pre = *self;
        let mut new_topics: Vec<TopicState> = Vec::new();
        let mut deltas: Vec<MeshDelta> = Vec::new();
        let mut t: usize = 0;
        while t < self.topics.len()
            invariant
                0 <= t <= self.topics@.len(),
                *self == pre,
                new_topics@.len() == t as int,
                deltas@.len() == t as int,
                forall|k: int| 0 <= k < t ==> new_topics@[k].name@ == pre.topics@[k].name@,
                forall|k: int|
                    0 <= k < t ==> new_topics@[k].mesh@ == pre.eligible(pre.topics@[k].name@),
                forall|k: int|
                    0 <= k < t ==> (#[trigger] deltas@[k].topic@) == pre.topics@[k].name@
                        && deltas@[k].grafts@ == pre.eligible(pre.topics@[k].name@).filter(
                        |q: PeerId| !pre.mesh_of(pre.topics@[k].name@).contains(q),
                    ) && deltas@[k].prunes@ == pre.mesh_of(pre.topics@[k].name@).filter(
                        |q: PeerId| !pre.eligible(pre.topics@[k].name@).contains(q),
                    ),
            decreases self.topics@.len() - t,
        {
            let name = copy_bytes(&self.topics[t].name);
            let elig = eligible_peers(&self.peers, &name);
            let grafts = peers_not_in(&elig, &self.topics[t].mesh);
            let prunes = peers_not_in(&self.topics[t].mesh, &elig);
            proof {
                pre.lemma_topic_idx_is(name@, t as int);
                assert(pre.mesh_of(name@) == pre.topics@[t as int].mesh@);
                assert(elig@ == pre.eligible(name@));
            }
            let topic_copy = copy_bytes(&name);
            deltas.push(MeshDelta { topic: topic_copy, grafts, prunes });
            new_topics.push(TopicState { name, mesh: elig });
            proof {
                let ti = t as int;
                assert(deltas@[ti].topic@ == pre.topics@[ti].name@);
                assert(deltas@[ti].grafts@ == pre.eligible(pre.topics@[ti].name@).filter(
                    |q: PeerId| !pre.mesh_of(pre.topics@[ti].name@).contains(q),
                ));
                assert(deltas@[ti].prunes@ == pre.mesh_of(pre.topics@[ti].name@).filter(
                    |q: PeerId| !pre.eligible(pre.topics@[ti].name@).contains(q),
                ));
                assert(new_topics@[ti].mesh@ == pre.eligible(pre.topics@[ti].name@));
            }
            t += 1;
        }
        self.topics = new_topics;
        proof {
            assert(final(self).topic_names() =~= pre.topic_names());
            assert forall|tt: int, a: int, b: int|
                0 <= tt < self.topics@.len() && 0 <= a < b
                    < self.topics@[tt].mesh@.len() implies self.topics@[tt].mesh@[a]
                != self.topics@[tt].mesh@[b] by {
                lemma_eligible_distinct(pre.peers@, pre.topics@[tt].name@);
                assert(self.topics@[tt].mesh@ == pre.eligible(pre.topics@[tt].name@));
            }
            assert forall|tt: int, a: int|
                0 <= tt < self.topics@.len() && 0 <= a
                    < self.topics@[tt].mesh@.len() implies self.connected(
                #[trigger] self.topics@[tt].mesh@[a],
            ) by {
                lemma_eligible_distinct(pre.peers@, pre.topics@[tt].name@);
                let x = self.topics@[tt].mesh@[a];
                assert(self.topics@[tt].mesh@.contains(x));
                assert(pre.eligible(pre.topics@[tt].name@).contains(x));
                let k = choose|k: int| 0 <= k < pre.peers@.len() && pre.peers@[k].id == x;
                assert(self.peers@[k].id == x);
            }
            assert(self.wf());
            assert forall|n: Seq<u8>| pre.subscribed(n) implies self.mesh_of(n) == pre.eligible(
                n,
            ) by {
                let names = pre.topic_names();
                let k = choose|k: int| 0 <= k < names.len() && names[k] == n;
                assert(pre.topics@[k].name@ == n);
                assert(self.topics@[k].name@ == n);
                self.lemma_topic_idx_is(n, k);
            }
        }
        deltas
    }

    /// Housekeeping companion of the heartbeat: evict expired entries from
    /// the seen record. Nothing a lookup at `now` or later answers changes,
    /// and the rest of the node is untouched.
    pub fn prune_seen(&mut self, now: u64)
        requires
            old(self).wf(),
        ensures
            final(self).wf(),
            final(self).local == old(self).local,
            final(self).topics == old(self).topics,
            final(self).peers == old(self).peers,
            final(self).seen.horizon_spec() == old(self).seen.horizon_spec(),
            forall|id: u64, t: u64|
                t >= now ==> final(self).seen.seen(id, t) == old(self).seen.seen(id, t),
    {
        self.seen.prune(now);
        proof {
            assert forall|t: int, a: int|
                0 <= t < self.topics@.len() && 0 <= a
                    < self.topics@[t].mesh@.len() implies self.connected(
                #[trigger] self.topics@[t].mesh@[a],
            ) by {
                assert(self.topics == old(self).topics);
                assert(old(self).connected(old(self).topics@[t].mesh@[a]));
                let k = old(self).peer_idx(old(self).topics@[t].mesh@[a]);
                assert(self.peers@[k].id == self.topics@[t].mesh@[a]);
            }
            assert(self.wf());
        }
    }

    /// Accept a message (published locally or received from `from`):
    /// compute its content-addressed identifier, suppress it if already
    /// seen, otherwise record it and select the mesh peers to forward it
    /// to, excluding the peer it came from.
    fn route_message(&mut self, from: PeerId, name: &Vec<u8>, payload: &Vec<u8>, now: u64) -> (d:
        Delivery)
        requires
            old(self).wf(),
            now <= u64::MAX - old(self).seen.horizon_spec(),
        ensures
            final(self).wf(),
            d.id == payload_id(payload@),
            d.fresh == !old(self).seen.seen(d.id, now),
            !d.fresh ==> *final(self) == *old(self) && d.forwards@.len() == 0,
            d.fresh ==> {
                &&& final(self).topics == old(self).topics
                &&& final(self).peers == old(self).peers
                &&& final(self).local == old(self).local
                &&& final(self).seen.horizon_spec() == old(self).seen.horizon_spec()
                &&& final(self).seen.entries_spec() == old(self).seen.entries_spec().insert(
                    d.id,
                    (now + old(self).seen.horizon_spec()) as u64,
                )
                &&& d.forwards@ == old(self).mesh_of(name@).filter(|q: PeerId| q != from)
            },
    {
        let id = message_id(payload);
        if self.seen.check(id, now) {
            return Delivery { id, fresh: false, forwards: Vec::new() };
        }
        self.seen.record(id, now);
        let forwards = match self.find_topic(name) {
            Some(i) => {
                proof {
                    self.lemma_topic_idx_is(name@, i as int);
                }
                filter_out_peer(&self.topics[i].mesh, from)
            },
            None => {
                proof {
                    assert(self.mesh_of(name@) =~= Seq::<PeerId>::empty());
                    assert(Seq::<PeerId>::empty().filter(|q: PeerId| q != from)
                        =~= Seq::<PeerId>::empty()) by {
                        lemma_filter_absent(Seq::<PeerId>::empty(), from);
                    }
                }
                Vec::new()
            },
        };
        proof {
            assert(self.topics == old(self).topics);
            assert(self.peers == old(self).peers);
            assert(self.local == old(self).local);
            assert forall|t: int, a: int|
                0 <= t < self.topics@.len() && 0 <= a < self.topics@[t].mesh@.len() implies self
                .connected(#[trigger] self.topics@[t].mesh@[a]) by {
                assert(old(self).connected(old(self).topics@[t].mesh@[a]));
            }
            assert(self.wf());
        }
        Delivery { id, fresh: true, forwards }
    }

    /// Publish a payload on a topic. The identifier is the digest of the
    /// payload; a payload already seen within the horizon is a no-op
    /// (publishing is idempotent), otherwise it is recorded and handed to
    /// every current mesh peer of the topic. Publishing succeeds locally
    /// whether or not any peer is connected; with an empty mesh the message
    /// reaches nobody and is not resent later — gossip is best-effort, and
    /// this layer never retries a missed message.
    pub fn publish(&mut self, name: &Vec<u8>, payload: &Vec<u8>, now: u64) -> (d: Delivery)
        requires
            old(self).wf(),
            now <= u64::MAX - old(self).seen.horizon_spec(),
        ensures
            final(self).wf(),
            d.id == payload_id(payload@),
            d.fresh == !old(self).seen.seen(d.id, now),
            !d.fresh ==> *final(self) == *old(self) && d.forwards@.len() == 0,
            d.fresh ==> {
                &&& final(self).topics == old(self).topics
                &&& final(self).peers == old(self).peers
                &&& final(self).local == old(self).local
                &&& final(self).seen.horizon_spec() == old(self).seen.horizon_spec()
                &&& final(self).seen.entries_spec() == old(self).seen.entries_spec().insert(
                    d.id,
                    (now + old(self).seen.horizon_spec()) as u64,
                )
                &&& d.forwards@ == old(self).mesh_of(name@)
            },
    {
        let ghost pre = *self;
        let d = self.route_message(self.local, name, payload, now);
        proof {
            if d.fresh {
                let mesh = pre.mesh_of(name@);
                assert forall|k: int| 0 <= k < mesh.len() implies mesh[k] != pre.local by {
                    if pre.subscribed(name@) {
                        let t = pre.topic_idx(name@);
                        assert(pre.connected(mesh[k]));
                        let i = pre.peer_idx(mesh[k]);
                        assert(pre.peers@[i].id != pre.local);
                    }
                }
                assert(!mesh.contains(pre.local));
                lemma_filter_absent(mesh, pre.local);
            }
        }
        d
    }

    /// Take delivery of a message received from peer `from`: an already
    /// seen identifier is discarded silently (`fresh` is false: at most one
    /// local delivery per identifier); a new one is recorded, delivered
    /// locally, and forwarded to the topic's mesh peers other than `from`.
    pub fn on_inbound_message(
        &mut self,
        from: PeerId,
        name: &Vec<u8>,
        payload: &Vec<u8>,
        now: u64,
    ) -> (d: Delivery)
        requires
            old(self).wf(),
            now <= u64::MAX - old(self).seen.horizon_spec(),
        ensures
            final(self).wf(),
            d.id == payload_id(payload@),
            d.fresh == !old(self).seen.seen(d.id, now),
            !d.fresh ==> *final(self) == *old(self) && d.forwards@.len() == 0,
            d.fresh ==> {
                &&& final(self).topics == old(self).topics
                &&& final(self).peers == old(self).peers
                &&& final(self).local == old(self).local
                &&& final(self).seen.horizon_spec() == old(self).seen.horizon_spec()
                &&& final(self).seen.entries_spec() == old(self).seen.entries_spec().insert(
                    d.id,
                    (now + old(self).seen.horizon_spec()) as u64,
                )
                &&& d.forwards@ == old(self).mesh_of(name@).filter(|q: PeerId| q != from)
            },
            !d.forwards@.contains(from),
    {
        let d = self.route_message(from, name, payload, now);
        proof {
            if d.forwards@.contains(from) {
                let k = choose|k: int| 0 <= k < d.forwards@.len() && d.forwards@[k] == from;
                assert((|q: PeerId| q != from)(d.forwards@[k]));
            }
        }
        d
    }
}

/// The mesh changes one heartbeat made for one topic: the peers grafted
/// into and pruned out of its mesh, to be announced on the control streams.
pub struct MeshDelta {
    pub topic: Vec<u8>,
    pub grafts: Vec<PeerId>,
    pub prunes: Vec<PeerId>,
}

/// Eligible mesh members are distinct and drawn from the connected peers.
pub proof fn lemma_eligible_distinct(ps: Seq<PeerInfo>, n: Seq<u8>)
    requires
        forall|a: int, b: int| 0 <= a < b < ps.len() ==> ps[a].id != ps[b].id,
    ensures
        forall|a: int, b: int|
            0 <= a < b < eligible_in(ps, n).len() ==> eligible_in(ps, n)[a] != eligible_in(
                ps,
                n,
            )[b],
        forall|x: PeerId| #[trigger] eligible_in(ps, n).contains(x) ==> exists|k: int|
            0 <= k < ps.len() && ps[k].id == x,
{
    let pred = |pi: PeerInfo| names_of(pi.topics@).contains(n);
    assert forall|a: int, b: int| 0 <= a < b < ps.len() implies ps[a] != ps[b] by {
        assert(ps[a].id != ps[b].id);
    }
    lemma_filter_distinct(ps, pred);
    let f = ps.filter(pred);
    let el = eligible_in(ps, n);
    assert forall|x: PeerId| #[trigger] el.contains(x) implies exists|k: int|
        0 <= k < ps.len() && ps[k].id == x by {
        let j = choose|j: int| 0 <= j < el.len() && el[j] == x;
        assert(f[j].id == x);
        assert(f.contains(f[j]));
        assert(ps.contains(f[j]));
        let k = choose|k: int| 0 <= k < ps.len() && ps[k] == f[j];
        assert(ps[k].id == x);
    }
    assert forall|a: int, b: int| 0 <= a < b < el.len() implies el[a] != el[b] by {
        assert(el[a] == f[a].id && el[b] == f[b].id);
        assert(f[a] != f[b]);
        if f[a].id == f[b].id {
            assert(f.contains(f[a]));
            assert(f.contains(f[b]));
            assert(ps.contains(f[a]));
            assert(ps.contains(f[b]));
            let ka = choose|k: int| 0 <= k < ps.len() && ps[k] == f[a];
            let kb = choose|k: int| 0 <= k < ps.len() && ps[k] == f[b];
            assert(ka != kb);
            if ka < kb {
                assert(ps[ka].id != ps[kb].id);
            } else {
                assert(ps[kb].id != ps[ka].id);
            }
        }
    }
}

/// Mesh heartbeat, joining side: a connected peer that has announced
/// interest in a topic is eligible for its mesh, so the next heartbeat
/// grafts it in.
pub proof fn lemma_interested_peer_is_eligible(o: Overlay, n: Seq<u8>, p: PeerId)
    requires
        o.wf(),
        o.interested(p, n),
    ensures
        o.connected(p),
        o.eligible(n).contains(p),
{
    assert(o.connected(p));
    let k = o.peer_idx(p);
    assert(0 <= k < o.peers@.len() && o.peers@[k].id == p);
    let pred = |pi: PeerInfo| names_of(pi.topics@).contains(n);
    assert(pred(o.peers@[k]));
    assert(o.peers@.filter(pred).contains(o.peers@[k]));
    let f = o.peers@.filter(pred);
    let j = choose|j: int| 0 <= j < f.len() && f[j] == o.peers@[k];
    assert(o.eligible(n)[j] == p);
    assert(o.eligible(n).contains(p));
}

/// Mesh heartbeat, empty side: with no connected peers nobody is eligible,
/// so a heartbeat leaves (and a fresh subscription starts with) an empty
/// mesh.
pub proof fn lemma_no_peers_no_mesh(o: Overlay, n: Seq<u8>)
    requires
        o.peers@.len() == 0,
    ensures
        o.eligible(n) == Seq::<PeerId>::empty(),
{
    let pred = |pi: PeerInfo| names_of(pi.topics@).contains(n);
    assert(o.peers@.filter(pred).len() <= 0);
    assert(eligible_in(o.peers@, n) =~= Seq::<PeerId>::empty());
}

/// What became of one accepted message: its content-addressed identifier,
/// whether it was new (and hence delivered locally), and the peers it is to
/// be forwarded to.
pub struct Delivery {
    pub id: u64,
    pub fresh: bool,
    pub forwards: Vec<PeerId>,
}

/// No echo: whatever mesh a message is forwarded on, the peer it came from
/// is not among the forwarding targets.
pub proof fn lemma_no_echo(mesh: Seq<PeerId>, from: PeerId)
    ensures
        !mesh.filter(|q: PeerId| q != from).contains(from),
{
    let out = mesh.filter(|q: PeerId| q != from);
    if out.contains(from) {
        let k = choose|k: int| 0 <= k < out.len() && out[k] == from;
        assert((|q: PeerId| q != from)(out[k]));
    }
}

/// Duplicate suppression: once an identifier is recorded at `now`, it stays
/// seen at every instant before its expiry, so a second publish or receipt
/// of the same payload within the horizon is a no-op: no second local
/// delivery and no forwarding.
pub proof fn lemma_duplicate_suppressed(
    pre: SeenSet,
    post: SeenSet,
    id: u64,
    now: u64,
    later: u64,
)
    requires
        now <= u64::MAX - pre.horizon_spec(),
        post.entries_spec() == pre.entries_spec().insert(id, (now + pre.horizon_spec()) as u64),
        now <= later < now + pre.horizon_spec(),
    ensures
        post.seen(id, later),
{
}

} // verus!
