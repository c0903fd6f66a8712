//! The peer registry: reliability, latency and availability of known peers, a
//! blacklist, and scored selection of storage peers. Reliability is in thousandths
//! (0 to 1000) and scores are fixed-point, in billionths.
use vstd::prelude::*;
use vstd::string::*;

verus! {

/// What is known of a peer.
#[derive(Debug, Clone)]
pub struct PeerInfo {
    pub peer_id: String,
    /// Known addresses, as text.
    pub addresses: Vec<String>,
    /// Storage offered (bytes).
    pub storage_offered: u64,
    /// Storage available (bytes).
    pub storage_available: u64,
    /// Reliability in thousandths, 0 to 1000.
    pub reliability_milli: u32,
    pub latency_ms: u32,
    /// Last seen (Unix seconds).
    pub last_seen: i64,
    pub behind_nat: bool,
    pub agent_version: String,
}

/// How much a peer offers and uses, as last heard; reputation in thousandths.
#[derive(Debug, Clone, Copy, PartialEq, Eq)]
pub struct PeerStorageInfo {
    pub offered: u64,
    pub used: u64,
    pub last_heartbeat: i64,
    pub reputation_milli: u32,
}

/// The composite score in billionths:
/// `0.4 * reliability + 0.3 * (1 - min(latency, 1000) / 1000) + 0.3 * available / offered`,
/// the last term 0 when nothing is offered and rounded down.
pub open spec fn score_of(p: PeerInfo) -> nat {
    let lat: nat = if p.latency_ms < 1000 { p.latency_ms as nat } else { 1000 };
    let avail: nat = if p.storage_offered > 0 {
        (300_000_000 * p.storage_available as nat / p.storage_offered as nat) as nat
    } else {
        0
    };
    400_000 * p.reliability_milli as nat + 300_000 * (1000 - lat) as nat + avail
}

/// Whether `now - last_seen > max_age`.
pub open spec fn stale_at(p: PeerInfo, max_age: i64, now: i64) -> bool {
    now - p.last_seen > max_age
}

impl PeerInfo {
    /// A peer seen at `now`, with neutral reliability (500) and nothing offered.
    pub fn new_at(peer_id: String, now: i64) -> (r: PeerInfo)
        ensures
            r.peer_id == peer_id,
            r.addresses@.len() == 0,
            r.storage_offered == 0,
            r.storage_available == 0,
            r.reliability_milli == 500,
            r.latency_ms == 0,
            r.last_seen == now,
            !r.behind_nat,
            r.agent_version@.len() == 0,
    {
        PeerInfo {
            peer_id,
            addresses: Vec::new(),
            storage_offered: 0,
            storage_available: 0,
            reliability_milli: 500,
            latency_ms: 0,
            last_seen: now,
            behind_nat: false,
            agent_version: String::new(),
        }
    }

    /// `new_at` with the current time.
    pub fn new(peer_id: String) -> (r: PeerInfo)
        ensures
            r.peer_id == peer_id,
            r.reliability_milli == 500,
    {
        PeerInfo::new_at(peer_id, crate::identity::utc_now())
    }

    /// Marks the peer seen at `now`.
    pub fn touch_at(&mut self, now: i64)
        ensures
            *final(self) == (PeerInfo { last_seen: now, ..*old(self) }),
    {
        self.last_seen = now;
    }

    /// `touch_at` with the current time.
    pub fn touch(&mut self)
        ensures
            *final(self) == (PeerInfo { last_seen: final(self).last_seen, ..*old(self) }),
    {
        self.touch_at(crate::identity::utc_now());
    }

    /// Whether the peer was last seen more than `max_age_seconds` before `now`.
    pub fn is_stale_at(&self, max_age_seconds: i64, now: i64) -> (r: bool)
        ensures
            r == stale_at(*self, max_age_seconds, now),
    {
        (now as i128) - (self.last_seen as i128) > max_age_seconds as i128
    }

    /// `is_stale_at` with the current time.
    pub fn is_stale(&self, max_age_seconds: i64) -> (r: bool)
        ensures
            exists|now: i64| r == #[trigger] stale_at(*self, max_age_seconds, now),
    {
        self.is_stale_at(max_age_seconds, crate::identity::utc_now())
    }

    /// The composite score, in billionths.
    pub fn score(&self) -> (r: u128)
        ensures
            r == score_of(*self),
    {
        let lat: u128 = if self.latency_ms < 1000 { self.latency_ms as u128 } else { 1000 };
        let avail: u128 = if self.storage_offered > 0 {
            proof {
                assert(300_000_000 * (self.storage_available as nat) <= 300_000_000 * 0xFFFF_FFFF_FFFF_FFFFnat)
                    by (nonlinear_arith) requires self.storage_available <= 0xFFFF_FFFF_FFFF_FFFF;
            }
            300_000_000 * (self.storage_available as u128) / (self.storage_offered as u128)
        } else {
            0
        };
        proof {
            assert(avail <= 300_000_000 * 0xFFFF_FFFF_FFFF_FFFFnat) by {
                if self.storage_offered > 0 {
                    assert(300_000_000 * (self.storage_available as nat) / (self.storage_offered as nat)
                        <= 300_000_000 * (self.storage_available as nat)) by (nonlinear_arith)
                        requires self.storage_offered >= 1;
                    assert(300_000_000 * (self.storage_available as nat) <= 300_000_000 * 0xFFFF_FFFF_FFFF_FFFFnat)
                        by (nonlinear_arith) requires self.storage_available <= 0xFFFF_FFFF_FFFF_FFFF;
                }
            }
        }
        400_000 * (self.reliability_milli as u128) + 300_000 * (1000 - lat) + avail
    }
}


/// The first blacklist entry of `id`, or -1.
pub open spec fn black_index(s: Seq<(String, i64)>, id: Seq<char>) -> int
    decreases s.len(),
{
    if s.len() == 0 {
        -1
    } else if s[0].0@ == id {
        0
    } else {
        let r = black_index(s.drop_first(), id);
        if r < 0 { -1 } else { r + 1 }
    }
}

proof fn lemma_black_index(s: Seq<(String, i64)>, id: Seq<char>)
    ensures
        -1 <= black_index(s, id) < s.len(),
        black_index(s, id) >= 0 ==> s[black_index(s, id)].0@ == id,
        forall|j: int| 0 <= j < s.len() && (black_index(s, id) < 0 || j < black_index(s, id)) ==> #[trigger] s[j].0@ != id,
    decreases s.len(),
{
    if s.len() > 0 {
        lemma_black_index(s.drop_first(), id);
        assert forall|j: int| 0 <= j < s.len() && (black_index(s, id) < 0 || j < black_index(s, id)) implies #[trigger] s[j].0@ != id by {
            if j > 0 {
                assert(s.drop_first()[j - 1] == s[j]);
            }
        }
    }
}

/// Whether `id` is blacklisted at `now`: its entry expires after `now`.
pub open spec fn blacklisted_at(s: Seq<(String, i64)>, id: Seq<char>, now: i64) -> bool {
    let i = black_index(s, id);
    i >= 0 && now < s[i].1
}

/// The first position of peer `id`, or -1.
pub open spec fn peer_index(s: Seq<PeerInfo>, id: Seq<char>) -> int
    decreases s.len(),
{
    if s.len() == 0 {
        -1
    } else if s[0].peer_id@ == id {
        0
    } else {
        let r = peer_index(s.drop_first(), id);
        if r < 0 { -1 } else { r + 1 }
    }
}

proof fn lemma_peer_index(s: Seq<PeerInfo>, id: Seq<char>)
    ensures
        -1 <= peer_index(s, id) < s.len(),
        peer_index(s, id) >= 0 ==> s[peer_index(s, id)].peer_id@ == id,
        forall|j: int| 0 <= j < s.len() && (peer_index(s, id) < 0 || j < peer_index(s, id)) ==> #[trigger] s[j].peer_id@ != id,
    decreases s.len(),
{
    if s.len() > 0 {
        lemma_peer_index(s.drop_first(), id);
        assert forall|j: int| 0 <= j < s.len() && (peer_index(s, id) < 0 || j < peer_index(s, id)) implies #[trigger] s[j].peer_id@ != id by {
            if j > 0 {
                assert(s.drop_first()[j - 1] == s[j]);
            }
        }
    }
}

/// No peer id occurs twice.
pub open spec fn unique_peers(s: Seq<PeerInfo>) -> bool {
    forall|i: int, j: int| 0 <= i < j < s.len() ==> #[trigger] s[i].peer_id@ != #[trigger] s[j].peer_id@
}

proof fn lemma_peer_unique_index(s: Seq<PeerInfo>, k: int)
    requires
        unique_peers(s),
        0 <= k < s.len(),
    ensures
        peer_index(s, s[k].peer_id@) == k,
{
    lemma_peer_index(s, s[k].peer_id@);
    let i = peer_index(s, s[k].peer_id@);
    if i >= 0 && i != k {
        if i < k {
            assert(s[i].peer_id@ != s[k].peer_id@);
        } else {
            assert(s[k].peer_id@ != s[i].peer_id@);
        }
    }
}

proof fn lemma_peer_update_unique(s: Seq<PeerInfo>, k: int, x: PeerInfo)
    requires
        unique_peers(s),
        0 <= k < s.len(),
        x.peer_id@ == s[k].peer_id@,
    ensures
        unique_peers(s.update(k, x)),
{
    let r = s.update(k, x);
    assert forall|i: int, j: int| 0 <= i < j < r.len() implies #[trigger] r[i].peer_id@ != #[trigger] r[j].peer_id@ by {
        assert(r[i].peer_id@ == s[i].peer_id@);
        assert(r[j].peer_id@ == s[j].peer_id@);
    }
}

proof fn lemma_peer_push_unique(s: Seq<PeerInfo>, x: PeerInfo)
    requires
        unique_peers(s),
        forall|j: int| 0 <= j < s.len() ==> #[trigger] s[j].peer_id@ != x.peer_id@,
    ensures
        unique_peers(s.push(x)),
{
    let r = s.push(x);
    assert forall|i: int, j: int| 0 <= i < j < r.len() implies #[trigger] r[i].peer_id@ != #[trigger] r[j].peer_id@ by {
        if j == s.len() {
            assert(r[i] == s[i]);
        } else {
            assert(r[i] == s[i] && r[j] == s[j]);
        }
    }
}

/// The peers after adding `info` at `now`: replaced in place if its id is known,
/// appended otherwise, with `last_seen` set to `now`.
pub open spec fn peer_added(before: Seq<PeerInfo>, after: Seq<PeerInfo>, info: PeerInfo, now: i64) -> bool {
    let i = peer_index(before, info.peer_id@);
    let p = PeerInfo { last_seen: now, ..info };
    if i >= 0 {
        after == before.update(i, p)
    } else {
        after == before.push(p)
    }
}

/// `now + duration`, saturating at the bounds of `i64`.
pub open spec fn expiry_in(now: i64, duration: i64) -> i64 {
    let t = now + duration;
    if t > i64::MAX { i64::MAX } else if t < i64::MIN { i64::MIN } else { t as i64 }
}

/// `bl` holds an entry for `id` expiring at `expiry`, found first.
pub open spec fn blacklist_holds(bl: Seq<(String, i64)>, id: Seq<char>, expiry: i64) -> bool {
    &&& black_index(bl, id) >= 0
    &&& bl[black_index(bl, id)].1 == expiry
}

/// The reliability of `id` moved by `delta` and clamped, with a blacklist entry for an
/// hour from `now` when it falls below 100.
pub open spec fn reliability_updated(
    before: Seq<PeerInfo>,
    after: Seq<PeerInfo>,
    bl_before: Seq<(String, i64)>,
    bl_after: Seq<(String, i64)>,
    id: Seq<char>,
    delta: i32,
    now: i64,
) -> bool {
    let i = peer_index(before, id);
    let p = before[i];
    let v = p.reliability_milli + delta;
    let c: u32 = if v < 0 { 0 } else if v > 1000 { 1000 } else { v as u32 };
    if i < 0 {
        after == before && bl_after == bl_before
    } else {
        &&& after == before.update(i, PeerInfo { reliability_milli: c, ..p })
        &&& c < 100 ==> blacklist_holds(bl_after, id, expiry_in(now, 3600))
        &&& c >= 100 ==> bl_after == bl_before
    }
}

/// Tracks known peers and selects storage peers.
pub struct PeerManager {
    peers: Vec<PeerInfo>,
    blacklist: Vec<(String, i64)>,
    min_reliability_milli: u32,
    max_age_seconds: i64,
}

impl PeerManager {
    /// The peers, in order of first sight.
    pub closed spec fn spec_peers(&self) -> Seq<PeerInfo> {
        self.peers@
    }

    /// Blacklist entries: peer id and expiry.
    pub closed spec fn spec_blacklist(&self) -> Seq<(String, i64)> {
        self.blacklist@
    }

    pub closed spec fn spec_min_reliability(&self) -> u32 {
        self.min_reliability_milli
    }

    pub closed spec fn spec_max_age(&self) -> i64 {
        self.max_age_seconds
    }

    /// No peer is known twice.
    pub open spec fn wf(&self) -> bool {
        unique_peers(self.spec_peers())
    }

    /// Not blacklisted, reliable enough and not stale at `now`.
    pub open spec fn healthy(&self, p: PeerInfo, now: i64) -> bool {
        &&& !blacklisted_at(self.spec_blacklist(), p.peer_id@, now)
        &&& p.reliability_milli >= self.spec_min_reliability()
        &&& !stale_at(p, self.spec_max_age(), now)
    }

    /// Healthy with at least `required` bytes available.
    pub open spec fn eligible(&self, p: PeerInfo, required: u64, now: i64) -> bool {
        self.healthy(p, now) && p.storage_available >= required
    }

    /// Every peer of `r` is eligible at `now`, best score first.
    pub open spec fn ranked(&self, r: Seq<&PeerInfo>, required: u64, now: i64) -> bool {
        &&& forall|i: int| 0 <= i < r.len() ==> #[trigger] self.eligible(*r[i], required, now)
        &&& forall|i: int, j: int| 0 <= i < j < r.len() ==> score_of(*#[trigger] r[i]) >= score_of(*#[trigger] r[j])
    }

    /// `r` is the selection of up to `count` peers for `required` bytes at `now`: eligible
    /// peers of the registry, no peer twice, best score first and equal scores in order
    /// of first sight, as many as `count` allows; every eligible peer left out scores no
    /// higher than any returned.
    pub open spec fn selected(&self, r: Seq<&PeerInfo>, required: u64, count: usize, now: i64) -> bool {
        &&& r.len() == if count < self.eligible_count(self.spec_peers(), required, now) {
            count as nat
        } else {
            self.eligible_count(self.spec_peers(), required, now)
        }
        &&& forall|i: int| 0 <= i < r.len() ==> self.spec_peers().contains(*#[trigger] r[i])
        &&& self.ranked(r, required, now)
        &&& forall|i: int, j: int| 0 <= i < j < r.len() ==> #[trigger] r[i].peer_id@ != #[trigger] r[j].peer_id@
        &&& forall|i: int, j: int|
            0 <= i < j < r.len() && score_of(*#[trigger] r[i]) == score_of(*#[trigger] r[j]) ==> peer_index(
                self.spec_peers(),
                r[i].peer_id@,
            ) < peer_index(self.spec_peers(), r[j].peer_id@)
        &&& forall|k: int|
            0 <= k < self.spec_peers().len() && #[trigger] self.eligible(self.spec_peers()[k], required, now) ==> (exists|
                i: int,
            | 0 <= i < r.len() && *r[i] == self.spec_peers()[k]) || (forall|i: int|
                0 <= i < r.len() ==> score_of(*#[trigger] r[i]) >= score_of(self.spec_peers()[k]))
    }

    /// Every peer of `r` is healthy at `now`.
    pub open spec fn all_healthy(&self, r: Seq<&PeerInfo>, now: i64) -> bool {
        forall|i: int| 0 <= i < r.len() ==> #[trigger] self.healthy(*r[i], now)
    }

    /// An empty registry: minimum reliability 300 (0.3), peers stale after an hour.
    pub fn new() -> (r: PeerManager)
        ensures
            r.wf(),
            r.spec_peers().len() == 0,
            r.spec_blacklist().len() == 0,
            r.spec_min_reliability() == 300,
            r.spec_max_age() == 3600,
    {
        PeerManager { peers: Vec::new(), blacklist: Vec::new(), min_reliability_milli: 300, max_age_seconds: 3600 }
    }

    fn find(&self, peer_id: &str) -> (r: Option<usize>)
        ensures
            r matches Some(i) ==> i == peer_index(self.peers@, peer_id@) && i < self.peers@.len(),
            r is None ==> peer_index(self.peers@, peer_id@) < 0,
    {
        proof {
            lemma_peer_index(self.peers@, peer_id@);
        }
        let id = String::from_str(peer_id);
        let mut i: usize = 0;
        while i < self.peers.len()
            invariant
                i <= self.peers@.len(),
                id@ == peer_id@,
                forall|j: int| 0 <= j < i ==> #[trigger] self.peers@[j].peer_id@ != peer_id@,
                -1 <= peer_index(self.peers@, peer_id@) < self.peers@.len(),
                peer_index(self.peers@, peer_id@) >= 0 ==> self.peers@[peer_index(self.peers@, peer_id@)].peer_id@ == peer_id@,
                forall|j: int| 0 <= j < self.peers@.len() && (peer_index(self.peers@, peer_id@) < 0 || j < peer_index(self.peers@, peer_id@)) ==> #[trigger] self.peers@[j].peer_id@ != peer_id@,
            decreases self.peers@.len() - i,
        {
            if self.peers[i].peer_id == id {
                return Some(i);
            }
            i = i + 1;
        }
        None
    }

    fn find_black(&self, peer_id: &str) -> (r: Option<usize>)
        ensures
            r matches Some(i) ==> i == black_index(self.blacklist@, peer_id@) && i < self.blacklist@.len(),
            r is None ==> black_index(self.blacklist@, peer_id@) < 0,
    {
        proof {
            lemma_black_index(self.blacklist@, peer_id@);
        }
        let id = String::from_str(peer_id);
        let mut i: usize = 0;
        while i < self.blacklist.len()
            invariant
                i <= self.blacklist@.len(),
                id@ == peer_id@,
                forall|j: int| 0 <= j < i ==> #[trigger] self.blacklist@[j].0@ != peer_id@,
                -1 <= black_index(self.blacklist@, peer_id@) < self.blacklist@.len(),
                black_index(self.blacklist@, peer_id@) >= 0 ==> self.blacklist@[black_index(self.blacklist@, peer_id@)].0@ == peer_id@,
                forall|j: int| 0 <= j < self.blacklist@.len() && (black_index(self.blacklist@, peer_id@) < 0 || j < black_index(self.blacklist@, peer_id@)) ==> #[trigger] self.blacklist@[j].0@ != peer_id@,
            decreases self.blacklist@.len() - i,
        {
            if self.blacklist[i].0 == id {
                return Some(i);
            }
            i = i + 1;
        }
        None
    }

    /// Adds or replaces (in place) a peer, marked seen at `now`.
    pub fn add_peer_at(&mut self, info: PeerInfo, now: i64)
        requires
            old(self).wf(),
        ensures
            final(self).wf(),
            final(self).spec_blacklist() == old(self).spec_blacklist(),
            final(self).spec_min_reliability() == old(self).spec_min_reliability(),
            final(self).spec_max_age() == old(self).spec_max_age(),
            peer_added(old(self).spec_peers(), final(self).spec_peers(), info, now),
    {
        let ghost orig = info;
        let mut info = info;
        info.touch_at(now);
        proof {
            lemma_peer_index(self.peers@, info.peer_id@);
        }
        match self.find(info.peer_id.as_str()) {
            Some(i) => {
                proof {
                    lemma_peer_update_unique(self.peers@, i as int, info);
                }
                self.peers.set(i, info);
            },
            None => {
                proof {
                    lemma_peer_push_unique(self.peers@, info);
                }
                self.peers.push(info);
            },
        }
    }

    /// `add_peer_at` with the current time.
    pub fn add_peer(&mut self, info: PeerInfo)
        requires
            old(self).wf(),
        ensures
            final(self).wf(),
            final(self).spec_blacklist() == old(self).spec_blacklist(),
            exists|now: i64| #[trigger] peer_added(old(self).spec_peers(), final(self).spec_peers(), info, now),
    {
        let now = crate::identity::utc_now();
        self.add_peer_at(info, now);
        assert(peer_added(old(self).spec_peers(), self.spec_peers(), info, now));
    }

    /// The peer `peer_id`, if known.
    pub fn get_peer(&self, peer_id: &str) -> (r: Option<&PeerInfo>)
        ensures
            peer_index(self.spec_peers(), peer_id@) >= 0 ==> r == Some(&self.spec_peers()[peer_index(self.spec_peers(), peer_id@)]),
            peer_index(self.spec_peers(), peer_id@) < 0 ==> r is None,
    {
        match self.find(peer_id) {
            Some(i) => Some(&self.peers[i]),
            None => None,
        }
    }

    /// Blacklists `peer_id` until `now + duration_seconds` (saturating), replacing an entry.
    pub fn blacklist_peer_at(&mut self, peer_id: &str, duration_seconds: i64, now: i64)
        ensures
            final(self).spec_peers() == old(self).spec_peers(),
            final(self).spec_min_reliability() == old(self).spec_min_reliability(),
            final(self).spec_max_age() == old(self).spec_max_age(),
            blacklist_holds(final(self).spec_blacklist(), peer_id@, expiry_in(now, duration_seconds)),
    {
        let t: i128 = (now as i128) + (duration_seconds as i128);
        let expiry: i64 = if t > i64::MAX as i128 { i64::MAX } else if t < i64::MIN as i128 { i64::MIN } else { t as i64 };
        proof {
            lemma_black_index(self.blacklist@, peer_id@);
        }
        match self.find_black(peer_id) {
            Some(i) => {
                let name = String::from_str(peer_id);
                self.blacklist.set(i, (name, expiry));
                proof {
                    lemma_black_index(self.blacklist@, peer_id@);
                    assert forall|j: int| 0 <= j < i implies #[trigger] self.blacklist@[j].0@ != peer_id@ by {
                        assert(self.blacklist@[j] == old(self).blacklist@[j]);
                    }
                    if black_index(self.blacklist@, peer_id@) != i {
                        assert(self.blacklist@[i as int].0@ == peer_id@);
                    }
                }
            },
            None => {
                self.blacklist.push((String::from_str(peer_id), expiry));
                proof {
                    lemma_black_index(self.blacklist@, peer_id@);
                    let n = old(self).blacklist@.len() as int;
                    assert forall|j: int| 0 <= j < n implies #[trigger] self.blacklist@[j].0@ != peer_id@ by {
                        assert(self.blacklist@[j] == old(self).blacklist@[j]);
                    }
                    assert(self.blacklist@[n].0@ == peer_id@);
                }
            },
        }
    }

    /// `blacklist_peer_at` with the current time.
    pub fn blacklist_peer(&mut self, peer_id: &str, duration_seconds: i64)
        ensures
            final(self).spec_peers() == old(self).spec_peers(),
            final(self).spec_min_reliability() == old(self).spec_min_reliability(),
            final(self).spec_max_age() == old(self).spec_max_age(),
            exists|now: i64| #[trigger] blacklist_holds(final(self).spec_blacklist(), peer_id@, expiry_in(now, duration_seconds)),
    {
        let now = crate::identity::utc_now();
        self.blacklist_peer_at(peer_id, duration_seconds, now);
        assert(blacklist_holds(self.spec_blacklist(), peer_id@, expiry_in(now, duration_seconds)));
    }

    /// Whether `peer_id` is blacklisted at `now`.
    pub fn is_blacklisted_at(&self, peer_id: &str, now: i64) -> (r: bool)
        ensures
            r == blacklisted_at(self.spec_blacklist(), peer_id@, now),
    {
        match self.find_black(peer_id) {
            Some(i) => now < self.blacklist[i].1,
            None => false,
        }
    }

    /// `is_blacklisted_at` with the current time.
    pub fn is_blacklisted(&self, peer_id: &str) -> (r: bool)
        ensures
            exists|now: i64| r == #[trigger] blacklisted_at(self.spec_blacklist(), peer_id@, now),
    {
        self.is_blacklisted_at(peer_id, crate::identity::utc_now())
    }

    /// Adds `delta_milli` to a known peer's reliability, clamped to 0..=1000; below 100 the
    /// peer is blacklisted for an hour from `now`.
    pub fn update_reliability_at(&mut self, peer_id: &str, delta_milli: i32, now: i64)
        requires
            old(self).wf(),
        ensures
            final(self).wf(),
            final(self).spec_min_reliability() == old(self).spec_min_reliability(),
            final(self).spec_max_age() == old(self).spec_max_age(),
            reliability_updated(
                old(self).spec_peers(),
                final(self).spec_peers(),
                old(self).spec_blacklist(),
                final(self).spec_blacklist(),
                peer_id@,
                delta_milli,
                now,
            ),
    {
        proof {
            lemma_peer_index(self.peers@, peer_id@);
        }
        match self.find(peer_id) {
            Some(i) => {
                let v: i64 = self.peers[i].reliability_milli as i64 + delta_milli as i64;
                let c: u32 = if v < 0 { 0 } else if v > 1000 { 1000 } else { v as u32 };
                let ghost before = self.peers@;
                self.peers[i].reliability_milli = c;
                proof {
                    assert(self.peers@ == before.update(i as int, self.peers@[i as int]));
                    lemma_peer_update_unique(before, i as int, self.peers@[i as int]);
                }
                if c < 100 {
                    self.blacklist_peer_at(peer_id, 3600, now);
                }
            },
            None => {},
        }
    }

    /// `update_reliability_at` with the current time.
    pub fn update_reliability(&mut self, peer_id: &str, delta_milli: i32)
        requires
            old(self).wf(),
        ensures
            final(self).wf(),
            exists|now: i64|
                #[trigger] reliability_updated(
                    old(self).spec_peers(),
                    final(self).spec_peers(),
                    old(self).spec_blacklist(),
                    final(self).spec_blacklist(),
                    peer_id@,
                    delta_milli,
                    now,
                ),
    {
        let now = crate::identity::utc_now();
        self.update_reliability_at(peer_id, delta_milli, now);
        assert(reliability_updated(
            old(self).spec_peers(),
            self.spec_peers(),
            old(self).spec_blacklist(),
            self.spec_blacklist(),
            peer_id@,
            delta_milli,
            now,
        ));
    }
}


/// The peers not stale at `now`, in order.
pub open spec fn fresh_peers(s: Seq<PeerInfo>, max_age: i64, now: i64) -> Seq<PeerInfo>
    decreases s.len(),
{
    if s.len() == 0 {
        s
    } else if stale_at(s.last(), max_age, now) {
        fresh_peers(s.drop_last(), max_age, now)
    } else {
        fresh_peers(s.drop_last(), max_age, now).push(s.last())
    }
}

/// Keeping the fresh peers keeps ids unique, and keeps only peers of `s`.
proof fn lemma_fresh_unique(s: Seq<PeerInfo>, max_age: i64, now: i64)
    requires
        unique_peers(s),
    ensures
        unique_peers(fresh_peers(s, max_age, now)),
        forall|t: int| 0 <= t < fresh_peers(s, max_age, now).len() ==> s.contains(#[trigger] fresh_peers(s, max_age, now)[t]),
    decreases s.len(),
{
    if s.len() > 0 {
        let d = s.drop_last();
        assert forall|i: int, j: int| 0 <= i < j < d.len() implies #[trigger] d[i].peer_id@ != #[trigger] d[j].peer_id@ by {
            assert(d[i] == s[i] && d[j] == s[j]);
        }
        lemma_fresh_unique(d, max_age, now);
        let u = fresh_peers(d, max_age, now);
        assert forall|t: int| 0 <= t < u.len() implies s.contains(#[trigger] u[t]) by {
            let j = choose|j: int| 0 <= j < d.len() && d[j] == u[t];
            assert(s[j] == u[t]);
        }
        if !stale_at(s.last(), max_age, now) {
            assert forall|t: int| 0 <= t < u.len() implies #[trigger] u[t].peer_id@ != s.last().peer_id@ by {
                let j = choose|j: int| 0 <= j < d.len() && d[j] == u[t];
                assert(s[j] == u[t]);
                assert(s[j].peer_id@ != s[s.len() - 1].peer_id@);
            }
            lemma_peer_push_unique(u, s.last());
            assert(s.contains(s.last())) by {
                assert(s[s.len() - 1] == s.last());
            }
        }
    }
}

/// The blacklist entries still in force at `now`, in order.
pub open spec fn live_entries(s: Seq<(String, i64)>, now: i64) -> Seq<(String, i64)>
    decreases s.len(),
{
    if s.len() == 0 {
        s
    } else if now < s.last().1 {
        live_entries(s.drop_last(), now).push(s.last())
    } else {
        live_entries(s.drop_last(), now)
    }
}

impl PeerManager {
    /// Number of peers in `s` eligible for `required` bytes at `now`.
    pub open spec fn eligible_count(&self, s: Seq<PeerInfo>, required: u64, now: i64) -> nat
        decreases s.len(),
    {
        if s.len() == 0 {
            0
        } else {
            self.eligible_count(s.drop_last(), required, now) + if self.eligible(s.last(), required, now) { 1nat } else { 0nat }
        }
    }

    /// Number of peers in `s` healthy at `now`.
    pub open spec fn healthy_count(&self, s: Seq<PeerInfo>, now: i64) -> nat
        decreases s.len(),
    {
        if s.len() == 0 {
            0
        } else {
            self.healthy_count(s.drop_last(), now) + if self.healthy(s.last(), now) { 1nat } else { 0nat }
        }
    }

    /// Sum of the available storage of the peers in `s` healthy at `now`.
    pub open spec fn healthy_available(&self, s: Seq<PeerInfo>, now: i64) -> nat
        decreases s.len(),
    {
        if s.len() == 0 {
            0
        } else {
            self.healthy_available(s.drop_last(), now) + if self.healthy(s.last(), now) {
                s.last().storage_available as nat
            } else {
                0nat
            }
        }
    }

    fn is_healthy_at(&self, p: &PeerInfo, now: i64) -> (r: bool)
        ensures
            r == self.healthy(*p, now),
    {
        !self.is_blacklisted_at(p.peer_id.as_str(), now) && p.reliability_milli >= self.min_reliability_milli
            && !p.is_stale_at(self.max_age_seconds, now)
    }

    /// Drops peers stale at `now` and blacklist entries no longer in force.
    pub fn prune_stale_at(&mut self, now: i64)
        requires
            old(self).wf(),
        ensures
            final(self).wf(),
            final(self).spec_peers() == fresh_peers(old(self).spec_peers(), old(self).spec_max_age(), now),
            final(self).spec_blacklist() == live_entries(old(self).spec_blacklist(), now),
            final(self).spec_min_reliability() == old(self).spec_min_reliability(),
            final(self).spec_max_age() == old(self).spec_max_age(),
    {
        let mut kept: Vec<PeerInfo> = Vec::new();
        let mut rest: Vec<PeerInfo> = Vec::new();
        std::mem::swap(&mut self.peers, &mut rest);
        let ghost all = rest@;
        let mut reversed: Vec<PeerInfo> = Vec::new();
        while rest.len() > 0
            invariant
                reversed@.len() + rest@.len() == all.len(),
                rest@ == all.subrange(0, rest@.len() as int),
                forall|t: int| 0 <= t < reversed@.len() ==> #[trigger] reversed@[t] == all[all.len() - 1 - t],
            decreases rest@.len(),
        {
            let p = rest.pop().unwrap();
            reversed.push(p);
        }
        while reversed.len() > 0
            invariant
                reversed@.len() <= all.len(),
                forall|t: int| 0 <= t < reversed@.len() ==> #[trigger] reversed@[t] == all[all.len() - 1 - t],
                kept@ == fresh_peers(all.subrange(0, all.len() - reversed@.len()), self.max_age_seconds, now),
                self.max_age_seconds == old(self).max_age_seconds,
            decreases reversed@.len(),
        {
            let ghost done = all.len() - reversed@.len();
            let p = reversed.pop().unwrap();
            assert(p == all[done]);
            assert(all.subrange(0, done + 1).drop_last() =~= all.subrange(0, done));
            if !p.is_stale_at(self.max_age_seconds, now) {
                kept.push(p);
            }
        }
        assert(all.subrange(0, all.len() as int) =~= all);
        proof {
            lemma_fresh_unique(all, self.max_age_seconds, now);
        }
        self.peers = kept;
        let mut live: Vec<(String, i64)> = Vec::new();
        let mut j: usize = 0;
        while j < self.blacklist.len()
            invariant
                j <= self.blacklist@.len(),
                self.blacklist@ == old(self).blacklist@,
                live@ == live_entries(self.blacklist@.subrange(0, j as int), now),
            decreases self.blacklist@.len() - j,
        {
            assert(self.blacklist@.subrange(0, j + 1).drop_last() =~= self.blacklist@.subrange(0, j as int));
            if now < self.blacklist[j].1 {
                let e = (self.blacklist[j].0.clone(), self.blacklist[j].1);
                live.push(e);
            }
            j = j + 1;
        }
        assert(self.blacklist@.subrange(0, j as int) =~= self.blacklist@);
        self.blacklist = live;
    }

    /// `prune_stale_at` with the current time.
    pub fn prune_stale(&mut self)
        requires
            old(self).wf(),
        ensures
            final(self).wf(),
            final(self).spec_min_reliability() == old(self).spec_min_reliability(),
            final(self).spec_max_age() == old(self).spec_max_age(),
            exists|now: i64|
                final(self).spec_peers() == #[trigger] fresh_peers(old(self).spec_peers(), old(self).spec_max_age(), now)
                    && final(self).spec_blacklist() == live_entries(old(self).spec_blacklist(), now),
    {
        let now = crate::identity::utc_now();
        self.prune_stale_at(now);
        assert(self.spec_peers() == fresh_peers(old(self).spec_peers(), old(self).spec_max_age(), now));
    }

    /// Up to `count` peers eligible for `required_bytes` at `now` (not blacklisted,
    /// reliable enough, not stale, enough space), best score first, ties in order of first
    /// sight; every eligible peer left out scores no higher than any returned.
    pub fn select_storage_peers_at(&self, required_bytes: u64, count: usize, now: i64) -> (r: Vec<&PeerInfo>)
        requires
            self.wf(),
        ensures
            self.selected(r@, required_bytes, count, now),
    {
        let ghost peers = self.peers@;
        let mut cand: Vec<usize> = Vec::new();
        let mut k: usize = 0;
        while k < self.peers.len()
            invariant
                k <= peers.len(),
                peers == self.peers@,
                cand@.len() == self.eligible_count(peers.subrange(0, k as int), required_bytes, now),
                forall|t: int| 0 <= t < cand@.len() ==> #[trigger] cand@[t] < k,
                forall|t: int| 0 <= t < cand@.len() ==> self.eligible(peers[#[trigger] cand@[t] as int], required_bytes, now),
                forall|a: int, b: int|
                    0 <= a < b < cand@.len() ==> score_of(peers[#[trigger] cand@[a] as int]) > score_of(peers[#[trigger] cand@[b] as int])
                        || (score_of(peers[cand@[a] as int]) == score_of(peers[cand@[b] as int]) && cand@[a] < cand@[b]),
                forall|q: int|
                    0 <= q < k && #[trigger] self.eligible(peers[q], required_bytes, now) ==> exists|t: int|
                        0 <= t < cand@.len() && cand@[t] == q,
            decreases peers.len() - k,
        {
            assert(peers.subrange(0, k + 1).drop_last() =~= peers.subrange(0, k as int));
            let p = &self.peers[k];
            let eligible = self.is_healthy_at(p, now) && p.storage_available >= required_bytes;
            if eligible {
                let sk = p.score();
                let mut t: usize = 0;
                while t < cand.len() && self.peers[cand[t]].score() >= sk
                    invariant
                        t <= cand@.len(),
                        peers == self.peers@,
                        forall|u: int| 0 <= u < cand@.len() ==> #[trigger] cand@[u] < k,
                        k < peers.len(),
                        sk == score_of(peers[k as int]),
                        forall|u: int| 0 <= u < t ==> score_of(peers[#[trigger] cand@[u] as int]) >= sk,
                    decreases cand@.len() - t,
                {
                    t = t + 1;
                }
                let ghost before = cand@;
                cand.insert(t, k);
                proof {
                    assert forall|a: int, b: int| 0 <= a < b < cand@.len() implies score_of(peers[#[trigger] cand@[a] as int])
                        > score_of(peers[#[trigger] cand@[b] as int]) || (score_of(peers[cand@[a] as int]) == score_of(
                        peers[cand@[b] as int],
                    ) && cand@[a] < cand@[b]) by {
                        if b > t {
                            assert(cand@[b] == before[b - 1]);
                            assert(score_of(peers[before[t as int] as int]) < sk);
                            if b - 1 > t {
                                assert(score_of(peers[before[t as int] as int]) >= score_of(peers[before[b - 1] as int]));
                            }
                            if a < t {
                                assert(cand@[a] == before[a]);
                                assert(score_of(peers[before[a] as int]) >= sk);
                            } else if a > t {
                                assert(cand@[a] == before[a - 1]);
                            }
                        } else if b == t {
                            assert(cand@[a] == before[a]);
                            assert(before[a] < k);
                        } else {
                            assert(cand@[a] == before[a] && cand@[b] == before[b]);
                        }
                    }
                    assert forall|q: int| 0 <= q < k + 1 && #[trigger] self.eligible(peers[q], required_bytes, now) implies exists|u: int|
                        0 <= u < cand@.len() && cand@[u] == q by {
                        if q == k {
                            assert(cand@[t as int] == q);
                        } else {
                            let u0 = choose|u: int| 0 <= u < before.len() && before[u] == q;
                            if u0 < t {
                                assert(cand@[u0] == q);
                            } else {
                                assert(cand@[u0 + 1] == q);
                            }
                        }
                    }
                }
            } else {
                proof {
                    assert forall|q: int| 0 <= q < k + 1 && #[trigger] self.eligible(peers[q], required_bytes, now) implies exists|u: int|
                        0 <= u < cand@.len() && cand@[u] == q by {
                        assert(q < k);
                    }
                }
            }
            k = k + 1;
        }
        assert(peers.subrange(0, k as int) =~= peers);
        let n = if count < cand.len() { count } else { cand.len() };
        let mut out: Vec<&PeerInfo> = Vec::new();
        let mut i: usize = 0;
        while i < n
            invariant
                n <= cand@.len(),
                i <= n,
                peers == self.peers@,
                forall|t: int| 0 <= t < cand@.len() ==> #[trigger] cand@[t] < peers.len(),
                out@.len() == i,
                forall|t: int| 0 <= t < i ==> *#[trigger] out@[t] == peers[cand@[t] as int],
            decreases n - i,
        {
            out.push(&self.peers[cand[i]]);
            i = i + 1;
        }
        proof {
            assert forall|t: int| 0 <= t < out@.len() implies self.spec_peers().contains(*#[trigger] out@[t]) by {
                assert(peers[cand@[t] as int] == *out@[t]);
            }
            assert forall|a: int, b: int| 0 <= a < b < out@.len() implies #[trigger] out@[a].peer_id@ != #[trigger] out@[b].peer_id@
                && (score_of(*out@[a]) == score_of(*out@[b]) ==> peer_index(peers, out@[a].peer_id@) < peer_index(
                peers,
                out@[b].peer_id@,
            )) by {
                assert(*out@[a] == peers[cand@[a] as int] && *out@[b] == peers[cand@[b] as int]);
                lemma_peer_unique_index(peers, cand@[a] as int);
                lemma_peer_unique_index(peers, cand@[b] as int);
                assert(cand@[a] != cand@[b]);
                if cand@[a] < cand@[b] {
                    assert(peers[cand@[a] as int].peer_id@ != peers[cand@[b] as int].peer_id@);
                } else {
                    assert(peers[cand@[b] as int].peer_id@ != peers[cand@[a] as int].peer_id@);
                }
            }
            assert forall|q: int|
                0 <= q < peers.len() && #[trigger] self.eligible(peers[q], required_bytes, now) implies (exists|u: int|
                0 <= u < out@.len() && *out@[u] == peers[q]) || (forall|u: int|
                0 <= u < out@.len() ==> score_of(*#[trigger] out@[u]) >= score_of(peers[q])) by {
                let u0 = choose|u: int| 0 <= u < cand@.len() && cand@[u] == q;
                if u0 < n {
                    assert(*out@[u0] == peers[q]);
                } else {
                    assert forall|u: int| 0 <= u < out@.len() implies score_of(*#[trigger] out@[u]) >= score_of(peers[q]) by {
                        assert(*out@[u] == peers[cand@[u] as int]);
                    }
                }
            }
        }
        out
    }

    /// `select_storage_peers_at` with the current time.
    pub fn select_storage_peers(&self, required_bytes: u64, count: usize) -> (r: Vec<&PeerInfo>)
        requires
            self.wf(),
        ensures
            exists|now: i64| #[trigger] self.selected(r@, required_bytes, count, now),
    {
        let now = crate::identity::utc_now();
        let r = self.select_storage_peers_at(required_bytes, count, now);
        assert(self.selected(r@, required_bytes, count, now));
        r
    }

    /// `r` lists peers of the registry, all healthy at `now`, as many as are healthy.
    pub open spec fn healthy_list(&self, r: Seq<&PeerInfo>, now: i64) -> bool {
        &&& r.len() == self.healthy_count(self.spec_peers(), now)
        &&& forall|i: int| 0 <= i < r.len() ==> self.spec_peers().contains(*#[trigger] r[i])
        &&& self.all_healthy(r, now)
    }

    /// The peers healthy at `now`, in order.
    pub fn healthy_peers_at(&self, now: i64) -> (r: Vec<&PeerInfo>)
        ensures
            self.healthy_list(r@, now),
    {
        let mut out: Vec<&PeerInfo> = Vec::new();
        let mut i: usize = 0;
        while i < self.peers.len()
            invariant
                i <= self.peers@.len(),
                out@.len() == self.healthy_count(self.peers@.subrange(0, i as int), now),
                forall|t: int| 0 <= t < out@.len() ==> self.peers@.contains(*#[trigger] out@[t]),
                forall|t: int| 0 <= t < out@.len() ==> self.healthy(*#[trigger] out@[t], now),
            decreases self.peers@.len() - i,
        {
            assert(self.peers@.subrange(0, i + 1).drop_last() =~= self.peers@.subrange(0, i as int));
            let p = &self.peers[i];
            if self.is_healthy_at(p, now) {
                out.push(p);
                assert(self.peers@[i as int] == *p);
            }
            i = i + 1;
        }
        assert(self.peers@.subrange(0, i as int) =~= self.peers@);
        out
    }

    /// `healthy_peers_at` with the current time.
    pub fn healthy_peers(&self) -> (r: Vec<&PeerInfo>)
        ensures
            exists|now: i64| #[trigger] self.healthy_list(r@, now),
    {
        let now = crate::identity::utc_now();
        let r = self.healthy_peers_at(now);
        assert(self.healthy_list(r@, now));
        r
    }

    /// Storage available on the peers healthy at `now`, saturating at `u64::MAX`.
    pub fn total_available_storage_at(&self, now: i64) -> (r: u64)
        ensures
            r == if self.healthy_available(self.spec_peers(), now) <= u64::MAX {
                self.healthy_available(self.spec_peers(), now)
            } else {
                u64::MAX as nat
            },
    {
        let mut sum: u64 = 0;
        let mut i: usize = 0;
        while i < self.peers.len()
            invariant
                i <= self.peers@.len(),
                sum == if self.healthy_available(self.peers@.subrange(0, i as int), now) <= u64::MAX {
                    self.healthy_available(self.peers@.subrange(0, i as int), now)
                } else {
                    u64::MAX as nat
                },
            decreases self.peers@.len() - i,
        {
            assert(self.peers@.subrange(0, i + 1).drop_last() =~= self.peers@.subrange(0, i as int));
            let p = &self.peers[i];
            if self.is_healthy_at(p, now) {
                sum = sum.saturating_add(p.storage_available);
            }
            i = i + 1;
        }
        assert(self.peers@.subrange(0, i as int) =~= self.peers@);
        sum
    }

    /// `total_available_storage_at` with the current time.
    pub fn total_available_storage(&self) -> (r: u64)
        ensures
            exists|now: i64|
                r == if #[trigger] self.healthy_available(self.spec_peers(), now) <= u64::MAX {
                    self.healthy_available(self.spec_peers(), now)
                } else {
                    u64::MAX as nat
                },
    {
        let now = crate::identity::utc_now();
        self.total_available_storage_at(now)
    }

    /// Number of known peers.
    pub fn peer_count(&self) -> (r: usize)
        ensures
            r == self.spec_peers().len(),
    {
        self.peers.len()
    }

    /// Number of peers healthy at `now`.
    pub fn healthy_peer_count_at(&self, now: i64) -> (r: usize)
        ensures
            r == self.healthy_count(self.spec_peers(), now),
    {
        self.healthy_peers_at(now).len()
    }

    /// `healthy_peer_count_at` with the current time.
    pub fn healthy_peer_count(&self) -> (r: usize)
        ensures
            exists|now: i64| r == #[trigger] self.healthy_count(self.spec_peers(), now),
    {
        let now = crate::identity::utc_now();
        self.healthy_peer_count_at(now)
    }
}

impl Default for PeerManager {
    fn default() -> (r: PeerManager)
        ensures
            r.wf(),
            r.spec_peers().len() == 0,
            r.spec_min_reliability() == 300,
            r.spec_max_age() == 3600,
    {
        PeerManager::new()
    }
}

} // verus!
