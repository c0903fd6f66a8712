//! The hosted-fragment index: admission, integrity on retrieval, expiry, renewal,
//! proof of storage and statistics. Reading and writing the fragment files is left to the
//! caller, which hands the bytes in and writes at the paths given out.
use vstd::prelude::*;
use vstd::string::*;
use crate::hashing::{ContentHash, base58_of, blake3_of};
use crate::identity::UserIdentity;
use crate::protocol::expiry_after;

verus! {

/// A fragment hosted for an owner.
#[derive(Debug, Clone)]
pub struct StoredFragment {
    pub fragment_id: String,
    pub owner_id: String,
    pub size_bytes: u64,
    /// Base58 of the content hash taken on ingest.
    pub content_hash: String,
    pub created_at: i64,
    pub expires_at: i64,
    /// `fragments/<first two characters of the id>/<id>`, under the storage path.
    pub local_path: String,
    pub access_count: u64,
    pub last_accessed: i64,
}

impl StoredFragment {
    /// A field-by-field copy.
    pub fn copy_record(&self) -> (r: StoredFragment)
        ensures
            r == *self,
    {
        StoredFragment {
            fragment_id: self.fragment_id.clone(),
            owner_id: self.owner_id.clone(),
            size_bytes: self.size_bytes,
            content_hash: self.content_hash.clone(),
            created_at: self.created_at,
            expires_at: self.expires_at,
            local_path: self.local_path.clone(),
            access_count: self.access_count,
            last_accessed: self.last_accessed,
        }
    }
}

/// Why a fragment operation failed.
#[derive(Debug, Clone, Copy, PartialEq, Eq)]
pub enum FragmentError {
    NotFound,
    InsufficientSpace,
    Expired,
    IntegrityCheckFailed,
    InvalidRequest,
}

/// Totals over the hosted fragments.
#[derive(Debug, Clone, PartialEq, Eq)]
pub struct StorageStats {
    pub total_offered: u64,
    pub used_bytes: u64,
    pub available_bytes: u64,
    pub fragment_count: u64,
    pub unique_owners: u64,
    pub fragments_expiring_soon: u64,
}

/// Sum of fragment sizes.
pub open spec fn sum_sizes(s: Seq<StoredFragment>) -> nat
    decreases s.len(),
{
    if s.len() == 0 { 0 } else { sum_sizes(s.drop_last()) + s.last().size_bytes as nat }
}

proof fn lemma_sum_push(s: Seq<StoredFragment>, x: StoredFragment)
    ensures
        sum_sizes(s.push(x)) == sum_sizes(s) + x.size_bytes,
{
    assert(s.push(x).drop_last() =~= s);
}

proof fn lemma_sum_update(s: Seq<StoredFragment>, i: int, x: StoredFragment)
    requires
        0 <= i < s.len(),
    ensures
        sum_sizes(s.update(i, x)) == sum_sizes(s) - s[i].size_bytes + x.size_bytes,
    decreases s.len(),
{
    if i < s.len() - 1 {
        lemma_sum_update(s.drop_last(), i, x);
        assert(s.update(i, x).drop_last() =~= s.drop_last().update(i, x));
    } else {
        assert(s.update(i, x).drop_last() =~= s.drop_last());
    }
}

proof fn lemma_sum_remove(s: Seq<StoredFragment>, i: int)
    requires
        0 <= i < s.len(),
    ensures
        sum_sizes(s.remove(i)) == sum_sizes(s) - s[i].size_bytes,
    decreases s.len(),
{
    if i < s.len() - 1 {
        lemma_sum_remove(s.drop_last(), i);
        assert(s.remove(i).drop_last() =~= s.drop_last().remove(i));
    } else {
        assert(s.remove(i) =~= s.drop_last());
    }
}

proof fn lemma_prefix_sum_le(s: Seq<StoredFragment>, n: int)
    requires
        0 <= n <= s.len(),
    ensures
        sum_sizes(s.subrange(0, n)) <= sum_sizes(s),
    decreases s.len() - n,
{
    if n < s.len() {
        lemma_prefix_sum_le(s, n + 1);
        assert(s.subrange(0, n + 1).drop_last() =~= s.subrange(0, n));
    } else {
        assert(s.subrange(0, n) =~= s);
    }
}

/// The first position of fragment `id`, or -1.
pub open spec fn fragment_index_of(s: Seq<StoredFragment>, id: Seq<char>) -> int
    decreases s.len(),
{
    if s.len() == 0 {
        -1
    } else if s[0].fragment_id@ == id {
        0
    } else {
        let r = fragment_index_of(s.drop_first(), id);
        if r < 0 { -1 } else { r + 1 }
    }
}

proof fn lemma_fragment_index_of(s: Seq<StoredFragment>, id: Seq<char>)
    ensures
        -1 <= fragment_index_of(s, id) < s.len(),
        fragment_index_of(s, id) >= 0 ==> s[fragment_index_of(s, id)].fragment_id@ == id,
        forall|j: int|
            0 <= j < s.len() && (fragment_index_of(s, id) < 0 || j < fragment_index_of(s, id)) ==> #[trigger] s[j].fragment_id@
                != id,
    decreases s.len(),
{
    if s.len() > 0 {
        let d = s.drop_first();
        lemma_fragment_index_of(d, id);
        let r = fragment_index_of(d, id);
        assert(fragment_index_of(s, id) == if s[0].fragment_id@ == id { 0 } else if r < 0 { -1 } else { r + 1 });
        assert forall|j: int|
            0 <= j < s.len() && (fragment_index_of(s, id) < 0 || j < fragment_index_of(s, id)) implies #[trigger] s[j].fragment_id@
            != id by {
            if j > 0 {
                assert(d[j - 1] == s[j]);
                assert(r < 0 || j - 1 < r);
                assert(d[j - 1].fragment_id@ != id);
            } else {
                assert(s[0].fragment_id@ != id);
            }
        }
    }
}

/// No fragment id occurs twice.
pub open spec fn unique_ids(s: Seq<StoredFragment>) -> bool {
    forall|i: int, j: int| 0 <= i < j < s.len() ==> #[trigger] s[i].fragment_id@ != #[trigger] s[j].fragment_id@
}

/// Removing the only record of an id leaves no record of it.
proof fn lemma_remove_absent(s: Seq<StoredFragment>, k: int)
    requires
        unique_ids(s),
        0 <= k < s.len(),
    ensures
        unique_ids(s.remove(k)),
        fragment_index_of(s.remove(k), s[k].fragment_id@) < 0,
{
    let r = s.remove(k);
    assert forall|i: int, j: int| 0 <= i < j < r.len() implies #[trigger] r[i].fragment_id@ != #[trigger] r[j].fragment_id@ by {
        let i0 = if i < k { i } else { i + 1 };
        let j0 = if j < k { j } else { j + 1 };
        assert(r[i] == s[i0] && r[j] == s[j0]);
        assert(s[i0].fragment_id@ != s[j0].fragment_id@);
    }
    lemma_fragment_index_of(r, s[k].fragment_id@);
    let t = fragment_index_of(r, s[k].fragment_id@);
    if t >= 0 {
        let t0 = if t < k { t } else { t + 1 };
        assert(r[t] == s[t0]);
        if t0 < k {
            assert(s[t0].fragment_id@ != s[k].fragment_id@);
        } else {
            assert(s[k].fragment_id@ != s[t0].fragment_id@);
        }
    }
}

/// Appending a record whose id is absent keeps ids unique.
proof fn lemma_push_unique(s: Seq<StoredFragment>, x: StoredFragment)
    requires
        unique_ids(s),
        forall|j: int| 0 <= j < s.len() ==> #[trigger] s[j].fragment_id@ != x.fragment_id@,
    ensures
        unique_ids(s.push(x)),
{
    let r = s.push(x);
    assert forall|i: int, j: int| 0 <= i < j < r.len() implies #[trigger] r[i].fragment_id@ != #[trigger] r[j].fragment_id@ by {
        if j == s.len() {
            assert(r[i] == s[i]);
        } else {
            assert(r[i] == s[i] && r[j] == s[j]);
        }
    }
}

/// Keeping the unexpired records keeps ids unique, and keeps only records of `s`.
proof fn lemma_unexpired(s: Seq<StoredFragment>, now: i64)
    requires
        unique_ids(s),
    ensures
        unique_ids(unexpired(s, now)),
        forall|t: int|
            0 <= t < unexpired(s, now).len() ==> s.contains(#[trigger] unexpired(s, now)[t]) && !(now
                > unexpired(s, now)[t].expires_at),
    decreases s.len(),
{
    if s.len() > 0 {
        let d = s.drop_last();
        assert forall|i: int, j: int| 0 <= i < j < d.len() implies #[trigger] d[i].fragment_id@ != #[trigger] d[j].fragment_id@ by {
            assert(d[i] == s[i] && d[j] == s[j]);
        }
        lemma_unexpired(d, now);
        let u = unexpired(d, now);
        assert forall|t: int| 0 <= t < u.len() implies s.contains(#[trigger] u[t]) by {
            let j = choose|j: int| 0 <= j < d.len() && d[j] == u[t];
            assert(s[j] == u[t]);
        }
        if !(now > s.last().expires_at) {
            assert forall|t: int| 0 <= t < u.len() implies #[trigger] u[t].fragment_id@ != s.last().fragment_id@ by {
                let j = choose|j: int| 0 <= j < d.len() && d[j] == u[t];
                assert(s[j] == u[t]);
                assert(s[j].fragment_id@ != s[s.len() - 1].fragment_id@);
            }
            lemma_push_unique(u, s.last());
            assert(s.contains(s.last())) by {
                assert(s[s.len() - 1] == s.last());
            }
        }
    }
}

/// Replacing a record by one with the same id keeps ids unique.
proof fn lemma_update_unique(s: Seq<StoredFragment>, k: int, x: StoredFragment)
    requires
        unique_ids(s),
        0 <= k < s.len(),
        x.fragment_id@ == s[k].fragment_id@,
    ensures
        unique_ids(s.update(k, x)),
{
    let r = s.update(k, x);
    assert forall|i: int, j: int| 0 <= i < j < r.len() implies #[trigger] r[i].fragment_id@ != #[trigger] r[j].fragment_id@ by {
        assert(r[i].fragment_id@ == s[i].fragment_id@);
        assert(r[j].fragment_id@ == s[j].fragment_id@);
    }
}

/// The path of a fragment: `fragments/<first two characters>/<id>`.
pub open spec fn fragment_path(id: Seq<char>) -> Seq<char> {
    "fragments/"@ + id.subrange(0, 2) + "/"@ + id
}

/// Number of fragments expiring within seven days of `now`.
pub open spec fn expiring_count(s: Seq<StoredFragment>, now: i64) -> nat
    decreases s.len(),
{
    if s.len() == 0 {
        0
    } else {
        expiring_count(s.drop_last(), now) + if s.last().expires_at - now < 7 * 86400 { 1nat } else { 0nat }
    }
}

/// Index of hosted fragments with its space accounting.
pub struct StorageManager {
    storage_path: String,
    max_storage_bytes: u64,
    used_storage_bytes: u64,
    fragment_index: Vec<StoredFragment>,
    identity: Option<UserIdentity>,
}

impl StorageManager {
    /// The fragments, in order of first storage.
    pub closed spec fn spec_index(&self) -> Seq<StoredFragment> {
        self.fragment_index@
    }

    pub closed spec fn spec_max(&self) -> u64 {
        self.max_storage_bytes
    }

    pub closed spec fn spec_used(&self) -> u64 {
        self.used_storage_bytes
    }

    /// Used space is the sum of the hosted sizes, and no id is hosted twice.
    pub open spec fn wf(&self) -> bool {
        &&& self.spec_used() == sum_sizes(self.spec_index())
        &&& unique_ids(self.spec_index())
    }

    /// The record of `id`, if hosted.
    pub open spec fn fragment_of(&self, id: Seq<char>) -> Option<StoredFragment> {
        let i = fragment_index_of(self.spec_index(), id);
        if i >= 0 { Some(self.spec_index()[i]) } else { None }
    }

    /// An empty store offering `max_storage_bytes`.
    pub fn new(storage_path: String, max_storage_bytes: u64) -> (r: StorageManager)
        ensures
            r.wf(),
            r.spec_index().len() == 0,
            r.spec_max() == max_storage_bytes,
            r.spec_used() == 0,
    {
        StorageManager { storage_path, max_storage_bytes, used_storage_bytes: 0, fragment_index: Vec::new(), identity: None }
    }

    /// Sets the identity used for signing.
    pub fn set_identity(&mut self, identity: UserIdentity)
        ensures
            final(self).spec_index() == old(self).spec_index(),
            final(self).spec_used() == old(self).spec_used(),
            final(self).spec_max() == old(self).spec_max(),
    {
        self.identity = Some(identity);
    }

    /// Replaces the index with one loaded from disk and recomputes the used space; fails
    /// (keeping the old index) when the sizes overflow.
    pub fn load_index(&mut self, fragments: Vec<StoredFragment>) -> (r: bool)
        ensures
            r <==> (sum_sizes(fragments@) <= u64::MAX && unique_ids(fragments@)),
            r ==> final(self).spec_index() == fragments@ && final(self).wf() && final(self).spec_max() == old(self).spec_max(),
            !r ==> final(self).spec_index() == old(self).spec_index() && final(self).spec_used() == old(self).spec_used(),
    {
        let mut sum: u128 = 0;
        let mut i: usize = 0;
        while i < fragments.len()
            invariant
                i <= fragments@.len(),
                sum == sum_sizes(fragments@.subrange(0, i as int)),
                sum <= u64::MAX,
            decreases fragments@.len() - i,
        {
            assert(fragments@.subrange(0, i + 1).drop_last() =~= fragments@.subrange(0, i as int));
            sum = sum + fragments[i].size_bytes as u128;
            i = i + 1;
            if sum > u64::MAX as u128 {
                proof {
                    lemma_prefix_sum_le(fragments@, i as int);
                }
                return false;
            }
        }
        assert(fragments@.subrange(0, i as int) =~= fragments@);
        let mut a: usize = 0;
        while a < fragments.len()
            invariant
                a <= fragments@.len(),
                forall|x: int, y: int|
                    0 <= x < y < fragments@.len() && x < a ==> #[trigger] fragments@[x].fragment_id@
                        != #[trigger] fragments@[y].fragment_id@,
            decreases fragments@.len() - a,
        {
            let mut b: usize = a + 1;
            while b < fragments.len()
                invariant
                    a < fragments@.len(),
                    a + 1 <= b <= fragments@.len(),
                    forall|x: int, y: int|
                        0 <= x < y < fragments@.len() && x < a ==> #[trigger] fragments@[x].fragment_id@
                            != #[trigger] fragments@[y].fragment_id@,
                    forall|y: int| a < y < b ==> fragments@[a as int].fragment_id@ != #[trigger] fragments@[y].fragment_id@,
                decreases fragments@.len() - b,
            {
                if fragments[a].fragment_id == fragments[b].fragment_id {
                    assert(!unique_ids(fragments@)) by {
                        assert(fragments@[a as int].fragment_id@ == fragments@[b as int].fragment_id@);
                    }
                    return false;
                }
                b = b + 1;
            }
            a = a + 1;
        }
        self.fragment_index = fragments;
        self.used_storage_bytes = sum as u64;
        true
    }
}


/// The fragments still valid at `now`, in order.
pub open spec fn unexpired(s: Seq<StoredFragment>, now: i64) -> Seq<StoredFragment>
    decreases s.len(),
{
    if s.len() == 0 {
        s
    } else if now > s.last().expires_at {
        unexpired(s.drop_last(), now)
    } else {
        unexpired(s.drop_last(), now).push(s.last())
    }
}

/// The fragments expired at `now`, in order.
pub open spec fn expired(s: Seq<StoredFragment>, now: i64) -> Seq<StoredFragment>
    decreases s.len(),
{
    if s.len() == 0 {
        s
    } else if now > s.last().expires_at {
        expired(s.drop_last(), now).push(s.last())
    } else {
        expired(s.drop_last(), now)
    }
}

proof fn lemma_split_sum(s: Seq<StoredFragment>, now: i64)
    ensures
        sum_sizes(unexpired(s, now)) + sum_sizes(expired(s, now)) == sum_sizes(s),
    decreases s.len(),
{
    if s.len() > 0 {
        lemma_split_sum(s.drop_last(), now);
        lemma_sum_push(unexpired(s.drop_last(), now), s.last());
        lemma_sum_push(expired(s.drop_last(), now), s.last());
    }
}

/// Whether `owner` holds a fragment among `s`.
pub open spec fn has_owner(s: Seq<StoredFragment>, owner: Seq<char>) -> bool {
    exists|j: int| 0 <= j < s.len() && (#[trigger] s[j]).owner_id@ == owner
}

/// Number of distinct owners.
pub open spec fn owner_count(s: Seq<StoredFragment>) -> nat
    decreases s.len(),
{
    if s.len() == 0 {
        0
    } else {
        owner_count(s.drop_last()) + if has_owner(s.drop_last(), s.last().owner_id@) { 0nat } else { 1nat }
    }
}

/// `after` is `before` with every fragment of `owner` renewed to `expiry`.
pub open spec fn renewed_all(before: Seq<StoredFragment>, after: Seq<StoredFragment>, owner: Seq<char>, expiry: i64) -> bool {
    &&& after.len() == before.len()
    &&& forall|i: int| 0 <= i < before.len() ==> #[trigger] after[i] == renewed(before[i], owner, expiry)
}

/// `f` renewed to `expiry` when owned by `owner`, else unchanged.
pub open spec fn renewed(f: StoredFragment, owner: Seq<char>, expiry: i64) -> StoredFragment {
    if f.owner_id@ == owner { StoredFragment { expires_at: expiry, ..f } } else { f }
}

impl StorageManager {
    fn find(&self, fragment_id: &str) -> (r: Option<usize>)
        ensures
            r matches Some(i) ==> i == fragment_index_of(self.fragment_index@, fragment_id@) && i < self.fragment_index@.len(),
            r is None ==> fragment_index_of(self.fragment_index@, fragment_id@) < 0,
    {
        proof {
            lemma_fragment_index_of(self.fragment_index@, fragment_id@);
        }
        let id = String::from_str(fragment_id);
        let mut i: usize = 0;
        while i < self.fragment_index.len()
            invariant
                i <= self.fragment_index@.len(),
                id@ == fragment_id@,
                forall|j: int| 0 <= j < i ==> #[trigger] self.fragment_index@[j].fragment_id@ != fragment_id@,
                -1 <= fragment_index_of(self.fragment_index@, fragment_id@) < self.fragment_index@.len(),
                fragment_index_of(self.fragment_index@, fragment_id@) >= 0 ==> self.fragment_index@[fragment_index_of(
                    self.fragment_index@,
                    fragment_id@,
                )].fragment_id@ == fragment_id@,
                forall|j: int|
                    0 <= j < self.fragment_index@.len() && (fragment_index_of(self.fragment_index@, fragment_id@) < 0 || j
                        < fragment_index_of(self.fragment_index@, fragment_id@)) ==> #[trigger] self.fragment_index@[j].fragment_id@
                        != fragment_id@,
            decreases self.fragment_index@.len() - i,
        {
            if self.fragment_index[i].fragment_id == id {
                return Some(i);
            }
            i = i + 1;
        }
        None
    }

    /// Removes the record at `i`, releasing its space.
    fn remove_at(&mut self, i: usize) -> (r: StoredFragment)
        requires
            old(self).wf(),
            i < old(self).spec_index().len(),
        ensures
            final(self).wf(),
            r == old(self).spec_index()[i as int],
            final(self).spec_index() == old(self).spec_index().remove(i as int),
            fragment_index_of(final(self).spec_index(), r.fragment_id@) < 0,
            final(self).spec_max() == old(self).spec_max(),
    {
        proof {
            lemma_sum_remove(self.fragment_index@, i as int);
            lemma_remove_absent(self.fragment_index@, i as int);
            assert(self.fragment_index@.remove(i as int).len() + 1 == self.fragment_index@.len());
        }
        let f = self.fragment_index.remove(i);
        proof {
            assert(sum_sizes(old(self).fragment_index@) >= f.size_bytes) by {
                lemma_sum_remove(old(self).fragment_index@, i as int);
            }
        }
        self.used_storage_bytes = self.used_storage_bytes - f.size_bytes;
        f
    }

    /// The path of a fragment's file, `fragments/<first two characters>/<id>`; `None` for
    /// an id shorter than two characters.
    pub fn local_path_for(fragment_id: &str) -> (r: Option<String>)
        ensures
            fragment_id@.len() < 2 ==> r is None,
            fragment_id@.len() >= 2 ==> r is Some && r->Some_0@ == fragment_path(fragment_id@),
    {
        if fragment_id.unicode_len() < 2 {
            return None;
        }
        let mut local_path = String::from_str("fragments/");
        local_path.append(fragment_id.substring_char(0, 2));
        local_path.append("/");
        local_path.append(fragment_id);
        proof {
            reveal_strlit("fragments/");
            reveal_strlit("/");
            assert(local_path@ =~= fragment_path(fragment_id@));
        }
        Some(local_path)
    }

    /// Admits and records a fragment at `now`: fails with `InsufficientSpace` when
    /// `used + |data| > max`, with `InvalidRequest` for an id shorter than two characters;
    /// otherwise the record (hash taken now, path from the id) replaces any record with
    /// the same id, or is appended. The caller then writes `data` at the record's path.
    pub fn store_fragment(&mut self, fragment_id: &str, owner_id: &str, data: &[u8], expires_at: i64, now: i64) -> (r:
        Result<StoredFragment, FragmentError>)
        requires
            old(self).wf(),
        ensures
            final(self).wf(),
            final(self).spec_max() == old(self).spec_max(),
            old(self).spec_used() + data@.len() > old(self).spec_max() ==> r == Err::<StoredFragment, FragmentError>(
                FragmentError::InsufficientSpace,
            ),
            old(self).spec_used() + data@.len() <= old(self).spec_max() && fragment_id@.len() < 2 ==> r == Err::<
                StoredFragment,
                FragmentError,
            >(FragmentError::InvalidRequest),
            r is Err ==> final(self).spec_index() == old(self).spec_index(),
            old(self).spec_used() + data@.len() <= old(self).spec_max() && fragment_id@.len() >= 2 ==> r is Ok,
            r matches Ok(f) ==> {
                &&& f.fragment_id@ == fragment_id@
                &&& f.owner_id@ == owner_id@
                &&& f.size_bytes == data@.len()
                &&& f.content_hash@ == base58_of(blake3_of(data@))
                &&& f.created_at == now
                &&& f.expires_at == expires_at
                &&& f.local_path@ == fragment_path(fragment_id@)
                &&& f.access_count == 0
                &&& f.last_accessed == now
                &&& final(self).spec_index() == if fragment_index_of(old(self).spec_index(), fragment_id@) >= 0 {
                    old(self).spec_index().update(fragment_index_of(old(self).spec_index(), fragment_id@), f)
                } else {
                    old(self).spec_index().push(f)
                }
            },
    {
        let size = data.len() as u64;
        if self.used_storage_bytes as u128 + size as u128 > self.max_storage_bytes as u128 {
            return Err(FragmentError::InsufficientSpace);
        }
        let local_path = match StorageManager::local_path_for(fragment_id) {
            Some(p) => p,
            None => {
                return Err(FragmentError::InvalidRequest);
            },
        };
        let hash = ContentHash::hash(data);
        let fragment = StoredFragment {
            fragment_id: String::from_str(fragment_id),
            owner_id: String::from_str(owner_id),
            size_bytes: size,
            content_hash: hash.to_base58(),
            created_at: now,
            expires_at,
            local_path,
            access_count: 0,
            last_accessed: now,
        };
        match self.find(fragment_id) {
            Some(i) => {
                let old_size = self.fragment_index[i].size_bytes;
                proof {
                    lemma_sum_update(self.fragment_index@, i as int, fragment);
                    lemma_sum_remove(self.fragment_index@, i as int);
                    lemma_fragment_index_of(self.fragment_index@, fragment_id@);
                    lemma_update_unique(self.fragment_index@, i as int, fragment);
                }
                self.fragment_index.set(i, fragment.copy_record());
                self.used_storage_bytes = self.used_storage_bytes - old_size + size;
            },
            None => {
                proof {
                    lemma_sum_push(self.fragment_index@, fragment);
                    lemma_fragment_index_of(self.fragment_index@, fragment_id@);
                    lemma_push_unique(self.fragment_index@, fragment);
                }
                self.fragment_index.push(fragment.copy_record());
                self.used_storage_bytes = self.used_storage_bytes + size;
            },
        }
        Ok(fragment)
    }
}


impl StorageManager {
    /// Starts a retrieval at `now`: `NotFound` when absent; an expired fragment is dropped
    /// from the index and reported `Expired`; otherwise the path to read.
    pub fn retrieve_fragment(&mut self, fragment_id: &str, now: i64) -> (r: Result<String, FragmentError>)
        requires
            old(self).wf(),
        ensures
            final(self).wf(),
            final(self).spec_max() == old(self).spec_max(),
            old(self).fragment_of(fragment_id@) is None ==> r == Err::<String, FragmentError>(FragmentError::NotFound)
                && final(self).spec_index() == old(self).spec_index(),
            old(self).fragment_of(fragment_id@) matches Some(f) ==> if now > f.expires_at {
                r == Err::<String, FragmentError>(FragmentError::Expired) && final(self).spec_index() == old(
                    self,
                ).spec_index().remove(fragment_index_of(old(self).spec_index(), fragment_id@)) && final(self).fragment_of(
                    fragment_id@,
                ) is None && final(self).spec_used() == old(self).spec_used() - f.size_bytes
            } else {
                r is Ok && r->Ok_0@ == f.local_path@ && final(self).spec_index() == old(self).spec_index()
            },
    {
        proof {
            lemma_fragment_index_of(self.fragment_index@, fragment_id@);
        }
        match self.find(fragment_id) {
            None => Err(FragmentError::NotFound),
            Some(i) => {
                if now > self.fragment_index[i].expires_at {
                    proof {
                        lemma_sum_remove(self.fragment_index@, i as int);
                    }
                    let gone = self.remove_at(i);
                    assert(gone.fragment_id@ == fragment_id@);
                    Err(FragmentError::Expired)
                } else {
                    Ok(self.fragment_index[i].local_path.clone())
                }
            },
        }
    }

    /// Finishes a retrieval at `now` with the bytes read: `NotFound` when absent; bytes
    /// whose hash differs from the one taken on ingest drop the fragment from the index
    /// and report `IntegrityCheckFailed`; otherwise the access is counted.
    pub fn check_retrieved(&mut self, fragment_id: &str, data: &[u8], now: i64) -> (r: Result<(), FragmentError>)
        requires
            old(self).wf(),
        ensures
            final(self).wf(),
            final(self).spec_max() == old(self).spec_max(),
            old(self).fragment_of(fragment_id@) is None ==> r == Err::<(), FragmentError>(FragmentError::NotFound)
                && final(self).spec_index() == old(self).spec_index(),
            old(self).fragment_of(fragment_id@) matches Some(f) ==> if base58_of(blake3_of(data@)) != f.content_hash@ {
                r == Err::<(), FragmentError>(FragmentError::IntegrityCheckFailed) && final(self).spec_index() == old(
                    self,
                ).spec_index().remove(fragment_index_of(old(self).spec_index(), fragment_id@)) && final(self).fragment_of(
                    fragment_id@,
                ) is None && final(self).spec_used() == old(self).spec_used() - f.size_bytes
            } else {
                r is Ok && final(self).spec_index() == old(self).spec_index().update(
                    fragment_index_of(old(self).spec_index(), fragment_id@),
                    StoredFragment {
                        access_count: if f.access_count < u64::MAX { (f.access_count + 1) as u64 } else { u64::MAX },
                        last_accessed: now,
                        ..f
                    },
                )
            },
    {
        proof {
            lemma_fragment_index_of(self.fragment_index@, fragment_id@);
        }
        match self.find(fragment_id) {
            None => Err(FragmentError::NotFound),
            Some(i) => {
                let hash = ContentHash::hash(data).to_base58();
                if hash != self.fragment_index[i].content_hash {
                    proof {
                        lemma_sum_remove(self.fragment_index@, i as int);
                    }
                    let gone = self.remove_at(i);
                    assert(gone.fragment_id@ == fragment_id@);
                    return Err(FragmentError::IntegrityCheckFailed);
                }
                let mut f = self.fragment_index[i].copy_record();
                f.access_count = f.access_count.saturating_add(1);
                f.last_accessed = now;
                proof {
                    lemma_sum_update(self.fragment_index@, i as int, f);
                    lemma_update_unique(self.fragment_index@, i as int, f);
                }
                self.fragment_index.set(i, f);
                Ok(())
            },
        }
    }

    /// Drops a fragment from the index and returns its record; the caller removes the file.
    pub fn delete_fragment(&mut self, fragment_id: &str) -> (r: Option<StoredFragment>)
        requires
            old(self).wf(),
        ensures
            final(self).wf(),
            final(self).spec_max() == old(self).spec_max(),
            r == old(self).fragment_of(fragment_id@),
            r is None ==> final(self).spec_index() == old(self).spec_index(),
            r is Some ==> final(self).spec_index() == old(self).spec_index().remove(
                fragment_index_of(old(self).spec_index(), fragment_id@),
            ),
            r is Some ==> final(self).fragment_of(fragment_id@) is None,
    {
        proof {
            lemma_fragment_index_of(self.fragment_index@, fragment_id@);
        }
        match self.find(fragment_id) {
            None => None,
            Some(i) => Some(self.remove_at(i)),
        }
    }

    /// Sets a fragment's expiry; false when absent.
    pub fn extend_fragment(&mut self, fragment_id: &str, new_expires_at: i64) -> (r: bool)
        requires
            old(self).wf(),
        ensures
            final(self).wf(),
            final(self).spec_max() == old(self).spec_max(),
            r == old(self).fragment_of(fragment_id@) is Some,
            old(self).fragment_of(fragment_id@) matches Some(f) ==> final(self).spec_index() == old(self).spec_index().update(
                fragment_index_of(old(self).spec_index(), fragment_id@),
                StoredFragment { expires_at: new_expires_at, ..f },
            ),
            !r ==> final(self).spec_index() == old(self).spec_index(),
    {
        proof {
            lemma_fragment_index_of(self.fragment_index@, fragment_id@);
        }
        match self.find(fragment_id) {
            None => false,
            Some(i) => {
                let mut f = self.fragment_index[i].copy_record();
                f.expires_at = new_expires_at;
                proof {
                    lemma_sum_update(self.fragment_index@, i as int, f);
                    lemma_update_unique(self.fragment_index@, i as int, f);
                }
                self.fragment_index.set(i, f);
                true
            },
        }
    }

    /// Renews every fragment of `owner_id` at `now` to expire `additional_days` later;
    /// returns how many (saturating at `u32::MAX`).
    pub fn extend_owner_fragments_at(&mut self, owner_id: &str, additional_days: u32, now: i64) -> (r: u32)
        requires
            old(self).wf(),
        ensures
            final(self).wf(),
            final(self).spec_max() == old(self).spec_max(),
            renewed_all(old(self).spec_index(), final(self).spec_index(), owner_id@, expiry_after(now, additional_days)),
    {
        let expiry = crate::protocol::StorageContract::expiry_for(now, additional_days);
        let owner = String::from_str(owner_id);
        let mut count: u32 = 0;
        let mut i: usize = 0;
        let ghost before = self.fragment_index@;
        while i < self.fragment_index.len()
            invariant
                i <= self.fragment_index@.len(),
                self.fragment_index@.len() == before.len(),
                owner@ == owner_id@,
                expiry == expiry_after(now, additional_days),
                self.used_storage_bytes == sum_sizes(self.fragment_index@),
                self.max_storage_bytes == old(self).max_storage_bytes,
                sum_sizes(before) == old(self).used_storage_bytes,
                before == old(self).fragment_index@,
                forall|j: int| 0 <= j < i ==> #[trigger] self.fragment_index@[j] == renewed(before[j], owner_id@, expiry),
                forall|j: int| i <= j < before.len() ==> #[trigger] self.fragment_index@[j] == before[j],
            decreases before.len() - i,
        {
            if self.fragment_index[i].owner_id == owner {
                let mut f = self.fragment_index[i].copy_record();
                f.expires_at = expiry;
                proof {
                    lemma_sum_update(self.fragment_index@, i as int, f);
                }
                self.fragment_index.set(i, f);
                count = count.saturating_add(1);
            }
            i = i + 1;
        }
        count
    }

    /// `extend_owner_fragments_at` with the current time.
    pub fn extend_owner_fragments(&mut self, owner_id: &str, additional_days: u32) -> (r: u32)
        requires
            old(self).wf(),
        ensures
            final(self).wf(),
            final(self).spec_max() == old(self).spec_max(),
            exists|now: i64| #[trigger] renewed_all(old(self).spec_index(), final(self).spec_index(), owner_id@, expiry_after(now, additional_days)),
    {
        let now = crate::identity::utc_now();
        let r = self.extend_owner_fragments_at(owner_id, additional_days, now);
        assert(renewed_all(old(self).spec_index(), self.spec_index(), owner_id@, expiry_after(now, additional_days)));
        r
    }

    /// Drops every fragment expired at `now` (`now > expires_at`) and returns their
    /// records, in index order, for the caller to remove the files.
    pub fn cleanup_expired_at(&mut self, now: i64) -> (r: Vec<StoredFragment>)
        requires
            old(self).wf(),
        ensures
            final(self).wf(),
            final(self).spec_max() == old(self).spec_max(),
            final(self).spec_index() == unexpired(old(self).spec_index(), now),
            r@ == expired(old(self).spec_index(), now),
            forall|t: int|
                0 <= t < final(self).spec_index().len() ==> old(self).spec_index().contains(
                    #[trigger] final(self).spec_index()[t],
                ) && !(now > final(self).spec_index()[t].expires_at),
            forall|k: int|
                0 <= k < old(self).spec_index().len() && now > #[trigger] old(self).spec_index()[k].expires_at
                    ==> final(self).fragment_of(old(self).spec_index()[k].fragment_id@) is None,
    {
        let mut kept: Vec<StoredFragment> = Vec::new();
        let mut removed: Vec<StoredFragment> = Vec::new();
        let mut i: usize = 0;
        while i < self.fragment_index.len()
            invariant
                i <= self.fragment_index@.len(),
                self.fragment_index@ == old(self).fragment_index@,
                kept@ == unexpired(self.fragment_index@.subrange(0, i as int), now),
                removed@ == expired(self.fragment_index@.subrange(0, i as int), now),
            decreases self.fragment_index@.len() - i,
        {
            assert(self.fragment_index@.subrange(0, i + 1).drop_last() =~= self.fragment_index@.subrange(0, i as int));
            let f = self.fragment_index[i].copy_record();
            if now > f.expires_at {
                removed.push(f);
            } else {
                kept.push(f);
            }
            i = i + 1;
        }
        assert(self.fragment_index@.subrange(0, i as int) =~= self.fragment_index@);
        proof {
            lemma_split_sum(self.fragment_index@, now);
            lemma_unexpired(self.fragment_index@, now);
        }
        self.used_storage_bytes = self.used_storage_bytes - removed_size(&removed);
        self.fragment_index = kept;
        proof {
            let o = old(self).fragment_index@;
            let n = self.fragment_index@;
            assert forall|k: int| 0 <= k < o.len() && now > #[trigger] o[k].expires_at implies self.fragment_of(
                o[k].fragment_id@,
            ) is None by {
                lemma_fragment_index_of(n, o[k].fragment_id@);
                let t = fragment_index_of(n, o[k].fragment_id@);
                if t >= 0 {
                    assert(o.contains(n[t]));
                    let j = choose|j: int| 0 <= j < o.len() && o[j] == n[t];
                    if j != k {
                        if j < k {
                            assert(o[j].fragment_id@ != o[k].fragment_id@);
                        } else {
                            assert(o[k].fragment_id@ != o[j].fragment_id@);
                        }
                    }
                }
            }
        }
        removed
    }

    /// `cleanup_expired_at` with the current time.
    pub fn cleanup_expired(&mut self) -> (r: Vec<StoredFragment>)
        requires
            old(self).wf(),
        ensures
            final(self).wf(),
            exists|now: i64|
                final(self).spec_index() == #[trigger] unexpired(old(self).spec_index(), now) && r@ == expired(
                    old(self).spec_index(),
                    now,
                ),
    {
        self.cleanup_expired_at(crate::identity::utc_now())
    }

    /// Proof of storage: the content hash of the stored bytes followed by the challenge;
    /// `NotFound` when the fragment is not hosted. The caller reads the stored bytes.
    pub fn prove_storage(&self, fragment_id: &str, stored: &[u8], challenge: &[u8]) -> (r: Result<Vec<u8>, FragmentError>)
        ensures
            self.fragment_of(fragment_id@) is None ==> r == Err::<Vec<u8>, FragmentError>(FragmentError::NotFound),
            self.fragment_of(fragment_id@) is Some ==> r is Ok && r->Ok_0@ == blake3_of(stored@ + challenge@),
    {
        proof {
            lemma_fragment_index_of(self.fragment_index@, fragment_id@);
        }
        match self.find(fragment_id) {
            None => Err(FragmentError::NotFound),
            Some(_) => {
                let mut proof_data: Vec<u8> = vstd::slice::slice_to_vec(stored);
                proof_data.extend_from_slice(challenge);
                assert(proof_data@ =~= stored@ + challenge@);
                let h = ContentHash::hash(proof_data.as_slice());
                Ok(vstd::slice::slice_to_vec(vstd::array::array_as_slice(h.as_bytes())))
            },
        }
    }

    /// Checks the shape of a storage proof: 32 bytes. Checking its value needs the
    /// fragment, which the challenger does not keep.
    pub fn verify_storage_proof(expected_hash: &ContentHash, challenge: &[u8], proof: &[u8]) -> (r: bool)
        ensures
            r == (proof@.len() == 32),
    {
        proof.len() == 32
    }

    /// Totals at `now`: offered, used and available space, fragment count, distinct owners,
    /// and fragments expiring within seven days.
    pub fn stats_at(&self, now: i64) -> (r: StorageStats)
        requires
            self.wf(),
        ensures
            r.total_offered == self.spec_max(),
            r.used_bytes == self.spec_used(),
            r.available_bytes == if self.spec_used() <= self.spec_max() { self.spec_max() - self.spec_used() } else { 0 },
            r.fragment_count == self.spec_index().len(),
            r.unique_owners == owner_count(self.spec_index()),
            r.fragments_expiring_soon == expiring_count(self.spec_index(), now),
    {
        let mut soon: u64 = 0;
        let mut owners: u64 = 0;
        let mut i: usize = 0;
        while i < self.fragment_index.len()
            invariant
                i <= self.fragment_index@.len(),
                soon == expiring_count(self.fragment_index@.subrange(0, i as int), now),
                owners == owner_count(self.fragment_index@.subrange(0, i as int)),
                soon <= i,
                owners <= i,
            decreases self.fragment_index@.len() - i,
        {
            let ghost pre = self.fragment_index@.subrange(0, i as int);
            assert(self.fragment_index@.subrange(0, i + 1).drop_last() =~= pre);
            let f = &self.fragment_index[i];
            if (f.expires_at as i128) - (now as i128) < 7 * 86400 {
                soon = soon + 1;
            }
            let mut seen = false;
            let mut j: usize = 0;
            while j < i
                invariant
                    j <= i,
                    i < self.fragment_index@.len(),
                    pre == self.fragment_index@.subrange(0, i as int),
                    seen == exists|t: int| 0 <= t < j && (#[trigger] pre[t]).owner_id@ == f.owner_id@,
                decreases i - j,
            {
                assert(pre[j as int] == self.fragment_index@[j as int]);
                if self.fragment_index[j].owner_id == f.owner_id {
                    seen = true;
                }
                proof {
                    if !seen {
                        assert forall|t: int| 0 <= t < j + 1 implies (#[trigger] pre[t]).owner_id@ != f.owner_id@ by {}
                    }
                }
                j = j + 1;
            }
            proof {
                assert(self.fragment_index@.subrange(0, i + 1).last() == *f);
                assert(seen == has_owner(pre, f.owner_id@));
            }
            if !seen {
                owners = owners + 1;
            }
            i = i + 1;
        }
        assert(self.fragment_index@.subrange(0, i as int) =~= self.fragment_index@);
        StorageStats {
            total_offered: self.max_storage_bytes,
            used_bytes: self.used_storage_bytes,
            available_bytes: self.max_storage_bytes.saturating_sub(self.used_storage_bytes),
            fragment_count: self.fragment_index.len() as u64,
            unique_owners: owners,
            fragments_expiring_soon: soon,
        }
    }

    /// `stats_at` with the current time.
    pub fn stats(&self) -> (r: StorageStats)
        requires
            self.wf(),
        ensures
            r.total_offered == self.spec_max(),
            r.used_bytes == self.spec_used(),
            r.available_bytes == if self.spec_used() <= self.spec_max() { self.spec_max() - self.spec_used() } else { 0 },
            r.fragment_count == self.spec_index().len(),
            r.unique_owners == owner_count(self.spec_index()),
            exists|now: i64| r.fragments_expiring_soon == #[trigger] expiring_count(self.spec_index(), now),
    {
        let now = crate::identity::utc_now();
        let r = self.stats_at(now);
        assert(r.fragments_expiring_soon == expiring_count(self.spec_index(), now));
        r
    }

    /// Whether `size_bytes` more fit.
    pub fn has_space(&self, size_bytes: u64) -> (r: bool)
        ensures
            r == (self.spec_used() + size_bytes <= self.spec_max()),
    {
        self.used_storage_bytes as u128 + size_bytes as u128 <= self.max_storage_bytes as u128
    }

    /// A copy of every record, in index order, for persisting the index.
    pub fn fragments(&self) -> (r: Vec<StoredFragment>)
        ensures
            r@ == self.spec_index(),
    {
        let mut out: Vec<StoredFragment> = Vec::new();
        let mut i: usize = 0;
        while i < self.fragment_index.len()
            invariant
                i <= self.fragment_index@.len(),
                out@ == self.fragment_index@.subrange(0, i as int),
            decreases self.fragment_index@.len() - i,
        {
            out.push(self.fragment_index[i].copy_record());
            assert(out@ =~= self.fragment_index@.subrange(0, i + 1));
            i = i + 1;
        }
        assert(out@ =~= self.fragment_index@);
        out
    }

    /// Free space, at least 0.
    pub fn available_space(&self) -> (r: u64)
        ensures
            r == if self.spec_used() <= self.spec_max() { self.spec_max() - self.spec_used() } else { 0 },
    {
        self.max_storage_bytes.saturating_sub(self.used_storage_bytes)
    }
}

fn removed_size(removed: &Vec<StoredFragment>) -> (r: u64)
    requires
        sum_sizes(removed@) <= u64::MAX,
    ensures
        r == sum_sizes(removed@),
{
    let mut sum: u64 = 0;
    let mut i: usize = 0;
    while i < removed.len()
        invariant
            i <= removed@.len(),
            sum == sum_sizes(removed@.subrange(0, i as int)),
            sum_sizes(removed@) <= u64::MAX,
        decreases removed@.len() - i,
    {
        assert(removed@.subrange(0, i + 1).drop_last() =~= removed@.subrange(0, i as int));
        proof {
            lemma_prefix_sum_le(removed@, i + 1);
        }
        sum = sum + removed[i].size_bytes;
        i = i + 1;
    }
    assert(removed@.subrange(0, i as int) =~= removed@);
    sum
}

/// Fragment renewal: after renewing an owner at `now` for `days` with `now + days` past a
/// fragment's expiry (and within `i64`), that fragment's expiry strictly increases.
pub proof fn lemma_renewal_increases(f: StoredFragment, owner: Seq<char>, days: u32, now: i64)
    requires
        f.owner_id@ == owner,
        now + days * 86400 > f.expires_at,
        now + days * 86400 <= i64::MAX,
    ensures
        renewed(f, owner, expiry_after(now, days)).expires_at > f.expires_at,
{
}

} // verus!
