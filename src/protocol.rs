//! The storage protocol's messages and the signed storage contract.
use vstd::prelude::*;
use vstd::string::*;
use crate::text::{decimal_of, push_decimal, push_signed_decimal, signed_decimal_of};

verus! {

/// Failures of the network layer.
#[derive(Debug, Clone, PartialEq, Eq)]
pub enum P2PError {
    InitializationFailed(String),
    ConnectionFailed(String),
    PeerNotFound(String),
    Transport(String),
    Protocol(String),
    Dht(String),
    Timeout,
}

/// Requests between peers.
#[derive(Debug, Clone)]
pub enum StorageRequest {
    Store { fragment_id: String, owner_id: String, data: Vec<u8>, expires_at: i64, signature: Vec<u8> },
    Retrieve { fragment_id: String, requester_id: String, signature: Vec<u8> },
    Delete { fragment_id: String, owner_id: String, signature: Vec<u8> },
    Heartbeat { owner_id: String, timestamp: i64, signature: Vec<u8> },
    QueryAvailability { required_bytes: u64, requester_id: String },
    StorageChallenge { fragment_id: String, challenge: Vec<u8>, signature: Vec<u8> },
    GetStorageInfo,
}

/// Responses between peers. Reliability and uptime are in thousandths.
#[derive(Debug, Clone)]
pub enum StorageResponse {
    Stored { fragment_id: String, receipt: Vec<u8> },
    Data { fragment_id: String, data: Vec<u8>, hash: String },
    Deleted { fragment_id: String, confirmation: Vec<u8> },
    HeartbeatAck { new_expiration: i64 },
    Availability { available_bytes: u64, offered_bytes: u64, reliability_milli: u32 },
    StorageProof { fragment_id: String, proof: Vec<u8> },
    StorageInfo { offered_bytes: u64, used_bytes: u64, fragment_count: u64, uptime_milli: u32 },
    Error { code: ErrorCode, message: String },
}

/// Error codes of the storage protocol.
#[derive(Debug, Clone, Copy, PartialEq, Eq)]
pub enum ErrorCode {
    NotFound,
    InsufficientSpace,
    InvalidSignature,
    Expired,
    PermissionDenied,
    RateLimited,
    InvalidRequest,
    InternalError,
}

/// Seconds in a day.
pub const DAY_SECS: i64 = 86400;

/// `now + days` in seconds, saturating at the bounds of `i64`.
pub open spec fn expiry_after(now: i64, days: u32) -> i64 {
    let t = now + days * 86400;
    if t > i64::MAX { i64::MAX } else { t as i64 }
}

fn expiry_after_exec(now: i64, days: u32) -> (r: i64)
    ensures
        r == expiry_after(now, days),
{
    let t: i128 = (now as i128) + (days as i128) * 86400;
    if t > i64::MAX as i128 { i64::MAX } else { t as i64 }
}

/// Whether an expiry is past at `now`.
pub open spec fn expired_at(expires_at: i64, now: i64) -> bool {
    now > expires_at
}

/// Whole days from `now` to an expiry, rounded toward zero.
pub open spec fn days_until(expires_at: i64, now: i64) -> int {
    if expires_at >= now { (expires_at - now) / 86400 } else { -((now - expires_at) / 86400) }
}

/// The expiry after renewing for `days` at `now`: `days` after the later of `now` and
/// the current expiry, saturating.
pub open spec fn extended_expiry(expires_at: i64, now: i64, days: u32) -> i64 {
    expiry_after(if expires_at > now { expires_at } else { now }, days)
}

/// Agreement that a storage peer holds one fragment of an owner until `expires_at`.
#[derive(Debug, Clone)]
pub struct StorageContract {
    pub fragment_id: String,
    pub owner_id: String,
    pub storage_peer_id: String,
    pub size_bytes: u64,
    pub created_at: i64,
    pub expires_at: i64,
    pub owner_signature: Vec<u8>,
    pub storage_signature: Vec<u8>,
}

/// The text that both parties sign: the first six fields joined by colons.
pub open spec fn contract_text(c: StorageContract) -> Seq<char> {
    c.fragment_id@ + ":"@ + c.owner_id@ + ":"@ + c.storage_peer_id@ + ":"@ + decimal_of(c.size_bytes as nat) + ":"@
        + signed_decimal_of(c.created_at as int) + ":"@ + signed_decimal_of(c.expires_at as int)
}

impl StorageContract {
    /// A contract created at `now`, expiring `expiration_days` later, not yet signed.
    pub fn new_at(
        fragment_id: String,
        owner_id: String,
        storage_peer_id: String,
        size_bytes: u64,
        expiration_days: u32,
        now: i64,
    ) -> (r: StorageContract)
        ensures
            r.fragment_id == fragment_id,
            r.owner_id == owner_id,
            r.storage_peer_id == storage_peer_id,
            r.size_bytes == size_bytes,
            r.created_at == now,
            r.expires_at == expiry_after(now, expiration_days),
            r.owner_signature@.len() == 0,
            r.storage_signature@.len() == 0,
    {
        StorageContract {
            fragment_id,
            owner_id,
            storage_peer_id,
            size_bytes,
            created_at: now,
            expires_at: expiry_after_exec(now, expiration_days),
            owner_signature: Vec::new(),
            storage_signature: Vec::new(),
        }
    }

    /// `new_at` with the current time.
    pub fn new(
        fragment_id: String,
        owner_id: String,
        storage_peer_id: String,
        size_bytes: u64,
        expiration_days: u32,
    ) -> (r: StorageContract)
        ensures
            r.fragment_id == fragment_id,
            r.size_bytes == size_bytes,
            r.expires_at == expiry_after(r.created_at, expiration_days),
    {
        StorageContract::new_at(fragment_id, owner_id, storage_peer_id, size_bytes, expiration_days, crate::identity::utc_now())
    }

    /// The expiry `days` after `now`, saturating.
    pub fn expiry_for(now: i64, days: u32) -> (r: i64)
        ensures
            r == expiry_after(now, days),
    {
        expiry_after_exec(now, days)
    }

    /// The UTF-8 bytes of `contract_text`.
    pub fn signing_data(&self) -> (r: Vec<u8>)
        ensures
            r@ == vstd::utf8::encode_utf8(contract_text(*self)),
    {
        let mut s = String::from_str(self.fragment_id.as_str());
        s.append(":");
        s.append(self.owner_id.as_str());
        s.append(":");
        s.append(self.storage_peer_id.as_str());
        s.append(":");
        push_decimal(&mut s, self.size_bytes);
        s.append(":");
        push_signed_decimal(&mut s, self.created_at);
        s.append(":");
        push_signed_decimal(&mut s, self.expires_at);
        proof {
            reveal_strlit(":");
            assert(s@ =~= contract_text(*self));
        }
        vstd::slice::slice_to_vec(s.as_str().as_bytes())
    }

    /// Whether `now` is past the expiry.
    pub fn is_expired_at(&self, now: i64) -> (r: bool)
        ensures
            r == (now > self.expires_at),
    {
        now > self.expires_at
    }

    /// `is_expired_at` with the current time.
    pub fn is_expired(&self) -> (r: bool)
        ensures
            exists|now: i64| r == #[trigger] expired_at(self.expires_at, now),
    {
        let now = crate::identity::utc_now();
        let r = self.is_expired_at(now);
        assert(r == expired_at(self.expires_at, now));
        r
    }

    /// Renews at `now`: the contract now expires `days` after the later of `now` and its
    /// current expiry, so a renewal never shortens it.
    pub fn extend_at(&mut self, days: u32, now: i64)
        ensures
            *final(self) == (StorageContract { expires_at: extended_expiry(old(self).expires_at, now, days), ..*old(self) }),
    {
        let base = if self.expires_at > now { self.expires_at } else { now };
        self.expires_at = expiry_after_exec(base, days);
    }

    /// `extend_at` with the current time.
    pub fn extend(&mut self, days: u32)
        ensures
            exists|now: i64|
                *final(self) == (StorageContract {
                    expires_at: #[trigger] extended_expiry(old(self).expires_at, now, days),
                    ..*old(self)
                }),
    {
        let now = crate::identity::utc_now();
        self.extend_at(days, now);
        assert(self.expires_at == extended_expiry(old(self).expires_at, now, days));
    }

    /// Whole days from `now` to the expiry, rounded toward zero.
    pub fn days_until_expiration_at(&self, now: i64) -> (r: i64)
        ensures
            r == days_until(self.expires_at, now),
    {
        let d: i128 = (self.expires_at as i128) - (now as i128);
        if d >= 0 {
            (d / 86400) as i64
        } else {
            (-((-d) / 86400)) as i64
        }
    }

    /// `days_until_expiration_at` with the current time.
    pub fn days_until_expiration(&self) -> (r: i64)
        ensures
            exists|now: i64| r == #[trigger] days_until(self.expires_at, now),
    {
        self.days_until_expiration_at(crate::identity::utc_now())
    }
}

/// Contract monotonicity: renewing for at least one day strictly increases `expires_at`
/// (short of the end of `i64`, where it saturates).
pub proof fn lemma_extend_increases(c: StorageContract, days: u32, now: i64)
    requires
        days >= 1,
        c.expires_at + days * 86400 <= i64::MAX,
        now + days * 86400 <= i64::MAX,
    ensures
        extended_expiry(c.expires_at, now, days) > c.expires_at,
{
}

/// Metadata stored beside a fragment.
#[derive(Debug, Clone)]
pub struct FragmentMetadata {
    pub fragment_id: String,
    pub owner_id: String,
    pub file_id: String,
    pub fragment_index: u32,
    pub total_fragments: u32,
    pub size_bytes: u64,
    pub content_hash: String,
    pub erasure_data_shards: u32,
    pub erasure_parity_shards: u32,
    pub created_at: i64,
    pub last_accessed: i64,
    pub contract_id: Option<String>,
}

} // verus!
