//! Core of a decentralized, end-to-end encrypted peer-to-peer file store:
//! content hashing, authenticated chunked encryption, erasure coding,
//! identities, storage contracts, the hosted-fragment index, peer selection
//! and the fairness quota.
use vstd::prelude::*;

pub mod hashing;
pub mod text;
pub mod wire;
pub mod crypto;
pub mod keys;
pub mod encryption;
pub mod seed;
pub mod identity;
pub mod erasure;
pub mod storage;
pub mod file_manager;
pub mod protocol;
pub mod storage_protocol;
pub mod discovery;
pub mod quota;

use crate::crypto::CryptoError;
use crate::identity::{IdentityError, UserIdentity, master_seed_of, passphrase_of};
use crate::protocol::P2PError;
use crate::storage::StorageError;
use crate::hashing::{base58_alphabet, base58_of};
use crate::seed::{normalized_phrase, parsed_mnemonic};

verus! {

/// Failures of a node.
#[derive(Debug, Clone, PartialEq, Eq)]
pub enum CloudP2PError {
    Crypto(CryptoError),
    Identity(IdentityError),
    P2P(P2PError),
    Storage(StorageError),
    Serialization(String),
    Io(String),
}

/// Node configuration.
#[derive(Debug, Clone)]
pub struct CloudP2PConfig {
    /// Storage offered to the network (bytes).
    pub storage_offered_bytes: u64,
    /// Most storage this node may use (bytes).
    pub storage_quota_bytes: u64,
    /// Days until data expires without a heartbeat.
    pub expiration_days: u32,
    /// Bootstrap nodes.
    pub bootstrap_nodes: Vec<String>,
    /// Local storage path.
    pub data_path: String,
    pub enable_relay: bool,
    pub enable_mdns: bool,
}

impl Default for CloudP2PConfig {
    /// 10 GiB offered and allowed, 90 days, no bootstrap nodes, relay and mDNS on.
    fn default() -> (r: CloudP2PConfig)
        ensures
            r.storage_offered_bytes == 10 * 1024 * 1024 * 1024,
            r.storage_quota_bytes == 10 * 1024 * 1024 * 1024,
            r.expiration_days == 90,
            r.bootstrap_nodes@.len() == 0,
            r.enable_relay,
            r.enable_mdns,
    {
        CloudP2PConfig {
            storage_offered_bytes: 10 * 1024 * 1024 * 1024,
            storage_quota_bytes: 10 * 1024 * 1024 * 1024,
            expiration_days: 90,
            bootstrap_nodes: Vec::new(),
            data_path: String::from_str("./cloudp2p_data"),
            enable_relay: true,
            enable_mdns: true,
        }
    }
}

/// This node: its identity and configuration.
pub struct CloudP2PNode {
    pub identity: UserIdentity,
    pub config: CloudP2PConfig,
}

impl CloudP2PNode {
    /// Recovers a node from its phrase and optional passphrase.
    pub fn from_seed_phrase(seed_phrase: &str, password: Option<&str>, config: CloudP2PConfig) -> (r: Result<
        CloudP2PNode,
        CloudP2PError,
    >)
        ensures
            r is Ok <==> parsed_mnemonic(normalized_phrase(seed_phrase@)) is Some,
            r matches Ok(n) ==> n.identity.derived_from(master_seed_of(seed_phrase@, passphrase_of(password))),
            r matches Err(e) ==> e is Identity,
    {
        match UserIdentity::from_seed_phrase(seed_phrase, password) {
            Ok(identity) => Ok(CloudP2PNode { identity, config }),
            Err(e) => Err(CloudP2PError::Identity(e)),
        }
    }

    /// A node with a fresh identity; returns the phrase that recovers it.
    pub fn new(password: Option<&str>, config: CloudP2PConfig) -> (r: Result<(CloudP2PNode, String), CloudP2PError>)
        ensures
            r is Ok,
            r matches Ok((n, phrase)) ==> parsed_mnemonic(normalized_phrase(phrase@)) is Some,
            r matches Ok((n, phrase)) ==> n.identity.derived_from(master_seed_of(phrase@, passphrase_of(password))),
    {
        match UserIdentity::generate(password) {
            Ok((identity, phrase)) => Ok((CloudP2PNode { identity, config }, phrase)),
            Err(e) => Err(CloudP2PError::Identity(e)),
        }
    }

    /// The node's public id.
    pub fn public_id(&self) -> (r: String)
        ensures
            r@ == base58_of(self.identity.spec_node_id()),
            forall|i: int| 0 <= i < r@.len() ==> base58_alphabet().contains(#[trigger] r@[i]),
            r@.len() <= 44,
    {
        self.identity.public_id()
    }
}

} // verus!
