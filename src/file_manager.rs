//! The file pipeline: hash, encrypt in chunks, serialize, erasure-code and describe a
//! file for upload; rebuild and check it from the shards that come back.
use vstd::prelude::*;
use vstd::string::*;
use crate::encryption::{EncryptedFile, EncryptionKey, FileEncryptor, sealed_message};
use crate::erasure::{
    ErasureConfig, ErasureDecoder, ErasureEncoder, Shard, agrees_with, codeword, count_present, data_shards_of,
    encoded_shards, lemma_erasure_round_trip, opt_views, shard_views, truncated, uniform,
};
use crate::hashing::{ContentHash, base58_of, blake3_of};
use crate::identity::UserIdentity;
use crate::storage::StorageError;
use crate::text::two_digit_of;

verus! {

/// The MIME type guessed from a file name.
pub uninterp spec fn mime_of(filename: Seq<char>) -> Seq<char>;

/// Relies on `mime_guess::from_path(..).first_or_octet_stream()`: a MIME type looked up
/// from the name's extension, `application/octet-stream` when unknown.
#[verifier::external_body]
fn guess_mime(filename: &str) -> (r: String)
    ensures
        r@ == mime_of(filename@),
{
    mime_guess::from_path(filename).first_or_octet_stream().to_string()
}

/// Where one shard lives.
#[derive(Debug, Clone)]
pub struct ShardLocation {
    pub index: usize,
    /// `"<file_id>-shard-<NN>"`.
    pub shard_id: String,
    /// Ids of the peers holding the shard.
    pub peers: Vec<String>,
    pub size: u64,
    /// Base58 of the shard's content hash.
    pub hash: String,
}

/// Description of a stored file.
#[derive(Debug, Clone)]
pub struct FileMetadata {
    /// Base58 of the plaintext's content hash.
    pub file_id: String,
    pub filename: String,
    /// Plaintext size.
    pub size: u64,
    pub mime_type: String,
    /// Base58 of the content hash of the serialized encrypted file.
    pub encrypted_hash: String,
    /// Length of the serialized encrypted file.
    pub encrypted_size: u64,
    pub erasure_config: ErasureConfig,
    pub shards: Vec<ShardLocation>,
    pub created_at: i64,
    pub modified_at: i64,
    /// Base58 of the owner's node id.
    pub owner_id: String,
    pub is_shared: bool,
    pub shared_with: Vec<String>,
    /// The per-file key, encrypted under the owner's encryption key.
    pub encrypted_file_key: Vec<u8>,
    pub folder_id: Option<String>,
    pub tags: Vec<String>,
}

/// Stages of an upload.
#[derive(Debug, Clone, Copy, PartialEq, Eq)]
pub enum UploadStage {
    Reading,
    Encrypting,
    Encoding,
    Distributing,
    Verifying,
    Complete,
    Failed,
}

/// Progress of an upload.
#[derive(Debug, Clone)]
pub struct UploadProgress {
    pub file_id: String,
    pub filename: String,
    pub total_bytes: u64,
    pub uploaded_bytes: u64,
    pub shards_total: usize,
    pub shards_uploaded: usize,
    pub stage: UploadStage,
}

/// Stages of a download.
#[derive(Debug, Clone, Copy, PartialEq, Eq)]
pub enum DownloadStage {
    Locating,
    Downloading,
    Reconstructing,
    Decrypting,
    Complete,
    Failed,
}

/// Progress of a download.
#[derive(Debug, Clone)]
pub struct DownloadProgress {
    pub file_id: String,
    pub filename: String,
    pub total_bytes: u64,
    pub downloaded_bytes: u64,
    pub shards_total: usize,
    pub shards_downloaded: usize,
    pub stage: DownloadStage,
}

/// A file ready to be distributed: its description and its shards.
pub struct PreparedFile {
    pub metadata: FileMetadata,
    pub shards: Vec<Shard>,
}

/// The shard locations describe `shards`: same index, id from the file id, no peers yet,
/// size and hash of the shard's bytes.
pub open spec fn locations_describe(locs: Seq<ShardLocation>, shards: Seq<Shard>, file_id: Seq<char>) -> bool {
    &&& locs.len() == shards.len()
    &&& forall|i: int|
        0 <= i < locs.len() ==> {
            &&& (#[trigger] locs[i]).index == shards[i].index
            &&& locs[i].shard_id@ == file_id + "-shard-"@ + two_digit_of(shards[i].index as nat)
            &&& locs[i].peers@.len() == 0
            &&& locs[i].size == shards[i].data@.len()
            &&& locs[i].hash@ == base58_of(blake3_of(shards[i].data@))
        }
}

/// `md` and `shards` describe the upload of `p` by the owner whose encryption key is
/// `owner_key`: `ef` is the chunked encryption of `p` under the per-file `key`, which
/// `encrypted_file_key` seals, and the shards erasure-code the serialized `ef`.
pub open spec fn prepared_from(
    md: FileMetadata,
    shards: Seq<Shard>,
    p: Seq<u8>,
    ef: EncryptedFile,
    key: Seq<u8>,
    owner_key: Seq<u8>,
) -> bool {
    &&& md.file_id@ == base58_of(blake3_of(p))
    &&& md.size == p.len()
    &&& locations_describe(md.shards@, shards, md.file_id@)
    &&& encoded_for(md, shards, p, ef, key, owner_key)
}

/// `md` and `shards` carry `p` for the owner whose encryption key is `owner_key`: `ef`
/// is the chunked encryption of `p` under the per-file `key`, which `encrypted_file_key`
/// seals, and the shards erasure-code the serialized `ef`. The file id is not part of it.
pub open spec fn encoded_for(
    md: FileMetadata,
    shards: Seq<Shard>,
    p: Seq<u8>,
    ef: EncryptedFile,
    key: Seq<u8>,
    owner_key: Seq<u8>,
) -> bool {
    &&& key.len() == 32
    &&& sealed_message(owner_key, md.encrypted_file_key@, key)
    &&& md.encrypted_file_key@.len() == 60
    &&& ef.encrypts(key, p)
    &&& md.encrypted_hash@ == base58_of(blake3_of(ef.wire_bytes()))
    &&& md.encrypted_size == ef.wire_bytes().len()
    &&& ef.wire_bytes().len() <= usize::MAX
    &&& md.erasure_config.valid()
    &&& encoded_shards(shards, ef.wire_bytes(), md.erasure_config)
}

/// Manages uploads, downloads and the local index of file descriptions.
pub struct FileManager {
    identity: UserIdentity,
    file_index: Vec<FileMetadata>,
    erasure_config: ErasureConfig,
    cache_path: String,
}

impl FileManager {
    pub closed spec fn spec_identity(&self) -> UserIdentity {
        self.identity
    }

    pub closed spec fn spec_erasure_config(&self) -> ErasureConfig {
        self.erasure_config
    }

    /// The index, in order of insertion.
    pub closed spec fn spec_index(&self) -> Seq<FileMetadata> {
        self.file_index@
    }

    /// No file is indexed twice.
    pub open spec fn wf(&self) -> bool {
        unique_files(self.spec_index())
    }

    /// A manager with the default (10, 4) erasure configuration and an empty index.
    pub fn new(identity: UserIdentity, cache_path: String) -> (r: FileManager)
        ensures
            r.spec_identity() == identity,
            r.spec_erasure_config() == (ErasureConfig { data_shards: 10, parity_shards: 4 }),
            r.spec_index().len() == 0,
            r.wf(),
    {
        FileManager { identity, file_index: Vec::new(), erasure_config: ErasureConfig::default(), cache_path }
    }

    /// Sets the erasure configuration.
    pub fn with_erasure_config(self, config: ErasureConfig) -> (r: FileManager)
        ensures
            r.spec_identity() == self.spec_identity(),
            r.spec_erasure_config() == config,
            r.spec_index() == self.spec_index(),
    {
        FileManager { erasure_config: config, ..self }
    }

    /// Describes each shard.
    fn shard_locations(shards: &Vec<Shard>, file_id: &String) -> (r: Vec<ShardLocation>)
        ensures
            locations_describe(r@, shards@, file_id@),
    {
        let mut locs: Vec<ShardLocation> = Vec::new();
        let mut i: usize = 0;
        while i < shards.len()
            invariant
                i <= shards@.len(),
                locs@.len() == i,
                forall|j: int|
                    0 <= j < i ==> {
                        &&& (#[trigger] locs@[j]).index == shards@[j].index
                        &&& locs@[j].shard_id@ == file_id@ + "-shard-"@ + two_digit_of(shards@[j].index as nat)
                        &&& locs@[j].peers@.len() == 0
                        &&& locs@[j].size == shards@[j].data@.len()
                        &&& locs@[j].hash@ == base58_of(blake3_of(shards@[j].data@))
                    },
            decreases shards@.len() - i,
        {
            let s = &shards[i];
            locs.push(
                ShardLocation {
                    index: s.index,
                    shard_id: s.id(file_id.as_str()),
                    peers: Vec::new(),
                    size: s.data.len() as u64,
                    hash: ContentHash::hash(s.data.as_slice()).to_base58(),
                },
            );
            i = i + 1;
        }
        locs
    }

    /// Prepares `data` for upload under `filename` at time `now`: hashes it, encrypts it
    /// in chunks under a fresh random key, serializes and erasure-codes the result, and
    /// seals the key under the owner's key. Fails only on an invalid erasure configuration.
    pub fn prepare_upload(&self, data: &[u8], filename: &str, now: i64) -> (r: Result<PreparedFile, StorageError>)
        ensures
            r is Ok <==> self.spec_erasure_config().valid(),
            r matches Ok(pf) ==> {
                &&& pf.metadata.filename@ == filename@
                &&& pf.metadata.mime_type@ == mime_of(filename@)
                &&& pf.metadata.owner_id@ == base58_of(self.spec_identity().spec_node_id())
                &&& pf.metadata.created_at == now
                &&& pf.metadata.erasure_config == self.spec_erasure_config()
                &&& exists|ef: EncryptedFile, key: Seq<u8>|
                    prepared_from(
                        pf.metadata,
                        pf.shards@,
                        data@,
                        ef,
                        key,
                        self.spec_identity().spec_encryption_key(),
                    )
            },
    {
        let original_hash = ContentHash::hash(data);
        let file_id = original_hash.to_base58();
        let file_key = EncryptionKey::generate();
        let encryptor = FileEncryptor::new(EncryptionKey::new(*file_key.as_bytes()));
        let encrypted = match encryptor.encrypt_file(data) {
            Ok(e) => e,
            Err(_) => {
                return Err(StorageError::Encryption(String::from_str("encryption failed")));
            },
        };
        let encrypted_data = match encrypted.to_bytes() {
            Ok(b) => b,
            Err(_) => {
                return Err(StorageError::Serialization(String::from_str("serialization failed")));
            },
        };
        let encrypted_hash = ContentHash::hash(encrypted_data.as_slice());
        let encoder = match ErasureEncoder::new(self.erasure_config) {
            Ok(e) => e,
            Err(e) => {
                return Err(e);
            },
        };
        proof {
            encrypted.lemma_wire_len();
        }
        let shards = match encoder.encode(encrypted_data.as_slice()) {
            Ok(s) => s,
            Err(e) => {
                return Err(e);
            },
        };
        let encrypted_file_key = match self.identity.encrypt(file_key.as_bytes()) {
            Ok(c) => c,
            Err(_) => {
                return Err(StorageError::Encryption(String::from_str("key encryption failed")));
            },
        };
        let mime_type = guess_mime(filename);
        let shard_locations = FileManager::shard_locations(&shards, &file_id);
        let metadata = FileMetadata {
            file_id,
            filename: String::from_str(filename),
            size: data.len() as u64,
            mime_type,
            encrypted_hash: encrypted_hash.to_base58(),
            encrypted_size: encrypted_data.len() as u64,
            erasure_config: self.erasure_config,
            shards: shard_locations,
            created_at: now,
            modified_at: now,
            owner_id: self.identity.public_id(),
            is_shared: false,
            shared_with: Vec::new(),
            encrypted_file_key,
            folder_id: None,
            tags: Vec::new(),
        };
        proof {
            assert(file_key@.len() == 32);
            assert(encryptor.spec_key() == file_key@);
            assert(encrypted.encrypts(file_key@, data@));
            assert(metadata.encrypted_file_key@.len() == 60);
            assert(sealed_message(self.identity.spec_encryption_key(), metadata.encrypted_file_key@, file_key@));
            assert(encoded_shards(shards@, encrypted.wire_bytes(), metadata.erasure_config));
            assert(locations_describe(metadata.shards@, shards@, metadata.file_id@));
            assert(prepared_from(
                metadata,
                shards@,
                data@,
                encrypted,
                file_key@,
                self.identity.spec_encryption_key(),
            ));
        }
        let pf = PreparedFile { metadata, shards };
        assert(prepared_from(pf.metadata, pf.shards@, data@, encrypted, file_key@, self.identity.spec_encryption_key()));
        assert(pf.metadata.filename@ == filename@);
        assert(pf.metadata.mime_type@ == mime_of(filename@));
        assert(pf.metadata.owner_id@ == base58_of(self.spec_identity().spec_node_id()));
        assert(pf.metadata.erasure_config == self.spec_erasure_config());
        Ok(pf)
    }
}


/// The shards that came back hold, at each present index, the bytes of that shard.
pub open spec fn returned_from(returned: Seq<Option<Vec<u8>>>, shards: Seq<Shard>) -> bool {
    &&& returned.len() == shards.len()
    &&& forall|i: int| 0 <= i < returned.len() && (#[trigger] returned[i]) is Some ==> returned[i]->Some_0@ == shards[i].data@
}

impl FileManager {
    /// Rebuilds a file from its shards in index order (`None` for a missing one). Fewer
    /// than `k` present fails with `InsufficientFragments`; any plaintext returned hashes
    /// to the file id. When the shards carry a file for this identity and at least `k`
    /// of them came back unchanged, the plaintext is returned if it hashes to the file id,
    /// and `IntegrityCheckFailed` is reported if it does not.
    pub fn reconstruct_file(&self, metadata: &FileMetadata, shard_data: Vec<Option<Vec<u8>>>) -> (r: Result<Vec<u8>, StorageError>)
        ensures
            count_present(opt_views(shard_data@)) < metadata.erasure_config.data_shards ==> r == Err::<Vec<u8>, StorageError>(
                StorageError::InsufficientFragments {
                    have: count_present(opt_views(shard_data@)) as usize,
                    need: metadata.erasure_config.data_shards,
                },
            ),
            r matches Ok(p) ==> base58_of(blake3_of(p@)) == metadata.file_id@,
            forall|shards: Seq<Shard>, p: Seq<u8>, ef: EncryptedFile, key: Seq<u8>|
                #![trigger encoded_for(*metadata, shards, p, ef, key, self.spec_identity().spec_encryption_key())]
                encoded_for(*metadata, shards, p, ef, key, self.spec_identity().spec_encryption_key()) && returned_from(
                    shard_data@,
                    shards,
                ) && count_present(opt_views(shard_data@)) >= metadata.erasure_config.data_shards ==> if base58_of(
                    blake3_of(p),
                ) == metadata.file_id@ {
                    r is Ok && r->Ok_0@ == p
                } else {
                    r == Err::<Vec<u8>, StorageError>(StorageError::IntegrityCheckFailed)
                },
    {
        let ghost owner_key = self.identity.spec_encryption_key();
        let k = metadata.erasure_config.data_shards;
        let ghost returned = shard_data@;
        let total = shard_data.len();
        let mut rest = shard_data;
        let mut converted: Vec<Option<Shard>> = Vec::new();
        let mut available: usize = 0;
        let mut i: usize = 0;
        while i < total
            invariant
                total == returned.len(),
                i <= total,
                rest@.len() == total - i,
                forall|t: int| 0 <= t < rest@.len() ==> #[trigger] rest@[t] == returned[t + i],
                converted@.len() == i,
                forall|t: int|
                    0 <= t < i ==> (#[trigger] converted@[t] is Some) == (returned[t] is Some) && (converted@[t] is Some
                        ==> converted@[t]->Some_0.data@ == returned[t]->Some_0@),
                available == count_present(opt_views(returned.subrange(0, i as int))),
                available <= i,
            decreases total - i,
        {
            let ghost prev = rest@;
            let item = rest.remove(0);
            proof {
                assert(item == returned[i as int]);
                assert forall|t: int| 0 <= t < rest@.len() implies #[trigger] rest@[t] == returned[t + i + 1] by {
                    assert(rest@[t] == prev[t + 1]);
                }
                assert(opt_views(returned.subrange(0, i + 1)) =~= opt_views(returned.subrange(0, i as int)).push(
                    opt_views(returned)[i as int],
                ));
                assert(opt_views(returned.subrange(0, i + 1)).drop_last() =~= opt_views(returned.subrange(0, i as int)));
            }
            match item {
                Some(data) => {
                    converted.push(Some(Shard { index: i, data, is_parity: i >= k, original_size: 0 }));
                    available = available + 1;
                },
                None => {
                    converted.push(None);
                },
            }
            i = i + 1;
        }
        proof {
            assert(returned.subrange(0, total as int) =~= returned);
            assert(shard_views(converted@) =~= opt_views(returned));
        }
        if available < k {
            return Err(StorageError::InsufficientFragments { have: available, need: k });
        }
        let decoder = match ErasureDecoder::new(metadata.erasure_config) {
            Ok(d) => d,
            Err(e) => {
                return Err(e);
            },
        };
        if metadata.encrypted_size > usize::MAX as u64 {
            return Err(StorageError::Serialization(String::from_str("encrypted size out of range")));
        }
        let ghost conv = converted@;
        proof {
            assert forall|shards: Seq<Shard>, p: Seq<u8>, ef: EncryptedFile, key: Seq<u8>|
                #![trigger encoded_for(*metadata, shards, p, ef, key, owner_key)]
                encoded_for(*metadata, shards, p, ef, key, owner_key) && returned_from(returned, shards) && count_present(
                    opt_views(returned),
                ) >= k implies {
                let kk = metadata.erasure_config.data_shards as nat;
                let d = data_shards_of(ef.wire_bytes(), kk);
                &&& d.len() == kk
                &&& uniform(d)
                &&& agrees_with(shard_views(conv), codeword(kk, metadata.erasure_config.parity_shards as nat, d))
                &&& truncated(d.flatten(), ef.wire_bytes().len()) == ef.wire_bytes()
            } by {
                ef.lemma_wire_len();
                assert forall|t: int| 0 <= t < conv.len() && (#[trigger] conv[t]) is Some implies conv[t]->Some_0.data@
                    == shards[t].data@ by {
                    assert(returned[t] is Some);
                }
                lemma_erasure_round_trip(ef.wire_bytes(), metadata.erasure_config, shards, conv);
            }
        }
        let encrypted_data = match decoder.decode(converted, metadata.encrypted_size as usize) {
            Ok(e) => e,
            Err(e) => {
                return Err(e);
            },
        };
        let file_key_bytes = match self.identity.decrypt(metadata.encrypted_file_key.as_slice()) {
            Ok(b) => b,
            Err(_) => {
                return Err(StorageError::Encryption(String::from_str("file key decryption failed")));
            },
        };
        if file_key_bytes.len() != 32 {
            return Err(StorageError::Encryption(String::from_str("Invalid file key length")));
        }
        let file_key = EncryptionKey::new(crate::hashing::array32_from(file_key_bytes.as_slice()));
        proof {
            assert forall|shards: Seq<Shard>, p: Seq<u8>, ef: EncryptedFile, key: Seq<u8>|
                #![trigger encoded_for(*metadata, shards, p, ef, key, owner_key)]
                encoded_for(*metadata, shards, p, ef, key, owner_key) && returned_from(returned, shards) && count_present(
                    opt_views(returned),
                ) >= k implies ef.wire_bytes().len() <= encrypted_data@.len() && encrypted_data@.subrange(
                0,
                ef.wire_bytes().len() as int,
            ) == ef.wire_bytes() by {
                assert(encrypted_data@ == ef.wire_bytes());
                assert(encrypted_data@.subrange(0, ef.wire_bytes().len() as int) =~= ef.wire_bytes());
            }
        }
        let encrypted_file = match EncryptedFile::from_bytes(encrypted_data.as_slice()) {
            Ok(f) => f,
            Err(_) => {
                return Err(StorageError::Encryption(String::from_str("malformed encrypted file")));
            },
        };
        let encryptor = FileEncryptor::new(file_key);
        proof {
            assert forall|shards: Seq<Shard>, p: Seq<u8>, ef: EncryptedFile, key: Seq<u8>|
                #![trigger encoded_for(*metadata, shards, p, ef, key, owner_key)]
                encoded_for(*metadata, shards, p, ef, key, owner_key) && returned_from(returned, shards) && count_present(
                    opt_views(returned),
                ) >= k implies encrypted_file.encrypts(encryptor.spec_key(), p) by {
                assert(encrypted_data@ == ef.wire_bytes());
                assert(encrypted_data@.subrange(0, ef.wire_bytes().len() as int) =~= ef.wire_bytes());
                assert(encrypted_file.same_as(ef));
                assert(file_key_bytes@ == key);
                assert(encrypted_file.data@ == ef.data@);
                assert forall|j: int| 0 <= j < encrypted_file.chunk_offsets@.len() implies encrypted_file.chunk_bytes(j)
                    == ef.chunk_bytes(j) by {}
            }
        }
        let plaintext = match encryptor.decrypt_file(&encrypted_file) {
            Ok(p) => p,
            Err(_) => {
                return Err(StorageError::Encryption(String::from_str("decryption failed")));
            },
        };
        let hash = ContentHash::hash(plaintext.as_slice()).to_base58();
        if hash != metadata.file_id {
            return Err(StorageError::IntegrityCheckFailed);
        }
        Ok(plaintext)
    }
}


/// The first position of file `id` in the index, or -1.
pub open spec fn index_of(s: Seq<FileMetadata>, id: Seq<char>) -> int
    decreases s.len(),
{
    if s.len() == 0 {
        -1
    } else if s[0].file_id@ == id {
        0
    } else {
        let r = index_of(s.drop_first(), id);
        if r < 0 { -1 } else { r + 1 }
    }
}

proof fn lemma_index_of(s: Seq<FileMetadata>, id: Seq<char>)
    ensures
        -1 <= index_of(s, id) < s.len(),
        index_of(s, id) >= 0 ==> s[index_of(s, id)].file_id@ == id,
        forall|j: int| 0 <= j < s.len() && (index_of(s, id) < 0 || j < index_of(s, id)) ==> #[trigger] s[j].file_id@ != id,
    decreases s.len(),
{
    if s.len() > 0 {
        lemma_index_of(s.drop_first(), id);
        assert forall|j: int| 0 <= j < s.len() && (index_of(s, id) < 0 || j < index_of(s, id)) implies #[trigger] s[j].file_id@ != id by {
            if j > 0 {
                assert(s.drop_first()[j - 1] == s[j]);
            }
        }
    }
}

/// No file id occurs twice.
pub open spec fn unique_files(s: Seq<FileMetadata>) -> bool {
    forall|i: int, j: int| 0 <= i < j < s.len() ==> #[trigger] s[i].file_id@ != #[trigger] s[j].file_id@
}

proof fn lemma_file_update_unique(s: Seq<FileMetadata>, k: int, x: FileMetadata)
    requires
        unique_files(s),
        0 <= k < s.len(),
        x.file_id@ == s[k].file_id@,
    ensures
        unique_files(s.update(k, x)),
{
    let r = s.update(k, x);
    assert forall|i: int, j: int| 0 <= i < j < r.len() implies #[trigger] r[i].file_id@ != #[trigger] r[j].file_id@ by {
        assert(r[i].file_id@ == s[i].file_id@);
        assert(r[j].file_id@ == s[j].file_id@);
    }
}

proof fn lemma_file_push_unique(s: Seq<FileMetadata>, x: FileMetadata)
    requires
        unique_files(s),
        forall|j: int| 0 <= j < s.len() ==> #[trigger] s[j].file_id@ != x.file_id@,
    ensures
        unique_files(s.push(x)),
{
    let r = s.push(x);
    assert forall|i: int, j: int| 0 <= i < j < r.len() implies #[trigger] r[i].file_id@ != #[trigger] r[j].file_id@ by {
        if j == s.len() {
            assert(r[i] == s[i]);
        } else {
            assert(r[i] == s[i] && r[j] == s[j]);
        }
    }
}

proof fn lemma_file_remove_absent(s: Seq<FileMetadata>, k: int)
    requires
        unique_files(s),
        0 <= k < s.len(),
    ensures
        unique_files(s.remove(k)),
        index_of(s.remove(k), s[k].file_id@) < 0,
{
    let r = s.remove(k);
    assert forall|i: int, j: int| 0 <= i < j < r.len() implies #[trigger] r[i].file_id@ != #[trigger] r[j].file_id@ by {
        let i0 = if i < k { i } else { i + 1 };
        let j0 = if j < k { j } else { j + 1 };
        assert(r[i] == s[i0] && r[j] == s[j0]);
        assert(s[i0].file_id@ != s[j0].file_id@);
    }
    lemma_index_of(r, s[k].file_id@);
    let t = index_of(r, s[k].file_id@);
    if t >= 0 {
        let t0 = if t < k { t } else { t + 1 };
        assert(r[t] == s[t0]);
        if t0 < k {
            assert(s[t0].file_id@ != s[k].file_id@);
        } else {
            assert(s[k].file_id@ != s[t0].file_id@);
        }
    }
}

/// The lowercase form of a text.
pub uninterp spec fn lower_of(s: Seq<char>) -> Seq<char>;

/// Relies on `str::to_lowercase`, which depends on the characters alone.
#[verifier::external_body]
fn lowercase(s: &str) -> (r: String)
    ensures
        r@ == lower_of(s@),
{
    s.to_lowercase()
}

/// Whether `needle` occurs in `hay`.
pub open spec fn contains_text(hay: Seq<char>, needle: Seq<char>) -> bool {
    exists|i: int| 0 <= i && i + needle.len() <= hay.len() && #[trigger] hay.subrange(i, i + needle.len()) == needle
}

fn contains_str(hay: &str, needle: &str) -> (r: bool)
    ensures
        r == contains_text(hay@, needle@),
{
    let h = hay.unicode_len();
    let n = needle.unicode_len();
    if n > h {
        return false;
    }
    let mut i: usize = 0;
    while i <= h - n
        invariant
            h == hay@.len(),
            n == needle@.len(),
            n <= h,
            i <= h - n + 1,
            forall|k: int| 0 <= k < i ==> #[trigger] hay@.subrange(k, k + n) != needle@,
        decreases h - n + 1 - i,
    {
        let mut j: usize = 0;
        let mut same = true;
        while j < n
            invariant
                h == hay@.len(),
                n == needle@.len(),
                i + n <= h,
                j <= n,
                same == forall|t: int| 0 <= t < j ==> hay@[i + t] == needle@[t],
            decreases n - j,
        {
            if hay.get_char(i + j) != needle.get_char(j) {
                same = false;
            }
            j = j + 1;
        }
        if same {
            assert(hay@.subrange(i as int, i + n) =~= needle@);
            return true;
        }
        assert(hay@.subrange(i as int, i + n)[0] == hay@[i as int] || n == 0);
        assert(hay@.subrange(i as int, i + n) != needle@) by {
            if hay@.subrange(i as int, i + n) == needle@ {
                assert forall|t: int| 0 <= t < n implies hay@[i + t] == needle@[t] by {
                    assert(hay@.subrange(i as int, i + n)[t] == hay@[i + t]);
                }
            }
        }
        i = i + 1;
    }
    false
}

/// Whether a file matches a search: the lowercase query occurs in the lowercase name or
/// in some lowercase tag.
pub open spec fn matches_query(f: FileMetadata, q: Seq<char>) -> bool {
    contains_text(lower_of(f.filename@), lower_of(q)) || exists|t: int|
        0 <= t < f.tags@.len() && contains_text(lower_of(#[trigger] f.tags@[t]@), lower_of(q))
}

/// Whether a file is in `folder` (`None`: in no folder).
pub open spec fn in_folder(f: FileMetadata, folder: Option<&str>) -> bool {
    match (f.folder_id, folder) {
        (Some(a), Some(b)) => a@ == b@,
        (None, None) => true,
        _ => false,
    }
}

/// The descriptions behind references.
pub open spec fn derefs(r: Seq<&FileMetadata>) -> Seq<FileMetadata> {
    r.map_values(|f: &FileMetadata| *f)
}

/// The files of `s` in `folder`, in order.
pub open spec fn folder_matches(s: Seq<FileMetadata>, folder: Option<&str>) -> Seq<FileMetadata>
    decreases s.len(),
{
    if s.len() == 0 {
        s
    } else if in_folder(s.last(), folder) {
        folder_matches(s.drop_last(), folder).push(s.last())
    } else {
        folder_matches(s.drop_last(), folder)
    }
}

/// The files of `s` matching query `q`, in order.
pub open spec fn search_matches(s: Seq<FileMetadata>, q: Seq<char>) -> Seq<FileMetadata>
    decreases s.len(),
{
    if s.len() == 0 {
        s
    } else if matches_query(s.last(), q) {
        search_matches(s.drop_last(), q).push(s.last())
    } else {
        search_matches(s.drop_last(), q)
    }
}

/// Sum of plaintext sizes.
pub open spec fn total_size(s: Seq<FileMetadata>) -> nat
    decreases s.len(),
{
    if s.len() == 0 { 0 } else { total_size(s.drop_last()) + s.last().size as nat }
}

impl FileManager {
    /// Adds a description, replacing one with the same file id.
    pub fn add_to_index(&mut self, metadata: FileMetadata)
        requires
            old(self).wf(),
        ensures
            final(self).wf(),
            final(self).spec_identity() == old(self).spec_identity(),
            final(self).spec_erasure_config() == old(self).spec_erasure_config(),
            ({
                let i = index_of(old(self).spec_index(), metadata.file_id@);
                if i >= 0 {
                    final(self).spec_index() == old(self).spec_index().update(i, metadata)
                } else {
                    final(self).spec_index() == old(self).spec_index().push(metadata)
                }
            }),
    {
        proof {
            lemma_index_of(self.file_index@, metadata.file_id@);
        }
        match self.find(metadata.file_id.as_str()) {
            Some(i) => {
                proof {
                    lemma_file_update_unique(self.file_index@, i as int, metadata);
                }
                self.file_index.set(i, metadata);
            },
            None => {
                proof {
                    lemma_file_push_unique(self.file_index@, metadata);
                }
                self.file_index.push(metadata);
            },
        }
    }

    fn find(&self, file_id: &str) -> (r: Option<usize>)
        ensures
            r matches Some(i) ==> i == index_of(self.file_index@, file_id@) && i < self.file_index@.len(),
            r is None ==> index_of(self.file_index@, file_id@) < 0,
    {
        proof {
            lemma_index_of(self.file_index@, file_id@);
        }
        let id = String::from_str(file_id);
        let mut i: usize = 0;
        while i < self.file_index.len()
            invariant
                i <= self.file_index@.len(),
                id@ == file_id@,
                forall|j: int| 0 <= j < i ==> #[trigger] self.file_index@[j].file_id@ != file_id@,
                -1 <= index_of(self.file_index@, file_id@) < self.file_index@.len(),
                index_of(self.file_index@, file_id@) >= 0 ==> self.file_index@[index_of(self.file_index@, file_id@)].file_id@ == file_id@,
                forall|j: int| 0 <= j < self.file_index@.len() && (index_of(self.file_index@, file_id@) < 0 || j < index_of(self.file_index@, file_id@)) ==> #[trigger] self.file_index@[j].file_id@ != file_id@,
            decreases self.file_index@.len() - i,
        {
            if self.file_index[i].file_id == id {
                return Some(i);
            }
            i = i + 1;
        }
        None
    }

    /// The description of `file_id`, if indexed.
    pub fn get_metadata(&self, file_id: &str) -> (r: Option<&FileMetadata>)
        ensures
            index_of(self.spec_index(), file_id@) >= 0 ==> r == Some(&self.spec_index()[index_of(self.spec_index(), file_id@)]),
            index_of(self.spec_index(), file_id@) < 0 ==> r is None,
    {
        match self.find(file_id) {
            Some(i) => Some(&self.file_index[i]),
            None => None,
        }
    }

    /// Every description, in index order.
    pub fn list_files(&self) -> (r: Vec<&FileMetadata>)
        ensures
            r@.len() == self.spec_index().len(),
            forall|i: int| 0 <= i < r@.len() ==> *#[trigger] r@[i] == self.spec_index()[i],
    {
        let mut out: Vec<&FileMetadata> = Vec::new();
        let mut i: usize = 0;
        while i < self.file_index.len()
            invariant
                i <= self.file_index@.len(),
                out@.len() == i,
                forall|j: int| 0 <= j < i ==> *#[trigger] out@[j] == self.file_index@[j],
            decreases self.file_index@.len() - i,
        {
            out.push(&self.file_index[i]);
            i = i + 1;
        }
        out
    }

    /// The descriptions whose folder is `folder_id` (`None`: no folder), in index order.
    pub fn list_folder(&self, folder_id: Option<&str>) -> (r: Vec<&FileMetadata>)
        ensures
            derefs(r@) == folder_matches(self.spec_index(), folder_id),
    {
        let mut out: Vec<&FileMetadata> = Vec::new();
        let mut i: usize = 0;
        while i < self.file_index.len()
            invariant
                i <= self.file_index@.len(),
                derefs(out@) == folder_matches(self.file_index@.subrange(0, i as int), folder_id),
            decreases self.file_index@.len() - i,
        {
            assert(self.file_index@.subrange(0, i + 1).drop_last() =~= self.file_index@.subrange(0, i as int));
            let f = &self.file_index[i];
            let keep = match (&f.folder_id, folder_id) {
                (Some(a), Some(b)) => {
                    let bs = String::from_str(b);
                    *a == bs
                },
                (None, None) => true,
                _ => false,
            };
            assert(keep == in_folder(*f, folder_id));
            let ghost before = out@;
            if keep {
                out.push(f);
                assert(derefs(out@) =~= derefs(before).push(*f));
            }
            i = i + 1;
        }
        assert(self.file_index@.subrange(0, i as int) =~= self.file_index@);
        out
    }

    /// The descriptions matching `query` (case-insensitive, in name or tags), in index order.
    pub fn search(&self, query: &str) -> (r: Vec<&FileMetadata>)
        ensures
            derefs(r@) == search_matches(self.spec_index(), query@),
    {
        let q = lowercase(query);
        let mut out: Vec<&FileMetadata> = Vec::new();
        let mut i: usize = 0;
        while i < self.file_index.len()
            invariant
                i <= self.file_index@.len(),
                q@ == lower_of(query@),
                derefs(out@) == search_matches(self.file_index@.subrange(0, i as int), query@),
            decreases self.file_index@.len() - i,
        {
            assert(self.file_index@.subrange(0, i + 1).drop_last() =~= self.file_index@.subrange(0, i as int));
            let f = &self.file_index[i];
            let name = lowercase(f.filename.as_str());
            let name_hit = contains_str(name.as_str(), q.as_str());
            let mut hit = name_hit;
            let mut t: usize = 0;
            while t < f.tags.len() && !hit
                invariant
                    t <= f.tags@.len(),
                    q@ == lower_of(query@),
                    name_hit == contains_text(lower_of(f.filename@), lower_of(query@)),
                    hit == (name_hit || exists|u: int|
                        0 <= u < t && contains_text(lower_of(#[trigger] f.tags@[u]@), lower_of(query@))),
                decreases f.tags@.len() - t,
            {
                let tag = lowercase(f.tags[t].as_str());
                if contains_str(tag.as_str(), q.as_str()) {
                    hit = true;
                }
                t = t + 1;
            }
            assert(hit == matches_query(*f, query@));
            let ghost before = out@;
            if hit {
                out.push(f);
                assert(derefs(out@) =~= derefs(before).push(*f));
            }
            i = i + 1;
        }
        assert(self.file_index@.subrange(0, i as int) =~= self.file_index@);
        out
    }

    /// Removes and returns the description of `file_id`.
    pub fn remove_from_index(&mut self, file_id: &str) -> (r: Option<FileMetadata>)
        requires
            old(self).wf(),
        ensures
            final(self).wf(),
            index_of(final(self).spec_index(), file_id@) < 0,
            final(self).spec_identity() == old(self).spec_identity(),
            final(self).spec_erasure_config() == old(self).spec_erasure_config(),
            ({
                let i = index_of(old(self).spec_index(), file_id@);
                if i >= 0 {
                    r == Some(old(self).spec_index()[i]) && final(self).spec_index() == old(self).spec_index().remove(i)
                } else {
                    r is None && final(self).spec_index() == old(self).spec_index()
                }
            }),
    {
        proof {
            lemma_index_of(self.file_index@, file_id@);
        }
        match self.find(file_id) {
            Some(i) => {
                proof {
                    lemma_file_remove_absent(self.file_index@, i as int);
                }
                Some(self.file_index.remove(i))
            },
            None => None,
        }
    }

    /// Sum of plaintext sizes, at most `u64::MAX`.
    pub fn total_storage_used(&self) -> (r: u64)
        ensures
            r == if total_size(self.spec_index()) <= u64::MAX { total_size(self.spec_index()) } else { u64::MAX as nat },
    {
        let mut sum: u64 = 0;
        let mut i: usize = 0;
        while i < self.file_index.len()
            invariant
                i <= self.file_index@.len(),
                sum == if total_size(self.file_index@.subrange(0, i as int)) <= u64::MAX {
                    total_size(self.file_index@.subrange(0, i as int))
                } else {
                    u64::MAX as nat
                },
            decreases self.file_index@.len() - i,
        {
            assert(self.file_index@.subrange(0, i + 1).drop_last() =~= self.file_index@.subrange(0, i as int));
            sum = sum.saturating_add(self.file_index[i].size);
            i = i + 1;
        }
        assert(self.file_index@.subrange(0, i as int) =~= self.file_index@);
        sum
    }

    /// Number of indexed files.
    pub fn file_count(&self) -> (r: usize)
        ensures
            r == self.spec_index().len(),
    {
        self.file_index.len()
    }
}

impl PreparedFile {
    /// Shard `index`, if any.
    pub fn get_shard(&self, index: usize) -> (r: Option<&Shard>)
        ensures
            index < self.shards@.len() ==> r == Some(&self.shards@[index as int]),
            index >= self.shards@.len() ==> r is None,
    {
        if index < self.shards.len() {
            Some(&self.shards[index])
        } else {
            None
        }
    }

    /// Each shard's id with its bytes, pairing locations and shards in order.
    pub fn shard_data(&self) -> (r: Vec<(&str, &[u8])>)
        ensures
            r@.len() == if self.metadata.shards@.len() < self.shards@.len() {
                self.metadata.shards@.len()
            } else {
                self.shards@.len()
            },
            forall|i: int|
                0 <= i < r@.len() ==> (#[trigger] r@[i]).0@ == self.metadata.shards@[i].shard_id@ && r@[i].1@
                    == self.shards@[i].data@,
    {
        let n = if self.metadata.shards.len() < self.shards.len() {
            self.metadata.shards.len()
        } else {
            self.shards.len()
        };
        let mut out: Vec<(&str, &[u8])> = Vec::new();
        let mut i: usize = 0;
        while i < n
            invariant
                n <= self.metadata.shards@.len(),
                n <= self.shards@.len(),
                i <= n,
                out@.len() == i,
                forall|j: int|
                    0 <= j < i ==> (#[trigger] out@[j]).0@ == self.metadata.shards@[j].shard_id@ && out@[j].1@
                        == self.shards@[j].data@,
            decreases n - i,
        {
            out.push((self.metadata.shards[i].shard_id.as_str(), self.shards[i].data.as_slice()));
            i = i + 1;
        }
        out
    }
}

} // verus!
