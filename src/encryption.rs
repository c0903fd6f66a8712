//! AES-256-GCM encryption: single messages laid out as `nonce(12) ‖ ciphertext ‖ tag(16)`,
//! and files encrypted chunk by chunk for random access.
use vstd::prelude::*;
use vstd::string::*;
use aes_gcm::aead::{Aead, KeyInit};
use crate::crypto::{CryptoError, hkdf_sha256, hkdf_sha256_of, os_random_bytes};
use crate::wire::{le_bytes, lemma_le_len, lemma_usizes_layout, push_le, read_usize, usizes_bytes};

verus! {

/// Nonce length in bytes.
pub const NONCE_SIZE: usize = 12;

/// Tag length in bytes.
pub const TAG_SIZE: usize = 16;

/// Key length in bytes.
pub const KEY_SIZE: usize = 32;

/// The largest plaintext AES-GCM accepts in one call: 2^36 bytes.
pub const MAX_PLAINTEXT: u64 = 0x10_0000_0000;

/// AES-256-GCM output for a key, a nonce and a plaintext: the ciphertext followed by the tag.
pub uninterp spec fn aes_gcm_seal(key: Seq<u8>, nonce: Seq<u8>, plaintext: Seq<u8>) -> Seq<u8>;

#[verifier::external_type_specification]
#[verifier::external_body]
pub struct ExAeadError(aes_gcm::Error);

/// Relies on `Aes256Gcm::encrypt` (the `Aead` trait): it fails exactly on a plaintext of
/// more than 2^36 bytes, and otherwise returns the ciphertext followed by the 16-byte tag.
#[verifier::external_body]
fn gcm_seal(key: &[u8; 32], nonce: &[u8], plaintext: &[u8]) -> (r: Result<Vec<u8>, aes_gcm::Error>)
    requires
        nonce@.len() == 12,
    ensures
        r is Ok <==> plaintext@.len() <= MAX_PLAINTEXT,
        r matches Ok(c) ==> c@ == aes_gcm_seal(key@, nonce@, plaintext@) && c@.len() == plaintext@.len() + 16,
{
    let cipher = aes_gcm::Aes256Gcm::new(aes_gcm::Key::<aes_gcm::Aes256Gcm>::from_slice(key));
    cipher.encrypt(aes_gcm::Nonce::from_slice(nonce), plaintext)
}

/// Relies on `Aes256Gcm::decrypt` (the `Aead` trait): it returns the plaintext whose
/// sealing under the key and nonce is `sealed`, and fails when there is none.
#[verifier::external_body]
fn gcm_open(key: &[u8; 32], nonce: &[u8], sealed: &[u8]) -> (r: Result<Vec<u8>, aes_gcm::Error>)
    requires
        nonce@.len() == 12,
    ensures
        forall|p: Seq<u8>| #[trigger] aes_gcm_seal(key@, nonce@, p) == sealed@ ==> (r is Ok && r->Ok_0@ == p),
        r matches Ok(p) ==> aes_gcm_seal(key@, nonce@, p@) == sealed@,
{
    let cipher = aes_gcm::Aes256Gcm::new(aes_gcm::Key::<aes_gcm::Aes256Gcm>::from_slice(key));
    cipher.decrypt(aes_gcm::Nonce::from_slice(nonce), sealed)
}

/// `c` is `nonce ‖ AES-256-GCM(key, nonce, p)` for the nonce in its first 12 bytes.
pub open spec fn sealed_message(key: Seq<u8>, c: Seq<u8>, p: Seq<u8>) -> bool {
    &&& c.len() >= 12
    &&& c.subrange(12, c.len() as int) == aes_gcm_seal(key, c.subrange(0, 12), p)
}

/// What `encrypt` returns for `p`: a sealed message of `p`, 28 bytes longer.
pub open spec fn encrypted_as(key: Seq<u8>, p: Seq<u8>, c: Seq<u8>) -> bool {
    sealed_message(key, c, p) && c.len() == p.len() + 28
}

/// What `decrypt` turns into `p`: a sealed message of `p` of at least 28 bytes.
pub open spec fn decrypts_to(key: Seq<u8>, c: Seq<u8>, p: Seq<u8>) -> bool {
    c.len() >= 28 && sealed_message(key, c, p)
}

/// An AES-256-GCM key.
#[derive(Clone)]
pub struct EncryptionKey {
    key: [u8; 32],
}

impl View for EncryptionKey {
    type V = Seq<u8>;

    closed spec fn view(&self) -> Seq<u8> {
        self.key@
    }
}

impl EncryptionKey {
    /// A key with the given bytes.
    pub fn new(key: [u8; 32]) -> (r: EncryptionKey)
        ensures
            r@ == key@,
    {
        EncryptionKey { key }
    }

    /// A key of 32 bytes from the operating system's generator.
    pub fn generate() -> (r: EncryptionKey)
        ensures
            r@.len() == 32,
    {
        let bytes = os_random_bytes(32);
        EncryptionKey { key: crate::hashing::array32_from(bytes.as_slice()) }
    }

    /// The raw key bytes.
    pub fn as_bytes(&self) -> (r: &[u8; 32])
        ensures
            r@ == self@,
    {
        &self.key
    }

    /// Encrypts under a fresh random nonce; the result is `nonce ‖ ciphertext ‖ tag`.
    /// Fails only on a plaintext over 2^36 bytes.
    pub fn encrypt(&self, plaintext: &[u8]) -> (r: Result<Vec<u8>, CryptoError>)
        ensures
            r is Ok <==> plaintext@.len() <= MAX_PLAINTEXT,
            r matches Ok(c) ==> encrypted_as(self@, plaintext@, c@),
            r matches Err(e) ==> e is EncryptionFailed,
    {
        let nonce = os_random_bytes(NONCE_SIZE);
        match gcm_seal(&self.key, nonce.as_slice(), plaintext) {
            Ok(body) => {
                let mut out: Vec<u8> = Vec::new();
                out.extend_from_slice(nonce.as_slice());
                out.extend_from_slice(body.as_slice());
                assert(out@.subrange(0, 12) =~= nonce@);
                assert(out@.subrange(12, out@.len() as int) =~= body@);
                Ok(out)
            },
            Err(_) => Err(CryptoError::EncryptionFailed(String::from_str("plaintext too long"))),
        }
    }

    /// Decrypts `nonce ‖ ciphertext ‖ tag`. Input under 28 bytes fails; a sealed message
    /// decrypts to its plaintext; any success is the plaintext the input seals.
    pub fn decrypt(&self, ciphertext: &[u8]) -> (r: Result<Vec<u8>, CryptoError>)
        ensures
            ciphertext@.len() < 28 ==> r is Err,
            forall|p: Seq<u8>|
                #![trigger sealed_message(self@, ciphertext@, p)]
                decrypts_to(self@, ciphertext@, p) ==> (r is Ok && r->Ok_0@ == p),
            r matches Ok(p) ==> sealed_message(self@, ciphertext@, p@),
            r matches Err(e) ==> e is DecryptionFailed,
    {
        if ciphertext.len() < NONCE_SIZE + TAG_SIZE {
            return Err(CryptoError::DecryptionFailed(String::from_str("ciphertext too short")));
        }
        let nonce = &ciphertext[0..NONCE_SIZE];
        let body = &ciphertext[NONCE_SIZE..ciphertext.len()];
        match gcm_open(&self.key, nonce, body) {
            Ok(p) => Ok(p),
            Err(_) => Err(CryptoError::DecryptionFailed(String::from_str("authentication failed"))),
        }
    }
}

/// Per-file key: HKDF-SHA256 with the file id as salt, the master key as input key
/// material and `"cloudp2p-file-key"` as info.
pub fn derive_file_key(master_key: &EncryptionKey, file_id: &[u8]) -> (r: EncryptionKey)
    ensures
        r@ == hkdf_sha256_of(file_id@, master_key@, "cloudp2p-file-key".spec_bytes()),
{
    let info = "cloudp2p-file-key".as_bytes();
    match hkdf_sha256(file_id, master_key.as_bytes(), info) {
        Ok(k) => EncryptionKey::new(k),
        Err(_) => EncryptionKey::new([0u8; 32]),
    }
}


/// Number of chunks of `cs` bytes covering `n` bytes: `ceil(n / cs)`.
pub open spec fn chunk_count_of(n: nat, cs: nat) -> nat {
    if n % cs == 0 { n / cs } else { n / cs + 1 }
}

/// Plaintext chunk `i`: `p[i*cs .. min((i+1)*cs, |p|)]`.
pub open spec fn plain_chunk(p: Seq<u8>, cs: nat, i: int) -> Seq<u8> {
    p.subrange(i * cs, if (i + 1) * cs <= p.len() { (i + 1) * cs } else { p.len() as int })
}

/// A file encrypted chunk by chunk into one flat buffer.
#[derive(Debug, Clone)]
pub struct EncryptedFile {
    /// The encrypted chunks, back to back.
    pub data: Vec<u8>,
    /// Start of each chunk in `data`.
    pub chunk_offsets: Vec<usize>,
    /// Plaintext length.
    pub original_size: usize,
    /// Plaintext bytes per chunk.
    pub chunk_size: usize,
}

impl EncryptedFile {
    /// Offsets are ascending and inside the buffer.
    pub open spec fn offsets_ok(&self) -> bool {
        forall|i: int|
            0 <= i < self.chunk_offsets@.len() ==> {
                &&& #[trigger] self.chunk_offsets@[i] <= self.data@.len()
                &&& i + 1 < self.chunk_offsets@.len() ==> self.chunk_offsets@[i] <= self.chunk_offsets@[i + 1]
            }
    }

    /// End of chunk `i`: the next chunk's start, or the end of the buffer.
    pub open spec fn chunk_end(&self, i: int) -> int {
        if i + 1 < self.chunk_offsets@.len() {
            self.chunk_offsets@[i + 1] as int
        } else {
            self.data@.len() as int
        }
    }

    /// The bytes of chunk `i`.
    pub open spec fn chunk_bytes(&self, i: int) -> Seq<u8> {
        self.data@.subrange(self.chunk_offsets@[i] as int, self.chunk_end(i))
    }

    /// This is the chunked encryption of `p` under `key`: one sealed message per chunk.
    pub open spec fn encrypts(&self, key: Seq<u8>, p: Seq<u8>) -> bool {
        &&& self.chunk_size > 0
        &&& self.original_size == p.len()
        &&& self.chunk_offsets@.len() == chunk_count_of(p.len(), self.chunk_size as nat)
        &&& self.chunk_offsets@.len() > 0 ==> self.chunk_offsets@[0] == 0
        &&& self.data@.len() == p.len() + 28 * self.chunk_offsets@.len()
        &&& self.offsets_ok()
        &&& forall|i: int|
            0 <= i < self.chunk_offsets@.len() ==> {
                &&& sealed_message(key, #[trigger] self.chunk_bytes(i), plain_chunk(p, self.chunk_size as nat, i))
                &&& self.chunk_bytes(i).len() == plain_chunk(p, self.chunk_size as nat, i).len() + 28
            }
    }

    /// The serialized form: the buffer's length and bytes, the number of offsets and
    /// each offset, the original size and the chunk size; every number as 8
    /// little-endian bytes.
    pub open spec fn wire_bytes(&self) -> Seq<u8> {
        le_bytes(self.data@.len(), 8) + self.data@ + le_bytes(self.chunk_offsets@.len(), 8) + usizes_bytes(
            self.chunk_offsets@,
        ) + le_bytes(self.original_size as nat, 8) + le_bytes(self.chunk_size as nat, 8)
    }

    /// Serializes to `wire_bytes`.
    pub fn to_bytes(&self) -> (r: Result<Vec<u8>, CryptoError>)
        ensures
            r is Ok,
            r matches Ok(b) ==> b@ == self.wire_bytes(),
    {
        let mut out: Vec<u8> = Vec::new();
        push_le(&mut out, self.data.len() as u64, 8);
        out.extend_from_slice(self.data.as_slice());
        push_le(&mut out, self.chunk_offsets.len() as u64, 8);
        let mut i: usize = 0;
        let ghost head = out@;
        while i < self.chunk_offsets.len()
            invariant
                i <= self.chunk_offsets@.len(),
                out@ == head + usizes_bytes(self.chunk_offsets@.subrange(0, i as int)),
            decreases self.chunk_offsets@.len() - i,
        {
            push_le(&mut out, self.chunk_offsets[i] as u64, 8);
            assert(self.chunk_offsets@.subrange(0, i + 1).drop_last() =~= self.chunk_offsets@.subrange(0, i as int));
            assert(out@ =~= head + usizes_bytes(self.chunk_offsets@.subrange(0, i + 1)));
            i = i + 1;
        }
        assert(self.chunk_offsets@.subrange(0, i as int) =~= self.chunk_offsets@);
        push_le(&mut out, self.original_size as u64, 8);
        push_le(&mut out, self.chunk_size as u64, 8);
        assert(out@ =~= self.wire_bytes());
        Ok(out)
    }

    /// Parses the serialized form at the start of `bytes`; what follows it is ignored.
    /// The encoding of any file parses back to that file.
    pub fn from_bytes(bytes: &[u8]) -> (r: Result<EncryptedFile, CryptoError>)
        ensures
            r matches Ok(ef) ==> ef.wire_bytes().len() <= bytes@.len() && bytes@.subrange(0, ef.wire_bytes().len() as int)
                == ef.wire_bytes(),
            forall|ef: EncryptedFile|
                #![trigger ef.wire_bytes()]
                ef.wire_bytes().len() <= bytes@.len() && bytes@.subrange(0, ef.wire_bytes().len() as int) == ef.wire_bytes()
                    ==> (r is Ok && r->Ok_0.same_as(ef)),
            r matches Err(e) ==> e is InvalidData,
    {
        let blen = bytes.len();
        proof {
            assert forall|ef: EncryptedFile|
                #![trigger ef.wire_bytes()]
                ef.wire_bytes().len() <= bytes@.len() && bytes@.subrange(0, ef.wire_bytes().len() as int) == ef.wire_bytes()
                implies ef.wire_layout_in(bytes@) by {
                ef.lemma_wire_layout(bytes@);
            }
        }
        let dlen = match read_usize(bytes, 0) {
            Some(v) => v,
            None => {
                return Err(CryptoError::InvalidData(String::from_str("truncated header")));
            },
        };
        if blen - 8 < dlen {
            return Err(CryptoError::InvalidData(String::from_str("truncated data")));
        }
        let data = vstd::slice::slice_to_vec(&bytes[8..8 + dlen]);
        let mut pos: usize = 8 + dlen;
        let cnt = match read_usize(bytes, pos) {
            Some(v) => v,
            None => {
                return Err(CryptoError::InvalidData(String::from_str("truncated offsets")));
            },
        };
        pos = pos + 8;
        let mut offsets: Vec<usize> = Vec::new();
        let mut i: usize = 0;
        while i < cnt
            invariant
                blen == bytes@.len(),
                dlen == data@.len(),
                data@ == bytes@.subrange(8, 8 + dlen),
                le_bytes(dlen as nat, 8) == bytes@.subrange(0, 8),
                le_bytes(cnt as nat, 8) == bytes@.subrange(8 + dlen, 16 + dlen),
                i <= cnt,
                offsets@.len() == i,
                pos == 16 + dlen + 8 * i,
                pos <= blen,
                bytes@.subrange(16 + dlen, pos as int) == usizes_bytes(offsets@),
                forall|ef: EncryptedFile|
                    #![trigger ef.wire_bytes()]
                    ef.wire_bytes().len() <= bytes@.len() && bytes@.subrange(0, ef.wire_bytes().len() as int) == ef.wire_bytes()
                        ==> ef.wire_layout_in(bytes@) && ef.data@.len() == dlen && ef.chunk_offsets@.len() == cnt
                        && offsets@ == ef.chunk_offsets@.subrange(0, i as int),
            decreases cnt - i,
        {
            proof {
                assert forall|ef: EncryptedFile|
                    #![trigger ef.wire_bytes()]
                    ef.wire_bytes().len() <= bytes@.len() && bytes@.subrange(0, ef.wire_bytes().len() as int) == ef.wire_bytes()
                    implies pos + 8 <= bytes@.len() && bytes@.subrange(pos as int, pos + 8) == le_bytes(ef.chunk_offsets@[i as int] as nat, 8) by {
                    assert(bytes@.subrange(16 + dlen + 8 * i, 24 + dlen + 8 * i) == le_bytes(ef.chunk_offsets@[i as int] as nat, 8));
                }
            }
            let v = match read_usize(bytes, pos) {
                Some(v) => v,
                None => {
                    return Err(CryptoError::InvalidData(String::from_str("truncated offsets")));
                },
            };
            proof {
                lemma_le_len(v as nat, 8);
                assert(offsets@.push(v).drop_last() =~= offsets@);
                assert(bytes@.subrange(16 + dlen, pos + 8) =~= bytes@.subrange(16 + dlen, pos as int) + bytes@.subrange(
                    pos as int,
                    pos + 8,
                ));
            }
            offsets.push(v);
            pos = pos + 8;
            i = i + 1;
        }
        proof {
            assert forall|ef: EncryptedFile|
                #![trigger ef.wire_bytes()]
                ef.wire_bytes().len() <= bytes@.len() && bytes@.subrange(0, ef.wire_bytes().len() as int) == ef.wire_bytes()
                implies pos + 16 <= bytes@.len() && bytes@.subrange(pos as int, pos + 8) == le_bytes(ef.original_size as nat, 8)
                && bytes@.subrange(pos + 8, pos + 16) == le_bytes(ef.chunk_size as nat, 8) by {}
        }
        let orig = match read_usize(bytes, pos) {
            Some(v) => v,
            None => {
                return Err(CryptoError::InvalidData(String::from_str("truncated sizes")));
            },
        };
        let cs = match read_usize(bytes, pos + 8) {
            Some(v) => v,
            None => {
                return Err(CryptoError::InvalidData(String::from_str("truncated sizes")));
            },
        };
        let ef = EncryptedFile { data, chunk_offsets: offsets, original_size: orig, chunk_size: cs };
        proof {
            lemma_le_len(dlen as nat, 8);
            lemma_le_len(cnt as nat, 8);
            lemma_le_len(orig as nat, 8);
            lemma_le_len(cs as nat, 8);
            lemma_usizes_layout(ef.chunk_offsets@);
            assert(bytes@.subrange(0, ef.wire_bytes().len() as int) =~= ef.wire_bytes());
            assert forall|e2: EncryptedFile|
                #![trigger e2.wire_bytes()]
                e2.wire_bytes().len() <= bytes@.len() && bytes@.subrange(0, e2.wire_bytes().len() as int) == e2.wire_bytes()
                implies ef.same_as(e2) by {
                assert(ef.chunk_offsets@ =~= e2.chunk_offsets@.subrange(0, cnt as int));
                assert(e2.chunk_offsets@.subrange(0, cnt as int) =~= e2.chunk_offsets@);
            }
        }
        Ok(ef)
    }

    /// Same contents.
    pub open spec fn same_as(&self, other: EncryptedFile) -> bool {
        &&& self.data@ == other.data@
        &&& self.chunk_offsets@ == other.chunk_offsets@
        &&& self.original_size == other.original_size
        &&& self.chunk_size == other.chunk_size
    }

    /// Where each field of `wire_bytes` lies in `b`, which starts with it.
    pub open spec fn wire_layout_in(&self, b: Seq<u8>) -> bool {
        let l = self.data@.len() as int;
        let c = self.chunk_offsets@.len() as int;
        &&& 32 + l + 8 * c <= b.len()
        &&& b.subrange(0, 8) == le_bytes(self.data@.len(), 8)
        &&& b.subrange(8, 8 + l) == self.data@
        &&& b.subrange(8 + l, 16 + l) == le_bytes(self.chunk_offsets@.len(), 8)
        &&& forall|j: int| 0 <= j < c ==> #[trigger] b.subrange(16 + l + 8 * j, 24 + l + 8 * j) == le_bytes(self.chunk_offsets@[j] as nat, 8)
        &&& b.subrange(16 + l + 8 * c, 24 + l + 8 * c) == le_bytes(self.original_size as nat, 8)
        &&& b.subrange(24 + l + 8 * c, 32 + l + 8 * c) == le_bytes(self.chunk_size as nat, 8)
    }

    proof fn lemma_wire_layout(&self, b: Seq<u8>)
        requires
            self.wire_bytes().len() <= b.len(),
            b.subrange(0, self.wire_bytes().len() as int) == self.wire_bytes(),
        ensures
            self.wire_layout_in(b),
    {
        let l = self.data@.len() as int;
        let c = self.chunk_offsets@.len() as int;
        let w = self.wire_bytes();
        lemma_le_len(l as nat, 8);
        lemma_le_len(c as nat, 8);
        lemma_le_len(self.original_size as nat, 8);
        lemma_le_len(self.chunk_size as nat, 8);
        lemma_usizes_layout(self.chunk_offsets@);
        assert(w.len() == 32 + l + 8 * c);
        assert forall|k: int| 0 <= k < w.len() implies b[k] == w[k] by {
            assert(b.subrange(0, w.len() as int)[k] == b[k]);
        }
        assert(b.subrange(0, 8) =~= le_bytes(l as nat, 8));
        assert(b.subrange(8, 8 + l) =~= self.data@);
        assert(b.subrange(8 + l, 16 + l) =~= le_bytes(c as nat, 8));
        let ob = usizes_bytes(self.chunk_offsets@);
        assert forall|k: int| 0 <= k < 8 * c implies #[trigger] w[16 + l + k] == ob[k] by {}
        assert forall|j: int| 0 <= j < c implies #[trigger] b.subrange(16 + l + 8 * j, 24 + l + 8 * j) == le_bytes(
            self.chunk_offsets@[j] as nat,
            8,
        ) by {
            assert(ob.subrange(8 * j, 8 * j + 8) == le_bytes(self.chunk_offsets@[j] as nat, 8));
            assert forall|t: int| 0 <= t < 8 implies #[trigger] b.subrange(16 + l + 8 * j, 24 + l + 8 * j)[t] == ob.subrange(8 * j, 8 * j + 8)[t] by {
                assert(w[16 + l + (8 * j + t)] == ob[8 * j + t]);
            }
            assert(b.subrange(16 + l + 8 * j, 24 + l + 8 * j) =~= ob.subrange(8 * j, 8 * j + 8));
        }
        assert(b.subrange(16 + l + 8 * c, 24 + l + 8 * c) =~= le_bytes(self.original_size as nat, 8));
        assert(b.subrange(24 + l + 8 * c, 32 + l + 8 * c) =~= le_bytes(self.chunk_size as nat, 8));
    }

    /// Length of the serialized form.
    pub proof fn lemma_wire_len(&self)
        ensures
            self.wire_bytes().len() == 32 + self.data@.len() + 8 * self.chunk_offsets@.len(),
    {
        lemma_le_len(self.data@.len(), 8);
        lemma_le_len(self.chunk_offsets@.len(), 8);
        lemma_le_len(self.original_size as nat, 8);
        lemma_le_len(self.chunk_size as nat, 8);
        lemma_usizes_layout(self.chunk_offsets@);
    }

    /// The number of chunks.
    pub fn chunk_count(&self) -> (r: usize)
        ensures
            r == self.chunk_offsets@.len(),
    {
        self.chunk_offsets.len()
    }

    /// The encrypted length.
    pub fn encrypted_size(&self) -> (r: usize)
        ensures
            r == self.data@.len(),
    {
        self.data.len()
    }
}

/// Encrypts files in independently sealed chunks.
pub struct FileEncryptor {
    key: EncryptionKey,
    chunk_size: usize,
}

proof fn lemma_chunk_count(n: int, cs: int, i: int)
    requires
        cs > 0,
        n > 0,
        i >= 1,
        (i - 1) * cs < n,
        n <= i * cs,
    ensures
        i == chunk_count_of(n as nat, cs as nat),
{
    let q = n / cs;
    let r = n % cs;
    assert(n == cs * q + r) by (nonlinear_arith) requires q == n / cs, r == n % cs, cs > 0;
    assert((i - 1) * cs == i * cs - cs) by (nonlinear_arith);
    if r == 0 {
        assert(i - 1 < q) by (nonlinear_arith) requires (i - 1) * cs < cs * q, cs > 0;
        assert(q <= i) by (nonlinear_arith) requires cs * q <= i * cs, cs > 0;
    } else {
        assert(i - 1 < q + 1) by (nonlinear_arith) requires (i - 1) * cs < cs * q + r, r < cs, cs > 0;
        assert(q < i) by (nonlinear_arith) requires cs * q + r <= i * cs, r > 0, cs > 0;
    }
}

proof fn lemma_plain_prefix(p: Seq<u8>, cs: nat, i: int)
    requires
        cs > 0,
        i >= 0,
        i * cs < p.len(),
    ensures
        ({
            let e = if (i + 1) * cs <= p.len() { (i + 1) * cs } else { p.len() as int };
            p.subrange(0, i * cs) + plain_chunk(p, cs, i) == p.subrange(0, e)
        }),
{
    assert((i + 1) * cs == i * cs + cs) by (nonlinear_arith);
    assert(i * cs >= 0) by (nonlinear_arith) requires i >= 0, cs > 0;
    let e = if (i + 1) * cs <= p.len() { (i + 1) * cs } else { p.len() as int };
    assert(p.subrange(0, i * cs) + p.subrange(i * cs, e) =~= p.subrange(0, e));
}

proof fn lemma_chunk_start_below(n: nat, cs: nat, i: int)
    requires
        cs > 0,
        0 <= i < chunk_count_of(n, cs),
    ensures
        i * cs < n,
        (i + 1) * cs == i * cs + cs,
{
    let q = n / cs;
    let r = n % cs;
    assert(n == cs * q + r) by (nonlinear_arith) requires q == n / cs, r == n % cs, cs > 0;
    assert((i + 1) * cs == i * cs + cs) by (nonlinear_arith);
    if r == 0 {
        assert(i * cs <= (q - 1) * cs) by (nonlinear_arith) requires i <= q - 1, cs > 0;
        assert((q - 1) * cs == cs * q - cs) by (nonlinear_arith);
    } else {
        assert(i * cs <= q * cs) by (nonlinear_arith) requires i <= q, cs > 0;
        assert(q * cs == cs * q) by (nonlinear_arith);
    }
}

proof fn lemma_chunk_count_covers(n: nat, cs: nat)
    requires
        cs > 0,
    ensures
        chunk_count_of(n, cs) * cs >= n,
{
    let q = n / cs;
    let r = n % cs;
    assert(n == cs * q + r) by (nonlinear_arith) requires q == n / cs, r == n % cs, cs > 0;
    assert((q + 1) * cs == cs * q + cs) by (nonlinear_arith);
    assert(q * cs == cs * q) by (nonlinear_arith);
}

impl FileEncryptor {
    pub closed spec fn spec_key(&self) -> Seq<u8> {
        self.key@
    }

    pub closed spec fn spec_chunk_size(&self) -> nat {
        self.chunk_size as nat
    }

    /// An encryptor with 64 KiB chunks.
    pub fn new(key: EncryptionKey) -> (r: FileEncryptor)
        ensures
            r.spec_key() == key@,
            r.spec_chunk_size() == 65536,
    {
        FileEncryptor { key, chunk_size: 64 * 1024 }
    }

    /// Sets the chunk size.
    pub fn with_chunk_size(self, size: usize) -> (r: FileEncryptor)
        ensures
            r.spec_key() == self.spec_key(),
            r.spec_chunk_size() == size,
    {
        FileEncryptor { key: self.key, chunk_size: size }
    }

    /// Encrypts `data` chunk by chunk, each under a fresh nonce. Fails only when a chunk
    /// would exceed 2^36 bytes.
    pub fn encrypt_file(&self, data: &[u8]) -> (r: Result<EncryptedFile, CryptoError>)
        requires
            self.spec_chunk_size() > 0,
        ensures
            r is Ok <==> (self.spec_chunk_size() <= MAX_PLAINTEXT || data@.len() <= MAX_PLAINTEXT),
            r matches Ok(ef) ==> ef.encrypts(self.spec_key(), data@) && ef.chunk_size == self.spec_chunk_size(),
            r matches Err(e) ==> e is EncryptionFailed,
    {
        let n = data.len();
        let cs = self.chunk_size;
        let ghost key = self.key@;
        let mut out: Vec<u8> = Vec::new();
        let mut offsets: Vec<usize> = Vec::new();
        let mut start: usize = 0;
        let mut i: usize = 0;
        while start < n
            invariant
                n == data@.len(),
                cs == self.spec_chunk_size(),
                cs > 0,
                key == self.key@,
                start <= n,
                start == if i * cs <= n { i * cs } else { n as int },
                i > 0 ==> (i - 1) * cs < n,
                start < n ==> start == i * cs,
                i > 0 ==> (cs <= MAX_PLAINTEXT || n <= MAX_PLAINTEXT),
                i <= start,
                offsets@.len() == i,
                i > 0 ==> offsets@[0] == 0,
                out@.len() == start + 28 * i,
                forall|j: int|
                    0 <= j < i ==> {
                        &&& #[trigger] offsets@[j] <= out@.len()
                        &&& j + 1 < i ==> offsets@[j] <= offsets@[j + 1]
                        &&& sealed_message(
                            key,
                            out@.subrange(offsets@[j] as int, if j + 1 < i { offsets@[j + 1] as int } else { out@.len() as int }),
                            plain_chunk(data@, cs as nat, j),
                        )
                        &&& out@.subrange(offsets@[j] as int, if j + 1 < i { offsets@[j + 1] as int } else { out@.len() as int }).len()
                            == plain_chunk(data@, cs as nat, j).len() + 28
                    },
            decreases n - start,
        {
            let end: usize = if n - start > cs { start + cs } else { n };
            let chunk = &data[start..end];
            assert(chunk@ == plain_chunk(data@, cs as nat, i as int)) by {
                assert((i + 1) * cs == i * cs + cs) by (nonlinear_arith);
            }
            let sealed = match self.key.encrypt(chunk) {
                Ok(c) => c,
                Err(e) => {
                    assert(chunk@.len() <= cs && chunk@.len() <= n);
                    return Err(e);
                },
            };
            let ghost old_out = out@;
            let ghost old_offsets = offsets@;
            offsets.push(out.len());
            out.extend_from_slice(sealed.as_slice());
            proof {
                assert(out@.subrange(old_out.len() as int, out@.len() as int) =~= sealed@);
                assert forall|j: int| 0 <= j < i + 1 implies {
                    &&& #[trigger] offsets@[j] <= out@.len()
                    &&& j + 1 < i + 1 ==> offsets@[j] <= offsets@[j + 1]
                    &&& sealed_message(
                        key,
                        out@.subrange(offsets@[j] as int, if j + 1 < i + 1 { offsets@[j + 1] as int } else { out@.len() as int }),
                        plain_chunk(data@, cs as nat, j),
                    )
                    &&& out@.subrange(offsets@[j] as int, if j + 1 < i + 1 { offsets@[j + 1] as int } else { out@.len() as int }).len()
                        == plain_chunk(data@, cs as nat, j).len() + 28
                } by {
                    if j < i {
                        assert(offsets@[j] == old_offsets[j]);
                        let e = if j + 1 < i { old_offsets[j + 1] as int } else { old_out.len() as int };
                        assert(out@.subrange(offsets@[j] as int, e) =~= old_out.subrange(old_offsets[j] as int, e));
                    }
                }
                assert((i + 1) * cs == i * cs + cs) by (nonlinear_arith);
            }
            i = i + 1;
            start = end;
        }
        proof {
            if n > 0 {
                lemma_chunk_count(n as int, cs as int, i as int);
            } else {
                assert(i == 0) by {
                    if i > 0 {
                        assert((i - 1) * cs >= 0) by (nonlinear_arith) requires i >= 1, cs > 0;
                    }
                }
            }
        }
        let ef = EncryptedFile { data: out, chunk_offsets: offsets, original_size: n, chunk_size: cs };
        assert forall|j: int| 0 <= j < ef.chunk_offsets@.len() implies {
            &&& sealed_message(key, #[trigger] ef.chunk_bytes(j), plain_chunk(data@, cs as nat, j))
            &&& ef.chunk_bytes(j).len() == plain_chunk(data@, cs as nat, j).len() + 28
        } by {
            assert(ef.chunk_offsets@[j] <= ef.data@.len());
        }
        Ok(ef)
    }

    /// Bounds of chunk `i`, or `InvalidData` when the offsets do not delimit it.
    fn chunk_range(encrypted: &EncryptedFile, i: usize) -> (r: Result<(usize, usize), CryptoError>)
        requires
            i < encrypted.chunk_offsets@.len(),
        ensures
            encrypted.offsets_ok() ==> r is Ok,
            r matches Ok((s, e)) ==> s == encrypted.chunk_offsets@[i as int] && e == encrypted.chunk_end(i as int) && s <= e
                <= encrypted.data@.len(),
            r matches Err(e) ==> e is InvalidData,
    {
        let start = encrypted.chunk_offsets[i];
        let end = if i < encrypted.chunk_offsets.len() - 1 {
            encrypted.chunk_offsets[i + 1]
        } else {
            encrypted.data.len()
        };
        if start > end || end > encrypted.data.len() {
            return Err(CryptoError::InvalidData(String::from_str("malformed chunk offsets")));
        }
        Ok((start, end))
    }

    /// Decrypts a whole file: the chunked encryption of `p` under this key decrypts to `p`.
    pub fn decrypt_file(&self, encrypted: &EncryptedFile) -> (r: Result<Vec<u8>, CryptoError>)
        ensures
            forall|p: Seq<u8>| #[trigger] encrypted.encrypts(self.spec_key(), p) ==> (r is Ok && r->Ok_0@ == p),
            r matches Err(e) ==> (e is DecryptionFailed || e is InvalidData),
    {
        let ghost key = self.key@;
        let ghost cs = encrypted.chunk_size as nat;
        let mut plaintext: Vec<u8> = Vec::new();
        let count = encrypted.chunk_offsets.len();
        let mut i: usize = 0;
        while i < count
            invariant
                key == self.spec_key(),
                cs == encrypted.chunk_size,
                count == encrypted.chunk_offsets@.len(),
                i <= count,
                forall|p: Seq<u8>|
                    #[trigger] encrypted.encrypts(key, p) ==> plaintext@ == p.subrange(
                        0,
                        if i * cs <= p.len() { i * cs } else { p.len() as int },
                    ),
            decreases count - i,
        {
            let (start, end) = match FileEncryptor::chunk_range(encrypted, i) {
                Ok(b) => b,
                Err(e) => {
                    return Err(e);
                },
            };
            assert(encrypted.chunk_bytes(i as int) == encrypted.data@.subrange(start as int, end as int));
            let chunk = match self.key.decrypt(&encrypted.data[start..end]) {
                Ok(c) => c,
                Err(e) => {
                    return Err(e);
                },
            };
            let ghost before = plaintext@;
            plaintext.extend_from_slice(chunk.as_slice());
            proof {
                assert forall|p: Seq<u8>| #[trigger] encrypted.encrypts(key, p) implies plaintext@ == p.subrange(
                    0,
                    if (i + 1) * cs <= p.len() { (i + 1) * cs } else { p.len() as int },
                ) by {
                    assert(encrypted.chunk_bytes(i as int) == encrypted.data@.subrange(start as int, end as int));
                    lemma_chunk_start_below(p.len(), cs, i as int);
                    assert(chunk@ == plain_chunk(p, cs, i as int));
                    lemma_plain_prefix(p, cs, i as int);
                    assert(i * cs <= p.len());
                    assert(plaintext@ =~= before + chunk@);
                }
            }
            i = i + 1;
        }
        proof {
            assert forall|p: Seq<u8>| #[trigger] encrypted.encrypts(key, p) implies plaintext@ == p by {
                lemma_chunk_count_covers(p.len(), cs);
                if i * cs <= p.len() {
                    assert(i * cs == p.len());
                }
                assert(p.subrange(0, p.len() as int) =~= p);
            }
        }
        Ok(plaintext)
    }

    /// Decrypts chunk `chunk_index` alone: for the chunked encryption of `p` this is
    /// `p[i*cs .. min((i+1)*cs, |p|)]`.
    pub fn decrypt_chunk(&self, encrypted: &EncryptedFile, chunk_index: usize) -> (r: Result<Vec<u8>, CryptoError>)
        ensures
            chunk_index >= encrypted.chunk_offsets@.len() ==> (r is Err && r->Err_0 is InvalidData),
            forall|p: Seq<u8>|
                #[trigger] encrypted.encrypts(self.spec_key(), p) && chunk_index < encrypted.chunk_offsets@.len() ==> (r is Ok
                    && r->Ok_0@ == plain_chunk(p, encrypted.chunk_size as nat, chunk_index as int)),
            r matches Err(e) ==> (e is DecryptionFailed || e is InvalidData),
    {
        if chunk_index >= encrypted.chunk_offsets.len() {
            return Err(CryptoError::InvalidData(String::from_str("chunk index out of bounds")));
        }
        let (start, end) = match FileEncryptor::chunk_range(encrypted, chunk_index) {
            Ok(b) => b,
            Err(e) => {
                return Err(e);
            },
        };
        assert(encrypted.chunk_bytes(chunk_index as int) == encrypted.data@.subrange(start as int, end as int));
        self.key.decrypt(&encrypted.data[start..end])
    }
}

/// Encryption round trip: whatever `encrypt` returns for `p` under a key, `decrypt` under
/// that key turns back into `p`.
pub proof fn lemma_encrypt_round_trip(key: Seq<u8>, c: Seq<u8>, p: Seq<u8>)
    requires
        encrypted_as(key, p, c),
    ensures
        decrypts_to(key, c, p),
{
}

/// Chunked random access: in the chunked encryption of `p`, chunk `i` starts inside `p`
/// and is the sealed message of `p[i*cs .. min((i+1)*cs, |p|)]`; so `decrypt_chunk`
/// returns that slice.
pub proof fn lemma_chunk_random_access(ef: EncryptedFile, key: Seq<u8>, p: Seq<u8>, i: int)
    requires
        ef.encrypts(key, p),
        0 <= i < ef.chunk_offsets@.len(),
    ensures
        i * ef.chunk_size < p.len(),
        ef.chunk_bytes(i).len() >= 28,
        sealed_message(key, ef.chunk_bytes(i), plain_chunk(p, ef.chunk_size as nat, i)),
{
    lemma_chunk_start_below(p.len(), ef.chunk_size as nat, i);
}

} // verus!
