//! Content addressing with BLAKE3: the 32-byte digest, its codecs, an
//! incremental hasher and a Merkle tree over ordered chunks.
use vstd::prelude::*;
use vstd::array::*;

verus! {

/// The BLAKE3 digest of a byte sequence.
pub uninterp spec fn blake3_of(data: Seq<u8>) -> Seq<u8>;

/// Relies on `blake3::hash`: the 32-byte BLAKE3 digest, a function of the input bytes alone.
#[verifier::external_body]
fn blake3_digest(data: &[u8]) -> (r: [u8; 32])
    ensures
        r@ == blake3_of(data@),
{
    *blake3::hash(data).as_bytes()
}

/// A 32-byte BLAKE3 content hash.
#[derive(Clone, Copy, Debug, Hash)]
pub struct ContentHash(pub [u8; 32]);

impl View for ContentHash {
    type V = Seq<u8>;

    open spec fn view(&self) -> Seq<u8> {
        self.0@
    }
}

impl PartialEq for ContentHash {
    fn eq(&self, other: &ContentHash) -> (r: bool)
        ensures
            r == (self@ == other@),
    {
        bytes_equal(&self.0, &other.0)
    }
}

impl vstd::std_specs::cmp::PartialEqSpecImpl for ContentHash {
    open spec fn obeys_eq_spec() -> bool {
        true
    }

    open spec fn eq_spec(&self, other: &ContentHash) -> bool {
        self@ == other@
    }
}

impl Eq for ContentHash {}

/// Byte-wise equality of two digests.
fn bytes_equal(a: &[u8; 32], b: &[u8; 32]) -> (r: bool)
    ensures
        r == (a@ == b@),
{
    let mut i: usize = 0;
    while i < 32
        invariant
            i <= 32,
            a@.len() == 32,
            b@.len() == 32,
            forall|j: int| 0 <= j < i ==> a@[j] == b@[j],
        decreases 32 - i,
    {
        if a[i] != b[i] {
            return false;
        }
        i = i + 1;
    }
    assert(a@ =~= b@);
    true
}

impl ContentHash {
    /// Hashes `data`.
    pub fn hash(data: &[u8]) -> (r: ContentHash)
        ensures
            r@ == blake3_of(data@),
    {
        ContentHash(blake3_digest(data))
    }

    /// Wraps 32 raw bytes.
    pub fn from_bytes(bytes: [u8; 32]) -> (r: ContentHash)
        ensures
            r@ == bytes@,
    {
        ContentHash(bytes)
    }

    /// The raw digest bytes.
    pub fn as_bytes(&self) -> (r: &[u8; 32])
        ensures
            r@ == self@,
    {
        &self.0
    }

    /// Whether `data` hashes to this digest.
    pub fn verify(&self, data: &[u8]) -> (r: bool)
        ensures
            r == verifies(self@, data@),
    {
        let h = ContentHash::hash(data);
        bytes_equal(&h.0, &self.0)
    }
}


/// Digits of lowercase hexadecimal.
pub open spec fn hex_digits() -> Seq<char> {
    seq!['0', '1', '2', '3', '4', '5', '6', '7', '8', '9', 'a', 'b', 'c', 'd', 'e', 'f']
}

/// Lowercase hexadecimal: two digits per byte, high nibble first.
pub open spec fn hex_of(b: Seq<u8>) -> Seq<char>
    decreases b.len(),
{
    if b.len() == 0 {
        Seq::empty()
    } else {
        hex_of(b.drop_last()) + seq![
            hex_digits()[(b.last() / 16) as int],
            hex_digits()[(b.last() % 16) as int],
        ]
    }
}

/// The Base58 text (Bitcoin alphabet, no checksum) of a byte sequence.
pub uninterp spec fn base58_of(b: Seq<u8>) -> Seq<char>;

/// Relies on `hex::encode`: two lowercase hex digits per byte, in order.
#[verifier::external_body]
fn hex_encode(b: &[u8]) -> (r: String)
    ensures
        r@ == hex_of(b@),
{
    hex::encode(b)
}

#[verifier::external_type_specification]
#[verifier::external_body]
pub struct ExFromHexError(hex::FromHexError);

/// Relies on `hex::decode`: it inverts `hex::encode`, and decodes two digits into each byte.
#[verifier::external_body]
fn hex_decode(s: &str) -> (r: Result<Vec<u8>, hex::FromHexError>)
    ensures
        r is Ok <== exists|v: Seq<u8>| #[trigger] hex_of(v) == s@,
        forall|v: Seq<u8>| #[trigger] hex_of(v) == s@ ==> r->Ok_0@ == v,
        r matches Ok(w) ==> s@.len() == 2 * w@.len(),
{
    hex::decode(s)
}

/// Relies on `hex::FromHexError::InvalidStringLength`, the error for a wrong decoded length.
#[verifier::external_body]
fn hex_length_error() -> (r: hex::FromHexError) {
    hex::FromHexError::InvalidStringLength
}

/// The Bitcoin Base58 alphabet.
pub open spec fn base58_alphabet() -> Seq<char> {
    "123456789ABCDEFGHJKLMNPQRSTUVWXYZabcdefghijkmnopqrstuvwxyz"@
}

/// Relies on `bs58::encode(..).into_string()`: Base58 with the Bitcoin alphabet, at most
/// 44 characters for 32 bytes.
#[verifier::external_body]
pub(crate) fn base58_encode(b: &[u8]) -> (r: String)
    ensures
        r@ == base58_of(b@),
        forall|i: int| 0 <= i < r@.len() ==> base58_alphabet().contains(#[trigger] r@[i]),
        b@.len() == 32 ==> r@.len() <= 44,
{
    bs58::encode(b).into_string()
}

#[verifier::external_type_specification]
#[verifier::external_body]
pub struct ExBs58Error(bs58::decode::Error);

/// Relies on `bs58::decode(..).into_vec()`: it inverts `bs58::encode`.
#[verifier::external_body]
fn base58_decode(s: &str) -> (r: Result<Vec<u8>, bs58::decode::Error>)
    ensures
        r is Ok <== exists|v: Seq<u8>| #[trigger] base58_of(v) == s@,
        forall|v: Seq<u8>| #[trigger] base58_of(v) == s@ ==> r->Ok_0@ == v,
{
    bs58::decode(s).into_vec()
}

/// Relies on `bs58::decode::Error::BufferTooSmall`, used for a decoded value of the wrong length.
#[verifier::external_body]
fn base58_length_error() -> (r: bs58::decode::Error) {
    bs58::decode::Error::BufferTooSmall
}

/// Copies exactly 32 bytes into an array.
pub(crate) fn array32_from(v: &[u8]) -> (r: [u8; 32])
    requires
        v@.len() == 32,
    ensures
        r@ == v@,
{
    let mut arr = [0u8; 32];
    let mut i: usize = 0;
    while i < 32
        invariant
            i <= 32,
            v@.len() == 32,
            arr@.len() == 32,
            forall|j: int| 0 <= j < i ==> arr@[j] == v@[j],
        decreases 32 - i,
    {
        arr[i] = v[i];
        i = i + 1;
    }
    assert(arr@ =~= v@);
    arr
}

impl ContentHash {
    /// Lowercase hexadecimal text (64 characters).
    pub fn to_hex(&self) -> (r: String)
        ensures
            r@ == hex_of(self@),
    {
        hex_encode(&self.0)
    }

    /// Parses hexadecimal text of a 32-byte digest.
    pub fn from_hex(s: &str) -> (r: Result<ContentHash, hex::FromHexError>)
        ensures
            forall|v: Seq<u8>| #[trigger] hex_of(v) == s@ && v.len() == 32 ==> (r is Ok && r->Ok_0@ == v),
            r matches Ok(g) ==> s@.len() == 64,
    {
        let bytes = match hex_decode(s) {
            Ok(b) => b,
            Err(e) => {
                return Err(e);
            },
        };
        if bytes.len() != 32 {
            return Err(hex_length_error());
        }
        Ok(ContentHash(array32_from(bytes.as_slice())))
    }

    /// Base58 text of the digest.
    pub fn to_base58(&self) -> (r: String)
        ensures
            r@ == base58_of(self@),
    {
        base58_encode(&self.0)
    }

    /// Parses the Base58 text of a 32-byte digest.
    pub fn from_base58(s: &str) -> (r: Result<ContentHash, bs58::decode::Error>)
        ensures
            forall|v: Seq<u8>| #[trigger] base58_of(v) == s@ && v.len() == 32 ==> (r is Ok && r->Ok_0@ == v),
    {
        let bytes = match base58_decode(s) {
            Ok(b) => b,
            Err(e) => {
                return Err(e);
            },
        };
        if bytes.len() != 32 {
            return Err(base58_length_error());
        }
        Ok(ContentHash(array32_from(bytes.as_slice())))
    }
}


#[verifier::external_type_specification]
#[verifier::external_body]
pub struct ExHasher(blake3::Hasher);

/// The bytes a BLAKE3 hasher has absorbed so far.
pub uninterp spec fn absorbed(h: blake3::Hasher) -> Seq<u8>;

/// Relies on `blake3::Hasher::new`: a fresh hasher has absorbed nothing.
#[verifier::external_body]
fn hasher_new() -> (r: blake3::Hasher)
    ensures
        absorbed(r) == Seq::<u8>::empty(),
{
    blake3::Hasher::new()
}

/// Relies on `blake3::Hasher::update`: the input is appended to what was absorbed.
#[verifier::external_body]
fn hasher_update(h: &mut blake3::Hasher, data: &[u8])
    ensures
        absorbed(*final(h)) == absorbed(*old(h)) + data@,
{
    h.update(data);
}

/// Relies on `blake3::Hasher::finalize`: the digest of everything absorbed, equal to
/// `blake3::hash` of the concatenated input.
#[verifier::external_body]
fn hasher_finalize(h: &blake3::Hasher) -> (r: [u8; 32])
    ensures
        r@ == blake3_of(absorbed(*h)),
{
    *h.finalize().as_bytes()
}

/// Hashes a byte stream fed in pieces.
pub struct IncrementalHasher {
    hasher: blake3::Hasher,
    bytes_processed: u64,
}

impl View for IncrementalHasher {
    type V = Seq<u8>;

    /// The bytes fed so far.
    closed spec fn view(&self) -> Seq<u8> {
        absorbed(self.hasher)
    }
}

impl IncrementalHasher {
    /// The byte counter agrees with what was fed.
    pub closed spec fn wf(&self) -> bool {
        self.bytes_processed == absorbed(self.hasher).len()
    }

    pub fn new() -> (r: IncrementalHasher)
        ensures
            r.wf(),
            r@ == Seq::<u8>::empty(),
    {
        IncrementalHasher { hasher: hasher_new(), bytes_processed: 0 }
    }

    /// Feeds more bytes.
    pub fn update(&mut self, data: &[u8])
        requires
            old(self).wf(),
            old(self)@.len() + data@.len() <= u64::MAX,
        ensures
            final(self).wf(),
            final(self)@ == old(self)@ + data@,
    {
        hasher_update(&mut self.hasher, data);
        self.bytes_processed = self.bytes_processed + data.len() as u64;
    }

    /// The digest of everything fed.
    pub fn finalize(self) -> (r: ContentHash)
        ensures
            r@ == blake3_of(self@),
    {
        ContentHash(hasher_finalize(&self.hasher))
    }

    /// The number of bytes fed.
    pub fn bytes_processed(&self) -> (r: u64)
        requires
            self.wf(),
        ensures
            r == self@.len(),
    {
        self.bytes_processed
    }
}

/// The views of a sequence of byte vectors.
pub open spec fn views(v: Seq<Vec<u8>>) -> Seq<Seq<u8>> {
    v.map_values(|x: Vec<u8>| x@)
}

proof fn lemma_prefix_flatten_len(s: Seq<Seq<u8>>, n: int)
    requires
        0 <= n <= s.len(),
    ensures
        s.subrange(0, n).flatten_alt().len() <= s.flatten_alt().len(),
    decreases s.len() - n,
{
    if n < s.len() {
        lemma_prefix_flatten_len(s, n + 1);
        assert(s.subrange(0, n + 1).drop_last() =~= s.subrange(0, n));
    } else {
        assert(s.subrange(0, n) =~= s);
    }
}

/// Hashes segments through the incremental hasher: the digest is that of their
/// concatenation, whatever the partition.
pub fn hash_segments(segments: &Vec<Vec<u8>>) -> (r: ContentHash)
    requires
        views(segments@).flatten().len() <= u64::MAX,
    ensures
        r@ == blake3_of(views(segments@).flatten()),
{
    proof {
        views(segments@).lemma_flatten_and_flatten_alt_are_equivalent();
    }
    let ghost all = views(segments@);
    let mut hasher = IncrementalHasher::new();
    let mut i: usize = 0;
    while i < segments.len()
        invariant
            i <= segments@.len(),
            all == views(segments@),
            all.flatten_alt().len() <= u64::MAX,
            hasher.wf(),
            hasher@ == all.subrange(0, i as int).flatten_alt(),
        decreases segments@.len() - i,
    {
        proof {
            assert(all.subrange(0, i + 1).drop_last() =~= all.subrange(0, i as int));
            lemma_prefix_flatten_len(all, i + 1);
        }
        hasher.update(segments[i].as_slice());
        i = i + 1;
    }
    assert(all.subrange(0, i as int) =~= all);
    hasher.finalize()
}

/// Hashes `data` by feeding it to the incremental hasher `chunk_size` bytes at a time.
pub fn hash_file_chunked(data: &[u8], chunk_size: usize) -> (r: ContentHash)
    requires
        chunk_size > 0,
        data@.len() <= u64::MAX,
    ensures
        r@ == blake3_of(data@),
{
    let mut hasher = IncrementalHasher::new();
    let mut start: usize = 0;
    while start < data.len()
        invariant
            start <= data@.len(),
            chunk_size > 0,
            data@.len() <= u64::MAX,
            hasher.wf(),
            hasher@ == data@.subrange(0, start as int),
        decreases data@.len() - start,
    {
        let end: usize = if data.len() - start > chunk_size { start + chunk_size } else { data.len() };
        hasher.update(&data[start..end]);
        assert(data@.subrange(0, start as int) + data@.subrange(start as int, end as int) =~= data@.subrange(0, end as int));
        start = end;
    }
    assert(data@.subrange(0, start as int) =~= data@);
    hasher.finalize()
}


/// One level up a Merkle tree: adjacent pairs are hashed together and a trailing
/// odd node is promoted unchanged.
pub open spec fn merkle_parent_level(nodes: Seq<Seq<u8>>) -> Seq<Seq<u8>> {
    Seq::new(
        ((nodes.len() + 1) / 2) as nat,
        |j: int|
            if 2 * j + 1 < nodes.len() {
                blake3_of(nodes[2 * j] + nodes[2 * j + 1])
            } else {
                nodes[2 * j]
            },
    )
}

/// The Merkle root over leaf digests: the digest of nothing for no leaves, the leaf
/// itself for one.
pub open spec fn merkle_root_of(nodes: Seq<Seq<u8>>) -> Seq<u8>
    decreases nodes.len(),
{
    if nodes.len() == 0 {
        blake3_of(Seq::empty())
    } else if nodes.len() == 1 {
        nodes[0]
    } else {
        merkle_root_of(merkle_parent_level(nodes))
    }
}

/// The views of a sequence of content hashes.
pub open spec fn hash_views(v: Seq<ContentHash>) -> Seq<Seq<u8>> {
    v.map_values(|h: ContentHash| h@)
}

/// A Merkle tree over ordered chunks.
#[derive(Clone, Debug)]
pub struct MerkleTree {
    /// Root hash of the tree.
    pub root: ContentHash,
    /// Leaf hashes, one per chunk.
    pub leaves: Vec<ContentHash>,
}

impl MerkleTree {
    /// The root is the Merkle root of the leaves.
    pub open spec fn wf(&self) -> bool {
        self.root@ == merkle_root_of(hash_views(self.leaves@))
    }

    /// Builds the tree whose leaves are the digests of `chunks`.
    pub fn build(chunks: &[&[u8]]) -> (r: MerkleTree)
        ensures
            r.wf(),
            r.leaves@.len() == chunks@.len(),
            forall|i: int| 0 <= i < chunks@.len() ==> #[trigger] r.leaves@[i]@ == blake3_of(chunks@[i]@),
    {
        let mut leaves: Vec<ContentHash> = Vec::new();
        let mut i: usize = 0;
        while i < chunks.len()
            invariant
                i <= chunks@.len(),
                leaves@.len() == i,
                forall|j: int| 0 <= j < i ==> #[trigger] leaves@[j]@ == blake3_of(chunks@[j]@),
            decreases chunks@.len() - i,
        {
            leaves.push(ContentHash::hash(chunks[i]));
            i = i + 1;
        }
        let root = MerkleTree::compute_root(&leaves);
        MerkleTree { root, leaves }
    }

    /// Hashes each adjacent pair of nodes together, promoting a trailing odd node.
    fn parent_level(nodes: &Vec<ContentHash>) -> (r: Vec<ContentHash>)
        ensures
            hash_views(r@) == merkle_parent_level(hash_views(nodes@)),
            r@.len() == (nodes@.len() + 1) / 2,
    {
        let mut next: Vec<ContentHash> = Vec::new();
        let mut j: usize = 0;
        let n = nodes.len();
        let half: usize = n / 2 + n % 2;
        while j < half
            invariant
                n == nodes@.len(),
                half == (n + 1) / 2,
                j <= half,
                next@.len() == j,
                forall|k: int| 0 <= k < j ==> #[trigger] next@[k]@ == merkle_parent_level(hash_views(nodes@))[k],
            decreases half - j,
        {
            if 2 * j + 1 < n {
                let mut data: Vec<u8> = Vec::with_capacity(64);
                data.extend_from_slice(nodes[2 * j].as_bytes());
                data.extend_from_slice(nodes[2 * j + 1].as_bytes());
                assert(data@ =~= nodes@[2 * j as int]@ + nodes@[2 * j + 1]@);
                next.push(ContentHash::hash(data.as_slice()));
            } else {
                next.push(nodes[2 * j]);
            }
            j = j + 1;
        }
        assert(hash_views(next@) =~= merkle_parent_level(hash_views(nodes@)));
        next
    }

    /// The Merkle root of `leaves`.
    pub fn compute_root(leaves: &Vec<ContentHash>) -> (r: ContentHash)
        ensures
            r@ == merkle_root_of(hash_views(leaves@)),
    {
        if leaves.len() == 0 {
            let empty: Vec<u8> = Vec::new();
            return ContentHash::hash(empty.as_slice());
        }
        let mut level: Vec<ContentHash> = leaves.clone();
        assert(level@ =~= leaves@) by {
            assert forall|i: int| 0 <= i < leaves@.len() implies level@[i] == leaves@[i] by {
                assert(vstd::pervasive::cloned(leaves@[i], level@[i]));
            }
        }
        while level.len() > 1
            invariant
                level@.len() >= 1,
                merkle_root_of(hash_views(level@)) == merkle_root_of(hash_views(leaves@)),
            decreases level@.len(),
        {
            level = MerkleTree::parent_level(&level);
        }
        level[0]
    }

    /// Whether `chunk` hashes to leaf `index`.
    pub fn verify_chunk(&self, chunk: &[u8], index: usize) -> (r: bool)
        ensures
            r == (index < self.leaves@.len() && blake3_of(chunk@) == self.leaves@[index as int]@),
    {
        if index >= self.leaves.len() {
            return false;
        }
        let h = ContentHash::hash(chunk);
        h == self.leaves[index]
    }

    /// The number of leaves.
    pub fn leaf_count(&self) -> (r: usize)
        ensures
            r == self.leaves@.len(),
    {
        self.leaves.len()
    }
}


/// What `verify` answers: whether `data` hashes to the digest `h`.
pub open spec fn verifies(h: Seq<u8>, data: Seq<u8>) -> bool {
    blake3_of(data) == h
}

/// Hash verification: the hash that `ContentHash::hash` gives for `p` verifies `p`.
pub proof fn lemma_hash_verifies(p: Seq<u8>)
    ensures
        verifies(blake3_of(p), p),
{
}

} // verus!
