//! Reed-Solomon erasure coding over GF(2^8): `k` data shards and `m` parity shards,
//! any `k` of which rebuild the data.
use vstd::prelude::*;
use vstd::string::*;
use crate::storage::StorageError;
use crate::text::{push_two_digit, two_digit_of};
use reed_solomon_erasure::galois_8;

verus! {

/// A Reed-Solomon codec over GF(2^8), opaque to proofs; `rs_shape` gives its shard counts.
#[verifier::external_body]
pub struct RsCodec {
    rs: galois_8::ReedSolomon,
}

#[verifier::external_type_specification]
#[verifier::external_body]
pub struct ExRsError(reed_solomon_erasure::Error);

/// The (data, parity) shard counts a codec was built for.
pub uninterp spec fn rs_shape(rs: RsCodec) -> (nat, nat);

/// The parity shards Reed-Solomon over GF(2^8) computes for `k` data shards and `m` parity shards.
pub uninterp spec fn rs_parity(k: nat, m: nat, data: Seq<Seq<u8>>) -> Seq<Seq<u8>>;

/// Relies on `ReedSolomon::new`: it fails exactly when there are no data shards, no
/// parity shards, or more than 256 shards in all.
#[verifier::external_body]
fn rs_new(k: usize, m: usize) -> (r: Result<RsCodec, reed_solomon_erasure::Error>)
    ensures
        r is Ok <==> (k >= 1 && m >= 1 && k + m <= 256),
        r matches Ok(rs) ==> rs_shape(rs) == (k as nat, m as nat),
{
    galois_8::ReedSolomon::new(k, m).map(|rs| RsCodec { rs })
}

/// Whether all shards have one positive length.
pub open spec fn uniform(s: Seq<Seq<u8>>) -> bool {
    &&& s.len() >= 1
    &&& s[0].len() > 0
    &&& forall|i: int| 0 <= i < s.len() ==> #[trigger] s[i].len() == s[0].len()
}

/// The views of byte vectors.
pub open spec fn byte_views(v: Seq<Vec<u8>>) -> Seq<Seq<u8>> {
    v.map_values(|x: Vec<u8>| x@)
}

/// Relies on `ReedSolomon::encode`: with `k + m` shards of one positive length, the
/// first `k` are kept and the last `m` are overwritten with the parity of the first `k`;
/// otherwise it fails.
#[verifier::external_body]
fn rs_encode(c: &RsCodec, shards: &mut Vec<Vec<u8>>) -> (r: Result<(), reed_solomon_erasure::Error>)
    ensures
        r is Ok <==> (old(shards)@.len() == rs_shape(*c).0 + rs_shape(*c).1 && uniform(byte_views(old(shards)@))),
        r is Ok ==> final(shards)@.len() == old(shards)@.len(),
        r is Ok ==> forall|i: int| 0 <= i < old(shards)@.len() ==> (#[trigger] final(shards)@[i])@.len() == old(shards)@[i]@.len(),
        r is Ok ==> byte_views(final(shards)@) == byte_views(old(shards)@).subrange(0, rs_shape(*c).0 as int)
            + rs_parity(rs_shape(*c).0, rs_shape(*c).1, byte_views(old(shards)@).subrange(0, rs_shape(*c).0 as int)),
{
    c.rs.encode(&mut *shards)
}

/// Relies on `ReedSolomon::verify`: with `k + m` shards of one positive length it tells
/// whether the last `m` are the parity of the first `k`; otherwise it fails.
#[verifier::external_body]
fn rs_verify(c: &RsCodec, shards: &[Vec<u8>]) -> (r: Result<bool, reed_solomon_erasure::Error>)
    ensures
        r is Ok <==> (shards@.len() == rs_shape(*c).0 + rs_shape(*c).1 && uniform(byte_views(shards@))),
        r matches Ok(b) ==> (b <==> byte_views(shards@).subrange(rs_shape(*c).0 as int, shards@.len() as int)
            == rs_parity(rs_shape(*c).0, rs_shape(*c).1, byte_views(shards@).subrange(0, rs_shape(*c).0 as int))),
{
    c.rs.verify(shards)
}

/// The shards of a codeword: the data shards followed by their parity.
pub open spec fn codeword(k: nat, m: nat, data: Seq<Seq<u8>>) -> Seq<Seq<u8>> {
    data + rs_parity(k, m, data)
}

/// The byte views of optional shards.
pub open spec fn opt_views(v: Seq<Option<Vec<u8>>>) -> Seq<Option<Seq<u8>>> {
    v.map_values(|x: Option<Vec<u8>>| match x { Some(b) => Some(b@), None => None })
}

/// How many entries are present.
pub open spec fn count_present(s: Seq<Option<Seq<u8>>>) -> nat
    decreases s.len(),
{
    if s.len() == 0 {
        0
    } else {
        count_present(s.drop_last()) + if s.last() is Some { 1nat } else { 0nat }
    }
}

/// Every present entry equals the shard of `cw` at its index.
pub open spec fn agrees_with(present: Seq<Option<Seq<u8>>>, cw: Seq<Seq<u8>>) -> bool {
    &&& present.len() == cw.len()
    &&& forall|i: int| 0 <= i < present.len() && #[trigger] present[i] is Some ==> present[i]->Some_0 == cw[i]
}

/// Relies on `ReedSolomon::reconstruct`: with fewer than `k` shards present it fails;
/// when the present shards are part of a codeword of `k` data shards of one positive
/// length and at least `k` are present, every shard of that codeword is filled in.
#[verifier::external_body]
fn rs_reconstruct(c: &RsCodec, shards: &mut Vec<Option<Vec<u8>>>) -> (r: Result<(), reed_solomon_erasure::Error>)
    ensures
        old(shards)@.len() == rs_shape(*c).0 + rs_shape(*c).1 && count_present(opt_views(old(shards)@)) < rs_shape(*c).0 ==> r is Err,
        r is Ok ==> final(shards)@.len() == old(shards)@.len(),
        forall|d: Seq<Seq<u8>>|
            d.len() == rs_shape(*c).0 && uniform(d) && count_present(opt_views(old(shards)@)) >= rs_shape(*c).0
                && agrees_with(opt_views(old(shards)@), #[trigger] codeword(rs_shape(*c).0, rs_shape(*c).1, d))
                ==> (r is Ok && opt_views(final(shards)@) == codeword(rs_shape(*c).0, rs_shape(*c).1, d).map_values(|x: Seq<u8>| Some(x))),
{
    c.rs.reconstruct(shards.as_mut_slice())
}


/// Length of each shard for `n` bytes over `k` data shards: `ceil(n / k)`.
pub open spec fn shard_len(n: nat, k: nat) -> nat {
    if n % k == 0 { n / k } else { n / k + 1 }
}

/// The plaintext zero-padded to `k` whole shards.
pub open spec fn padded(p: Seq<u8>, k: nat) -> Seq<u8> {
    p + Seq::new((k * shard_len(p.len(), k) - p.len()) as nat, |i: int| 0u8)
}

/// The `k` data shards of a plaintext.
pub open spec fn data_shards_of(p: Seq<u8>, k: nat) -> Seq<Seq<u8>> {
    Seq::new(k, |i: int| padded(p, k).subrange(i * shard_len(p.len(), k), (i + 1) * shard_len(p.len(), k)))
}

/// The first `n` bytes of `s`, or all of `s` when it is shorter.
pub open spec fn truncated(s: Seq<u8>, n: nat) -> Seq<u8> {
    if n <= s.len() { s.subrange(0, n as int) } else { s }
}

/// Erasure coding parameters: `data_shards` data shards and `parity_shards` parity shards.
#[derive(Debug, Clone, Copy, PartialEq, Eq)]
pub struct ErasureConfig {
    pub data_shards: usize,
    pub parity_shards: usize,
}

impl ErasureConfig {
    /// Whether a codec exists for these counts.
    pub open spec fn valid(&self) -> bool {
        self.data_shards >= 1 && self.parity_shards >= 1 && self.data_shards + self.parity_shards <= 256
    }

    pub fn new(data_shards: usize, parity_shards: usize) -> (r: ErasureConfig)
        ensures
            r.data_shards == data_shards,
            r.parity_shards == parity_shards,
    {
        ErasureConfig { data_shards, parity_shards }
    }

    /// Total number of shards.
    pub fn total_shards(&self) -> (r: usize)
        requires
            self.data_shards + self.parity_shards <= usize::MAX,
        ensures
            r == self.data_shards + self.parity_shards,
    {
        self.data_shards + self.parity_shards
    }

    /// Shards needed to reconstruct.
    pub fn min_shards(&self) -> (r: usize)
        ensures
            r == self.data_shards,
    {
        self.data_shards
    }

    /// Shards that may be lost.
    pub fn max_losses(&self) -> (r: usize)
        ensures
            r == self.parity_shards,
    {
        self.parity_shards
    }
}

impl Default for ErasureConfig {
    /// Ten data shards and four parity shards.
    fn default() -> (r: ErasureConfig)
        ensures
            r.data_shards == 10,
            r.parity_shards == 4,
    {
        ErasureConfig { data_shards: 10, parity_shards: 4 }
    }
}

/// One shard of an encoded file.
#[derive(Debug, Clone)]
pub struct Shard {
    /// Position among all shards, from 0.
    pub index: usize,
    pub data: Vec<u8>,
    /// Whether this is a parity shard (`index >= k`).
    pub is_parity: bool,
    /// Length of the shard.
    pub original_size: usize,
}

impl Shard {
    /// `"<file_hash>-shard-<NN>"`, the index in at least two digits.
    pub fn id(&self, file_hash: &str) -> (r: String)
        ensures
            r@ == file_hash@ + "-shard-"@ + two_digit_of(self.index as nat),
    {
        let mut s = String::from_str(file_hash);
        s.append("-shard-");
        push_two_digit(&mut s, self.index as u64);
        s
    }
}

/// Splits data into shards with parity.
pub struct ErasureEncoder {
    config: ErasureConfig,
    codec: RsCodec,
}

impl ErasureEncoder {
    /// The configuration, which a codec was built for.
    pub closed spec fn spec_config(&self) -> ErasureConfig {
        self.config
    }

    pub closed spec fn wf(&self) -> bool {
        &&& self.config.valid()
        &&& rs_shape(self.codec) == (self.config.data_shards as nat, self.config.parity_shards as nat)
    }

    /// Builds the codec; fails unless `1 <= k`, `1 <= m` and `k + m <= 256`.
    pub fn new(config: ErasureConfig) -> (r: Result<ErasureEncoder, StorageError>)
        ensures
            r is Ok <==> config.valid(),
            r matches Ok(e) ==> e.wf() && e.spec_config() == config,
            r matches Err(e) ==> e is ErasureCoding,
    {
        match rs_new(config.data_shards, config.parity_shards) {
            Ok(codec) => Ok(ErasureEncoder { config, codec }),
            Err(_) => Err(StorageError::ErasureCoding(String::from_str("invalid erasure configuration"))),
        }
    }

    /// The configuration.
    pub fn config(&self) -> (r: ErasureConfig)
        ensures
            r == self.spec_config(),
    {
        self.config
    }

    /// `ceil(n / k)`.
    fn calculate_shard_size(&self, n: usize) -> (r: usize)
        requires
            self.wf(),
        ensures
            r == shard_len(n as nat, self.spec_config().data_shards as nat),
    {
        let k = self.config.data_shards;
        if n % k == 0 {
            n / k
        } else {
            assert(k >= 2);
            assert(n / k <= n / 2) by (nonlinear_arith) requires k >= 2;
            n / k + 1
        }
    }

    /// Encodes `data` into `k` zero-padded data shards followed by `m` parity shards.
    /// Fails only on empty data, which leaves no shard bytes to code.
    pub fn encode(&self, data: &[u8]) -> (r: Result<Vec<Shard>, StorageError>)
        requires
            self.wf(),
        ensures
            r is Ok <==> data@.len() > 0,
            r matches Ok(shards) ==> encoded_shards(shards@, data@, self.spec_config()),
            r matches Err(e) ==> e is ErasureCoding,
    {
        let k = self.config.data_shards;
        let m = self.config.parity_shards;
        let n = data.len();
        let ss = self.calculate_shard_size(n);
        let ghost kk = k as nat;
        let ghost pad = padded(data@, kk);
        proof {
            lemma_shard_len_bounds(n as nat, kk);
        }
        let mut shards: Vec<Vec<u8>> = Vec::with_capacity(k + m);
        let mut i: usize = 0;
        let mut start: usize = 0;
        while i < k
            invariant
                k == self.spec_config().data_shards,
                m == self.spec_config().parity_shards,
                self.wf(),
                n == data@.len(),
                ss == shard_len(n as nat, kk),
                kk == k,
                pad == padded(data@, kk),
                kk * ss >= n,
                i <= k,
                start == if i * ss <= n { i * ss } else { n as int },
                shards@.len() == i,
                forall|j: int| 0 <= j < i ==> #[trigger] shards@[j]@ == data_shards_of(data@, kk)[j],
            decreases k - i,
        {
            let end: usize = if n - start > ss { start + ss } else { n };
            let mut shard: Vec<u8> = vstd::slice::slice_to_vec(&data[start..end]);
            let ghost copied = shard@;
            while shard.len() < ss
                invariant
                    shard@.len() <= ss,
                    shard@.subrange(0, copied.len() as int) == copied,
                    copied.len() <= shard@.len(),
                    forall|t: int| copied.len() <= t < shard@.len() ==> shard@[t] == 0u8,
                decreases ss - shard@.len(),
            {
                shard.push(0u8);
                assert(shard@.subrange(0, copied.len() as int) =~= copied);
            }
            proof {
                assert(copied == data@.subrange(start as int, end as int));
                assert(end - start <= ss);
                lemma_data_shard(data@, kk, i as int, start as int, end as int, shard@);
                lemma_next_start(i as int, ss as int, n as int, start as int, end as int);
            }
            shards.push(shard);
            i = i + 1;
            start = end;
        }
        let mut j: usize = 0;
        while j < m
            invariant
                k == self.spec_config().data_shards,
                m == self.spec_config().parity_shards,
                self.wf(),
                n == data@.len(),
                ss == shard_len(n as nat, kk),
                kk == k,
                j <= m,
                shards@.len() == k + j,
                forall|t: int| 0 <= t < k ==> #[trigger] shards@[t]@ == data_shards_of(data@, kk)[t],
                forall|t: int| k <= t < k + j ==> (#[trigger] shards@[t]@).len() == ss,
            decreases m - j,
        {
            shards.push(vec![0u8; ss]);
            j = j + 1;
        }
        proof {
            assert(byte_views(shards@).subrange(0, k as int) =~= data_shards_of(data@, kk));
            assert(shards@.len() == k + m);
            if n > 0 {
                assert(ss > 0);
                lemma_data_shard_len(data@, kk, 0);
                assert(byte_views(shards@)[0] == shards@[0]@);
                assert(byte_views(shards@)[0].len() > 0);
                assert forall|t: int| 0 <= t < byte_views(shards@).len() implies #[trigger] byte_views(shards@)[t].len() == byte_views(shards@)[0].len() by {
                    assert(byte_views(shards@)[t] == shards@[t]@);
                    assert(byte_views(shards@)[0] == shards@[0]@);
                    if t < k {
                        assert(data_shards_of(data@, kk)[t].len() == ss) by {
                            lemma_data_shard_len(data@, kk, t);
                        }
                    }
                    assert(data_shards_of(data@, kk)[0].len() == ss) by {
                        lemma_data_shard_len(data@, kk, 0);
                    }
                }
            } else {
                assert(byte_views(shards@)[0].len() == 0);
            }
            assert(n > 0 ==> uniform(byte_views(shards@)));
        }
        match rs_encode(&self.codec, &mut shards) {
            Ok(()) => {},
            Err(_) => {
                return Err(StorageError::ErasureCoding(String::from_str("encoding failed")));
            },
        }
        let ghost coded = byte_views(shards@);
        proof {
            assert(coded =~= codeword(kk, m as nat, data_shards_of(data@, kk)));
            assert forall|t: int| 0 <= t < shards@.len() implies #[trigger] shards@[t]@ == coded[t + 0] by {}
        }
        let mut result: Vec<Shard> = Vec::new();
        let mut idx: usize = 0;
        let total = k + m;
        while idx < total
            invariant
                total == k + m,
                k == self.spec_config().data_shards,
                idx <= total,
                shards@.len() == total - idx,
                forall|t: int| 0 <= t < shards@.len() ==> #[trigger] shards@[t]@ == coded[t + idx],
                result@.len() == idx,
                forall|t: int| 0 <= t < idx ==> {
                    &&& (#[trigger] result@[t]).index == t
                    &&& result@[t].data@ == coded[t]
                    &&& result@[t].is_parity == (t >= k)
                    &&& result@[t].original_size == coded[t].len()
                },
            decreases total - idx,
        {
            let d = shards.remove(0);
            let size = d.len();
            result.push(Shard { index: idx, data: d, is_parity: idx >= k, original_size: size });
            idx = idx + 1;
        }
        proof {
            assert forall|t: int| 0 <= t < result@.len() implies {
                &&& (#[trigger] result@[t]).index == t
                &&& result@[t].is_parity == (t >= kk)
                &&& result@[t].data@ == codeword(kk, m as nat, data_shards_of(data@, kk))[t]
                &&& result@[t].original_size == shard_len(data@.len(), kk)
                &&& result@[t].data@.len() == shard_len(data@.len(), kk)
            } by {
                assert(coded[t].len() == ss);
            }
        }
        Ok(result)
    }
}

/// A file encoded into shards.
#[derive(Debug, Clone)]
pub struct EncodedFile {
    /// Hash of the original file.
    pub file_hash: String,
    pub original_size: usize,
    pub config: ErasureConfig,
    pub shards: Vec<Shard>,
}

/// Sum of the shard lengths.
pub open spec fn total_len(shards: Seq<Shard>) -> nat
    decreases shards.len(),
{
    if shards.len() == 0 {
        0
    } else {
        total_len(shards.drop_last()) + shards.last().data@.len()
    }
}

impl EncodedFile {
    /// The id of each shard, for lookups.
    pub fn shard_ids(&self) -> (r: Vec<String>)
        ensures
            r@.len() == self.shards@.len(),
            forall|i: int| 0 <= i < r@.len() ==> #[trigger] r@[i]@ == self.file_hash@ + "-shard-"@ + two_digit_of(
                self.shards@[i].index as nat,
            ),
    {
        let mut ids: Vec<String> = Vec::new();
        let mut i: usize = 0;
        while i < self.shards.len()
            invariant
                i <= self.shards@.len(),
                ids@.len() == i,
                forall|j: int| 0 <= j < i ==> #[trigger] ids@[j]@ == self.file_hash@ + "-shard-"@ + two_digit_of(
                    self.shards@[j].index as nat,
                ),
            decreases self.shards@.len() - i,
        {
            ids.push(self.shards[i].id(self.file_hash.as_str()));
            i = i + 1;
        }
        ids
    }

    /// Total bytes over all shards.
    pub fn total_size(&self) -> (r: usize)
        requires
            total_len(self.shards@) <= usize::MAX,
        ensures
            r == total_len(self.shards@),
    {
        let mut sum: usize = 0;
        let mut i: usize = 0;
        while i < self.shards.len()
            invariant
                i <= self.shards@.len(),
                sum == total_len(self.shards@.subrange(0, i as int)),
                total_len(self.shards@) <= usize::MAX,
            decreases self.shards@.len() - i,
        {
            proof {
                assert(self.shards@.subrange(0, i + 1).drop_last() =~= self.shards@.subrange(0, i as int));
                lemma_total_len_prefix(self.shards@, i + 1);
            }
            sum = sum + self.shards[i].data.len();
            i = i + 1;
        }
        assert(self.shards@.subrange(0, i as int) =~= self.shards@);
        sum
    }
}

proof fn lemma_total_len_prefix(s: Seq<Shard>, n: int)
    requires
        0 <= n <= s.len(),
    ensures
        total_len(s.subrange(0, n)) <= total_len(s),
    decreases s.len() - n,
{
    if n < s.len() {
        lemma_total_len_prefix(s, n + 1);
        assert(s.subrange(0, n + 1).drop_last() =~= s.subrange(0, n));
    } else {
        assert(s.subrange(0, n) =~= s);
    }
}

/// `shards` are the `k + m` shards of `p` in order: indices, parity flags, sizes, and
/// the data shards of `p` followed by their Reed-Solomon parity.
pub open spec fn encoded_shards(shards: Seq<Shard>, p: Seq<u8>, config: ErasureConfig) -> bool {
    let k = config.data_shards as nat;
    let m = config.parity_shards as nat;
    &&& shards.len() == k + m
    &&& codeword(k, m, data_shards_of(p, k)).len() == k + m
    &&& forall|t: int| 0 <= t < shards.len() ==> {
        &&& (#[trigger] shards[t]).index == t
        &&& shards[t].is_parity == (t >= k)
        &&& shards[t].data@ == codeword(k, m, data_shards_of(p, k))[t]
        &&& shards[t].original_size == shard_len(p.len(), k)
        &&& shards[t].data@.len() == shard_len(p.len(), k)
    }
}

proof fn lemma_shard_len_bounds(n: nat, k: nat)
    requires
        k >= 1,
    ensures
        k * shard_len(n, k) >= n,
        k * shard_len(n, k) < n + k,
        n > 0 ==> shard_len(n, k) > 0,
{
    let q = n / k;
    let r = n % k;
    assert(n == k * q + r) by (nonlinear_arith) requires q == n / k, r == n % k, k >= 1;
    if r == 0 {
        assert(k * shard_len(n, k) == k * q);
    } else {
        assert(k * (q + 1) == k * q + k) by (nonlinear_arith);
    }
}

proof fn lemma_data_shard_len(p: Seq<u8>, k: nat, i: int)
    requires
        k >= 1,
        0 <= i < k,
    ensures
        data_shards_of(p, k)[i].len() == shard_len(p.len(), k),
{
    let ss = shard_len(p.len(), k) as int;
    lemma_shard_len_bounds(p.len(), k);
    assert((i + 1) * ss == i * ss + ss) by (nonlinear_arith);
    assert((i + 1) * ss <= k * ss) by (nonlinear_arith) requires i + 1 <= k, ss >= 0;
    assert(i * ss >= 0) by (nonlinear_arith) requires i >= 0, ss >= 0;
}

proof fn lemma_next_start(i: int, ss: int, n: int, start: int, end: int)
    requires
        0 <= i,
        0 <= ss,
        0 <= start <= n,
        start == if i * ss <= n { i * ss } else { n },
        end == if n - start > ss { start + ss } else { n },
    ensures
        end == if (i + 1) * ss <= n { (i + 1) * ss } else { n },
{
    assert((i + 1) * ss == i * ss + ss) by (nonlinear_arith);
    if i * ss > n {
        assert(i * ss + ss > n) by (nonlinear_arith) requires ss >= 0, i * ss > n;
    }
}

proof fn lemma_data_shard(p: Seq<u8>, k: nat, i: int, start: int, end: int, shard: Seq<u8>)
    requires
        k >= 1,
        0 <= i < k,
        k * shard_len(p.len(), k) >= p.len(),
        start == if i * shard_len(p.len(), k) <= p.len() { i * shard_len(p.len(), k) } else { p.len() as int },
        end == if p.len() - start > shard_len(p.len(), k) { start + shard_len(p.len(), k) } else { p.len() as int },
        shard.len() == shard_len(p.len(), k),
        shard.subrange(0, end - start) == p.subrange(start, end),
        forall|j: int| end - start <= j < shard.len() ==> shard[j] == 0u8,
    ensures
        shard == data_shards_of(p, k)[i],
{
    let ss = shard_len(p.len(), k) as int;
    let pad = padded(p, k);
    assert((i + 1) * ss == i * ss + ss) by (nonlinear_arith);
    assert((i + 1) * ss <= k * ss) by (nonlinear_arith) requires i + 1 <= k, ss >= 0;
    assert(i * ss >= 0) by (nonlinear_arith) requires i >= 0, ss >= 0;
    assert(pad.len() == k * ss);
    let target = pad.subrange(i * ss, (i + 1) * ss);
    assert forall|j: int| 0 <= j < ss implies shard[j] == target[j] by {
        if j < end - start {
            assert(shard[j] == shard.subrange(0, end - start)[j]);
            assert(i * ss + j < p.len());
        } else {
            assert(i * ss + j >= p.len());
        }
    }
    assert(shard =~= target);
}


/// The byte views of optional shards.
pub open spec fn shard_views(v: Seq<Option<Shard>>) -> Seq<Option<Seq<u8>>> {
    v.map_values(|x: Option<Shard>| match x { Some(s) => Some(s.data@), None => None })
}

/// Present entries unwrapped; an absent one reads as empty.
pub open spec fn unwrap_views(s: Seq<Option<Seq<u8>>>) -> Seq<Seq<u8>> {
    s.map_values(|x: Option<Seq<u8>>| match x { Some(b) => b, None => Seq::empty() })
}

proof fn lemma_count_push(s: Seq<Option<Seq<u8>>>, x: Option<Seq<u8>>)
    ensures
        count_present(s.push(x)) == count_present(s) + if x is Some { 1nat } else { 0nat },
{
    assert(s.push(x).drop_last() =~= s);
}

/// Rebuilds data from the shards that are left.
pub struct ErasureDecoder {
    config: ErasureConfig,
    codec: RsCodec,
}

impl ErasureDecoder {
    /// The configuration, which a codec was built for.
    pub closed spec fn spec_config(&self) -> ErasureConfig {
        self.config
    }

    pub closed spec fn wf(&self) -> bool {
        &&& self.config.valid()
        &&& rs_shape(self.codec) == (self.config.data_shards as nat, self.config.parity_shards as nat)
    }

    /// Builds the codec; fails unless `1 <= k`, `1 <= m` and `k + m <= 256`.
    pub fn new(config: ErasureConfig) -> (r: Result<ErasureDecoder, StorageError>)
        ensures
            r is Ok <==> config.valid(),
            r matches Ok(d) ==> d.wf() && d.spec_config() == config,
            r matches Err(e) ==> e is ErasureCoding,
    {
        match rs_new(config.data_shards, config.parity_shards) {
            Ok(codec) => Ok(ErasureDecoder { config, codec }),
            Err(_) => Err(StorageError::ErasureCoding(String::from_str("invalid erasure configuration"))),
        }
    }

    /// Whether the last `m` of `k + m` shards of one positive length are the parity of
    /// the first `k`; fails on any other shape.
    pub fn verify(&self, shards: &[Vec<u8>]) -> (r: Result<bool, StorageError>)
        requires
            self.wf(),
        ensures
            r is Ok <==> (shards@.len() == self.spec_config().data_shards + self.spec_config().parity_shards
                && uniform(byte_views(shards@))),
            r matches Ok(b) ==> (b <==> byte_views(shards@).subrange(self.spec_config().data_shards as int, shards@.len() as int)
                == rs_parity(
                self.spec_config().data_shards as nat,
                self.spec_config().parity_shards as nat,
                byte_views(shards@).subrange(0, self.spec_config().data_shards as int),
            )),
            r matches Err(e) ==> e is ErasureCoding,
    {
        match rs_verify(&self.codec, shards) {
            Ok(b) => Ok(b),
            Err(_) => Err(StorageError::ErasureCoding(String::from_str("shards of the wrong shape"))),
        }
    }

    /// Decodes `k + m` optional shards in index order (`None` for a lost shard) into the
    /// first `original_size` bytes of the data shards. With fewer than `k` shards present
    /// it fails with `InsufficientFragments`; when the present shards belong to one
    /// codeword it returns that codeword's data.
    pub fn decode(&self, shards: Vec<Option<Shard>>, original_size: usize) -> (r: Result<Vec<u8>, StorageError>)
        requires
            self.wf(),
        ensures
            shards@.len() != self.spec_config().data_shards + self.spec_config().parity_shards ==> (r is Err && r->Err_0 is ErasureCoding),
            shards@.len() == self.spec_config().data_shards + self.spec_config().parity_shards
                && count_present(shard_views(shards@)) < self.spec_config().data_shards ==> r == Err::<Vec<u8>, StorageError>(
                StorageError::InsufficientFragments {
                    have: count_present(shard_views(shards@)) as usize,
                    need: self.spec_config().data_shards,
                },
            ),
            forall|d: Seq<Seq<u8>>|
                shards@.len() == self.spec_config().data_shards + self.spec_config().parity_shards
                    && d.len() == self.spec_config().data_shards && uniform(d) && count_present(shard_views(shards@))
                    >= self.spec_config().data_shards && agrees_with(
                    shard_views(shards@),
                    #[trigger] codeword(self.spec_config().data_shards as nat, self.spec_config().parity_shards as nat, d),
                ) ==> (r is Ok && r->Ok_0@ == truncated(d.flatten(), original_size as nat)),
    {
        let k = self.config.data_shards;
        let m = self.config.parity_shards;
        let total = k + m;
        if shards.len() != total {
            return Err(StorageError::ErasureCoding(String::from_str("wrong number of shards")));
        }
        let ghost views = shard_views(shards@);
        let mut rest = shards;
        let mut datas: Vec<Option<Vec<u8>>> = Vec::new();
        let mut available: usize = 0;
        let mut i: usize = 0;
        while i < total
            invariant
                total == views.len(),
                i <= total,
                rest@.len() == total - i,
                forall|t: int| 0 <= t < rest@.len() ==> #[trigger] shard_views(rest@)[t] == views[t + i],
                opt_views(datas@) == views.subrange(0, i as int),
                available == count_present(views.subrange(0, i as int)),
                available <= i,
            decreases total - i,
        {
            let ghost prev = rest@;
            let item = rest.remove(0);
            proof {
                assert(shard_views(prev)[0] == views[i as int]);
                assert forall|t: int| 0 <= t < rest@.len() implies #[trigger] shard_views(rest@)[t] == views[t + i + 1] by {
                    assert(rest@[t] == prev[t + 1]);
                    assert(shard_views(prev)[t + 1] == views[t + 1 + i]);
                }
            }
            match item {
                Some(s) => {
                    datas.push(Some(s.data));
                    available = available + 1;
                },
                None => {
                    datas.push(None);
                },
            }
            proof {
                assert(views.subrange(0, i + 1) =~= views.subrange(0, i as int).push(views[i as int]));
                lemma_count_push(views.subrange(0, i as int), views[i as int]);
                assert(opt_views(datas@) =~= views.subrange(0, i + 1));
            }
            i = i + 1;
        }
        assert(views.subrange(0, total as int) =~= views);
        if available < k {
            return Err(StorageError::InsufficientFragments { have: available, need: k });
        }
        let ghost kk = k as nat;
        let ghost mm = m as nat;
        assert(opt_views(datas@) == views);
        assert(rs_shape(self.codec).0 == kk && rs_shape(self.codec).1 == mm);
        match rs_reconstruct(&self.codec, &mut datas) {
            Ok(()) => {},
            Err(_) => {
                return Err(StorageError::ErasureCoding(String::from_str("reconstruction failed")));
            },
        }
        let ghost after = opt_views(datas@);
        let mut result: Vec<u8> = Vec::new();
        let mut j: usize = 0;
        while j < k
            invariant
                j <= k,
                kk == k,
                mm == m,
                total == k + m,
                k == self.spec_config().data_shards,
                m == self.spec_config().parity_shards,
                after == opt_views(datas@),
                views == shard_views(shards@),
                forall|d: Seq<Seq<u8>>|
                    d.len() == kk && uniform(d) && count_present(views) >= kk && agrees_with(views, #[trigger] codeword(kk, mm, d))
                        ==> after == codeword(kk, mm, d).map_values(|x: Seq<u8>| Some(x)),
                after.len() == total,
                count_present(views) >= kk,
                result@ == unwrap_views(after).subrange(0, j as int).flatten_alt(),
            decreases k - j,
        {
            match &datas[j] {
                Some(b) => {
                    assert(unwrap_views(after)[j as int] == b@);
                    result.extend_from_slice(b.as_slice());
                },
                None => {
                    return Err(StorageError::ErasureCoding(String::from_str("reconstruction failed")));
                },
            }
            assert(unwrap_views(after).subrange(0, j + 1).drop_last() =~= unwrap_views(after).subrange(0, j as int));
            assert(result@ =~= unwrap_views(after).subrange(0, j + 1).flatten_alt());
            j = j + 1;
        }
        proof {
            assert forall|d: Seq<Seq<u8>>|
                d.len() == kk && uniform(d) && count_present(views) >= kk && agrees_with(views, #[trigger] codeword(kk, mm, d))
                implies result@ == d.flatten() by {
                assert(unwrap_views(after).subrange(0, k as int) =~= d);
                d.lemma_flatten_and_flatten_alt_are_equivalent();
            }
        }
        result.truncate(original_size);
        Ok(result)
    }
}


proof fn lemma_prefix_concat(p: Seq<u8>, k: nat, j: int)
    requires
        k >= 1,
        0 <= j <= k,
    ensures
        data_shards_of(p, k).subrange(0, j).flatten_alt() == padded(p, k).subrange(0, j * shard_len(p.len(), k)),
    decreases j,
{
    let ss = shard_len(p.len(), k) as int;
    lemma_shard_len_bounds(p.len(), k);
    if j == 0 {
        assert(data_shards_of(p, k).subrange(0, 0) =~= Seq::<Seq<u8>>::empty());
        assert(padded(p, k).subrange(0, 0 * ss) =~= Seq::<u8>::empty());
    } else {
        lemma_prefix_concat(p, k, j - 1);
        assert(data_shards_of(p, k).subrange(0, j).drop_last() =~= data_shards_of(p, k).subrange(0, j - 1));
        assert(j * ss == (j - 1) * ss + ss) by (nonlinear_arith);
        assert(j * ss <= k * ss) by (nonlinear_arith) requires j <= k, ss >= 0;
        assert((j - 1) * ss >= 0) by (nonlinear_arith) requires j >= 1, ss >= 0;
        assert(padded(p, k).subrange(0, j * ss) =~= padded(p, k).subrange(0, (j - 1) * ss) + padded(p, k).subrange(
            (j - 1) * ss,
            j * ss,
        ));
    }
}

/// Erasure round trip and resilience: take the `k + m` shards that `encode` made of a
/// non-empty `p`, erase any of them so that at least `k` are left (at most `m` erased);
/// then what is left meets `decode`'s condition for the data shards of `p`, and those
/// data shards, cut to `p.len()`, are `p`. So `decode(left, p.len())` returns `p`.
pub proof fn lemma_erasure_round_trip(p: Seq<u8>, config: ErasureConfig, encoded: Seq<Shard>, left: Seq<Option<Shard>>)
    requires
        config.valid(),
        p.len() > 0,
        encoded_shards(encoded, p, config),
        left.len() == encoded.len(),
        forall|i: int| 0 <= i < left.len() && (#[trigger] left[i]) is Some ==> left[i]->Some_0.data@ == encoded[i].data@,
        count_present(shard_views(left)) >= config.data_shards,
    ensures
        ({
            let k = config.data_shards as nat;
            let d = data_shards_of(p, k);
            &&& d.len() == k
            &&& uniform(d)
            &&& agrees_with(shard_views(left), codeword(k, config.parity_shards as nat, d))
            &&& truncated(d.flatten(), p.len()) == p
        }),
{
    let k = config.data_shards as nat;
    let m = config.parity_shards as nat;
    let d = data_shards_of(p, k);
    let ss = shard_len(p.len(), k);
    lemma_shard_len_bounds(p.len(), k);
    assert forall|i: int| 0 <= i < d.len() implies #[trigger] d[i].len() == d[0].len() by {
        lemma_data_shard_len(p, k, i);
        lemma_data_shard_len(p, k, 0);
    }
    lemma_data_shard_len(p, k, 0);
    assert forall|i: int| 0 <= i < shard_views(left).len() && #[trigger] shard_views(left)[i] is Some implies shard_views(
        left,
    )[i]->Some_0 == codeword(k, m, d)[i] by {
        assert(left[i] is Some);
        assert(encoded[i].data@ == codeword(k, m, d)[i]);
    }
    lemma_prefix_concat(p, k, k as int);
    assert(d.subrange(0, k as int) =~= d);
    d.lemma_flatten_and_flatten_alt_are_equivalent();
    assert(padded(p, k).subrange(0, (k * ss) as int) =~= padded(p, k));
    assert(padded(p, k).subrange(0, p.len() as int) =~= p);
}

} // verus!
