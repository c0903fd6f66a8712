//! Length-prefixed binary layout: little-endian fixed-width integers.
use vstd::prelude::*;

verus! {

/// `256^n`.
pub open spec fn pow256(n: nat) -> nat
    decreases n,
{
    if n == 0 { 1 } else { 256 * pow256((n - 1) as nat) }
}

/// The `n` little-endian bytes of `x`, least significant first.
pub open spec fn le_bytes(x: nat, n: nat) -> Seq<u8>
    decreases n,
{
    if n == 0 {
        Seq::empty()
    } else {
        seq![(x % 256) as u8] + le_bytes(x / 256, (n - 1) as nat)
    }
}

/// The number whose little-endian bytes are `b`.
pub open spec fn le_value(b: Seq<u8>) -> nat
    decreases b.len(),
{
    if b.len() == 0 {
        0
    } else {
        b[0] as nat + 256 * le_value(b.drop_first())
    }
}

/// `n` bytes are written.
pub proof fn lemma_le_len(x: nat, n: nat)
    ensures
        le_bytes(x, n).len() == n,
    decreases n,
{
    if n > 0 {
        lemma_le_len(x / 256, (n - 1) as nat);
    }
}

/// The 8-byte little-endian form of each value, one after another.
pub open spec fn usizes_bytes(s: Seq<usize>) -> Seq<u8>
    decreases s.len(),
{
    if s.len() == 0 {
        Seq::empty()
    } else {
        usizes_bytes(s.drop_last()) + le_bytes(s.last() as nat, 8)
    }
}

/// Value `j` sits at bytes `8j .. 8j + 8`.
pub proof fn lemma_usizes_layout(s: Seq<usize>)
    ensures
        usizes_bytes(s).len() == 8 * s.len(),
        forall|j: int| 0 <= j < s.len() ==> #[trigger] usizes_bytes(s).subrange(8 * j, 8 * j + 8) == le_bytes(s[j] as nat, 8),
    decreases s.len(),
{
    if s.len() > 0 {
        lemma_usizes_layout(s.drop_last());
        lemma_le_len(s.last() as nat, 8);
        let w = usizes_bytes(s);
        let w0 = usizes_bytes(s.drop_last());
        assert forall|j: int| 0 <= j < s.len() implies #[trigger] w.subrange(8 * j, 8 * j + 8) == le_bytes(s[j] as nat, 8) by {
            if j < s.len() - 1 {
                assert(w.subrange(8 * j, 8 * j + 8) =~= w0.subrange(8 * j, 8 * j + 8));
                assert(s.drop_last()[j] == s[j]);
            } else {
                assert(w.subrange(8 * j, 8 * j + 8) =~= le_bytes(s.last() as nat, 8));
            }
        }
    }
}

/// Little-endian bytes read back give the number.
pub proof fn lemma_le_round_trip(x: nat, n: nat)
    requires
        x < pow256(n),
    ensures
        le_value(le_bytes(x, n)) == x,
        le_bytes(x, n).len() == n,
    decreases n,
{
    if n > 0 {
        lemma_le_round_trip(x / 256, (n - 1) as nat);
        assert(le_bytes(x, n).drop_first() =~= le_bytes(x / 256, (n - 1) as nat));
    }
}

proof fn lemma_le_value_bound(b: Seq<u8>)
    ensures
        le_value(b) < pow256(b.len()),
    decreases b.len(),
{
    if b.len() > 0 {
        lemma_le_value_bound(b.drop_first());
    }
}

/// Appends the `n` little-endian bytes of `v`.
pub fn push_le(out: &mut Vec<u8>, v: u64, n: usize)
    ensures
        final(out)@ == old(out)@ + le_bytes(v as nat, n as nat),
    decreases n,
{
    if n > 0 {
        out.push((v % 256) as u8);
        push_le(out, v / 256, n - 1);
        assert(final(out)@ =~= old(out)@ + le_bytes(v as nat, n as nat));
    }
}

/// Reads `n <= 8` little-endian bytes at `pos`.
pub fn read_le(b: &[u8], pos: usize, n: usize) -> (r: u64)
    requires
        n <= 8,
        pos + n <= b@.len(),
    ensures
        r == le_value(b@.subrange(pos as int, pos + n)),
    decreases n,
{
    let blen = b.len();
    if n == 0 {
        0
    } else {
        let rest = read_le(b, pos + 1, n - 1);
        proof {
            assert(b@.subrange(pos as int, pos + n).drop_first() =~= b@.subrange(pos + 1, pos + n));
            lemma_le_value_bound(b@.subrange(pos + 1, pos + n));
            lemma_pow256_mono((n - 1) as nat);
        }
        b[pos] as u64 + 256 * rest
    }
}

proof fn lemma_pow256_mono(n: nat)
    requires
        n <= 7,
    ensures
        pow256(n) <= pow256(7),
        pow256(7) == 0x100_0000_0000_0000,
    decreases 7 - n,
{
    reveal_with_fuel(pow256, 8);
    if n < 7 {
        lemma_pow256_mono(n + 1);
    }
}

/// `256^8` is `2^64`.
pub proof fn lemma_pow256_8()
    ensures
        pow256(8) == 0x1_0000_0000_0000_0000,
{
    reveal_with_fuel(pow256, 9);
}


/// Bytes read as a number and written back are the same bytes.
pub proof fn lemma_le_value_round_trip(b: Seq<u8>)
    ensures
        le_bytes(le_value(b), b.len()) == b,
    decreases b.len(),
{
    if b.len() > 0 {
        lemma_le_value_round_trip(b.drop_first());
        let v = le_value(b);
        assert(v % 256 == b[0] as nat);
        assert(v / 256 == le_value(b.drop_first()));
        assert(le_bytes(v, b.len()) =~= b);
    }
}

/// Reads a `usize` stored as 8 little-endian bytes at `pos`; `None` when fewer than 8
/// bytes remain or the value does not fit.
pub fn read_usize(b: &[u8], pos: usize) -> (r: Option<usize>)
    ensures
        r matches Some(v) ==> pos + 8 <= b@.len() && le_bytes(v as nat, 8) == b@.subrange(pos as int, pos + 8),
        forall|v: nat|
            pos + 8 <= b@.len() && v <= usize::MAX && #[trigger] le_bytes(v, 8) == b@.subrange(pos as int, pos + 8) ==> r
                == Some(v as usize),
{
    let blen = b.len();
    if blen < 8 || pos > blen - 8 {
        return None;
    }
    let x = read_le(b, pos, 8);
    proof {
        lemma_le_value_round_trip(b@.subrange(pos as int, pos + 8));
        lemma_pow256_8();
        assert forall|v: nat| v <= usize::MAX && #[trigger] le_bytes(v, 8) == b@.subrange(pos as int, pos + 8) implies v == x by {
            lemma_le_round_trip(v, 8);
        }
    }
    if x > usize::MAX as u64 {
        return None;
    }
    Some(x as usize)
}

} // verus!
