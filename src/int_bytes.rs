use vstd::prelude::*;

verus! {

/// The `k` lowest bytes of `n`, least significant first.
pub open spec fn le_bytes(n: nat, k: nat) -> Seq<u8>
    decreases k,
{
    if k == 0 {
        Seq::empty()
    } else {
        seq![(n % 256) as u8] + le_bytes(n / 256, (k - 1) as nat)
    }
}

/// The 32-byte little-endian encoding of `n`, padded with zeros.
pub open spec fn le32(n: nat) -> Seq<u8> {
    le_bytes(n, 32)
}

pub proof fn lemma_le32_len(n: nat)
    ensures
        le32(n).len() == 32,
{
    lemma_le_bytes_len(n, 32);
}

pub proof fn lemma_le_bytes_len(n: nat, k: nat)
    ensures
        le_bytes(n, k).len() == k,
    decreases k,
{
    if k > 0 {
        lemma_le_bytes_len(n / 256, (k - 1) as nat);
    }
}

/// Encodes `n` as 32 little-endian bytes.
pub fn int_to_bytes32(n: u64) -> (r: Vec<u8>)
    ensures
        r@ == le32(n as nat),
        r@.len() == 32,
{
    int_to_le_bytes(n, 32)
}

/// Appends the `k` lowest bytes of `n` to `out`, least significant first.
pub fn push_le_bytes(out: &mut Vec<u8>, n: u64, k: usize)
    ensures
        final(out)@ == old(out)@ + le_bytes(n as nat, k as nat),
{
    let ghost start = out@;
    let mut v: u64 = n;
    let mut i: usize = 0;
    while i < k
        invariant
            i <= k,
            out@ + le_bytes(v as nat, (k - i) as nat) == start + le_bytes(n as nat, k as nat),
        decreases k - i,
    {
        let ghost before = out@;
        out.push((v % 256) as u8);
        proof {
            assert(le_bytes(v as nat, (k - i) as nat) == seq![(v % 256) as u8] + le_bytes(
                (v / 256) as nat,
                (k - i - 1) as nat,
            ));
            assert(out@ + le_bytes((v / 256) as nat, (k - i - 1) as nat) =~= before + (seq![
                (v % 256) as u8,
            ] + le_bytes((v / 256) as nat, (k - i - 1) as nat)));
        }
        v = v / 256;
        i = i + 1;
    }
    assert(out@ + le_bytes(v as nat, 0) =~= out@);
}

/// Returns the `k` lowest bytes of `n`, least significant first.
pub fn int_to_le_bytes(n: u64, k: usize) -> (r: Vec<u8>)
    ensures
        r@ == le_bytes(n as nat, k as nat),
        r@.len() == k,
{
    let mut r: Vec<u8> = Vec::new();
    push_le_bytes(&mut r, n, k);
    proof {
        assert(r@ =~= le_bytes(n as nat, k as nat));
        lemma_le_bytes_len(n as nat, k as nat);
    }
    r
}

/// The number that the little-endian bytes `s` encode.
pub open spec fn le_value(s: Seq<u8>) -> nat
    decreases s.len(),
{
    if s.len() == 0 {
        0
    } else {
        s[0] as nat + 256 * le_value(s.drop_first())
    }
}

/// `256` to the power `k`.
pub open spec fn pow256(k: nat) -> nat
    decreases k,
{
    if k == 0 {
        1
    } else {
        256 * pow256((k - 1) as nat)
    }
}

pub proof fn lemma_le_value_bound(s: Seq<u8>)
    ensures
        le_value(s) < pow256(s.len()),
    decreases s.len(),
{
    if s.len() > 0 {
        lemma_le_value_bound(s.drop_first());
        assert(le_value(s) < pow256(s.len())) by (nonlinear_arith)
            requires
                le_value(s) == s[0] as nat + 256 * le_value(s.drop_first()),
                le_value(s.drop_first()) < pow256(s.drop_first().len()),
                s[0] < 256,
                pow256(s.len()) == 256 * pow256(s.drop_first().len()),
        ;
    }
}

/// Encoding a number that fits in `k` bytes and reading it back gives the number.
pub proof fn lemma_le_round_trip(n: nat, k: nat)
    requires
        n < pow256(k),
    ensures
        le_value(le_bytes(n, k)) == n,
        le_bytes(n, k).len() == k,
    decreases k,
{
    lemma_le_bytes_len(n, k);
    if k > 0 {
        assert(n / 256 < pow256((k - 1) as nat)) by (nonlinear_arith)
            requires
                n < 256 * pow256((k - 1) as nat),
        ;
        lemma_le_round_trip(n / 256, (k - 1) as nat);
        let s = le_bytes(n, k);
        assert(s.drop_first() =~= le_bytes(n / 256, (k - 1) as nat));
        assert(n == n % 256 + 256 * (n / 256)) by (nonlinear_arith);
    } else {
        assert(n == 0) by {
            reveal_with_fuel(pow256, 1);
        }
    }
}

pub proof fn lemma_pow256_small()
    ensures
        pow256(2) == 0x1_0000,
        pow256(4) == 0x1_0000_0000,
        pow256(8) == 0x1_0000_0000_0000_0000,
{
    reveal_with_fuel(pow256, 9);
}

/// Reads the little-endian number in `b[start..start + width]`.
pub fn read_le(b: &[u8], start: usize, width: usize) -> (r: u64)
    requires
        width <= 8,
        start + width <= b@.len(),
    ensures
        r as nat == le_value(b@.subrange(start as int, start + width)),
{
    let blen = b.len();
    let mut v: u64 = 0;
    let mut i: usize = width;
    proof {
        lemma_pow256_small();
    }
    while i > 0
        invariant
            i <= width <= 8,
            blen == b@.len(),
            start + width <= b@.len(),
            v as nat == le_value(b@.subrange(start + i, start + width)),
            pow256(8) == 0x1_0000_0000_0000_0000,
        decreases i,
    {
        i = i - 1;
        let ghost s = b@.subrange(start + i, start + width);
        proof {
            assert(s.drop_first() =~= b@.subrange(start + i + 1, start + width));
            lemma_le_value_bound(s);
            lemma_pow256_mono(s.len(), 8);
        }
        v = v * 256 + b[start + i] as u64;
    }
    v
}

pub proof fn lemma_pow256_mono(a: nat, b: nat)
    requires
        a <= b,
    ensures
        pow256(a) <= pow256(b),
    decreases b,
{
    if a < b {
        lemma_pow256_mono(a, (b - 1) as nat);
    }
}

} // verus!
