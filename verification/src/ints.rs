//! Fixed-width little-endian integers, as the on-disk formats write them.

use vstd::prelude::*;

verus! {

/// `256` to the power `n`.
pub open spec fn pow256(n: nat) -> nat
    decreases n,
{
    if n == 0 {
        1
    } else {
        256 * pow256((n - 1) as nat)
    }
}

/// The `n` low bytes of `x`, least significant first.
pub open spec fn le_bytes(x: nat, n: nat) -> Seq<u8>
    decreases n,
{
    if n == 0 {
        Seq::empty()
    } else {
        seq![(x % 256) as u8] + le_bytes(x / 256, (n - 1) as nat)
    }
}

/// The number that a little-endian byte string stands for.
pub open spec fn le_value(b: Seq<u8>) -> nat
    decreases b.len(),
{
    if b.len() == 0 {
        0
    } else {
        b[0] as nat + 256 * le_value(b.skip(1))
    }
}

/// The values of `pow256` that the formats use.
pub proof fn lemma_pow256_values()
    ensures
        pow256(1) == 256,
        pow256(4) == 0x1_0000_0000,
        pow256(8) == 0x1_0000_0000_0000_0000,
{
    reveal_with_fuel(pow256, 9);
}

/// `pow256` grows with its exponent.
pub proof fn lemma_pow256_mono(a: nat, b: nat)
    requires
        a <= b,
    ensures
        pow256(a) <= pow256(b),
    decreases b,
{
    if a < b {
        lemma_pow256_mono(a, (b - 1) as nat);
    }
}

/// `le_bytes` has the requested width.
pub proof fn lemma_le_bytes_len(x: nat, n: nat)
    ensures
        le_bytes(x, n).len() == n,
    decreases n,
{
    if n > 0 {
        lemma_le_bytes_len(x / 256, (n - 1) as nat);
    }
}

/// Reading back `n` bytes written from `x < 256^n` gives `x`.
pub proof fn lemma_le_roundtrip(x: nat, n: nat)
    requires
        x < pow256(n),
    ensures
        le_value(le_bytes(x, n)) == x,
        le_bytes(x, n).len() == n,
    decreases n,
{
    lemma_le_bytes_len(x, n);
    if n > 0 {
        let p = pow256((n - 1) as nat);
        assert(x / 256 < p) by (nonlinear_arith)
            requires
                x < 256 * p,
        ;
        lemma_le_roundtrip(x / 256, (n - 1) as nat);
        let b = le_bytes(x, n);
        assert(b.skip(1) =~= le_bytes(x / 256, (n - 1) as nat));
        assert(x == x % 256 + 256 * (x / 256)) by (nonlinear_arith);
    }
}

/// A little-endian string of `n` bytes stands for a number below `256^n`.
pub proof fn lemma_le_value_bound(b: Seq<u8>)
    ensures
        le_value(b) < pow256(b.len()),
    decreases b.len(),
{
    if b.len() > 0 {
        lemma_le_value_bound(b.skip(1));
        let v = le_value(b.skip(1));
        let p = pow256((b.len() - 1) as nat);
        assert(b[0] as nat + 256 * v < 256 * p) by (nonlinear_arith)
            requires
                v < p,
                b[0] < 256,
        ;
    }
}

/// Appends the `n` low bytes of `x`, least significant first.
pub fn push_le(out: &mut Vec<u8>, x: u64, n: usize)
    requires
        n <= 8,
    ensures
        final(out)@ == old(out)@ + le_bytes(x as nat, n as nat),
{
    let mut cur = x;
    let mut i: usize = 0;
    assert(old(out)@ =~= old(out)@ + Seq::<u8>::empty());
    while i < n
        invariant
            i <= n,
            out@ + le_bytes(cur as nat, (n - i) as nat) == old(out)@ + le_bytes(x as nat, n as nat),
        decreases n - i,
    {
        let ghost before = out@;
        let ghost k = (n - i) as nat;
        out.push((cur % 256) as u8);
        proof {
            assert(le_bytes(cur as nat, k) == seq![(cur as nat % 256) as u8] + le_bytes(
                cur as nat / 256,
                (k - 1) as nat,
            ));
            assert(out@ + le_bytes((cur / 256) as nat, (k - 1) as nat) =~= before + le_bytes(
                cur as nat,
                k,
            ));
        }
        cur = cur / 256;
        i = i + 1;
    }
    assert(out@ =~= out@ + le_bytes(cur as nat, 0));
}

/// Reads the little-endian number in `b[pos..pos + n]`.
pub fn read_le(b: &[u8], pos: usize, n: usize) -> (r: u64)
    requires
        n <= 8,
        pos + n <= b@.len(),
    ensures
        r as nat == le_value(b@.subrange(pos as int, pos + n)),
{
    let len = b.len();
    let mut acc: u64 = 0;
    let mut i: usize = n;
    proof {
        lemma_pow256_values();
    }
    assert(b@.subrange(pos + n, pos + n) =~= Seq::<u8>::empty());
    while i > 0
        invariant
            i <= n <= 8,
            pos + n <= b@.len(),
            b@.len() == len,
            acc as nat == le_value(b@.subrange(pos + i, pos + n)),
            acc < pow256((n - i) as nat),
            pow256(8) == 0x1_0000_0000_0000_0000,
        decreases i,
    {
        i = i - 1;
        let byte = b[pos + i];
        proof {
            let s = b@.subrange(pos + i, pos + n);
            assert(s.skip(1) =~= b@.subrange(pos + i + 1, pos + n));
            assert(s[0] == byte);
            lemma_pow256_mono((n - i) as nat, 8);
            let p = pow256((n - i - 1) as nat);
            assert(acc * 256 + byte < 256 * p) by (nonlinear_arith)
                requires
                    acc < p,
                    byte < 256,
            ;
        }
        acc = acc * 256 + byte as u64;
    }
    acc
}

} // verus!
