use vstd::prelude::*;

verus! {

/// `256` raised to `n`: one more than the largest number that `n` bytes hold.
pub open spec fn pow256(n: nat) -> nat
    decreases n,
{
    if n == 0 { 1 } else { 256 * pow256((n - 1) as nat) }
}

/// The number that the bytes of `s` spell in big-endian order.
pub open spec fn be_value(s: Seq<u8>) -> nat
    decreases s.len(),
{
    if s.len() == 0 { 0 } else { be_value(s.drop_last()) * 256 + s.last() as nat }
}

/// The `n` low bytes of `v`, most significant first.
pub open spec fn be_bytes(v: nat, n: nat) -> Seq<u8>
    decreases n,
{
    if n == 0 { Seq::empty() } else { be_bytes(v / 256, (n - 1) as nat).push((v % 256) as u8) }
}

pub proof fn lemma_pow256_positive(n: nat)
    ensures pow256(n) >= 1,
    decreases n,
{
    if n > 0 { lemma_pow256_positive((n - 1) as nat); }
}

pub proof fn lemma_pow256_values()
    ensures
        pow256(2) == 0x1_0000,
        pow256(8) == 0x1_0000_0000_0000_0000,
{
    reveal_with_fuel(pow256, 9);
}

/// A value of `s.len()` bytes is below `256` to the power of that length.
pub proof fn lemma_be_value_bound(s: Seq<u8>)
    ensures be_value(s) < pow256(s.len()),
    decreases s.len(),
{
    if s.len() > 0 {
        let p = s.drop_last();
        lemma_be_value_bound(p);
        let v = be_value(p);
        let q = pow256(p.len());
        let b = s.last();
        assert(v * 256 + b < q * 256) by (nonlinear_arith)
            requires v < q, b < 256;
    }
}

/// Reading back the bytes written by `be_bytes` gives the value, for a value that fits.
pub proof fn lemma_be_bytes_roundtrip(v: nat, n: nat)
    requires v < pow256(n),
    ensures
        be_bytes(v, n).len() == n,
        be_value(be_bytes(v, n)) == v,
    decreases n,
{
    if n > 0 {
        let q = pow256((n - 1) as nat);
        assert(v / 256 < q) by (nonlinear_arith)
            requires v < 256 * q;
        lemma_be_bytes_roundtrip(v / 256, (n - 1) as nat);
        let s = be_bytes(v, n);
        assert(s.drop_last() =~= be_bytes(v / 256, (n - 1) as nat));
        assert(v == (v / 256) * 256 + v % 256) by (nonlinear_arith);
    } else {
        assert(v == 0);
    }
}

/// No bytes spell zero, and one more byte appended at the end shifts the value up by
/// a byte and adds it.
pub proof fn lemma_be_value_push(s: Seq<u8>, b: u8)
    ensures
        be_value(Seq::<u8>::empty()) == 0,
        be_value(s.push(b)) == be_value(s) * 256 + b,
{
    assert(s.push(b).drop_last() =~= s);
}

/// The big-endian value of `bytes[start..end]`, which holds at most eight bytes.
pub fn read_be(bytes: &[u8], start: usize, end: usize) -> (v: u64)
    requires
        start <= end <= bytes@.len(),
        end - start <= 8,
    ensures
        v == be_value(bytes@.subrange(start as int, end as int)),
{
    let mut v: u64 = 0;
    let mut i: usize = start;
    proof {
        lemma_pow256_values();
        assert(bytes@.subrange(start as int, start as int) =~= Seq::<u8>::empty());
    }
    while i < end
        invariant
            start <= i <= end <= bytes@.len(),
            end - start <= 8,
            v == be_value(bytes@.subrange(start as int, i as int)),
        decreases end - i,
    {
        let ghost prefix = bytes@.subrange(start as int, i as int);
        proof {
            lemma_be_value_bound(prefix);
            lemma_pow256_mono(prefix.len(), 7);
            lemma_pow256_values();
            reveal_with_fuel(pow256, 8);
            assert(bytes@.subrange(start as int, i + 1) =~= prefix.push(bytes@[i as int]));
            lemma_be_value_push(prefix, bytes@[i as int]);
        }
        let b = bytes[i];
        assert(v * 256 + b < 0x1_0000_0000_0000_0000) by (nonlinear_arith)
            requires v < pow256(prefix.len()), pow256(prefix.len()) <= pow256(7),
                pow256(7) == 0x1_0000_0000_0000_00, b < 256;
        v = v * 256 + b as u64;
        i = i + 1;
    }
    v
}

pub proof fn lemma_pow256_mono(a: nat, b: nat)
    requires a <= b,
    ensures pow256(a) <= pow256(b),
    decreases b,
{
    if a < b {
        lemma_pow256_mono(a, (b - 1) as nat);
        lemma_pow256_positive((b - 1) as nat);
    }
}

} // verus!
