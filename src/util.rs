use vstd::prelude::*;

verus! {

/// The number that eight bytes encode, least significant byte first.
pub open spec fn le_value(b: Seq<u8>) -> nat
    decreases b.len(),
{
    if b.len() == 0 {
        0
    } else {
        b[0] as nat + 256 * le_value(b.drop_first())
    }
}

proof fn lemma_le_value_bound(b: Seq<u8>)
    ensures
        le_value(b) < pow256(b.len()),
    decreases b.len(),
{
    if b.len() > 0 {
        lemma_le_value_bound(b.drop_first());
        assert(le_value(b.drop_first()) + 1 <= pow256((b.len() - 1) as nat));
        assert(le_value(b) < pow256(b.len())) by (nonlinear_arith)
            requires
                le_value(b) == b[0] as nat + 256 * le_value(b.drop_first()),
                b[0] < 256,
                le_value(b.drop_first()) + 1 <= pow256((b.len() - 1) as nat),
                pow256(b.len()) == 256 * pow256((b.len() - 1) as nat),
        ;
    }
}

pub open spec fn pow256(n: nat) -> nat
    decreases n,
{
    if n == 0 {
        1
    } else {
        256 * pow256((n - 1) as nat)
    }
}

/// A number below `n` taken from the first eight bytes of `seed`, read as a
/// little-endian integer and reduced modulo `n`.
pub fn get_random_number(seed: &Vec<u8>, n: u64) -> (r: u64)
    requires
        seed@.len() >= 8,
        n > 0,
    ensures
        r as nat == le_value(seed@.subrange(0, 8)) % (n as nat),
        r < n,
{
    let mut acc: u64 = 0;
    let mut i: usize = 8;
    while i > 0
        invariant
            0 <= i <= 8,
            seed@.len() >= 8,
            acc as nat == le_value(seed@.subrange(i as int, 8)),
        decreases i,
    {
        proof {
            let s = seed@.subrange(i - 1, 8);
            assert(s.drop_first() =~= seed@.subrange(i as int, 8));
            lemma_le_value_bound(s);
            assert(pow256(s.len()) <= pow256(8)) by {
                lemma_pow256_mono(s.len(), 8);
            }
            reveal_with_fuel(pow256, 9);
            assert(pow256(8) == 0x1_0000_0000_0000_0000);
        }
        acc = seed[i - 1] as u64 + 256 * acc;
        i = i - 1;
    }
    acc % n
}

proof fn lemma_pow256_mono(a: nat, b: nat)
    requires
        a <= b,
    ensures
        pow256(a) <= pow256(b),
    decreases b,
{
    if a < b {
        lemma_pow256_mono(a, (b - 1) as nat);
    }
}

} // verus!
