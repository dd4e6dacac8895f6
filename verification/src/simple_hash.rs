//! A dirt-simple hash function that uses the integer it is given as the hash key.
use vstd::prelude::*;

verus! {

/// The number that a little-endian sequence of bytes stands for.
pub open spec fn le_value(s: Seq<u8>) -> nat
    decreases s.len(),
{
    if s.len() == 0 {
        0
    } else {
        s[0] as nat + 256 * le_value(s.subrange(1, s.len() as int))
    }
}

/// 256 to the power `n`.
pub open spec fn pow256(n: nat) -> nat
    decreases n,
{
    if n == 0 {
        1
    } else {
        256 * pow256((n - 1) as nat)
    }
}

/// Read the first `len` bytes of `buf` as a little-endian integer.
pub fn load_u64_le(buf: &[u8], len: usize) -> (r: u64)
    requires
        len <= buf@.len(),
        len <= 8,
    ensures
        r == le_value(buf@.subrange(0, len as int)),
{
    let ghost s = buf@.subrange(0, len as int);
    let mut data: u64 = 0;
    let mut i: usize = len;
    assert(s.subrange(len as int, len as int) =~= Seq::<u8>::empty());
    assert(pow256(8) == 0x1_0000_0000_0000_0000) by {
        reveal_with_fuel(pow256, 9);
    }
    while i > 0
        invariant
            i <= len <= 8,
            len <= buf@.len(),
            s == buf@.subrange(0, len as int),
            pow256(8) == 0x1_0000_0000_0000_0000,
            data == le_value(s.subrange(i as int, len as int)),
            data < pow256((len - i) as nat),
        decreases i,
    {
        i = i - 1;
        let ghost k = (len - i) as nat;
        proof {
            assert(s.subrange(i as int, len as int).subrange(1, k as int) =~= s.subrange(
                i + 1,
                len as int,
            ));
            lemma_pow256_mono(k, 8);
            assert(data * 256 + 255 < pow256(k)) by (nonlinear_arith)
                requires
                    data < pow256((k - 1) as nat),
                    pow256(k) == 256 * pow256((k - 1) as nat),
            ;
        }
        data = data * 256 + buf[i] as u64;
    }
    assert(s.subrange(0, len as int) =~= s);
    data
}

pub proof fn lemma_pow256_mono(a: nat, b: nat)
    requires
        a <= b,
    ensures
        pow256(a) <= pow256(b),
    decreases b,
{
    if a < b {
        lemma_pow256_mono(a, (b - 1) as nat);
    }
}

/// A hasher whose state is the last key written to it.
pub struct SimpleHasher(pub u64);

impl Default for SimpleHasher {
    fn default() -> (r: SimpleHasher)
        ensures
            r.0 == 0,
    {
        SimpleHasher(0)
    }
}

impl SimpleHasher {
    /// The hash: the last key written.
    pub fn finish(&self) -> (r: u64)
        ensures
            r == self.0,
    {
        self.0
    }

    /// Take these bytes, read as a little-endian integer, as the key.
    pub fn write(&mut self, bytes: &[u8])
        requires
            bytes@.len() <= 8,
        ensures
            final(self).0 == le_value(bytes@),
    {
        assert(bytes@.subrange(0, bytes@.len() as int) =~= bytes@);
        *self = SimpleHasher(load_u64_le(bytes, bytes.len()));
    }
}

} // verus!
