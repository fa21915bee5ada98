//! Identities: the opaque fixed-width byte keys that the ledger is indexed by.

use vstd::prelude::*;

verus! {

/// An addressable identity: a 20-byte account key, held as two plain
/// unsigned integers (the 4 high bytes in `hi`, the 16 low bytes in `lo`,
/// both big-endian). The ledger gives the key no further structure; the
/// split exists only because 160 bits exceed any single machine integer.
#[derive(Clone, Copy, PartialEq, Eq, Structural, Debug)]
pub struct Identity {
    pub hi: u32,
    pub lo: u128,
}

/// The unsigned integer that a byte string denotes in big-endian order.
pub open spec fn be_value(s: Seq<u8>) -> nat
    decreases s.len(),
{
    if s.len() == 0 {
        0
    } else {
        be_value(s.drop_last()) * 256 + s.last() as nat
    }
}

/// `256 ^ n`: the number of distinct byte strings of length `n`, and the
/// strict upper bound on `be_value` of such a string.
spec fn pow256(n: nat) -> nat
    decreases n,
{
    if n == 0 {
        1
    } else {
        256 * pow256((n - 1) as nat)
    }
}

/// A byte string of length `n` denotes a value below `256 ^ n`.
proof fn lemma_be_value_bound(s: Seq<u8>)
    ensures
        be_value(s) < pow256(s.len()),
    decreases s.len(),
{
    if s.len() > 0 {
        lemma_be_value_bound(s.drop_last());
    }
}

impl Identity {
    /// Build an identity from its 20-byte representation: the first 4 bytes
    /// form `hi`, the remaining 16 form `lo`, both big-endian.
    pub fn from_bytes(bytes: &[u8; 20]) -> (r: Identity)
        ensures
            r.hi == be_value(bytes@.subrange(0, 4)),
            r.lo == be_value(bytes@.subrange(4, 20)),
    {
        let hi_wide = be_value_of_range(bytes, 0, 4);
        let lo = be_value_of_range(bytes, 4, 20);
        proof {
            lemma_be_value_bound(bytes@.subrange(0, 4));
            assert(pow256(4) == 0x1_0000_0000) by {
                reveal_with_fuel(pow256, 5);
            }
        }
        Identity { hi: hi_wide as u32, lo }
    }
}

/// Byte strings of one length denote distinct values: `be_value` loses
/// nothing.
proof fn lemma_be_value_injective(s: Seq<u8>, t: Seq<u8>)
    requires
        s.len() == t.len(),
        be_value(s) == be_value(t),
    ensures
        s == t,
    decreases s.len(),
{
    if s.len() == 0 {
        assert(s =~= t);
    } else {
        assert(s.last() == t.last() && be_value(s.drop_last()) == be_value(t.drop_last())) by {
            assert(be_value(s.drop_last()) * 256 + s.last() as nat == be_value(t.drop_last()) * 256
                + t.last() as nat);
        }
        lemma_be_value_injective(s.drop_last(), t.drop_last());
        assert forall|i: int| 0 <= i < s.len() implies s[i] == t[i] by {
            if i < s.len() - 1 {
                assert(s.drop_last()[i] == s[i]);
                assert(t.drop_last()[i] == t[i]);
            } else {
                assert(s.last() == s[i]);
                assert(t.last() == t[i]);
            }
        }
        assert(s =~= t);
    }
}

/// An identity built from a 20-byte address keeps every bit of it:
/// distinct addresses are distinct identities, so rate limiting one
/// address can never touch another's record.
pub proof fn lemma_identity_keeps_addresses_apart(a: Seq<u8>, b: Seq<u8>)
    requires
        a.len() == 20,
        b.len() == 20,
        be_value(a.subrange(0, 4)) == be_value(b.subrange(0, 4)),
        be_value(a.subrange(4, 20)) == be_value(b.subrange(4, 20)),
    ensures
        a == b,
{
    lemma_be_value_injective(a.subrange(0, 4), b.subrange(0, 4));
    lemma_be_value_injective(a.subrange(4, 20), b.subrange(4, 20));
    assert forall|i: int| 0 <= i < 20 implies a[i] == b[i] by {
        if i < 4 {
            assert(a.subrange(0, 4)[i] == a[i]);
            assert(b.subrange(0, 4)[i] == b[i]);
        } else {
            assert(a.subrange(4, 20)[i - 4] == a[i]);
            assert(b.subrange(4, 20)[i - 4] == b[i]);
        }
    }
    assert(a =~= b);
}

/// `256 ^ n` does not shrink as `n` grows.
proof fn lemma_pow256_monotone(a: nat, b: nat)
    requires
        a <= b,
    ensures
        pow256(a) <= pow256(b),
    decreases b,
{
    if a < b {
        lemma_pow256_monotone(a, (b - 1) as nat);
    }
}

/// Read the bytes `start .. end` as one big-endian unsigned integer.
/// At most 16 bytes are read, so the value fits in a `u128`.
fn be_value_of_range(bytes: &[u8; 20], start: usize, end: usize) -> (r: u128)
    requires
        start <= end <= 20,
        end - start <= 16,
    ensures
        r == be_value(bytes@.subrange(start as int, end as int)),
{
    let mut acc: u128 = 0;
    let mut i: usize = start;
    while i < end
        invariant
            start <= i <= end <= 20,
            end - start <= 16,
            acc == be_value(bytes@.subrange(start as int, i as int)),
        decreases end - i,
    {
        proof {
            lemma_be_value_bound(bytes@.subrange(start as int, i as int));
            lemma_pow256_monotone((i - start) as nat, 15);
            assert(pow256(15) == 0x100_0000_0000_0000_0000_0000_0000_0000) by {
                reveal_with_fuel(pow256, 16);
            }
            assert(bytes@.subrange(start as int, i as int + 1).drop_last()
                =~= bytes@.subrange(start as int, i as int));
            assert(bytes@.subrange(start as int, i as int + 1).last() == bytes@[i as int]);
        }
        acc = acc * 256 + (bytes[i] as u128);
        i = i + 1;
    }
    acc
}

} // verus!
