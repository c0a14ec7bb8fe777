//! Stable identifiers for files.
//!
//! A file's identifier is the 64-bit FNV-1a hash of the UTF-8 bytes of its
//! path. The algorithm, its offset basis and its prime are fixed, so the same
//! path gets the same identifier in every process and on every machine.

use vstd::prelude::*;

verus! {

/// The FNV-1a offset basis for 64-bit hashes.
pub const FNV_OFFSET_BASIS: u64 = 0xcbf2_9ce4_8422_2325;

/// The FNV-1a prime for 64-bit hashes.
pub const FNV_PRIME: u64 = 0x0000_0100_0000_01b3;

/// One round of FNV-1a: the byte is folded into the low bits of the state,
/// and the state is multiplied by the prime modulo 2^64.
pub open spec fn fnv1a_step(state: u64, byte: u8) -> u64 {
    (state ^ (byte as u64)).wrapping_mul(FNV_PRIME)
}

/// The FNV-1a state after the given bytes, starting from the offset basis.
pub open spec fn fnv1a(bytes: Seq<u8>) -> u64
    decreases bytes.len(),
{
    if bytes.len() == 0 {
        FNV_OFFSET_BASIS
    } else {
        fnv1a_step(fnv1a(bytes.drop_last()), bytes.last())
    }
}

/// The identifier of the file at `path`.
pub open spec fn path_id(path: Seq<char>) -> u64 {
    fnv1a(vstd::utf8::encode_utf8(path))
}

/// Hashes a byte string with 64-bit FNV-1a.
pub fn hash_bytes(bytes: &[u8]) -> (hash: u64)
    ensures
        hash == fnv1a(bytes@),
{
    let mut state: u64 = FNV_OFFSET_BASIS;
    let mut i: usize = 0;
    while i < bytes.len()
        invariant
            i <= bytes.len(),
            state == fnv1a(bytes@.take(i as int)),
        decreases bytes.len() - i,
    {
        proof {
            assert(bytes@.take(i + 1).drop_last() == bytes@.take(i as int));
        }
        state = (state ^ (bytes[i] as u64)).wrapping_mul(FNV_PRIME);
        i += 1;
    }
    proof {
        assert(bytes@.take(i as int) == bytes@);
    }
    state
}

/// Derives the identifier of the file at `path`. The result depends on the
/// characters of the path and on nothing else.
pub fn id(path: &str) -> (id: u64)
    ensures
        id == path_id(path@),
{
    hash_bytes(path.as_bytes())
}

/// A round of FNV-1a loses nothing: two states, or two bytes, that differ
/// lead to states that differ.
pub proof fn lemma_step_injective(a: u64, x: u8, b: u64, y: u8)
    requires
        a != b && x == y || a == b && x != y,
    ensures
        fnv1a_step(a, x) != fnv1a_step(b, y),
{
    let mixed_a = a ^ (x as u64);
    let mixed_b = b ^ (y as u64);
    assert(mixed_a != mixed_b) by (bit_vector)
        requires
            a != b && x == y || a == b && x != y,
            mixed_a == a ^ (x as u64),
            mixed_b == b ^ (y as u64),
    ;
    assert(mixed_a != mixed_b ==> (mixed_a as nat * 0x0000_0100_0000_01b3u64 as nat)
        % 0x1_0000_0000_0000_0000nat != (mixed_b as nat * 0x0000_0100_0000_01b3u64 as nat)
        % 0x1_0000_0000_0000_0000nat) by (bit_vector);
}

/// Byte strings of one length that differ in exactly one byte never get the
/// same hash.
pub proof fn lemma_one_byte_apart(x: Seq<u8>, y: Seq<u8>, i: int)
    requires
        x.len() == y.len(),
        0 <= i < x.len(),
        x[i] != y[i],
        forall|j: int| 0 <= j < x.len() && j != i ==> x[j] == y[j],
    ensures
        fnv1a(x) != fnv1a(y),
    decreases x.len(),
{
    if i == x.len() - 1 {
        assert(x.drop_last() =~= y.drop_last());
        lemma_step_injective(fnv1a(x.drop_last()), x.last(), fnv1a(y.drop_last()), y.last());
    } else {
        lemma_one_byte_apart(x.drop_last(), y.drop_last(), i);
        lemma_step_injective(fnv1a(x.drop_last()), x.last(), fnv1a(y.drop_last()), y.last());
    }
}

} // verus!
