//! The 64-bit FNV-1a hash.

use vstd::prelude::*;

verus! {

/// The hash of no bytes.
pub const FNV_BASIS: u64 = 0xcbf29ce484222325;

/// The multiplier applied after each byte.
pub const FNV_PRIME: u64 = 0x100000001b3;

/// The inverse of [`FNV_PRIME`] modulo 2 to the 64.
const FNV_PRIME_INVERSE: u64 = 0xce965057aff6957b;

/// The hash after one more byte: exclusive or, then a product modulo 2 to the 64.
pub open spec fn fnv1a_step(hash: u64, byte: u8) -> u64 {
    (((hash ^ byte as u64) * FNV_PRIME) % 0x1_0000_0000_0000_0000) as u64
}

/// The FNV-1a hash of `data`.
pub open spec fn fnv1a(data: Seq<u8>) -> u64
    decreases data.len(),
{
    if data.len() == 0 {
        FNV_BASIS
    } else {
        fnv1a_step(fnv1a(data.drop_last()), data.last())
    }
}

/// Computes the FNV-1a hash of `data`.
pub fn fnv1a_64(data: &[u8]) -> (hash: u64)
    ensures
        hash == fnv1a(data@),
{
    let mut hash: u64 = FNV_BASIS;
    let mut i: usize = 0;
    assert(data@.take(0) =~= Seq::<u8>::empty());
    while i < data.len()
        invariant
            i <= data.len(),
            hash == fnv1a(data@.take(i as int)),
        decreases data.len() - i,
    {
        proof {
            assert(data@.take(i + 1).drop_last() =~= data@.take(i as int));
        }
        hash = hash ^ data[i] as u64;
        hash = hash.wrapping_mul(FNV_PRIME);
        i = i + 1;
    }
    assert(data@.take(i as int) =~= data@);
    hash
}

/// Multiplying by [`FNV_PRIME`] modulo 2 to the 64 can be undone.
proof fn lemma_product_undone(x: u64)
    ensures
        (((x * FNV_PRIME) % 0x1_0000_0000_0000_0000) * FNV_PRIME_INVERSE)
            % 0x1_0000_0000_0000_0000 == x,
{
    let m = 0x1_0000_0000_0000_0000int;
    let k = FNV_PRIME * FNV_PRIME_INVERSE / m;
    assert(FNV_PRIME * FNV_PRIME_INVERSE == k * m + 1);
    vstd::arithmetic::div_mod::lemma_mul_mod_noop_left(
        x * FNV_PRIME,
        FNV_PRIME_INVERSE as int,
        m,
    );
    assert(x * FNV_PRIME * FNV_PRIME_INVERSE == m * (x * k) + x) by (nonlinear_arith)
        requires
            FNV_PRIME * FNV_PRIME_INVERSE == k * m + 1,
    ;
    vstd::arithmetic::div_mod::lemma_mod_multiples_vanish(x * k, x as int, m);
    vstd::arithmetic::div_mod::lemma_small_mod(x as nat, m as nat);
}

/// Different hashes stay different under one more byte, and one hash is led to different hashes
/// by different bytes.
proof fn lemma_step_injective(hash1: u64, byte1: u8, hash2: u64, byte2: u8)
    requires
        hash1 == hash2 || byte1 == byte2,
        fnv1a_step(hash1, byte1) == fnv1a_step(hash2, byte2),
    ensures
        hash1 == hash2,
        byte1 == byte2,
{
    let mixed1 = hash1 ^ byte1 as u64;
    let mixed2 = hash2 ^ byte2 as u64;
    lemma_product_undone(mixed1);
    lemma_product_undone(mixed2);
    let wide1 = byte1 as u64;
    let wide2 = byte2 as u64;
    assert(hash1 ^ wide1 == hash2 ^ wide2 && (hash1 == hash2 || wide1 == wide2) ==> hash1 == hash2
        && wide1 == wide2) by (bit_vector);
}

/// The checksum notices every change of a single byte.
pub proof fn law_single_byte_change_is_noticed(data: Seq<u8>, at: int, byte: u8)
    requires
        0 <= at < data.len(),
        byte != data[at],
    ensures
        fnv1a(data.update(at, byte)) != fnv1a(data),
    decreases data.len(),
{
    let changed = data.update(at, byte);
    if fnv1a(changed) == fnv1a(data) {
        if at == data.len() - 1 {
            assert(changed.drop_last() =~= data.drop_last());
            lemma_step_injective(
                fnv1a(changed.drop_last()),
                byte,
                fnv1a(data.drop_last()),
                data.last(),
            );
        } else {
            assert(changed.drop_last() =~= data.drop_last().update(at, byte));
            law_single_byte_change_is_noticed(data.drop_last(), at, byte);
            lemma_step_injective(
                fnv1a(changed.drop_last()),
                data.last(),
                fnv1a(data.drop_last()),
                data.last(),
            );
        }
    }
}

/// The hash of no bytes is the basis. One more byte changes only the low eight bits of the hash
/// before it is multiplied: undoing the product gives back the upper 56 bits as they were, and the
/// exclusive or of the low eight bits with the byte.
pub proof fn law_byte_is_mixed_into_the_low_bits(data: Seq<u8>, byte: u8)
    ensures
        fnv1a(Seq::<u8>::empty()) == 0xcbf2_9ce4_8422_2325u64,
        ({
            let before = fnv1a(data);
            let undone = (fnv1a(data.push(byte)) * 0xce96_5057_aff6_957b)
                % 0x1_0000_0000_0000_0000;
            &&& undone / 256 == before / 256
            &&& undone % 256 == (before % 256) as u8 ^ byte
        }),
{
    let before = fnv1a(data);
    let wide = byte as u64;
    let mixed = before ^ wide;
    assert(data.push(byte).drop_last() =~= data);
    lemma_product_undone(mixed);
    assert(mixed / 256 == before / 256 && mixed % 256 == ((before % 256) as u8 ^ byte) as u64)
        by (bit_vector)
        requires
            mixed == before ^ wide,
            wide == byte as u64,
    ;
}

} // verus!
