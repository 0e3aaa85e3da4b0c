//! Hashes of atom text and of node keys, and tables that file numbers under
//! the hash of what they stand for.
use std::collections::HashMap;
use vstd::prelude::*;
use vstd::utf8::*;

verus! {

broadcast use vstd::std_specs::hash::group_hash_axioms;

/// The starting value of a hash.
pub const HASH_SEED: u64 = 0xcbf2_9ce4_8422_2325;

/// The multiplier that mixes each value into a hash.
pub const HASH_MULTIPLIER: u64 = 0x100_0000_01b3;

/// The hash `h` with the value `x` mixed in.
pub open spec fn mix(h: u64, x: u64) -> u64 {
    ((h as nat * HASH_MULTIPLIER as nat + x as nat) % 0x1_0000_0000_0000_0000) as u64
}

/// The hash of a sequence of numbers.
pub open spec fn numbers_hash(k: Seq<usize>) -> u64
    decreases k.len(),
{
    if k.len() == 0 {
        HASH_SEED
    } else {
        mix(numbers_hash(k.drop_last()), k.last() as u64)
    }
}

/// The hash of a sequence of bytes.
pub open spec fn bytes_hash(b: Seq<u8>) -> u64
    decreases b.len(),
{
    if b.len() == 0 {
        HASH_SEED
    } else {
        mix(bytes_hash(b.drop_last()), b.last() as u64)
    }
}

/// The hash of an atom's text: the hash of its UTF-8 bytes.
pub open spec fn text_hash(t: Seq<char>) -> u64 {
    bytes_hash(encode_utf8(t))
}

fn mix_exec(h: u64, x: u64) -> (r: u64)
    ensures
        r == mix(h, x),
{
    let p: u128 = h as u128 * HASH_MULTIPLIER as u128;
    assert(p <= 0xffff_ffff_ffff_ffff * 0x100_0000_01b3) by (nonlinear_arith)
        requires
            p == h as u128 * HASH_MULTIPLIER as u128,
            h <= 0xffff_ffff_ffff_ffff,
    ;
    ((p + x as u128) % 0x1_0000_0000_0000_0000) as u64
}

/// The hash of the numbers of `k`.
pub fn hash_numbers(k: &[usize]) -> (r: u64)
    ensures
        r == numbers_hash(k@),
{
    let mut h: u64 = HASH_SEED;
    let mut i: usize = 0;
    while i < k.len()
        invariant
            i <= k@.len(),
            h == numbers_hash(k@.take(i as int)),
        decreases k@.len() - i,
    {
        proof {
            assert(k@.take(i + 1).drop_last() =~= k@.take(i as int));
        }
        h = mix_exec(h, k[i] as u64);
        i = i + 1;
    }
    proof {
        assert(k@.take(i as int) =~= k@);
    }
    h
}

/// The hash of the text `t`.
pub fn hash_text(t: &str) -> (r: u64)
    ensures
        r == text_hash(t@),
{
    let b: &[u8] = t.as_bytes();
    let mut h: u64 = HASH_SEED;
    let mut i: usize = 0;
    while i < b.len()
        invariant
            i <= b@.len(),
            b@ == encode_utf8(t@),
            h == bytes_hash(b@.take(i as int)),
        decreases b@.len() - i,
    {
        proof {
            assert(b@.take(i + 1).drop_last() =~= b@.take(i as int));
        }
        h = mix_exec(h, b[i] as u64);
        i = i + 1;
    }
    proof {
        assert(b@.take(i as int) =~= b@);
    }
    h
}

/// The numbers filed under hash `h` in `t`.
pub open spec fn bucket(t: Map<u64, Vec<usize>>, h: u64) -> Seq<usize> {
    if t.contains_key(h) {
        t[h]@
    } else {
        Seq::empty()
    }
}

/// Files number `n` under hash `h`.
pub fn file_number(table: &mut HashMap<u64, Vec<usize>>, h: u64, n: usize)
    ensures
        bucket(final(table)@, h) == bucket(old(table)@, h).push(n),
        forall|g: u64| g != h ==> #[trigger] bucket(final(table)@, g) == bucket(old(table)@, g),
{
    let mut numbers = match table.remove(&h) {
        Some(numbers) => numbers,
        None => Vec::new(),
    };
    numbers.push(n);
    table.insert(h, numbers);
}

/// The numbers filed under hash `h`.
pub fn filed(table: &HashMap<u64, Vec<usize>>, h: u64) -> (r: &[usize])
    ensures
        r@ == bucket(table@, h),
{
    match table.get(&h) {
        Some(numbers) => numbers.as_slice(),
        None => &[],
    }
}

} // verus!
