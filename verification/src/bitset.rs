//! The bitset generator: one bit per index, voted by the words of a
//! dictionary.
//!
//! For each bit index a seed is drawn from a Mersenne Twister. Every word is
//! hashed together with the seed, and votes for a set bit when its 64-bit
//! hash has at least 16 one bits. The bit is set where the set votes
//! outnumber the others. Only as many bits as the bitset has bytes are voted
//! on; the bits beyond stay clear.

use vstd::prelude::*;
use mersenne_twister::MT19937;
use fnv::FnvHasher;

verus! {

/// The seed that the generator of seeds is started with.
pub const GENERATOR_SEED: u32 = 19650218;

/// The number of one bits from which a hash votes for a set bit.
pub const DENSE_FROM: u32 = 16;

/// `mersenne_twister::MT19937`, the 32-bit Mersenne Twister. Its state is
/// carried through and never looked into.
#[verifier::external_type_specification]
#[verifier::external_body]
pub struct ExMT19937(MT19937);

/// `rand::SeedableRng::from_seed` for `mersenne_twister::MT19937`: a
/// generator started from a 32-bit seed. Nothing is claimed of its state.
#[verifier::external_body]
fn seeded_generator(seed: u32) -> MT19937 {
    rand::SeedableRng::from_seed(seed)
}

/// `rand::Rng::next_u32` of `mersenne_twister::MT19937`: the next 32-bit
/// output of the generator. Nothing is claimed of the value.
#[verifier::external_body]
fn next_seed(generator: &mut MT19937) -> u32 {
    rand::Rng::next_u32(generator)
}

/// The 64-bit FNV hash of `fnv::FnvHasher` over the seed and then the word,
/// each fed through its `std::hash::Hash`. Nothing is claimed of the value:
/// it depends on how the machine lays out the seed's bytes.
#[verifier::external_body]
fn keyed_hash(seed: u32, word: &str) -> u64 {
    let mut hasher = FnvHasher::default();
    std::hash::Hash::hash(&seed, &mut hasher);
    std::hash::Hash::hash(word, &mut hasher);
    std::hash::Hasher::finish(&hasher)
}

/// The number of one bits in the binary representation of a value.
pub open spec fn popcount(value: u64) -> nat
    decreases value,
{
    if value == 0 {
        0
    } else {
        (value % 2) as nat + popcount(value / 2)
    }
}

/// `u64::count_ones`: the number of ones in the binary representation of the
/// value.
#[verifier::external_body]
fn count_ones(value: u64) -> (ones: u32)
    ensures
        ones == popcount(value),
{
    value.count_ones()
}

/// Whether a hash votes for a clear bit: it has fewer than 16 one bits.
pub open spec fn is_sparse(hash: u64) -> bool {
    popcount(hash) < DENSE_FROM
}

/// The number of hashes that vote for a clear bit.
pub open spec fn sparse_count(hashes: Seq<u64>) -> nat
    decreases hashes.len(),
{
    if hashes.len() == 0 {
        0
    } else {
        sparse_count(hashes.drop_last()) + if is_sparse(hashes.last()) {
            1nat
        } else {
            0nat
        }
    }
}

/// Whether the votes for a set bit outnumber the votes for a clear bit.
pub open spec fn ones_win(hashes: Seq<u64>) -> bool {
    sparse_count(hashes) < hashes.len() - sparse_count(hashes)
}

/// Whether `set` is the outcome of a vote in which each of `words` words
/// cast one hash.
pub open spec fn is_vote_of(set: bool, words: nat, hashes: Seq<u64>) -> bool {
    hashes.len() == words && set == ones_win(hashes)
}

/// Whether `set` is the outcome of some vote of `words` words.
pub open spec fn is_vote(set: bool, words: nat) -> bool {
    exists|hashes: Seq<u64>| is_vote_of(set, words, hashes)
}

/// Whether the bit at `bit_index` of a bitset is set. Bit `k` of byte `j`
/// has the index `8 * j + k`, the least significant bit first.
pub open spec fn bit_is_set(bytes: Seq<u8>, bit_index: int) -> bool {
    bytes[bit_index / 8] & (1u8 << ((bit_index % 8) as u8)) != 0
}

/// Setting one bit of a byte by `|` sets it and leaves the other bits.
proof fn lemma_or_mask(byte: u8, k: u8, j: u8)
    by (bit_vector)
    requires
        k < 8,
        j < 8,
    ensures
        (byte | (1u8 << k)) & (1u8 << k) != 0,
        j != k ==> ((byte | (1u8 << k)) & (1u8 << j) != 0) == (byte & (1u8 << j) != 0),
        0u8 & (1u8 << k) == 0,
{
}

/// Counts the votes of the hashes of all words for one bit.
pub fn ones_majority(hashes: &[u64]) -> (set: bool)
    ensures
        set == ones_win(hashes@),
{
    let mut more_zeros: usize = 0;
    let mut more_ones: usize = 0;
    let mut i: usize = 0;
    while i < hashes.len()
        invariant
            i <= hashes.len(),
            more_zeros == sparse_count(hashes@.take(i as int)),
            more_zeros + more_ones == i,
        decreases hashes.len() - i,
    {
        proof {
            assert(hashes@.take(i + 1).drop_last() =~= hashes@.take(i as int));
        }
        if count_ones(hashes[i]) < DENSE_FROM {
            more_zeros = more_zeros + 1;
        } else {
            more_ones = more_ones + 1;
        }
        i = i + 1;
    }
    proof {
        assert(hashes@.take(hashes.len() as int) =~= hashes@);
    }
    more_zeros < more_ones
}

/// A bitset of the given size with every bit clear.
pub fn zeroed(bytes_avail: usize) -> (out: Vec<u8>)
    ensures
        out@.len() == bytes_avail,
        forall|i: int| 0 <= i < bytes_avail ==> out@[i] == 0,
        forall|b: int| 0 <= b < 8 * bytes_avail ==> !bit_is_set(out@, b),
{
    let mut out: Vec<u8> = Vec::with_capacity(bytes_avail);
    let mut i: usize = 0;
    while i < bytes_avail
        invariant
            i <= bytes_avail,
            out@.len() == i,
            forall|j: int| 0 <= j < i ==> out@[j] == 0,
        decreases bytes_avail - i,
    {
        out.push(0);
        i = i + 1;
    }
    proof {
        assert forall|b: int| 0 <= b < 8 * bytes_avail implies !bit_is_set(out@, b) by {
            lemma_or_mask(0, (b % 8) as u8, 0);
        }
    }
    out
}

/// Sets the bit at `bit_index` and leaves every other bit as it was.
pub fn set_bit(out: &mut Vec<u8>, bit_index: usize)
    requires
        bit_index / 8 < old(out)@.len(),
    ensures
        final(out)@.len() == old(out)@.len(),
        bit_is_set(final(out)@, bit_index as int),
        forall|b: int|
            0 <= b < 8 * old(out)@.len() && b != bit_index ==> bit_is_set(final(out)@, b)
                == bit_is_set(old(out)@, b),
{
    let byte_pos: usize = bit_index / 8;
    let bit_pos: u8 = (bit_index % 8) as u8;
    let mask: u8 = 1u8 << bit_pos;
    let byte: u8 = out[byte_pos];
    out.set(byte_pos, byte | mask);
    proof {
        lemma_or_mask(byte, bit_pos, 0);
        assert forall|b: int| 0 <= b < 8 * old(out)@.len() && b != bit_index implies bit_is_set(
            out@,
            b,
        ) == bit_is_set(old(out)@, b) by {
            if b / 8 == byte_pos {
                lemma_or_mask(byte, bit_pos, (b % 8) as u8);
            }
        }
    }
}

/// Applies the vote of the words to one bit: the bit is set where the set
/// votes win, and left as it was where they do not.
pub fn cast_vote(out: &mut Vec<u8>, bit_index: usize, hashes: &[u64])
    requires
        bit_index / 8 < old(out)@.len(),
    ensures
        final(out)@.len() == old(out)@.len(),
        bit_is_set(final(out)@, bit_index as int) == (ones_win(hashes@) || bit_is_set(
            old(out)@,
            bit_index as int,
        )),
        forall|b: int|
            0 <= b < 8 * old(out)@.len() && b != bit_index ==> bit_is_set(final(out)@, b)
                == bit_is_set(old(out)@, b),
{
    if ones_majority(hashes) {
        set_bit(out, bit_index);
    }
}

/// The hash of every word of the dictionary under one seed, in the order of
/// the dictionary.
pub fn word_hashes(seed: u32, dict: &Vec<String>) -> (hashes: Vec<u64>)
    ensures
        hashes@.len() == dict@.len(),
{
    let mut hashes: Vec<u64> = Vec::with_capacity(dict.len());
    let mut i: usize = 0;
    while i < dict.len()
        invariant
            i <= dict.len(),
            hashes@.len() == i,
        decreases dict.len() - i,
    {
        hashes.push(keyed_hash(seed, dict[i].as_str()));
        i = i + 1;
    }
    hashes
}

/// Takes the vote of the dictionary for one bit under one seed: every word
/// casts its hash under that seed.
pub fn bit_vote(seed: u32, dict: &Vec<String>) -> (set: bool)
    ensures
        is_vote(set, dict@.len()),
{
    let hashes = word_hashes(seed, dict);
    let set = ones_majority(hashes.as_slice());
    assert(is_vote_of(set, dict@.len(), hashes@));
    set
}

/// Generates the bitset of `bytes_avail` bytes for a dictionary, as a single
/// worker does: the bit indices `0 .. bytes_avail` are voted on in order,
/// each under the next seed of the generator. Each of these bits is the
/// outcome of a vote of all words; the bits beyond them are clear.
pub fn generate(dict: &Vec<String>, bytes_avail: usize) -> (out: Vec<u8>)
    ensures
        out@.len() == bytes_avail,
        forall|b: int| 0 <= b < bytes_avail ==> is_vote(#[trigger] bit_is_set(out@, b), dict@.len()),
        forall|b: int| bytes_avail <= b < 8 * bytes_avail ==> !bit_is_set(out@, b),
{
    let mut generator = seeded_generator(GENERATOR_SEED);
    let mut out = zeroed(bytes_avail);
    let mut bit_index: usize = 0;
    while bit_index < bytes_avail
        invariant
            bit_index <= bytes_avail,
            out@.len() == bytes_avail,
            forall|b: int|
                0 <= b < bit_index ==> is_vote(#[trigger] bit_is_set(out@, b), dict@.len()),
            forall|b: int| bit_index <= b < 8 * bytes_avail ==> !bit_is_set(out@, b),
        decreases bytes_avail - bit_index,
    {
        let seed = next_seed(&mut generator);
        let hashes = word_hashes(seed, dict);
        let ghost before = out@;
        cast_vote(&mut out, bit_index, hashes.as_slice());
        proof {
            assert(is_vote_of(bit_is_set(out@, bit_index as int), dict@.len(), hashes@));
            assert forall|b: int| 0 <= b < bit_index + 1 implies is_vote(
                #[trigger] bit_is_set(out@, b),
                dict@.len(),
            ) by {
                if b < bit_index {
                    assert(bit_is_set(out@, b) == bit_is_set(before, b));
                }
            }
        }
        bit_index = bit_index + 1;
    }
    out
}

} // verus!
