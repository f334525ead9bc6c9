//! Field elements and digests as the 32-bit words that the kernels work on.
//!
//! The kernels expect Goldilocks elements in Montgomery form (`a * R mod p` with `R = 2^64`) and
//! hand digests back in canonical form. Either way an element is two words, the low one first.

use crate::field::{RichField, GOLDILOCKS_MODULUS};
use crate::gpu_bytes;
use crate::hash_types::HashOut;
use vstd::endian::endianness;
use vstd::prelude::*;

verus! {

/// The Montgomery radix, `2^64`.
pub const MONTGOMERY_R: u128 = 0x1_0000_0000_0000_0000;

/// The number of words in a field element.
pub const BIGINT_LIMBS: usize = 2;

/// The number of words in a digest.
pub const WORDS_PER_DIGEST: usize = 8;

/// The number of bytes in a digest.
pub const BYTES_PER_DIGEST: usize = 32;

/// The number of bytes in a field element.
pub const BYTES_PER_BIGINT: usize = 8;

/// The number of field elements in the state of the Poseidon permutation.
pub const POSEIDON_WIDTH: usize = 12;

/// The number of round constants of the Poseidon permutation.
pub const ROUND_CONSTANT_COUNT: usize = 360;

/// The Montgomery form of an element.
pub open spec fn montgomery(value: u64) -> u64 {
    ((value * MONTGOMERY_R) % (GOLDILOCKS_MODULUS as int)) as u64
}

/// The two words of a number, the low one first.
pub open spec fn limbs(value: u64) -> Seq<u32> {
    seq![(value % 0x1_0000_0000) as u32, (value / 0x1_0000_0000) as u32]
}

/// The number with the given low and high word.
pub open spec fn number(low: u32, high: u32) -> u64 {
    (high * 0x1_0000_0000 + low) as u64
}

/// Splitting a number into words and putting it together again gives the number back.
pub proof fn lemma_limbs(value: u64)
    ensures
        number(limbs(value)[0], limbs(value)[1]) == value,
        value % 0x1_0000_0000 <= u32::MAX,
        value / 0x1_0000_0000 <= u32::MAX,
{
}

/// The first word of a number is its remainder by `2^32`, the second its quotient, and a number is
/// its first word plus `2^32` times its second.
pub proof fn law_limbs_in_numbers(value: u64)
    ensures
        limbs(value).len() == 2,
        limbs(value)[0] == value % 0x1_0000_0000,
        limbs(value)[1] == value / 0x1_0000_0000,
        limbs(value)[0] + 0x1_0000_0000 * limbs(value)[1] == value,
{
}

/// The number of two words is the low one plus `2^32` times the high one.
pub proof fn law_number_of_words(low: u32, high: u32)
    ensures
        number(low, high) == low + 0x1_0000_0000 * high,
{
}

/// The Montgomery form of an element is the element times `2^64` modulo the prime.
pub proof fn law_montgomery_in_numbers(value: u64)
    ensures
        montgomery(value) == (value * 0x1_0000_0000_0000_0000) % 0xFFFF_FFFF_0000_0001,
        montgomery(value) < 0xFFFF_FFFF_0000_0001,
{
}

/// The hash that eight words spell out has four elements, each one given by two of the words, the
/// low one first.
pub proof fn law_digests_in_words<F: RichField>(words: Seq<u32>, j: int)
    requires
        0 <= j < 4,
    ensures
        digest_of::<F>(words).len() == 4,
        digest_of::<F>(words)[j] == F::of_canonical(
            (words[2 * j] + 0x1_0000_0000 * words[2 * j + 1]) as u64,
        ),
        words[2 * j] + 0x1_0000_0000 * words[2 * j + 1] < 0xFFFF_FFFF_0000_0001
            ==> digest_of::<F>(words)[j].value() == words[2 * j] + 0x1_0000_0000 * words[2 * j + 1],
{
    let n = number(words[2 * j], words[2 * j + 1]);
    if n < GOLDILOCKS_MODULUS {
        F::lemma_of_canonical(n);
    }
}

/// Convert canonical Goldilocks element (as `u64`) into Montgomery form.
pub fn to_montgomery_u64(value: u64) -> (r: u64)
    ensures
        r == (value * MONTGOMERY_R) % (GOLDILOCKS_MODULUS as int),
        r == montgomery(value),
        r < GOLDILOCKS_MODULUS,
        r == (value * 0x1_0000_0000_0000_0000) % 0xFFFF_FFFF_0000_0001,
{
    let res: u128 = ((value as u128) * MONTGOMERY_R) % (GOLDILOCKS_MODULUS as u128);
    res as u64
}

/// The two words of a number, the low one first.
fn split_words(value: u64) -> (r: [u32; 2])
    ensures
        r@ == limbs(value),
        r@[0] == value % 0x1_0000_0000,
        r@[1] == value / 0x1_0000_0000,
{
    assert(value & 0xFFFF_FFFF == value % 0x1_0000_0000) by (bit_vector);
    assert(value >> 32 == value / 0x1_0000_0000) by (bit_vector);
    let r: [u32; 2] = [(value & 0xFFFF_FFFF) as u32, (value >> 32) as u32];
    assert(r@ =~= limbs(value));
    r
}

/// The words of an element in Montgomery form.
pub fn field_to_montgomery_words<F: RichField>(value: &F) -> (r: [u32; 2])
    ensures
        r@ == limbs(montgomery(value.value())),
        r@[0] + 0x1_0000_0000 * r@[1] == (value.value() * 0x1_0000_0000_0000_0000)
            % 0xFFFF_FFFF_0000_0001,
{
    let canonical: u64 = value.to_canonical_u64();
    let monty: u64 = to_montgomery_u64(canonical);
    split_words(monty)
}

/// The words of an element in canonical form.
pub fn field_to_words<F: RichField>(value: &F) -> (r: [u32; 2])
    ensures
        r@ == limbs(value.value()),
        r@[0] == value.value() % 0x1_0000_0000,
        r@[1] == value.value() / 0x1_0000_0000,
        value.value() < GOLDILOCKS_MODULUS,
{
    let canon: u64 = value.to_canonical_u64();
    split_words(canon)
}

/// The element with the given words.
pub fn words_to_field<F: RichField>(words: &[u32; 2]) -> (r: F)
    ensures
        r == F::of_canonical(number(words@[0], words@[1])),
        r == F::of_canonical((words@[0] + 0x1_0000_0000 * words@[1]) as u64),
        words@[0] + 0x1_0000_0000 * words@[1] < 0xFFFF_FFFF_0000_0001 ==> r.value() == words@[0]
            + 0x1_0000_0000 * words@[1],
{
    let low: u32 = words[0];
    let high: u32 = words[1];
    assert(((high as u64) << 32 | (low as u64)) == high * 0x1_0000_0000 + low) by (bit_vector);
    let canon: u64 = (high as u64) << 32 | (low as u64);
    proof {
        if canon < GOLDILOCKS_MODULUS {
            F::lemma_of_canonical(canon);
        }
    }
    F::from_canonical_u64(canon)
}

/// A run of words that is not one digest long.
#[derive(Clone, Copy, Debug, PartialEq, Eq, Structural)]
pub struct DigestLengthError {
    /// The number of words in the run.
    pub got: usize,
}

/// The digest that eight words spell out.
pub open spec fn digest_of<F: RichField>(words: Seq<u32>) -> Seq<F> {
    Seq::new(4, |i: int| F::of_canonical(number(words[2 * i], words[2 * i + 1])))
}

/// The hash that eight words spell out: the one with the elements of `digest_of`.
pub open spec fn hash_of<F: RichField>(words: Seq<u32>) -> HashOut<F> {
    choose|hash: HashOut<F>| #[trigger] hash.elements@ == digest_of::<F>(words)
}

/// The hash that eight words spell out has the elements that the words spell out.
pub proof fn law_hashes_in_words<F: RichField>(words: Seq<u32>, j: int)
    requires
        0 <= j < 4,
    ensures
        hash_of::<F>(words).elements@[j] == F::of_canonical(
            (words[2 * j] + 0x1_0000_0000 * words[2 * j + 1]) as u64,
        ),
        words[2 * j] + 0x1_0000_0000 * words[2 * j + 1] < 0xFFFF_FFFF_0000_0001
            ==> hash_of::<F>(words).elements@[j].value() == words[2 * j] + 0x1_0000_0000 * words[2
            * j + 1],
{
    let digest = digest_of::<F>(words);
    let hash = HashOut::<F> { elements: [digest[0], digest[1], digest[2], digest[3]] };
    assert(hash.elements@ =~= digest);
    law_digests_in_words::<F>(words, j);
}

/// The digest with the given words.
pub fn words_to_hash<F: RichField>(words: &[u32]) -> (r: Result<HashOut<F>, DigestLengthError>)
    ensures
        match r {
            Ok(hash) => {
                &&& words@.len() == WORDS_PER_DIGEST
                &&& hash.elements@ == digest_of::<F>(words@)
                &&& hash == hash_of::<F>(words@)
                &&& forall|j: int|
                    0 <= j < 4 ==> #[trigger] hash.elements@[j] == F::of_canonical(
                        (words@[2 * j] + 0x1_0000_0000 * words@[2 * j + 1]) as u64,
                    )
            },
            Err(e) => words@.len() != WORDS_PER_DIGEST && e.got == words@.len(),
        },
{
    if words.len() != WORDS_PER_DIGEST {
        return Err(DigestLengthError { got: words.len() });
    }
    let hash = HashOut {
        elements: [
            words_to_field::<F>(&[words[0], words[1]]),
            words_to_field::<F>(&[words[2], words[3]]),
            words_to_field::<F>(&[words[4], words[5]]),
            words_to_field::<F>(&[words[6], words[7]]),
        ],
    };
    assert(hash.elements@ =~= digest_of::<F>(words@));
    assert(hash_of::<F>(words@).elements@ =~= hash.elements@);
    assert(hash_of::<F>(words@).elements == hash.elements);
    Ok(hash)
}

/// The words of a table of constants, each one in Montgomery form.
pub open spec fn table_words<F: RichField>(values: Seq<u64>) -> Seq<u32>
    decreases values.len(),
{
    if values.len() == 0 {
        Seq::empty()
    } else {
        table_words::<F>(values.drop_last()) + limbs(
            montgomery(F::of_canonical(values.last()).value()),
        )
    }
}

/// Each entry of a table has its two words in its place, the low one first: together they are the
/// entry times `2^64` modulo the prime. There are no other words.
pub proof fn law_tables_keep_their_order<F: RichField>(values: Seq<u64>, i: int)
    ensures
        table_words::<F>(values).len() == 2 * values.len(),
        0 <= i < values.len() ==> table_words::<F>(values)[2 * i] + 0x1_0000_0000
            * table_words::<F>(values)[2 * i + 1] == (F::of_canonical(values[i]).value() * 0x1_0000_0000_0000_0000)
            % 0xFFFF_FFFF_0000_0001,
        0 <= i < values.len() && values[i] < 0xFFFF_FFFF_0000_0001 ==> table_words::<F>(values)[2
            * i] + 0x1_0000_0000 * table_words::<F>(values)[2 * i + 1] == (values[i]
            * 0x1_0000_0000_0000_0000) % 0xFFFF_FFFF_0000_0001,
    decreases values.len(),
{
    if values.len() > 0 {
        let last = values.len() - 1;
        law_tables_keep_their_order::<F>(values.drop_last(), i);
        law_limbs_in_numbers(montgomery(F::of_canonical(values[last]).value()));
        if 0 <= i < values.len() && values[i] < GOLDILOCKS_MODULUS {
            F::lemma_of_canonical(values[i]);
        }
    }
}

/// The first `count` entries of a table.
pub open spec fn first_of(values: Seq<u64>, count: nat) -> Seq<u64> {
    if count <= values.len() {
        values.take(count as int)
    } else {
        values
    }
}

/// The words of the first `count` entries of a table of constants, each one in Montgomery form.
pub fn constant_words<F: RichField>(values: &[u64], count: usize) -> (r: Vec<u32>)
    ensures
        r@ == table_words::<F>(first_of(values@, count as nat)),
        r@.len() == 2 * if count <= values@.len() {
            count as int
        } else {
            values@.len() as int
        },
        forall|i: int|
            0 <= i < count && i < values@.len() ==> r@[2 * i] + 0x1_0000_0000 * r@[2 * i + 1] == (
            F::of_canonical(#[trigger] values@[i]).value() * 0x1_0000_0000_0000_0000)
                % 0xFFFF_FFFF_0000_0001,
        forall|i: int|
            0 <= i < count && i < values@.len() && values@[i] < 0xFFFF_FFFF_0000_0001 ==> r@[2 * i]
                + 0x1_0000_0000 * r@[2 * i + 1] == (#[trigger] values@[i]
                * 0x1_0000_0000_0000_0000) % 0xFFFF_FFFF_0000_0001,
{
    let mut words: Vec<u32> = Vec::new();
    let mut i: usize = 0;
    assert(values@.take(0) =~= Seq::empty());
    while i < values.len() && i < count
        invariant
            i <= values@.len(),
            i <= count,
            words@ == table_words::<F>(values@.take(i as int)),
        decreases count - i,
    {
        let field: F = F::from_canonical_u64(values[i]);
        let pair: [u32; 2] = field_to_montgomery_words(&field);
        words.push(pair[0]);
        words.push(pair[1]);
        proof {
            let next = values@.take(i + 1);
            assert(next.drop_last() =~= values@.take(i as int));
            assert(pair@ =~= seq![pair@[0], pair@[1]]);
            assert(words@ =~= table_words::<F>(next));
        }
        i = i + 1;
    }
    let ghost table = first_of(values@, count as nat);
    assert(values@.take(i as int) =~= table);
    proof {
        law_tables_keep_their_order::<F>(table, 0);
        assert forall|k: int| 0 <= k < table.len() implies words@[2 * k] + 0x1_0000_0000 * words@[2
            * k + 1] == (F::of_canonical(#[trigger] values@[k]).value() * 0x1_0000_0000_0000_0000)
            % 0xFFFF_FFFF_0000_0001 && (values@[k] < 0xFFFF_FFFF_0000_0001 ==> F::of_canonical(
            values@[k],
        ).value() == values@[k]) by {
            law_tables_keep_their_order::<F>(table, k);
            if values@[k] < GOLDILOCKS_MODULUS {
                F::lemma_of_canonical(values@[k]);
            }
        }
    }
    words
}

/// The constants of the Poseidon permutation, as they are uploaded.
pub struct PoseidonConstantBytes {
    /// The first row of the circulant part of the MDS matrix.
    pub mds_circ: Vec<u8>,
    /// The diagonal part of the MDS matrix.
    pub mds_diag: Vec<u8>,
    /// The round constants.
    pub round_constants: Vec<u8>,
}

/// The contents of the buffers that hold the constants of the Poseidon permutation: the leading
/// entries of the given tables in Montgomery form.
pub fn poseidon_constant_bytes<F: RichField>(
    mds_circ: &[u64],
    mds_diag: &[u64],
    round_constants: &[u64],
) -> (r: PoseidonConstantBytes)
    ensures
        r.mds_circ@ == gpu_bytes::bytes_of_words(
            endianness(),
            table_words::<F>(first_of(mds_circ@, POSEIDON_WIDTH as nat)),
        ),
        r.mds_diag@ == gpu_bytes::bytes_of_words(
            endianness(),
            table_words::<F>(first_of(mds_diag@, POSEIDON_WIDTH as nat)),
        ),
        r.round_constants@ == gpu_bytes::bytes_of_words(
            endianness(),
            table_words::<F>(first_of(round_constants@, ROUND_CONSTANT_COUNT as nat)),
        ),
        r.mds_circ@.len() == 8 * if mds_circ@.len() < 12 {
            mds_circ@.len()
        } else {
            12
        },
        forall|i: int|
            0 <= i < 12 && i < mds_circ@.len() && mds_circ@[i] < 0xFFFF_FFFF_0000_0001 ==> {
                let words = gpu_bytes::words_of_bytes(endianness(), r.mds_circ@);
                words[2 * i] + 0x1_0000_0000 * words[2 * i + 1] == (#[trigger] mds_circ@[i]
                    * 0x1_0000_0000_0000_0000) % 0xFFFF_FFFF_0000_0001
            },
        r.mds_diag@.len() == 8 * if mds_diag@.len() < 12 {
            mds_diag@.len()
        } else {
            12
        },
        forall|i: int|
            0 <= i < 12 && i < mds_diag@.len() && mds_diag@[i] < 0xFFFF_FFFF_0000_0001 ==> {
                let words = gpu_bytes::words_of_bytes(endianness(), r.mds_diag@);
                words[2 * i] + 0x1_0000_0000 * words[2 * i + 1] == (#[trigger] mds_diag@[i]
                    * 0x1_0000_0000_0000_0000) % 0xFFFF_FFFF_0000_0001
            },
        r.round_constants@.len() == 8 * if round_constants@.len() < 360 {
            round_constants@.len()
        } else {
            360
        },
        forall|i: int|
            0 <= i < 360 && i < round_constants@.len() && round_constants@[i]
                < 0xFFFF_FFFF_0000_0001 ==> {
                let words = gpu_bytes::words_of_bytes(endianness(), r.round_constants@);
                words[2 * i] + 0x1_0000_0000 * words[2 * i + 1] == (#[trigger] round_constants@[i]
                    * 0x1_0000_0000_0000_0000) % 0xFFFF_FFFF_0000_0001
            },
{
    let mds_circ_words: Vec<u32> = constant_words::<F>(mds_circ, POSEIDON_WIDTH);
    let mds_diag_words: Vec<u32> = constant_words::<F>(mds_diag, POSEIDON_WIDTH);
    let rc_words: Vec<u32> = constant_words::<F>(round_constants, ROUND_CONSTANT_COUNT);
    proof {
        gpu_bytes::law_bytes_give_words_back(endianness(), mds_circ_words@);
        gpu_bytes::law_bytes_give_words_back(endianness(), mds_diag_words@);
        gpu_bytes::law_bytes_give_words_back(endianness(), rc_words@);
    }
    PoseidonConstantBytes {
        mds_circ: gpu_bytes::words_to_bytes(mds_circ_words.as_slice()),
        mds_diag: gpu_bytes::words_to_bytes(mds_diag_words.as_slice()),
        round_constants: gpu_bytes::words_to_bytes(rc_words.as_slice()),
    }
}

} // verus!
