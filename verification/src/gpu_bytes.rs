//! Words as the bytes of device buffers, in the byte order of the machine.

use vstd::endian::{endianness, Endian};
use vstd::prelude::*;

verus! {

/// The outside error of a cast between slices.
#[verifier::external_type_specification]
#[verifier::external_body]
pub struct ExPodCastError(bytemuck::PodCastError);

/// The bytes of a word in the given byte order.
pub open spec fn bytes_of_word(endian: Endian, word: u32) -> Seq<u8> {
    let little = seq![
        (word % 0x100) as u8,
        (word / 0x100 % 0x100) as u8,
        (word / 0x1_0000 % 0x100) as u8,
        (word / 0x100_0000) as u8,
    ];
    match endian {
        Endian::Little => little,
        Endian::Big => little.reverse(),
    }
}

/// The bytes of the words, one word after the other.
pub open spec fn bytes_of_words(endian: Endian, words: Seq<u32>) -> Seq<u8> {
    Seq::new(4 * words.len(), |i: int| bytes_of_word(endian, words[i / 4])[i % 4])
}

/// The word with the given four bytes.
pub open spec fn word_of_bytes(endian: Endian, bytes: Seq<u8>) -> u32 {
    let little = match endian {
        Endian::Little => bytes,
        Endian::Big => bytes.reverse(),
    };
    (little[0] + 0x100 * little[1] + 0x1_0000 * little[2] + 0x100_0000 * little[3]) as u32
}

/// The words that the bytes spell out, four bytes to a word.
pub open spec fn words_of_bytes(endian: Endian, bytes: Seq<u8>) -> Seq<u32> {
    Seq::new(
        bytes.len() / 4,
        |i: int| word_of_bytes(endian, bytes.subrange(4 * i, 4 * i + 4)),
    )
}

/// A word and its bytes determine each other, low byte first.
proof fn lemma_digits(word: u32, a: u8, b: u8, c: u8, d: u8)
    ensures
        a + 0x100 * b + 0x1_0000 * c + 0x100_0000 * d <= u32::MAX,
        word == a + 0x100 * b + 0x1_0000 * c + 0x100_0000 * d <==> {
            &&& a == word % 0x100
            &&& b == word / 0x100 % 0x100
            &&& c == word / 0x1_0000 % 0x100
            &&& d == word / 0x100_0000
        },
{
    let low = word / 0x100;
    let mid = word / 0x1_0000;
    assert(mid == low / 0x100 && word / 0x100_0000 == mid / 0x100);
}

/// Reading a word back from its bytes gives the word.
proof fn lemma_word_comes_back(endian: Endian, word: u32)
    ensures
        word_of_bytes(endian, bytes_of_word(endian, word)) == word,
{
    let little = bytes_of_word(Endian::Little, word);
    lemma_digits(word, little[0], little[1], little[2], little[3]);
    assert(little.reverse().reverse() =~= little);
}

/// The word that is read from four bytes has these bytes.
proof fn lemma_bytes_come_back(endian: Endian, bytes: Seq<u8>)
    requires
        bytes.len() == 4,
    ensures
        bytes_of_word(endian, word_of_bytes(endian, bytes)) == bytes,
{
    let word = word_of_bytes(endian, bytes);
    let little = match endian {
        Endian::Little => bytes,
        Endian::Big => bytes.reverse(),
    };
    lemma_digits(word, little[0], little[1], little[2], little[3]);
    assert(bytes_of_word(Endian::Little, word) =~= little);
    assert(bytes.reverse().reverse() =~= bytes);
}

/// Reading words back from their bytes gives the words.
pub proof fn law_bytes_give_words_back(endian: Endian, words: Seq<u32>)
    ensures
        words_of_bytes(endian, bytes_of_words(endian, words)) == words,
{
    let bytes = bytes_of_words(endian, words);
    assert forall|i: int| 0 <= i < words.len() implies words_of_bytes(endian, bytes)[i]
        == #[trigger] words[i] by {
        let part = bytes.subrange(4 * i, 4 * i + 4);
        assert forall|k: int| 0 <= k < 4 implies #[trigger] part[k] == bytes_of_word(
            endian,
            words[i],
        )[k] by {
            assert((4 * i + k) / 4 == i && (4 * i + k) % 4 == k);
        }
        assert(part =~= bytes_of_word(endian, words[i]));
        lemma_word_comes_back(endian, words[i]);
    }
    assert(words_of_bytes(endian, bytes) =~= words);
}

/// The words that are read from a whole number of words have the bytes that they were read from.
pub proof fn law_words_give_bytes_back(endian: Endian, bytes: Seq<u8>)
    requires
        bytes.len() % 4 == 0,
    ensures
        bytes_of_words(endian, words_of_bytes(endian, bytes)) == bytes,
{
    let words = words_of_bytes(endian, bytes);
    let again = bytes_of_words(endian, words);
    assert forall|i: int| 0 <= i < bytes.len() implies again[i] == #[trigger] bytes[i] by {
        let k = i / 4;
        let part = bytes.subrange(4 * k, 4 * k + 4);
        lemma_bytes_come_back(endian, part);
        assert(words[k] == word_of_bytes(endian, part));
        assert(part[i % 4] == bytes[i]);
    }
    assert(again =~= bytes);
}

/// A word has four bytes, which weigh 1, 2^8, 2^16 and 2^24 from the low end of the word: the first
/// one on a little endian machine, the last one on a big endian one.
pub proof fn law_word_bytes_in_numbers(endian: Endian, word: u32)
    ensures
        bytes_of_word(endian, word).len() == 4,
        ({
            let b = bytes_of_word(endian, word);
            &&& endian is Little ==> word == b[0] + 0x100 * b[1] + 0x1_0000 * b[2] + 0x100_0000
                * b[3]
            &&& endian is Big ==> word == b[3] + 0x100 * b[2] + 0x1_0000 * b[1] + 0x100_0000 * b[0]
        }),
{
    let little = bytes_of_word(Endian::Little, word);
    lemma_digits(word, little[0], little[1], little[2], little[3]);
}

/// The bytes of words are four for each word, at four times its place, with the weights of a word.
pub proof fn law_bytes_in_numbers(endian: Endian, words: Seq<u32>, i: int)
    requires
        0 <= i < words.len(),
    ensures
        bytes_of_words(endian, words).len() == 4 * words.len(),
        ({
            let b = bytes_of_words(endian, words);
            &&& endian is Little ==> words[i] == b[4 * i] + 0x100 * b[4 * i + 1] + 0x1_0000 * b[4
                * i + 2] + 0x100_0000 * b[4 * i + 3]
            &&& endian is Big ==> words[i] == b[4 * i + 3] + 0x100 * b[4 * i + 2] + 0x1_0000 * b[4
                * i + 1] + 0x100_0000 * b[4 * i]
        }),
{
    let b = bytes_of_words(endian, words);
    let part = bytes_of_word(endian, words[i]);
    law_word_bytes_in_numbers(endian, words[i]);
    assert forall|k: int| 0 <= k < 4 implies #[trigger] part[k] == b[4 * i + k] by {
        assert((4 * i + k) / 4 == i && (4 * i + k) % 4 == k);
    }
    assert(part[0] == b[4 * i] && part[1] == b[4 * i + 1] && part[2] == b[4 * i + 2] && part[3]
        == b[4 * i + 3]);
}

/// The words that bytes spell out are one for four bytes, with the weights of a word.
pub proof fn law_words_in_numbers(endian: Endian, b: Seq<u8>, i: int)
    requires
        0 <= i < b.len() / 4,
    ensures
        words_of_bytes(endian, b).len() == b.len() / 4,
        endian is Little ==> words_of_bytes(endian, b)[i] == b[4 * i] + 0x100 * b[4 * i + 1]
            + 0x1_0000 * b[4 * i + 2] + 0x100_0000 * b[4 * i + 3],
        endian is Big ==> words_of_bytes(endian, b)[i] == b[4 * i + 3] + 0x100 * b[4 * i + 2]
            + 0x1_0000 * b[4 * i + 1] + 0x100_0000 * b[4 * i],
{
    let part = b.subrange(4 * i, 4 * i + 4);
    assert(part[0] == b[4 * i] && part[1] == b[4 * i + 1] && part[2] == b[4 * i + 2] && part[3]
        == b[4 * i + 3]);
}

/// Calls `bytemuck::cast_slice` from words to bytes. Such a cast always succeeds; it shows the
/// memory of the words, which is their bytes in the byte order of the machine.
#[verifier::external_body]
fn cast_to_bytes(words: &[u32]) -> (r: &[u8])
    ensures
        r@ == bytes_of_words(endianness(), words@),
{
    bytemuck::cast_slice::<u32, u8>(words)
}

/// Calls `bytemuck::bytes_of` on a word. It shows the memory of the word, which is its four bytes
/// in the byte order of the machine.
#[verifier::external_body]
fn bytes_of_one(word: &u32) -> (r: &[u8])
    ensures
        r@ == bytes_of_word(endianness(), *word),
{
    bytemuck::bytes_of::<u32>(word)
}

/// Calls `bytemuck::try_cast_slice` from bytes to words. Where it succeeds, the bytes are those
/// of the words in the byte order of the machine. It fails where the bytes are no whole number of
/// words, and where they do not lie at a multiple of four in memory; of that nothing is stated,
/// as no contract speaks of addresses.
#[verifier::external_body]
fn try_cast_to_words(bytes: &[u8]) -> (r: Result<&[u32], bytemuck::PodCastError>)
    ensures
        match r {
            Ok(words) => bytes@ == bytes_of_words(endianness(), words@),
            Err(_) => true,
        },
{
    bytemuck::try_cast_slice::<u8, u32>(bytes)
}

/// The bytes of the word in the byte order of the machine.
pub fn word_to_bytes(word: u32) -> (r: Vec<u8>)
    ensures
        r@ == bytes_of_word(endianness(), word),
{
    vstd::slice::slice_to_vec(bytes_of_one(&word))
}

/// The bytes of the words in the byte order of the machine.
pub fn words_to_bytes(words: &[u32]) -> (r: Vec<u8>)
    ensures
        r@ == bytes_of_words(endianness(), words@),
{
    vstd::slice::slice_to_vec(cast_to_bytes(words))
}

/// Whether the machine stores the low byte of a word first.
fn is_little_endian() -> (r: bool)
    ensures
        r == (endianness() is Little),
{
    let bytes: Vec<u8> = word_to_bytes(1);
    bytes[0] == 1
}

/// The words that the bytes spell out in the byte order of the machine, put together byte by byte.
fn join_bytes(bytes: &[u8]) -> (r: Vec<u32>)
    ensures
        r@ == words_of_bytes(endianness(), bytes@),
{
    let little: bool = is_little_endian();
    let len: usize = bytes.len();
    let count: usize = len / 4;
    let mut words: Vec<u32> = Vec::with_capacity(count);
    let mut i: usize = 0;
    while i < count
        invariant
            i <= count,
            len == bytes@.len(),
            count == len / 4,
            little == (endianness() is Little),
            words@.len() == i,
            forall|j: int|
                0 <= j < i ==> #[trigger] words@[j] == word_of_bytes(
                    endianness(),
                    bytes@.subrange(4 * j, 4 * j + 4),
                ),
        decreases count - i,
    {
        let ghost part = bytes@.subrange(4 * i, 4 * i + 4);
        let first: u32 = bytes[4 * i] as u32;
        let second: u32 = bytes[4 * i + 1] as u32;
        let third: u32 = bytes[4 * i + 2] as u32;
        let fourth: u32 = bytes[4 * i + 3] as u32;
        let word: u32 = if little {
            first + 0x100 * second + 0x1_0000 * third + 0x100_0000 * fourth
        } else {
            fourth + 0x100 * third + 0x1_0000 * second + 0x100_0000 * first
        };
        assert(word == word_of_bytes(endianness(), part));
        words.push(word);
        i = i + 1;
    }
    assert(words@ =~= words_of_bytes(endianness(), bytes@));
    words
}

/// The words that the bytes spell out in the byte order of the machine; `None` where the bytes
/// are no whole number of words. Bytes that are aligned to words are read as words where they
/// are, and others are put together.
pub fn bytes_as_words(bytes: &[u8]) -> (r: Option<Vec<u32>>)
    ensures
        r is Some <==> bytes@.len() % 4 == 0,
        r matches Some(words) ==> {
            &&& words@ == words_of_bytes(endianness(), bytes@)
            &&& bytes@ == bytes_of_words(endianness(), words@)
        },
{
    if bytes.len() % 4 != 0 {
        return None;
    }
    match try_cast_to_words(bytes) {
        Ok(words) => {
            proof {
                law_bytes_give_words_back(endianness(), words@);
            }
            Some(vstd::slice::slice_to_vec(words))
        },
        Err(_) => {
            proof {
                law_words_give_bytes_back(endianness(), bytes@);
            }
            Some(join_bytes(bytes))
        },
    }
}

} // verus!
