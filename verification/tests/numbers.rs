use merkle_forest::field::{GoldilocksField, RichField, GOLDILOCKS_MODULUS};
use merkle_forest::gpu_bytes::{bytes_as_words, word_to_bytes, words_to_bytes};
use merkle_forest::gpu_words::{
    constant_words, field_to_montgomery_words, field_to_words, poseidon_constant_bytes,
    to_montgomery_u64, words_to_field, words_to_hash, DigestLengthError,
};
use merkle_forest::hash_types::{GenericHashOut, HashOut};
use merkle_forest::profiling::with_timer;
use merkle_forest::util::{checked_log2, log2_strict, shift_right, two_power};

type F = GoldilocksField;

fn element(n: u64) -> F {
    F::from_canonical_u64(n)
}

#[test]
fn timers_hand_the_result_through() {
    let mut calls = 0;
    let result = with_timer("adding", || {
        calls += 1;
        2 + 3
    });
    assert_eq!(result, 5);
    assert_eq!(calls, 1);
}

#[test]
fn logarithms_of_powers_of_two() {
    assert_eq!(checked_log2(0), None);
    assert_eq!(checked_log2(1), Some(0));
    assert_eq!(checked_log2(2), Some(1));
    assert_eq!(checked_log2(6), None);
    assert_eq!(checked_log2(4096), Some(12));
    assert_eq!(checked_log2(usize::MAX), None);
    assert_eq!(log2_strict(256), 8);
    assert_eq!(two_power(10), 1024);
    assert_eq!(shift_right(1000, 3), 125);
}

#[test]
fn elements_are_held_canonically() {
    assert_eq!(F::zero().to_canonical_u64(), 0);
    assert_eq!(element(7).to_canonical_u64(), 7);
    assert_eq!(element(GOLDILOCKS_MODULUS - 1).to_canonical_u64(), GOLDILOCKS_MODULUS - 1);
    assert_eq!(element(GOLDILOCKS_MODULUS).to_canonical_u64(), 0);
    assert!(element(7).same_as(&element(7)));
    assert!(!element(7).same_as(&element(8)));
}

#[test]
fn digests_are_four_elements() {
    let hash = HashOut { elements: [element(1), element(2), element(3), element(4)] };
    assert_eq!(hash.to_vec(), vec![element(1), element(2), element(3), element(4)]);
    assert!(hash.same_as(&hash));
    assert!(!hash.same_as(&HashOut::zero()));
    assert_eq!(HashOut::<F>::zero().to_vec(), vec![F::zero(); 4]);
}

#[test]
fn montgomery_form_of_small_numbers() {
    assert_eq!(to_montgomery_u64(0), 0);
    assert_eq!(to_montgomery_u64(1), 0xFFFF_FFFF);
    assert_eq!(to_montgomery_u64(2), 0x1_FFFF_FFFE);
    assert_eq!(to_montgomery_u64(GOLDILOCKS_MODULUS - 1), 0xFFFF_FFFE_0000_0002);
}

#[test]
fn montgomery_form_can_be_undone() {
    let p = GOLDILOCKS_MODULUS as u128;
    let inverse = p - (1 << 32);
    for value in [0, 1, 2, 0x1234_5678_9ABC_DEF0, GOLDILOCKS_MODULUS - 1] {
        let back = (to_montgomery_u64(value) as u128 * inverse) % p;
        assert_eq!(back, value as u128);
    }
}

#[test]
fn elements_are_two_words_low_first() {
    let value = element(0x0123_4567_89AB_CDEF);
    assert_eq!(field_to_words(&value), [0x89AB_CDEF, 0x0123_4567]);
    assert_eq!(words_to_field::<F>(&[0x89AB_CDEF, 0x0123_4567]), value);
    assert_eq!(field_to_montgomery_words(&element(2)), [0xFFFF_FFFE, 1]);
    for n in [0, 1, 0xFFFF_FFFF, 0x1_0000_0000, GOLDILOCKS_MODULUS - 1] {
        assert_eq!(words_to_field::<F>(&field_to_words(&element(n))), element(n));
    }
    for words in [[0, 0], [7, 9], [0, 0xFFFF_FFFF]] {
        assert_eq!(field_to_words(&words_to_field::<F>(&words)), words);
    }
}

#[test]
fn hashes_are_eight_words() {
    let hash = words_to_hash::<F>(&[1, 0, 2, 0, 3, 1, 0xFFFF_FFFF, 2]);
    let expected = HashOut {
        elements: [element(1), element(2), element(0x1_0000_0003), element(0x2_FFFF_FFFF)],
    };
    assert_eq!(hash, Ok(expected));
    assert_eq!(words_to_hash::<F>(&[1, 2, 3]), Err(DigestLengthError { got: 3 }));
    assert_eq!(words_to_hash::<F>(&[0; 9]), Err(DigestLengthError { got: 9 }));
}

#[test]
fn tables_are_cut_and_brought_into_montgomery_form() {
    assert_eq!(constant_words::<F>(&[1, 2, 5], 2), vec![0xFFFF_FFFF, 0, 0xFFFF_FFFE, 1]);
    assert_eq!(constant_words::<F>(&[1], 4), vec![0xFFFF_FFFF, 0]);
    assert_eq!(constant_words::<F>(&[], 4), Vec::<u32>::new());
}

#[test]
fn constants_fill_their_buffers() {
    let circ = [1u64; 24];
    let diag = [8u64; 12];
    let rounds = [3u64; 400];
    let bytes = poseidon_constant_bytes::<F>(&circ, &diag, &rounds);
    assert_eq!(bytes.mds_circ.len(), 96);
    assert_eq!(bytes.mds_diag.len(), 96);
    assert_eq!(bytes.round_constants.len(), 2880);
    assert_eq!(&bytes.mds_circ[..4], &0xFFFF_FFFFu32.to_ne_bytes());
    assert_eq!(&bytes.mds_circ[4..8], &0u32.to_ne_bytes());
    assert_eq!(&bytes.mds_diag[..4], &0xFFFF_FFF8u32.to_ne_bytes());
    assert_eq!(&bytes.mds_diag[4..8], &7u32.to_ne_bytes());
}

#[test]
fn words_are_bytes_in_machine_order() {
    assert_eq!(word_to_bytes(0x0102_0304), 0x0102_0304u32.to_ne_bytes().to_vec());
    let bytes = words_to_bytes(&[0x0102_0304, 5]);
    assert_eq!(bytes[..4], 0x0102_0304u32.to_ne_bytes());
    assert_eq!(bytes[4..], 5u32.to_ne_bytes());
    assert_eq!(words_to_bytes(&[]), Vec::<u8>::new());
}

#[test]
fn bytes_give_words_back() {
    let words = [7u32, 0xFFFF_FFFF, 0x0102_0304];
    let bytes = words_to_bytes(&words);
    for shift in 0..4 {
        let mut room = vec![0u8; bytes.len() + 4];
        room[shift..shift + bytes.len()].copy_from_slice(&bytes);
        assert_eq!(bytes_as_words(&room[shift..shift + bytes.len()]), Some(words.to_vec()));
        assert_eq!(bytes_as_words(&room[shift..shift + 6]), None);
        assert_eq!(bytes_as_words(&room[shift..shift + 1]), None);
        assert_eq!(bytes_as_words(&room[shift..shift]), Some(vec![]));
    }
}

#[test]
fn words_give_bytes_back() {
    let bytes = [1u8, 2, 3, 4, 250, 251, 252, 253];
    let words = bytes_as_words(&bytes).unwrap();
    assert_eq!(words[0], u32::from_ne_bytes([1, 2, 3, 4]));
    assert_eq!(words[1], u32::from_ne_bytes([250, 251, 252, 253]));
    assert_eq!(words_to_bytes(&words), bytes.to_vec());
}
