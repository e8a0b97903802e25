use bytestrie::{BytesTrie, Cursor, DictionaryIterator, MalformedDictionary, Transform};

/// A dictionary file: an ICU header whose byte-order flag is `big_endian`,
/// the eight header integers, then `trie` at offset 0x20 past the ICU header.
fn dictionary(big_endian: bool, trie_type: u32, transform: u32, trie: &[u8]) -> Vec<u8> {
    let mut blob = vec![0u8; 0x90];
    blob[8] = if big_endian { 1 } else { 0 };
    let fields = [0x20u32, 0, 0, 0xb0 + trie.len() as u32, trie_type, transform, 0, 0];
    for f in fields.iter() {
        if big_endian {
            blob.extend_from_slice(&f.to_be_bytes());
        } else {
            blob.extend_from_slice(&f.to_le_bytes());
        }
    }
    blob.extend_from_slice(trie);
    blob
}

/// A byte trie holding the Khmer word of the tests, shifted by 0x1780.
fn khmer_trie() -> Vec<u8> {
    vec![0x18, 0x17, 0x36, 0x1f, 0x36, 0x01, 0x52, 0x18, 0x42, 0x1a, 0x21]
}

/// A byte trie holding the two Lao words of the tests, shifted by 0x0e80:
/// a branch on the first byte, whose first entry jumps to the rest of its
/// word.
fn lao_trie() -> Vec<u8> {
    vec![
        0x01, 0x1e, 0x2a, 0x25, // branch: 0x1e jumps 5 ahead, 0x25 is the last entry
        0x11, 0x32, 0x27, 0x21, // rest of the 0x25 word, final value
        0x12, 0x32, 0x2a, 0x32, 0x21, // rest of the 0x1e word, final value
    ]
}

/// A trie of 16-bit units holding the four Japanese words of the tests.
fn cj_units() -> Vec<u16> {
    vec![
        0x0003, 0x3092, 0x8000, 0x5b9a, 0x0007, 0x713c, 0x0008, 0x98df, // branch of four
        0x0031, 0x3079, 0x308b, 0x8000, // rest of the 0x98df word
        0x0030, 0x98df, 0x8000, // rest of the 0x5b9a word
        0x0030, 0x8089, 0x8000, // rest of the 0x713c word
    ]
}

fn units_to_bytes(units: &[u16], big_endian: bool) -> Vec<u8> {
    let mut bytes = Vec::new();
    for u in units.iter() {
        if big_endian {
            bytes.extend_from_slice(&u.to_be_bytes());
        } else {
            bytes.extend_from_slice(&u.to_le_bytes());
        }
    }
    bytes
}

const KM_STR: [u16; 27] = [
    0x1797, 0x17b6, 0x179f, 0x17b6, 0x1781, 0x17d2, 0x1798, 0x17c2, 0x179a, 0x1797, 0x17b6,
    0x179f, 0x17b6, 0x1781, 0x17d2, 0x1798, 0x17c2, 0x179a, 0x1797, 0x17b6, 0x179f, 0x17b6,
    0x1781, 0x17d2, 0x1798, 0x17c2, 0x179a,
];

const LO_STR: [u16; 21] = [
    0x0e9e, 0x0eb2, 0x0eaa, 0x0eb2, 0x0ea5, 0x0eb2, 0x0ea7, 0x0e9e, 0x0eb2, 0x0eaa, 0x0eb2,
    0x0ea5, 0x0eb2, 0x0ea7, 0x0e9e, 0x0eb2, 0x0eaa, 0x0eb2, 0x0ea5, 0x0eb2, 0x0ea7,
];

const J_STR: [u16; 8] = [0x713c, 0x8089, 0x5b9a, 0x98df, 0x3092, 0x98df, 0x3079, 0x308b];

#[test]
fn trie_iter_test() {
    let khmer_data = dictionary(false, 0, 0x0100_1780, &khmer_trie());
    let mut iterator = DictionaryIterator::new(&khmer_data, &KM_STR).unwrap();
    assert_eq!(iterator.next(), Some(9));
    assert_eq!(iterator.next(), Some(18));
    assert_eq!(iterator.next(), Some(27));

    let lao_data = dictionary(false, 0, 0x0100_0e80, &lao_trie());
    let mut iterator = DictionaryIterator::new(&lao_data, &LO_STR).unwrap();
    assert_eq!(iterator.next(), Some(4));
    assert_eq!(iterator.next(), Some(7));
    assert_eq!(iterator.next(), Some(11));
    assert_eq!(iterator.next(), Some(14));
    assert_eq!(iterator.next(), Some(18));
    assert_eq!(iterator.next(), Some(21));

    let cj_data = dictionary(false, 1, 0, &units_to_bytes(&cj_units(), false));
    let mut iterator = DictionaryIterator::new(&cj_data, &J_STR).unwrap();
    assert_eq!(iterator.next(), Some(2));
    assert_eq!(iterator.next(), Some(4));
    assert_eq!(iterator.next(), Some(5));
    assert_eq!(iterator.next(), Some(8));
}

#[test]
fn iter_test() {
    let khmer_data = dictionary(false, 0, 0x0100_1780, &khmer_trie());
    let mut iterator = DictionaryIterator::from_parts(
        &khmer_data,
        Cursor::Bytes(BytesTrie::new(0x90 + 0x20)),
        Transform::Offset(0x1780),
        &KM_STR,
    );
    assert_eq!(iterator.next(), Some(9));
    assert_eq!(iterator.next(), Some(18));
    assert_eq!(iterator.next(), Some(27));

    let lao_data = dictionary(false, 0, 0x0100_0e80, &lao_trie());
    let mut iterator = DictionaryIterator::from_parts(
        &lao_data,
        Cursor::Bytes(BytesTrie::new(0x90 + 0x20)),
        Transform::Offset(0x0e80),
        &LO_STR,
    );
    assert_eq!(iterator.next(), Some(4));
    assert_eq!(iterator.next(), Some(7));
    assert_eq!(iterator.next(), Some(11));
    assert_eq!(iterator.next(), Some(14));
    assert_eq!(iterator.next(), Some(18));
    assert_eq!(iterator.next(), Some(21));
}

#[test]
fn big_endian_dictionary_segments_alike() {
    let cj_data = dictionary(true, 1, 0, &units_to_bytes(&cj_units(), true));
    let mut iterator = DictionaryIterator::new(&cj_data, &J_STR).unwrap();
    assert_eq!(iterator.next(), Some(2));
    assert_eq!(iterator.next(), Some(4));
    assert_eq!(iterator.next(), Some(5));
    assert_eq!(iterator.next(), Some(8));
    assert_eq!(iterator.next(), None);
}

#[test]
fn end_of_input_ends_the_stream() {
    let khmer_data = dictionary(false, 0, 0x0100_1780, &khmer_trie());
    let mut iterator = DictionaryIterator::new(&khmer_data, &KM_STR[..9]).unwrap();
    assert_eq!(iterator.next(), Some(9));
    assert_eq!(iterator.next(), None);
    assert_eq!(iterator.next(), None);
    assert_eq!(iterator.front_offset, 9);
}

#[test]
fn empty_input_ends_at_once() {
    let khmer_data = dictionary(false, 0, 0x0100_1780, &khmer_trie());
    let empty: [u16; 0] = [];
    let mut iterator = DictionaryIterator::new(&khmer_data, &empty).unwrap();
    assert_eq!(iterator.next(), None);
    assert_eq!(iterator.front_offset, 0);
}

#[test]
fn untransformable_unit_ends_the_stream() {
    let khmer_data = dictionary(false, 0, 0x0100_1780, &khmer_trie());
    let input = [0x0041u16];
    let mut iterator = DictionaryIterator::new(&khmer_data, &input).unwrap();
    assert_eq!(iterator.transform(0x0041), -1);
    assert_eq!(iterator.next(), None);
    assert_eq!(iterator.front_offset, 1);
}

#[test]
fn unknown_word_jumps_to_the_end() {
    let khmer_data = dictionary(false, 0, 0x0100_1780, &khmer_trie());
    // The word with its last unit changed, then the word itself.
    let mut input = KM_STR[..18].to_vec();
    input[8] = 0x1781;
    let mut iterator = DictionaryIterator::new(&khmer_data, &input).unwrap();
    assert_eq!(iterator.next(), None);
    assert_eq!(iterator.front_offset, 18);
    assert_eq!(iterator.next(), None);
}

#[test]
fn truncated_blob_is_malformed() {
    let khmer_data = dictionary(false, 0, 0x0100_1780, &khmer_trie());
    let result = DictionaryIterator::new(&khmer_data[..0x90], &KM_STR);
    assert!(matches!(result, Err(MalformedDictionary::TooShort)));
    let result = DictionaryIterator::new(&khmer_data[..0xaf], &KM_STR);
    assert!(matches!(result, Err(MalformedDictionary::TooShort)));
}

#[test]
fn unknown_trie_type_is_malformed() {
    let blob = dictionary(false, 2, 0x0100_1780, &khmer_trie());
    let result = DictionaryIterator::new(&blob, &KM_STR);
    assert!(matches!(result, Err(MalformedDictionary::UnknownTrieType)));
    // Only the low three bits of the type count.
    let blob = dictionary(false, 8, 0x0100_1780, &khmer_trie());
    assert!(DictionaryIterator::new(&blob, &KM_STR).is_ok());
}

#[test]
fn trie_offset_past_the_end_is_malformed() {
    let mut blob = dictionary(false, 0, 0x0100_1780, &khmer_trie());
    blob[0x90] = 0x40;
    let result = DictionaryIterator::new(&blob, &KM_STR);
    assert!(matches!(result, Err(MalformedDictionary::TrieOffsetOutOfRange)));
    // A header with nothing after it has no trie either.
    let blob = dictionary(false, 0, 0, &[]);
    let result = DictionaryIterator::new(&blob[..0xb0], &KM_STR);
    assert!(matches!(result, Err(MalformedDictionary::TrieOffsetOutOfRange)));
}

#[test]
fn header_fields_are_read() {
    let khmer_data = dictionary(false, 0, 0x0100_1780, &khmer_trie());
    let iterator = DictionaryIterator::new(&khmer_data, &KM_STR).unwrap();
    assert_eq!(iterator.transform, Transform::Offset(0x1780));
    assert_eq!(iterator.front_offset, 0);
    assert!(matches!(iterator.cursor, Cursor::Bytes(t) if t.root == 0xb0));
    let cj_data = dictionary(true, 1, 0, &units_to_bytes(&cj_units(), true));
    let iterator = DictionaryIterator::new(&cj_data, &J_STR).unwrap();
    assert_eq!(iterator.transform, Transform::Identity);
    assert!(matches!(iterator.cursor, Cursor::UChars(t) if t.root == 0xb0 && t.big_endian));
}

#[test]
fn offset_transform_maps_units() {
    let khmer_data = dictionary(false, 0, 0x0100_1780, &khmer_trie());
    let iterator = DictionaryIterator::new(&khmer_data, &KM_STR).unwrap();
    assert_eq!(iterator.transform(0x1797), 0x17);
    assert_eq!(iterator.transform(0x1780), 0);
    assert_eq!(iterator.transform(0x1780 + 0xfd), 0xfd);
    assert_eq!(iterator.transform(0x1780 + 0xfe), -1);
    assert_eq!(iterator.transform(0x177f), -1);
    assert_eq!(iterator.transform(0x200c), 0xfe);
    assert_eq!(iterator.transform(0x200d), 0xff);
}

#[test]
fn identity_transform_keeps_units() {
    let cj_data = dictionary(false, 1, 0, &units_to_bytes(&cj_units(), false));
    let iterator = DictionaryIterator::new(&cj_data, &J_STR).unwrap();
    assert_eq!(iterator.transform(0x713c), 0x713c);
    assert_eq!(iterator.transform(0x200c), 0x200c);
}

#[test]
fn shorter_key_is_the_fallback() {
    // Keys [1] (with a longer key after it) and [1, 2, 3].
    let trie = vec![0x10, 0x01, 0x20, 0x11, 0x02, 0x03, 0x21];
    let blob = dictionary(false, 0, 0, &trie);
    let input = [1u16, 2, 4];
    let mut iterator = DictionaryIterator::new(&blob, &input).unwrap();
    assert_eq!(iterator.next(), Some(1));
    assert_eq!(iterator.next(), None);
    assert_eq!(iterator.front_offset, 3);

    let input = [1u16, 2];
    let mut iterator = DictionaryIterator::new(&blob, &input).unwrap();
    assert_eq!(iterator.next(), Some(2));
    assert_eq!(iterator.next(), None);

    let input = [1u16, 2, 3, 1];
    let mut iterator = DictionaryIterator::new(&blob, &input).unwrap();
    assert_eq!(iterator.next(), Some(3));
    assert_eq!(iterator.next(), Some(4));
    assert_eq!(iterator.next(), None);
}

#[test]
fn boundaries_increase_and_cover_the_input() {
    let lao_data = dictionary(false, 0, 0x0100_0e80, &lao_trie());
    let mut iterator = DictionaryIterator::new(&lao_data, &LO_STR[..12]).unwrap();
    let mut last = 0;
    let mut seen = Vec::new();
    while let Some(n) = iterator.next() {
        assert!(n > last);
        assert!(n <= 12);
        last = n;
        seen.push(n);
    }
    assert_eq!(seen, vec![4, 7, 11, 12]);
    assert_eq!(iterator.front_offset, 12);
}

#[test]
fn same_input_gives_same_boundaries() {
    let lao_data = dictionary(false, 0, 0x0100_0e80, &lao_trie());
    let mut first = DictionaryIterator::new(&lao_data, &LO_STR).unwrap();
    let mut second = DictionaryIterator::new(&lao_data, &LO_STR).unwrap();
    for _ in 0..8 {
        assert_eq!(first.next(), second.next());
    }
}
