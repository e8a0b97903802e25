use bytestrie::{BytesTrie, Trie, TrieResult, UCharsTrie};

/// Single-byte keys 1..=8 with final values, under a branch of eight
/// entries: one binary-search step, then two lists of four.
fn eight_way_branch() -> Vec<u8> {
    vec![
        0x07, 0x05, 0x08, // branch of 8; below 5, jump 8 ahead
        0x05, 0x21, 0x06, 0x23, 0x07, 0x25, 0x08, 0x27, // 5..=8
        0x01, 0x29, 0x02, 0x2b, 0x03, 0x2d, 0x04, 0x2f, // 1..=4
    ]
}

/// Keys [1] (a prefix of a longer key) and [1, 2, 3].
fn nested_keys() -> Vec<u8> {
    vec![0x10, 0x01, 0x20, 0x11, 0x02, 0x03, 0x21]
}

fn to_le(units: &[u16]) -> Vec<u8> {
    let mut bytes = Vec::new();
    for u in units.iter() {
        bytes.extend_from_slice(&u.to_le_bytes());
    }
    bytes
}

#[test]
fn bytes_branch_binary_search() {
    let trie = eight_way_branch();
    for key in 1..=8 {
        let mut cursor = BytesTrie::new(0);
        assert_eq!(cursor.first(&trie, key), TrieResult::FinalValue, "key {}", key);
    }
    let mut cursor = BytesTrie::new(0);
    assert_eq!(cursor.first(&trie, 9), TrieResult::NoMatch);
    assert_eq!(cursor.first(&trie, 0), TrieResult::NoMatch);
}

#[test]
fn bytes_final_value_parks_on_its_lead() {
    let trie = eight_way_branch();
    let mut cursor = BytesTrie::new(0);
    assert_eq!(cursor.first(&trie, 3), TrieResult::FinalValue);
    assert_eq!(cursor.pos, Some(16));
    assert_eq!(cursor.current(&trie), TrieResult::FinalValue);
    assert_eq!(cursor.next(&trie, 1), TrieResult::NoMatch);
}

#[test]
fn bytes_two_byte_value_jump() {
    // Branch of two: 1 jumps over a two-byte value (delta 5), 2 is last.
    let trie = vec![0x01, 0x01, 0xa2, 0x05, 0x02, 0x21, 0x00, 0x00, 0x00, 0x23];
    let mut cursor = BytesTrie::new(0);
    assert_eq!(cursor.first(&trie, 1), TrieResult::FinalValue);
    assert_eq!(cursor.pos, Some(9));
    assert_eq!(cursor.first(&trie, 2), TrieResult::FinalValue);
    assert_eq!(cursor.pos, Some(5));
}

#[test]
fn bytes_intermediate_then_final() {
    let trie = nested_keys();
    let mut cursor = BytesTrie::new(0);
    assert_eq!(cursor.first(&trie, 1), TrieResult::Intermediate);
    assert_eq!(cursor.current(&trie), TrieResult::Intermediate);
    assert_eq!(cursor.next(&trie, 2), TrieResult::NoValue);
    assert_eq!(cursor.remaining_match_length, Some(0));
    assert_eq!(cursor.current(&trie), TrieResult::NoValue);
    assert_eq!(cursor.next(&trie, 3), TrieResult::FinalValue);
    assert_eq!(cursor.current(&trie), TrieResult::FinalValue);
}

#[test]
fn bytes_long_linear_match_counts_down() {
    let trie = vec![0x12, 0x07, 0x08, 0x09, 0x21];
    let mut cursor = BytesTrie::new(0);
    assert_eq!(cursor.first(&trie, 7), TrieResult::NoValue);
    assert_eq!(cursor.remaining_match_length, Some(1));
    assert_eq!(cursor.next(&trie, 8), TrieResult::NoValue);
    assert_eq!(cursor.remaining_match_length, Some(0));
    assert_eq!(cursor.next(&trie, 9), TrieResult::FinalValue);
    assert_eq!(cursor.remaining_match_length, None);
    let mut cursor = BytesTrie::new(0);
    assert_eq!(cursor.first(&trie, 7), TrieResult::NoValue);
    assert_eq!(cursor.next(&trie, 9), TrieResult::NoMatch);
}

#[test]
fn no_match_is_sticky() {
    let trie = nested_keys();
    let mut cursor = BytesTrie::new(0);
    assert_eq!(cursor.first(&trie, 1), TrieResult::Intermediate);
    assert_eq!(cursor.next(&trie, 5), TrieResult::NoMatch);
    assert_eq!(cursor.pos, None);
    for unit in [2, 3, 1, 0x21] {
        assert_eq!(cursor.next(&trie, unit), TrieResult::NoMatch);
    }
    assert_eq!(cursor.current(&trie), TrieResult::NoMatch);
    // A restart walks from the root again.
    assert_eq!(cursor.first(&trie, 1), TrieResult::Intermediate);
}

#[test]
fn reset_replays_the_same_trace() {
    let trie = nested_keys();
    let units = [1, 2, 3, 4];
    let mut cursor = BytesTrie::new(0);
    let mut trace = Vec::new();
    trace.push(cursor.first(&trie, units[0]));
    for u in &units[1..] {
        trace.push(cursor.next(&trie, *u));
    }
    assert_eq!(
        trace,
        vec![TrieResult::Intermediate, TrieResult::NoValue, TrieResult::FinalValue, TrieResult::NoMatch]
    );
    cursor.reset();
    assert_eq!(cursor.pos, Some(0));
    assert_eq!(cursor.remaining_match_length, None);
    let mut again = Vec::new();
    again.push(cursor.first(&trie, units[0]));
    for u in &units[1..] {
        again.push(cursor.next(&trie, *u));
    }
    assert_eq!(again, trace);
}

#[test]
fn out_of_range_units_match_nothing() {
    let trie = nested_keys();
    let mut cursor = BytesTrie::new(0);
    assert_eq!(cursor.first(&trie, -1), TrieResult::NoMatch);
    assert_eq!(cursor.first(&trie, 0x101), TrieResult::NoMatch);
    assert_eq!(cursor.first(&trie, 1), TrieResult::Intermediate);
    assert_eq!(cursor.next(&trie, -1), TrieResult::NoMatch);
    assert_eq!(cursor.pos, None);
    let units = to_le(&[0x30, 0x41, 0x70, 0x42, 0x8000]);
    let mut cursor = UCharsTrie::new(0, false);
    assert_eq!(cursor.first(&units, 0x10041), TrieResult::NoMatch);
    assert_eq!(cursor.first(&units, -1), TrieResult::NoMatch);
}

#[test]
fn truncated_trie_reports_no_match() {
    let trie = eight_way_branch();
    for len in 0..trie.len() {
        let short = &trie[..len];
        for key in 0..=9 {
            let mut cursor = BytesTrie::new(0);
            let first = cursor.first(short, key);
            assert!(first == TrieResult::NoMatch || first == TrieResult::FinalValue);
            assert_eq!(cursor.next(short, key), TrieResult::NoMatch);
        }
    }
    let nested = nested_keys();
    let mut cursor = BytesTrie::new(0);
    assert_eq!(cursor.first(&nested[..4], 1), TrieResult::Intermediate);
    assert_eq!(cursor.next(&nested[..4], 2), TrieResult::NoMatch);
    let mut cursor = BytesTrie::new(100);
    assert_eq!(cursor.first(&nested, 1), TrieResult::NoMatch);
}

#[test]
fn uchars_value_carrying_node() {
    // Key [0x41] with an intermediate value, carried by the lead of the
    // linear-match node for [0x41, 0x42].
    let units = to_le(&[0x30, 0x41, 0x70, 0x42, 0x8000]);
    let mut cursor = UCharsTrie::new(0, false);
    assert_eq!(cursor.first(&units, 0x41), TrieResult::Intermediate);
    assert_eq!(cursor.current(&units), TrieResult::Intermediate);
    assert_eq!(cursor.next(&units, 0x42), TrieResult::FinalValue);
    assert_eq!(cursor.pos, Some(8));
    assert_eq!(cursor.next(&units, 0x43), TrieResult::NoMatch);
    assert_eq!(cursor.next(&units, 0x42), TrieResult::NoMatch);
    cursor.reset();
    assert_eq!(cursor.first(&units, 0x42), TrieResult::NoMatch);
}

#[test]
fn uchars_branch_binary_search() {
    // Keys 0x101..=0x106 with final values: below 0x104, jump 6 units ahead.
    let units = to_le(&[
        0x0005, 0x0104, 0x0006, 0x0104, 0x8004, 0x0105, 0x8005, 0x0106, 0x8006, 0x0101, 0x8001,
        0x0102, 0x8002, 0x0103, 0x8003,
    ]);
    for key in 0x101..=0x106 {
        let mut cursor = UCharsTrie::new(0, false);
        assert_eq!(cursor.first(&units, key), TrieResult::FinalValue, "key {:x}", key);
    }
    let mut cursor = UCharsTrie::new(0, false);
    assert_eq!(cursor.first(&units, 0x100), TrieResult::NoMatch);
    assert_eq!(cursor.first(&units, 0x107), TrieResult::NoMatch);
}

#[test]
fn uchars_two_unit_delta() {
    // As above, with the jump written as a two-unit delta.
    let units = to_le(&[
        0x0005, 0x0104, 0xfc00, 0x0006, 0x0104, 0x8004, 0x0105, 0x8005, 0x0106, 0x8006, 0x0101,
        0x8001, 0x0102, 0x8002, 0x0103, 0x8003,
    ]);
    for key in 0x101..=0x106 {
        let mut cursor = UCharsTrie::new(0, false);
        assert_eq!(cursor.first(&units, key), TrieResult::FinalValue, "key {:x}", key);
    }
    let mut cursor = UCharsTrie::new(0, false);
    assert_eq!(cursor.first(&units, 0x102), TrieResult::FinalValue);
    assert_eq!(cursor.pos, Some(26));
}

#[test]
fn uchars_byte_order() {
    let le = to_le(&[0x31, 0x1234, 0x5678, 0x8000]);
    let mut be = Vec::new();
    for u in [0x31u16, 0x1234, 0x5678, 0x8000].iter() {
        be.extend_from_slice(&u.to_be_bytes());
    }
    let mut cursor = UCharsTrie::new(0, false);
    assert_eq!(cursor.first(&le, 0x1234), TrieResult::NoValue);
    assert_eq!(cursor.next(&le, 0x5678), TrieResult::FinalValue);
    let mut cursor = UCharsTrie::new(0, true);
    assert_eq!(cursor.first(&be, 0x1234), TrieResult::NoValue);
    assert_eq!(cursor.next(&be, 0x5678), TrieResult::FinalValue);
    let mut cursor = UCharsTrie::new(0, true);
    assert_eq!(cursor.first(&le, 0x1234), TrieResult::NoMatch);
}
