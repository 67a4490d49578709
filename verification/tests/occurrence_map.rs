use liblz4stego::occurrence_map::{calc_match_length, get_common_prefix_len, OccurrenceMap};

#[test]
fn common_prefix_lengths() {
    assert_eq!(get_common_prefix_len(b"", b"abc"), 0);
    assert_eq!(get_common_prefix_len(b"abc", b""), 0);
    assert_eq!(get_common_prefix_len(b"abc", b"xbc"), 0);
    assert_eq!(get_common_prefix_len(b"abcdef", b"abcxef"), 3);
    assert_eq!(get_common_prefix_len(b"abc", b"abcdef"), 3);
    assert_eq!(get_common_prefix_len(b"abcdef", b"abcdef"), 6);
}

#[test]
fn match_length_is_four_and_the_common_bytes_behind() {
    let data = b"abcdeXYZ-abcdeQRS-0123456789";
    assert_eq!(calc_match_length(data, 9, 0), 5);
}

#[test]
fn match_length_leaves_five_bytes_at_the_end() {
    let data = b"aaaaaaaaaaaaaaaaaaaa";
    assert_eq!(calc_match_length(data, 1, 0), 14);
    assert_eq!(calc_match_length(data, 12, 0), 3);
    assert_eq!(calc_match_length(data, 15, 0), 0);
}

#[test]
fn nothing_is_found_in_an_empty_index() {
    let data = b"abcdabcdabcdabcdabcd";
    let mut map = OccurrenceMap::new(data, false);
    let found = map.get_occurrences(4);
    assert_eq!(found.len(), 0);
    assert_eq!(found.get_occurrence_index(0), None);
}

#[test]
fn positions_with_the_same_four_bytes_are_found() {
    let data = b"abcdXabcdefgabcdefg0123456789";
    let mut map = OccurrenceMap::new(data, true);
    map.add_occurrences(0, 12);
    let found = map.get_occurrences(12);
    assert_eq!(found.len(), 2);
    assert_eq!(found.choose_occurrence(0), (0, 4));
    assert_eq!(found.choose_occurrence(1), (5, 7));
    assert_eq!(found.get_occurrence_index(5), Some(1));
    assert_eq!(found.get_occurrence_index(0), Some(0));
    assert_eq!(found.get_occurrence_index(3), None);
}

#[test]
fn only_the_longest_matches_are_kept_by_default() {
    let data = b"abcdXabcdefgabcdefg0123456789";
    let mut map = OccurrenceMap::new(data, false);
    map.add_occurrences(0, 12);
    let found = map.get_occurrences(12);
    assert_eq!(found.len(), 1);
    assert_eq!(found.choose_occurrence(0), (5, 7));
    assert_eq!(found.get_occurrence_index(0), None);
    assert_eq!(found.get_occurrence_index(5), Some(0));
}

#[test]
fn equally_long_matches_are_kept_oldest_first() {
    let data = b"abcdXabcdYabcdZ0123456789";
    let mut map = OccurrenceMap::new(data, false);
    map.add_occurrences(0, 10);
    let found = map.get_occurrences(10);
    assert_eq!(found.len(), 2);
    assert_eq!(found.choose_occurrence(0), (0, 4));
    assert_eq!(found.choose_occurrence(1), (5, 4));
}

#[test]
fn positions_are_counted_in_the_order_in_which_they_were_added() {
    let data = b"abcdXabcdYabcdZ0123456789";
    let mut map = OccurrenceMap::new(data, true);
    map.add_occurrences(5, 1);
    map.add_occurrences(0, 1);
    let found = map.get_occurrences(10);
    assert_eq!(found.len(), 2);
    assert_eq!(found.choose_occurrence(0).0, 5);
    assert_eq!(found.choose_occurrence(1).0, 0);
}

#[test]
fn positions_out_of_reach_are_dropped() {
    let mut data = vec![0u8; 66_000];
    for (i, byte) in data.iter_mut().enumerate() {
        *byte = (i % 251) as u8 ^ (i / 251) as u8;
    }
    data[0..4].copy_from_slice(b"wxyz");
    data[400..404].copy_from_slice(b"wxyz");
    data[65_935..65_939].copy_from_slice(b"wxyz");
    let mut map = OccurrenceMap::new(&data, true);
    map.add_occurrences(0, 1);
    map.add_occurrences(400, 1);
    let near = map.get_occurrences(65_935);
    assert_eq!(near.len(), 1);
    assert_eq!(near.choose_occurrence(0).0, 400);
}

#[test]
fn a_position_at_the_edge_of_reach_stays() {
    let mut data = vec![0u8; 66_000];
    for (i, byte) in data.iter_mut().enumerate() {
        *byte = (i % 251) as u8 ^ (i / 251) as u8;
    }
    data[10..14].copy_from_slice(b"wxyz");
    data[65_545..65_549].copy_from_slice(b"wxyz");
    data[65_546 + 100..65_550 + 100].copy_from_slice(b"wxyz");
    let mut map = OccurrenceMap::new(&data, true);
    map.add_occurrences(10, 1);
    let at_edge = map.get_occurrences(65_545);
    assert_eq!(at_edge.len(), 1);
    let beyond = map.get_occurrences(65_646);
    assert_eq!(beyond.len(), 0);
}

#[test]
fn of_a_long_range_only_the_last_positions_are_added() {
    let data = vec![b'z'; 70_010];
    let mut map = OccurrenceMap::new(&data, true);
    map.add_occurrences(0, 70_000);
    let found = map.get_occurrences(70_000);
    assert_eq!(found.len(), 65_535);
    assert_eq!(found.choose_occurrence(0).0, 4_465);
    assert_eq!(found.choose_occurrence(65_534).0, 69_999);
}

#[test]
fn short_match_near_the_end_is_still_a_candidate() {
    let data = b"abcd0abcd1234";
    let mut map = OccurrenceMap::new(data, true);
    map.add_occurrences(0, 5);
    let found = map.get_occurrences(5);
    assert_eq!(found.len(), 1);
    assert_eq!(found.choose_occurrence(0), (0, 3));
    let mut map = OccurrenceMap::new(data, false);
    map.add_occurrences(0, 5);
    let found = map.get_occurrences(5);
    assert_eq!(found.len(), 1);
    assert_eq!(found.choose_occurrence(0), (0, 3));
}
