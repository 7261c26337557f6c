use khmer_segmenter::decoder::{decode, trace_back, DpCell};
use khmer_segmenter::kdict::KDict;
use khmer_segmenter::merger::{is_known, merge_unknown_segments};
use khmer_segmenter::khmer_segmenter::join_segments;
use khmer_segmenter::utils::djb2_hash;

fn put_u32(out: &mut Vec<u8>, v: u32) {
    out.extend_from_slice(&v.to_le_bytes());
}

fn build(words: &[(&str, f32)], table_size: u32, default_cost: f32, unknown_cost: f32) -> KDict {
    let mask = table_size - 1;
    let mut slots: Vec<(u32, f32)> = vec![(0, 0.0); table_size as usize];
    let mut pool: Vec<u8> = vec![0];
    let mut max_len = 0usize;
    for (word, cost) in words {
        let offset = pool.len() as u32;
        pool.extend_from_slice(word.as_bytes());
        pool.push(0);
        max_len = max_len.max(word.len());
        let mut idx = djb2_hash(word.as_bytes()) & mask;
        while slots[idx as usize].0 != 0 {
            idx = (idx + 1) & mask;
        }
        slots[idx as usize] = (offset, *cost);
    }
    let mut out: Vec<u8> = Vec::new();
    out.extend_from_slice(b"KDIC");
    put_u32(&mut out, 1);
    put_u32(&mut out, words.len() as u32);
    put_u32(&mut out, table_size);
    put_u32(&mut out, default_cost.to_bits());
    put_u32(&mut out, unknown_cost.to_bits());
    put_u32(&mut out, max_len as u32);
    put_u32(&mut out, 0);
    for (offset, cost) in slots {
        put_u32(&mut out, offset);
        put_u32(&mut out, cost.to_bits());
    }
    out.extend_from_slice(&pool);
    KDict::from_bytes(out).unwrap()
}

fn fixture() -> KDict {
    build(
        &[("ក", 6.0), ("កខ", 4.0), ("ខ", 6.0), ("ភាសា", 2.0), ("ខ្មែរ", 2.0), ("ភាសាខ្មែរ", 5.0)],
        16,
        10.0,
        20.0,
    )
}

fn cost(cell: &DpCell) -> f32 {
    f32::from_bits(cell.cost)
}

#[test]
fn table_of_a_number() {
    let d = fixture();
    let dp = decode(&d, true, true, b"12");
    assert_eq!(dp.len(), 3);
    assert_eq!((cost(&dp[0]), dp[0].prev), (0.0, None));
    // one digit as an unknown
    assert_eq!((cost(&dp[1]), dp[1].prev), (20.0, Some(0)));
    // both digits as a number
    assert_eq!((cost(&dp[2]), dp[2].prev), (1.0, Some(0)));
    assert_eq!(trace_back(b"12", &dp), Some(vec![(0, 2)]));
}

#[test]
fn table_leaves_the_inside_of_characters_unreached() {
    let d = fixture();
    let text = "កខ".as_bytes();
    let dp = decode(&d, true, true, text);
    assert_eq!(dp.len(), 7);
    for j in [1, 2, 4, 5] {
        assert_eq!(dp[j].prev, None);
        assert!(cost(&dp[j]).is_infinite());
    }
    assert_eq!((cost(&dp[3]), dp[3].prev), (6.0, Some(0)));
    assert_eq!((cost(&dp[6]), dp[6].prev), (4.0, Some(0)));
    assert_eq!(trace_back(text, &dp), Some(vec![(0, 6)]));
}

#[test]
fn table_adds_costs_along_the_way() {
    let d = fixture();
    let text = "ភាសាខ្មែរ".as_bytes();
    let dp = decode(&d, true, true, text);
    assert_eq!((cost(&dp[12]), dp[12].prev), (2.0, Some(0)));
    assert_eq!((cost(&dp[27]), dp[27].prev), (4.0, Some(12)));
    assert_eq!(trace_back(text, &dp), Some(vec![(0, 12), (12, 27)]));
}

#[test]
fn first_to_reach_a_position_wins_a_tie() {
    // "a" and "b" cost 3 each, "ab" costs 6: both ways to the end cost 6,
    // and the way from the start is proposed first
    let d = build(&[("a", 3.0), ("b", 3.0), ("ab", 6.0)], 8, 10.0, 20.0);
    let dp = decode(&d, true, true, b"ab");
    assert_eq!((cost(&dp[2]), dp[2].prev), (6.0, Some(0)));
    // with "ab" a little dearer, the two words win
    let d = build(&[("a", 3.0), ("b", 3.0), ("ab", 6.5)], 8, 10.0, 20.0);
    let dp = decode(&d, true, true, b"ab");
    assert_eq!((cost(&dp[2]), dp[2].prev), (6.0, Some(1)));
}

#[test]
fn separator_costs_a_tenth() {
    let d = fixture();
    let dp = decode(&d, true, true, b" ");
    assert_eq!((cost(&dp[1]), dp[1].prev), (0.1, Some(0)));
    let dp = decode(&d, true, true, b"  ");
    assert_eq!(cost(&dp[2]), 0.1f32 + 0.1f32);
}

#[test]
fn acronym_costs_the_default() {
    let d = fixture();
    let text = "ស.ភ.".as_bytes();
    let dp = decode(&d, true, true, text);
    assert_eq!((cost(&dp[8]), dp[8].prev), (10.0, Some(0)));
    let dp = decode(&d, true, false, text);
    // unknown, separator, unknown, separator
    assert_eq!((cost(&dp[8]), dp[8].prev), (20.0f32 + 0.1 + 20.0 + 0.1, Some(7)));
}

#[test]
fn unknown_cluster_costs_the_unknown_cost() {
    let d = fixture();
    let text = "គា".as_bytes();
    let dp = decode(&d, true, true, text);
    assert_eq!((cost(&dp[6]), dp[6].prev), (20.0, Some(0)));
    assert_eq!(dp[3].prev, None);
}

#[test]
fn single_khmer_character_that_is_no_base_costs_ten_more() {
    let d = fixture();
    // a Khmer digit sign that is neither base nor digit nor separator
    let text = "\u{17DC}".as_bytes();
    let dp = decode(&d, true, true, text);
    assert_eq!((cost(&dp[3]), dp[3].prev), (30.0, Some(0)));
    // a lone base does not
    let dp = decode(&d, true, true, "គ".as_bytes());
    assert_eq!(cost(&dp[3]), 20.0);
    // a character that is not Khmer does not
    let dp = decode(&d, true, true, b"x");
    assert_eq!(cost(&dp[1]), 20.0);
}

#[test]
fn repair_mode_forces_a_dear_step_over_a_vowel() {
    let d = fixture();
    let text = "\u{17B6}ខ".as_bytes();
    let on = decode(&d, true, true, text);
    assert_eq!((cost(&on[3]), on[3].prev), (70.0, Some(0)));
    assert_eq!((cost(&on[6]), on[6].prev), (76.0, Some(3)));
    let off = decode(&d, false, true, text);
    assert_eq!((cost(&off[3]), off[3].prev), (30.0, Some(0)));
    assert_eq!((cost(&off[6]), off[6].prev), (36.0, Some(3)));
}

#[test]
fn word_longer_than_the_longest_is_not_looked_up() {
    // the header says 3 bytes, the table holds a word of 6
    let mut bytes = {
        let d = build(&[("កខ", 1.0)], 4, 10.0, 20.0);
        d.as_bytes().to_vec()
    };
    bytes[24..28].copy_from_slice(&3u32.to_le_bytes());
    let d = KDict::from_bytes(bytes).unwrap();
    assert_eq!(d.lookup("កខ".as_bytes()), Some(1.0f32.to_bits()));
    let text = "កខ".as_bytes();
    let dp = decode(&d, true, true, text);
    assert_eq!((cost(&dp[6]), dp[6].prev), (40.0, Some(3)));
}

#[test]
fn unreachable_end_gives_no_path() {
    // an unknown cost that is not a number blocks every fallback step
    let d = build(&[("ក", 1.0)], 4, 10.0, f32::NAN);
    let dp = decode(&d, true, true, b"x");
    assert_eq!(dp[1].prev, None);
    assert_eq!(trace_back(b"x", &dp), None);
    // the dictionary word still gets through
    let text = "ក".as_bytes();
    let dp = decode(&d, true, true, text);
    assert_eq!(trace_back(text, &dp), Some(vec![(0, 3)]));
}

#[test]
fn known_segments_are_what_the_decoder_knows() {
    let d = fixture();
    let text = "ក គា 12 1,5 ស.ភ. ភាសា x xy".as_bytes();
    let known = |a: usize, b: usize, acronym: bool| is_known(&d, acronym, text, a, b);
    assert!(known(0, 3, true)); // base
    assert!(known(3, 4, true)); // separator
    assert!(!known(4, 10, true)); // cluster that is no word
    assert!(known(11, 13, true)); // number
    assert!(known(11, 12, true)); // digit
    assert!(known(14, 17, true)); // number with comma
    assert!(!known(14, 16, true)); // number and a comma too many
    assert!(known(18, 26, true)); // acronym
    assert!(!known(18, 26, false));
    assert!(known(27, 39, true)); // word
    assert!(!known(27, 36, true)); // part of a word
    assert!(!known(40, 41, true)); // letter
    assert!(!known(42, 44, true));
}

#[test]
fn runs_of_unknowns_are_joined() {
    let d = fixture();
    let text = "គាគា កខxyz".as_bytes();
    let segs = vec![(0, 6), (6, 12), (12, 13), (13, 19), (19, 20), (20, 21), (21, 22)];
    let merged = merge_unknown_segments(&d, true, text, &segs);
    assert_eq!(merged, vec![(0, 12), (12, 13), (13, 19), (19, 22)]);
    assert_eq!(merge_unknown_segments(&d, true, text, &merged), merged);
}

#[test]
fn merging_leaves_known_segments_alone() {
    let d = fixture();
    let text = "កខ ខ".as_bytes();
    let segs = vec![(0, 6), (6, 7), (7, 10)];
    assert_eq!(merge_unknown_segments(&d, true, text, &segs), segs);
    assert_eq!(merge_unknown_segments(&d, true, text, &Vec::new()), vec![]);
    let one = vec![(0usize, 6usize)];
    assert_eq!(merge_unknown_segments(&d, true, text, &one), one);
}

#[test]
fn merged_run_may_itself_be_known() {
    // "a" and "b" are unknown, their run "ab" is a word: a second merge
    // changes nothing all the same
    let d = build(&[("ab", 1.0)], 4, 10.0, 20.0);
    let text = b"abab";
    let segs = vec![(0, 1), (1, 2), (2, 3), (3, 4)];
    let merged = merge_unknown_segments(&d, true, text, &segs);
    assert_eq!(merged, vec![(0, 4)]);
    assert_eq!(merge_unknown_segments(&d, true, text, &merged), merged);
    let segs = vec![(0, 1), (1, 2), (2, 4)];
    let merged = merge_unknown_segments(&d, true, text, &segs);
    assert_eq!(merged, vec![(0, 2), (2, 4)]);
    assert_eq!(merge_unknown_segments(&d, true, text, &merged), merged);
}

#[test]
fn join_puts_the_separator_between_segments() {
    let text = "កខគ";
    assert_eq!(join_segments(text, &vec![(0, 3), (3, 6), (6, 9)], "|"), "ក|ខ|គ");
    assert_eq!(join_segments(text, &vec![(0, 9)], "|"), "កខគ");
    assert_eq!(join_segments(text, &Vec::new(), "|"), "");
    assert_eq!(join_segments(text, &vec![(0, 3), (3, 9)], ""), "កខគ");
    assert_eq!(join_segments(text, &vec![(0, 3), (3, 9)], " -- "), "ក -- ខគ");
    assert_eq!(join_segments(text, &vec![(0, 3), (6, 9)], "\u{200B}"), "ក\u{200B}គ");
}
