use khmer_segmenter::rule_engine::{
    apply_to_bytes, is_invalid_single, is_separator, shape_of, RuleEngine,
};

fn apply(text: &str, segments: &[(usize, usize)]) -> Vec<(usize, usize)> {
    let mut segs = segments.to_vec();
    RuleEngine::new().apply(text, &mut segs);
    segs
}

#[test]
fn separator_is_judged_by_the_first_character() {
    assert!(is_separator(" "));
    assert!(is_separator(".ក"));
    assert!(is_separator("\u{17D4}"));
    assert!(!is_separator(""));
    assert!(!is_separator("ក."));
    assert!(!is_separator("a "));
}

#[test]
fn invalid_single_is_one_character_that_cannot_stand_alone() {
    assert!(is_invalid_single("\u{17B6}"));
    assert!(is_invalid_single("\u{17D2}"));
    assert!(is_invalid_single("a"));
    assert!(is_invalid_single("\u{FEFF}"));
    assert!(!is_invalid_single(""));
    assert!(!is_invalid_single("ក"));
    assert!(!is_invalid_single("\u{17B3}"));
    assert!(!is_invalid_single("7"));
    assert!(!is_invalid_single("\u{17E7}"));
    assert!(!is_invalid_single(" "));
    assert!(!is_invalid_single("\u{17B6}\u{17B6}"));
    assert!(!is_invalid_single("ab"));
}

#[test]
fn shape_counts_up_to_three_characters() {
    let text = "កខគឃ".as_bytes();
    assert_eq!(shape_of(text, 0, 0).count, 0);
    let one = shape_of(text, 3, 6);
    assert_eq!((one.count, one.first), (1, 0x1781));
    let two = shape_of(text, 3, 9);
    assert_eq!((two.count, two.first, two.second), (2, 0x1781, 0x1782));
    let three = shape_of(text, 0, 9);
    assert_eq!((three.count, three.first, three.second), (3, 0x1780, 0x1781));
    let four = shape_of(text, 0, 12);
    assert_eq!((four.count, four.first, four.second), (3, 0x1780, 0x1781));
    let mixed = "a\u{E9}".as_bytes();
    let m = shape_of(mixed, 0, 3);
    assert_eq!((m.count, m.first, m.second), (2, 0x61, 0xE9));
}

#[test]
fn nothing_to_do_leaves_the_segments() {
    assert_eq!(apply("", &[]), vec![]);
    assert_eq!(apply("កខ", &[(0, 3), (3, 6)]), vec![(0, 3), (3, 6)]);
    assert_eq!(apply("hello world", &[(0, 5), (5, 6), (6, 11)]), vec![(0, 5), (5, 6), (6, 11)]);
}

#[test]
fn ka_or_da_with_ahsda_is_kept() {
    // a joining sign would take it to the left, the exception comes first
    assert_eq!(apply("aក\u{17CF}", &[(0, 1), (1, 7)]), vec![(0, 1), (1, 7)]);
    assert_eq!(apply("a\u{178A}\u{17CF}", &[(0, 1), (1, 7)]), vec![(0, 1), (1, 7)]);
    // KHA with the same sign is joined
    assert_eq!(apply("aខ\u{17CF}", &[(0, 1), (1, 7)]), vec![(0, 7)]);
}

#[test]
fn lone_qa_takes_the_next_segment() {
    assert_eq!(apply("\u{17A2}ក", &[(0, 3), (3, 6)]), vec![(0, 6)]);
    assert_eq!(apply("\u{17A2}កខ", &[(0, 3), (3, 6), (6, 9)]), vec![(0, 6), (6, 9)]);
    assert_eq!(apply("ខ\u{17A2}ក", &[(0, 3), (3, 6), (6, 9)]), vec![(0, 3), (3, 9)]);
}

#[test]
fn lone_qa_stays_before_a_separator_and_at_the_end() {
    assert_eq!(apply("\u{17A2} ក", &[(0, 3), (3, 4), (4, 7)]), vec![(0, 3), (3, 4), (4, 7)]);
    assert_eq!(apply("\u{17A2}", &[(0, 3)]), vec![(0, 3)]);
    assert_eq!(apply("ក\u{17A2}", &[(0, 3), (3, 6)]), vec![(0, 3), (3, 6)]);
}

#[test]
fn consonant_with_joining_sign_goes_left() {
    for sign in ['\u{17CB}', '\u{17CC}', '\u{17CE}', '\u{17CF}'] {
        let text = format!("គខ{}", sign);
        assert_eq!(apply(&text, &[(0, 3), (3, 9)]), vec![(0, 9)]);
    }
    // another sign does not join
    assert_eq!(apply("គខ\u{17CD}", &[(0, 3), (3, 9)]), vec![(0, 3), (3, 9)]);
    // nothing to the left
    assert_eq!(apply("ខ\u{17CB}គ", &[(0, 6), (6, 9)]), vec![(0, 6), (6, 9)]);
    // an independent vowel is no consonant
    assert_eq!(apply("គ\u{17A5}\u{17CB}", &[(0, 3), (3, 9)]), vec![(0, 3), (3, 9)]);
}

#[test]
fn consonant_with_samyok_sannya_takes_the_next_segment() {
    assert_eq!(apply("ក\u{17D0}ខ", &[(0, 6), (6, 9)]), vec![(0, 9)]);
    assert_eq!(apply("ក\u{17D0} ", &[(0, 6), (6, 7)]), vec![(0, 7)]);
    assert_eq!(apply("ក\u{17D0}", &[(0, 6)]), vec![(0, 6)]);
    assert_eq!(
        apply("គក\u{17D0}ខឃ", &[(0, 3), (3, 9), (9, 12), (12, 15)]),
        vec![(0, 3), (3, 12), (12, 15)]
    );
}

#[test]
fn stray_character_goes_left_unless_a_separator_stands_there() {
    assert_eq!(apply("ក\u{17B6}", &[(0, 3), (3, 6)]), vec![(0, 6)]);
    assert_eq!(apply("ab", &[(0, 1), (1, 2)]), vec![(0, 2)]);
    assert_eq!(apply(" \u{17B6}", &[(0, 1), (1, 4)]), vec![(0, 1), (1, 4)]);
    assert_eq!(apply("\u{17B6}ក", &[(0, 3), (3, 6)]), vec![(0, 3), (3, 6)]);
    // the segment to the left is judged by its first character
    assert_eq!(apply(".ក\u{17B6}", &[(0, 4), (4, 7)]), vec![(0, 4), (4, 7)]);
    assert_eq!(apply("ក.\u{17B6}", &[(0, 4), (4, 7)]), vec![(0, 7)]);
}

#[test]
fn joined_segment_is_looked_at_again() {
    // three stray letters end up in one segment
    assert_eq!(apply("abcd", &[(0, 1), (1, 2), (2, 3), (3, 4)]), vec![(0, 4)]);
    // QA takes the consonant, and the pair then no longer matches a rule
    assert_eq!(
        apply("\u{17A2}ខ\u{17CB}ក", &[(0, 3), (3, 9), (9, 12)]),
        vec![(0, 9), (9, 12)]
    );
}

#[test]
fn segment_count_never_grows() {
    let text = "\u{17A2}កខ\u{17CB}គ\u{17D0}ឃ a\u{17B6}b";
    let mut segs: Vec<(usize, usize)> = Vec::new();
    let mut at = 0;
    for c in text.chars() {
        segs.push((at, at + c.len_utf8()));
        at += c.len_utf8();
    }
    let before = segs.len();
    let after = apply(text, &segs);
    assert!(after.len() <= before);
    assert_eq!(after.first().unwrap().0, 0);
    assert_eq!(after.last().unwrap().1, text.len());
    for pair in after.windows(2) {
        assert_eq!(pair[0].1, pair[1].0);
    }
    assert_eq!(apply(text, &after).len(), after.len());
}

#[test]
fn bytes_and_text_give_the_same() {
    let text = "ក\u{17B6}ខ";
    let mut by_bytes = vec![(0usize, 3usize), (3, 6), (6, 9)];
    apply_to_bytes(text.as_bytes(), &mut by_bytes);
    assert_eq!(by_bytes, apply(text, &[(0, 3), (3, 6), (6, 9)]));
    assert_eq!(by_bytes, vec![(0, 6), (6, 9)]);
}

#[test]
fn empty_segments_and_gaps_are_legal() {
    assert_eq!(apply("កខ", &[(0, 0), (0, 3), (3, 3), (3, 6)]), vec![(0, 0), (0, 3), (3, 3), (3, 6)]);
    assert_eq!(apply("a b", &[(0, 1), (2, 3)]), vec![(0, 3)]);
}
