use khmer_segmenter::kdict::KDict;
use khmer_segmenter::khmer_segmenter::{KhmerSegmenter, SegmenterConfig};
use khmer_segmenter::utils::djb2_hash;

fn put_u32(out: &mut Vec<u8>, v: u32) {
    out.extend_from_slice(&v.to_le_bytes());
}

/// A dictionary file with the given words, built as the format says.
fn build_dictionary(
    words: &[(&str, f32)],
    table_size: u32,
    default_cost: f32,
    unknown_cost: f32,
) -> Vec<u8> {
    let mask = table_size - 1;
    let mut slots: Vec<(u32, f32)> = vec![(0, 0.0); table_size as usize];
    let mut pool: Vec<u8> = vec![0];
    let mut max_len = 0usize;
    for (word, cost) in words {
        let offset = pool.len() as u32;
        pool.extend_from_slice(word.as_bytes());
        pool.push(0);
        if word.len() > max_len {
            max_len = word.len();
        }
        let mut idx = djb2_hash(word.as_bytes()) & mask;
        while slots[idx as usize].0 != 0 {
            idx = (idx + 1) & mask;
        }
        slots[idx as usize] = (offset, *cost);
    }
    let mut out: Vec<u8> = Vec::new();
    out.extend_from_slice(b"KDIC");
    put_u32(&mut out, 1);
    put_u32(&mut out, words.len() as u32);
    put_u32(&mut out, table_size);
    put_u32(&mut out, default_cost.to_bits());
    put_u32(&mut out, unknown_cost.to_bits());
    put_u32(&mut out, max_len as u32);
    put_u32(&mut out, 0);
    for (offset, cost) in slots {
        put_u32(&mut out, offset);
        put_u32(&mut out, cost.to_bits());
    }
    out.extend_from_slice(&pool);
    out
}

fn fixture_words() -> Vec<(&'static str, f32)> {
    vec![
        ("ក", 6.0),
        ("កខ", 4.0),
        ("ខ", 6.0),
        ("ភាសា", 2.0),
        ("ខ្មែរ", 2.0),
        ("ភាសាខ្មែរ", 5.0),
        ("សួស្តី", 1.5),
    ]
}

fn fixture() -> KDict {
    KDict::from_bytes(build_dictionary(&fixture_words(), 16, 10.0, 20.0)).unwrap()
}

fn segmenter() -> KhmerSegmenter {
    KhmerSegmenter::new_with_dict(Some(fixture()), SegmenterConfig::default())
}

fn segmenter_with(config: SegmenterConfig) -> KhmerSegmenter {
    KhmerSegmenter::new_with_dict(Some(fixture()), config)
}

#[test]
fn empty_text_gives_empty_output() {
    assert_eq!(segmenter().segment("", Some(" | ")), "");
    assert_eq!(segmenter().segment("", None), "");
}

#[test]
fn single_space_is_one_segment() {
    assert_eq!(segmenter().segment(" ", Some(" | ")), " ");
}

#[test]
fn ascii_letters_merge_into_one_unknown() {
    assert_eq!(segmenter().segment("abc", Some(" | ")), "abc");
}

#[test]
fn stray_letters_join_the_letter_before_them_even_without_merging() {
    let mut config = SegmenterConfig::default();
    config.enable_unknown_merging = false;
    assert_eq!(segmenter_with(config).segment("abc", Some(" | ")), "abc");
}

#[test]
fn unknown_clusters_stay_apart_without_merging() {
    let mut config = SegmenterConfig::default();
    config.enable_unknown_merging = false;
    assert_eq!(segmenter_with(config).segment("គាគា", Some(" | ")), "គា | គា");
    assert_eq!(segmenter().segment("គាគា", Some(" | ")), "គាគា");
}

#[test]
fn digits_are_one_number() {
    assert_eq!(segmenter().segment("123", Some(" | ")), "123");
}

#[test]
fn number_with_comma_is_one_segment() {
    assert_eq!(segmenter().segment("1,000", Some(" | ")), "1,000");
}

#[test]
fn number_does_not_take_a_trailing_comma() {
    assert_eq!(segmenter().segment("1,000,", Some(" | ")), "1,000 | ,");
}

#[test]
fn two_acronym_clusters_are_one_segment() {
    assert_eq!(segmenter().segment("ក.ខ.", Some(" | ")), "ក.ខ.");
}

#[test]
fn long_acronym_is_one_segment() {
    assert_eq!(segmenter().segment("ស.ភ.ភ.ព.", Some(" | ")), "ស.ភ.ភ.ព.");
}

#[test]
fn acronym_is_cut_without_detection() {
    let mut config = SegmenterConfig::default();
    config.enable_acronym_detection = false;
    assert_eq!(segmenter_with(config).segment("ក.ខ.", Some(" | ")), "ក | . | ខ | .");
}

#[test]
fn hello_world_is_three_segments() {
    assert_eq!(segmenter().segment("hello world", Some(" | ")), "hello |   | world");
}

#[test]
fn default_separator_is_zero_width_space() {
    assert_eq!(segmenter().segment("hello world", None), "hello\u{200B} \u{200B}world");
}

#[test]
fn byte_order_mark_is_kept_with_what_follows() {
    assert_eq!(segmenter().segment("\u{FEFF}abc", Some(" | ")), "\u{FEFF}abc");
    assert_eq!(segmenter().segment("\u{FEFF} a", Some("|")), "\u{FEFF}| |a");
}

#[test]
fn bare_coeng_at_end_joins_the_cluster_before_it() {
    assert_eq!(segmenter().segment("ក\u{17D2}", Some(" | ")), "ក\u{17D2}");
    assert_eq!(segmenter().segment("1\u{17D2}", Some(" | ")), "1\u{17D2}");
    assert_eq!(segmenter().segment(" \u{17D2}", Some("|")), " |\u{17D2}");
}

#[test]
fn dictionary_word_alone_is_one_segment() {
    for (word, _) in fixture_words() {
        if word == "ភាសាខ្មែរ" {
            continue;
        }
        assert_eq!(segmenter().segment(word, Some(" | ")), word);
    }
}

#[test]
fn cheaper_whole_word_wins_over_its_parts() {
    // "កខ" costs 4, "ក" and "ខ" together cost 12
    assert_eq!(segmenter().segment("កខ", Some(" | ")), "កខ");
}

#[test]
fn cheaper_parts_win_over_the_whole_word() {
    // "ភាសាខ្មែរ" costs 5, "ភាសា" and "ខ្មែរ" together cost 4
    assert_eq!(segmenter().segment("ភាសាខ្មែរ", Some(" | ")), "ភាសា | ខ្មែរ");
}

#[test]
fn words_in_a_row_are_cut_apart() {
    assert_eq!(
        segmenter().segment("សួស្តីភាសាខ្មែរ", Some(" | ")),
        "សួស្តី | ភាសា | ខ្មែរ"
    );
    assert_eq!(segmenter().segment("ខកខ", Some("|")), "ខ|កខ");
}

#[test]
fn colliding_prefix_pair_is_found() {
    let d = fixture();
    let mask = d.table_mask();
    assert_eq!(djb2_hash("ក".as_bytes()) & mask, djb2_hash("កខ".as_bytes()) & mask);
    assert_eq!(d.lookup("ក".as_bytes()), Some(6.0f32.to_bits()));
    assert_eq!(d.lookup("កខ".as_bytes()), Some(4.0f32.to_bits()));
    assert_eq!(d.lookup("កគ".as_bytes()), None);
}

#[test]
fn word_as_long_as_the_longest_is_found() {
    let d = fixture();
    let longest = "ភាសាខ្មែរ";
    assert_eq!(d.header().max_word_length as usize, longest.len());
    assert_eq!(d.lookup(longest.as_bytes()), Some(5.0f32.to_bits()));
    // alone in a dictionary, the longest word is reached by the walk
    let words = [(longest, 5.0f32)];
    let only = KDict::from_bytes(build_dictionary(&words, 4, 10.0, 20.0)).unwrap();
    let seg = KhmerSegmenter::new_with_dict(Some(only), SegmenterConfig::default());
    assert_eq!(seg.segment("ភាសាខ្មែរភាសាខ្មែរ", Some(" | ")), "ភាសាខ្មែរ | ភាសាខ្មែរ");
}

#[test]
fn without_dictionary_the_text_comes_back() {
    let seg = KhmerSegmenter::new_with_dict(None, SegmenterConfig::default());
    assert_eq!(seg.segment("សួស្តី abc", Some(" | ")), "សួស្តី abc");
    // normalisation still runs
    assert_eq!(seg.segment("a\u{200B}b", Some(" | ")), "ab");
}

#[test]
fn separators_removed_give_the_normalised_text_back() {
    let texts = [
        "សួស្តីពិភពលោក 123 abc។",
        "ក\u{17C1}\u{17B8}ខ\u{200B}គ",
        "ភាសាខ្មែរ (ស.ភ.ភ.ព.) 1,000.50$",
        "\u{17B6}\u{17B7}ក",
    ];
    for text in texts {
        let joined = segmenter().segment(text, Some("\u{1}"));
        let normal = khmer_segmenter::normalization::khmer_normalize(text);
        assert_eq!(joined.replace('\u{1}', ""), normal);
    }
    let mut config = SegmenterConfig::default();
    config.enable_normalization = false;
    for text in texts {
        let joined = segmenter_with(config).segment(text, Some("\u{1}"));
        assert_eq!(joined.replace('\u{1}', ""), text);
    }
}

#[test]
fn repair_mode_steps_over_a_leading_vowel() {
    // a dependent vowel at the start, then a dictionary word
    let text = "\u{17B6}ខ";
    assert_eq!(segmenter().segment(text, Some("|")), "\u{17B6}|ខ");
    let mut config = SegmenterConfig::default();
    config.enable_repair_mode = false;
    assert_eq!(segmenter_with(config).segment(text, Some("|")), "\u{17B6}|ខ");
}

#[test]
fn repair_mode_changes_nothing_without_stray_vowels() {
    let mut off = SegmenterConfig::default();
    off.enable_repair_mode = false;
    for text in ["សួស្តីភាសាខ្មែរ", "hello world 1,000", "ក.ខ. abc", "កខគ"] {
        assert_eq!(
            segmenter().segment(text, Some("|")),
            segmenter_with(off).segment(text, Some("|"))
        );
    }
}

#[test]
fn segmenting_twice_gives_the_same() {
    let seg = segmenter();
    let text = "សួស្តីភាសាខ្មែរ hello 123";
    assert_eq!(seg.segment(text, Some("|")), seg.segment(text, Some("|")));
}

#[test]
fn word_of_the_longest_length_in_a_table_of_two_slots_comes_back_whole() {
    let word = "\u{1780}\u{1781}";
    assert_eq!(djb2_hash(word.as_bytes()) & 1, 0);
    let d = KDict::from_bytes(build_dictionary(&[(word, 1.0)], 2, 1.0, 10.0)).unwrap();
    assert_eq!(d.table_mask(), 1);
    assert_eq!(d.header().max_word_length, 6);
    assert_ne!(d.get_entry(0).name_offset, 0);
    assert_eq!(d.get_entry(1).name_offset, 0);
    let seg = KhmerSegmenter::new_with_dict(Some(d), SegmenterConfig::default());
    assert_eq!(seg.segment(word, Some("|")), word);
}

#[test]
fn prefix_behind_the_longer_word_it_collides_with_is_found() {
    let long = "\u{1780}\u{1782}\u{1781}";
    let prefix = "\u{1780}\u{1782}";
    assert_eq!(djb2_hash(long.as_bytes()) & 3, 1);
    assert_eq!(djb2_hash(prefix.as_bytes()) & 3, 1);
    let words = [(long, 1.0f32), (prefix, 1.0f32)];
    let d = KDict::from_bytes(build_dictionary(&words, 4, 1.0, 10.0)).unwrap();
    assert_eq!(d.table_mask(), 3);
    assert_eq!(d.get_entry(0).name_offset, 0);
    assert_eq!(d.get_pool_bytes(d.get_entry(1).name_offset), long.as_bytes());
    assert_eq!(d.get_pool_bytes(d.get_entry(2).name_offset), prefix.as_bytes());
    assert_eq!(d.get_entry(3).name_offset, 0);
    let seg = KhmerSegmenter::new_with_dict(Some(d), SegmenterConfig::default());
    assert_eq!(seg.segment(prefix, Some("|")), prefix);
    assert_eq!(seg.segment(long, Some("|")), long);
}

#[test]
fn layout_of_colliding_words_does_not_change_the_output() {
    // the same words, put into the table in two orders: the colliding ones
    // change places
    let mut there = fixture_words();
    let mut back = fixture_words();
    back.reverse();
    there.push(("ម", 2.5));
    back.insert(0, ("ម", 2.5));
    let one = KDict::from_bytes(build_dictionary(&there, 16, 10.0, 20.0)).unwrap();
    let two = KDict::from_bytes(build_dictionary(&back, 16, 10.0, 20.0)).unwrap();
    let slot = djb2_hash("ក".as_bytes()) & 15;
    assert_ne!(
        one.get_pool_bytes(one.get_entry(slot).name_offset),
        two.get_pool_bytes(two.get_entry(slot).name_offset)
    );
    let one = KhmerSegmenter::new_with_dict(Some(one), SegmenterConfig::default());
    let two = KhmerSegmenter::new_with_dict(Some(two), SegmenterConfig::default());
    for text in ["កខ", "ខកខម", "សួស្តីភាសាខ្មែរ កម", "មក abc 12"] {
        assert_eq!(one.segment(text, Some("|")), two.segment(text, Some("|")));
    }
}
