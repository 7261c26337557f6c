use khmer_segmenter::utils::{
    djb2_hash, fast_str_eq, get_acronym_length, get_khmer_cluster_length, get_number_length,
    is_acronym_start, is_digit_cp, is_khmer_char, is_separator_cp, is_valid_single_base_char,
};

#[test]
fn khmer_chars_are_the_two_blocks() {
    assert!(is_khmer_char('\u{1780}'));
    assert!(is_khmer_char('\u{17FF}'));
    assert!(is_khmer_char('\u{19E0}'));
    assert!(is_khmer_char('\u{19FF}'));
    assert!(!is_khmer_char('\u{177F}'));
    assert!(!is_khmer_char('\u{1800}'));
    assert!(!is_khmer_char('\u{19DF}'));
    assert!(!is_khmer_char('\u{1A00}'));
    assert!(!is_khmer_char('a'));
}

#[test]
fn digits_are_ascii_and_khmer() {
    for c in ['0', '5', '9', '\u{17E0}', '\u{17E9}'] {
        assert!(is_digit_cp(c));
    }
    for c in ['/', ':', 'a', '\u{17DF}', '\u{17EA}', '\u{0660}'] {
        assert!(!is_digit_cp(c));
    }
}

#[test]
fn separators_are_as_listed() {
    for c in [
        ' ', '\t', '\n', '\u{0C}', '\r', '!', '/', ':', '@', '[', '`', '{', '~', '.', ',',
        '\u{17D4}', '\u{17DA}', '\u{17DB}', '\u{A0}', '\u{2DD}', '\u{AB}', '\u{BB}', '\u{2000}',
        '\u{200B}', '\u{206F}', '\u{20A0}', '\u{20AC}', '\u{20CF}', '\u{A3}', '\u{A5}',
    ] {
        assert!(is_separator_cp(c), "{:?}", c);
    }
    for c in [
        'a', 'Z', '0', '9', '\u{0B}', '\u{0}', '\u{7F}', '\u{17D3}', '\u{17DC}', '\u{A4}',
        '\u{1FFF}', '\u{2070}', '\u{209F}', '\u{20D0}', '\u{FEFF}', '\u{1780}',
    ] {
        assert!(!is_separator_cp(c), "{:?}", c);
    }
}

#[test]
fn single_bases_are_consonants_and_independent_vowels() {
    assert!(is_valid_single_base_char('\u{1780}'));
    assert!(is_valid_single_base_char('\u{17A2}'));
    assert!(is_valid_single_base_char('\u{17A3}'));
    assert!(is_valid_single_base_char('\u{17B3}'));
    assert!(!is_valid_single_base_char('\u{17B4}'));
    assert!(!is_valid_single_base_char('\u{17B6}'));
    assert!(!is_valid_single_base_char('\u{177F}'));
}

#[test]
fn cluster_length_counts_bytes() {
    assert_eq!(get_khmer_cluster_length(""), 0);
    assert_eq!(get_khmer_cluster_length("a"), 1);
    assert_eq!(get_khmer_cluster_length("ab"), 1);
    assert_eq!(get_khmer_cluster_length("\u{E9}t"), 2);
    assert_eq!(get_khmer_cluster_length("\u{1F600}"), 4);
    assert_eq!(get_khmer_cluster_length("ក"), 3);
    assert_eq!(get_khmer_cluster_length("កក"), 3);
    assert_eq!(get_khmer_cluster_length("កា"), 6);
    assert_eq!(get_khmer_cluster_length("ក\u{17D2}ខ"), 9);
    assert_eq!(get_khmer_cluster_length("ក\u{17D2}ខ\u{17B6}\u{17C6}ក"), 15);
    assert_eq!(get_khmer_cluster_length("ក\u{17D3}\u{17DD}"), 9);
}

#[test]
fn cluster_length_leaves_out_a_bare_coeng() {
    assert_eq!(get_khmer_cluster_length("ក\u{17D2}"), 3);
    assert_eq!(get_khmer_cluster_length("ក\u{17D2}a"), 3);
    assert_eq!(get_khmer_cluster_length("ក\u{17B6}\u{17D2}"), 6);
    // a subscript must be a consonant: U+17A2 is the last one
    assert_eq!(get_khmer_cluster_length("ក\u{17D2}\u{17A2}"), 9);
    assert_eq!(get_khmer_cluster_length("ក\u{17D2}\u{17A3}"), 3);
}

#[test]
fn cluster_length_of_a_leading_mark_is_one_character() {
    assert_eq!(get_khmer_cluster_length("\u{17B6}ក"), 3);
    assert_eq!(get_khmer_cluster_length("\u{17D2}ក"), 3);
    assert_eq!(get_khmer_cluster_length("\u{17E1}\u{17B6}"), 3);
}

#[test]
fn number_length_takes_digits_and_groups() {
    assert_eq!(get_number_length(""), 0);
    assert_eq!(get_number_length("abc"), 0);
    assert_eq!(get_number_length(",5"), 0);
    assert_eq!(get_number_length("7"), 1);
    assert_eq!(get_number_length("123"), 3);
    assert_eq!(get_number_length("123abc"), 3);
    assert_eq!(get_number_length("1,000"), 5);
    assert_eq!(get_number_length("1,000,000.50"), 12);
    assert_eq!(get_number_length("12.5kg"), 4);
    assert_eq!(get_number_length("\u{17E1}\u{17E2}\u{17E3}"), 9);
    assert_eq!(get_number_length("1.\u{17E2}"), 5);
}

#[test]
fn number_length_stops_at_a_group_mark_without_digit() {
    assert_eq!(get_number_length("1,"), 1);
    assert_eq!(get_number_length("1,000,"), 5);
    assert_eq!(get_number_length("1..2"), 1);
    assert_eq!(get_number_length("1,a"), 1);
    assert_eq!(get_number_length("1 000"), 1);
}

#[test]
fn acronym_starts_with_cluster_and_full_stop() {
    assert!(is_acronym_start("ក."));
    assert!(is_acronym_start("ក.ខ."));
    assert!(is_acronym_start("កា."));
    assert!(is_acronym_start("ក\u{17D2}ខ."));
    assert!(is_acronym_start("\u{17A3}."));
    assert!(!is_acronym_start(""));
    assert!(!is_acronym_start("ក"));
    assert!(!is_acronym_start("កខ."));
    assert!(!is_acronym_start("a."));
    assert!(!is_acronym_start(".ក"));
    assert!(!is_acronym_start("ក\u{17D2}."));
    assert!(!is_acronym_start("\u{17B6}."));
    assert!(!is_acronym_start("ក,"));
}

#[test]
fn acronym_length_takes_every_cluster_with_its_full_stop() {
    assert_eq!(get_acronym_length(""), 0);
    assert_eq!(get_acronym_length("ក"), 0);
    assert_eq!(get_acronym_length("a.b."), 0);
    assert_eq!(get_acronym_length("ក."), 4);
    assert_eq!(get_acronym_length("ក.ខ."), 8);
    assert_eq!(get_acronym_length("ក.ខ"), 4);
    assert_eq!(get_acronym_length("ក.a."), 4);
    assert_eq!(get_acronym_length("ស.ភ.ភ.ព."), 16);
    assert_eq!(get_acronym_length("កា.ខ\u{17D2}គ. x"), 7 + 10);
}

#[test]
fn djb2_of_known_strings() {
    assert_eq!(djb2_hash(b""), 5381);
    assert_eq!(djb2_hash(b"a"), 177670);
    assert_eq!(djb2_hash(b"ab"), 5863208);
    assert_eq!(djb2_hash(b"hello"), 261238937);
}

#[test]
fn djb2_wraps_at_32_bits() {
    // reference computation in 64 bits, cut to 32 at every step
    let text = "ភាសាខ្មែរ and some more bytes to overflow";
    let mut h: u64 = 5381;
    for b in text.bytes() {
        h = (h * 33 + b as u64) & 0xFFFF_FFFF;
    }
    assert_eq!(djb2_hash(text.as_bytes()) as u64, h);
}

#[test]
fn djb2_can_be_carried_on_byte_by_byte() {
    let a = "ភាសា".as_bytes();
    let b = "ខ្មែរ".as_bytes();
    let mut whole = a.to_vec();
    whole.extend_from_slice(b);
    let mut h = djb2_hash(a);
    for byte in b {
        h = (h << 5).wrapping_add(h).wrapping_add(*byte as u32);
    }
    assert_eq!(djb2_hash(&whole), h);
    assert_ne!(djb2_hash(&whole), djb2_hash(a));
}

#[test]
fn fast_str_eq_compares_the_first_bytes() {
    assert!(fast_str_eq(b"abc", b"abd", 0));
    assert!(fast_str_eq(b"abc", b"abd", 2));
    assert!(!fast_str_eq(b"abc", b"abd", 3));
    assert!(fast_str_eq(b"abc", b"abc", 3));
    assert!(!fast_str_eq(b"xbc", b"abc", 1));
    let long_a = [7u8; 100];
    let mut long_b = [7u8; 100];
    assert!(fast_str_eq(&long_a, &long_b, 100));
    long_b[99] = 8;
    assert!(fast_str_eq(&long_a, &long_b, 99));
    assert!(!fast_str_eq(&long_a, &long_b, 100));
    long_b[40] = 0;
    assert!(!fast_str_eq(&long_a, &long_b, 64));
}
