use khmer_segmenter::normalization::{get_char_type_norm, khmer_normalize};

#[test]
fn char_types_follow_the_ranges() {
    assert_eq!(get_char_type_norm('a'), 0);
    assert_eq!(get_char_type_norm('\u{1780}'), 1);
    assert_eq!(get_char_type_norm('\u{17B3}'), 1);
    assert_eq!(get_char_type_norm('\u{17B4}'), 0);
    assert_eq!(get_char_type_norm('\u{17D2}'), 2);
    assert_eq!(get_char_type_norm('\u{17C9}'), 3);
    assert_eq!(get_char_type_norm('\u{17CA}'), 3);
    assert_eq!(get_char_type_norm('\u{17B6}'), 4);
    assert_eq!(get_char_type_norm('\u{17C5}'), 4);
    assert_eq!(get_char_type_norm('\u{17C6}'), 5);
    assert_eq!(get_char_type_norm('\u{17C8}'), 5);
    assert_eq!(get_char_type_norm('\u{17CB}'), 5);
    assert_eq!(get_char_type_norm('\u{17D1}'), 5);
    assert_eq!(get_char_type_norm('\u{17D3}'), 5);
    assert_eq!(get_char_type_norm('\u{17DD}'), 5);
    assert_eq!(get_char_type_norm('\u{17D4}'), 0);
    assert_eq!(get_char_type_norm('\u{17E0}'), 0);
}

#[test]
fn empty_and_plain_text_stay() {
    assert_eq!(khmer_normalize(""), "");
    assert_eq!(khmer_normalize("hello, world"), "hello, world");
    assert_eq!(khmer_normalize("កខគ"), "កខគ");
    assert_eq!(khmer_normalize("\u{1F600}é"), "\u{1F600}é");
}

#[test]
fn zero_width_characters_are_dropped() {
    assert_eq!(khmer_normalize("a\u{200B}b\u{200C}c\u{200D}"), "abc");
    assert_eq!(khmer_normalize("\u{200B}"), "");
    assert_eq!(khmer_normalize("ក\u{200B}ខ"), "កខ");
    // other characters of the block stay
    assert_eq!(khmer_normalize("a\u{200A}b\u{200E}"), "a\u{200A}b\u{200E}");
}

#[test]
fn split_vowels_are_fused() {
    assert_eq!(khmer_normalize("\u{17C1}\u{17B8}"), "\u{17BE}");
    assert_eq!(khmer_normalize("\u{17C1}\u{17B6}"), "\u{17C4}");
    assert_eq!(khmer_normalize("ក\u{17C1}\u{17B8}ខ\u{17C1}\u{17B6}"), "ក\u{17BE}ខ\u{17C4}");
    assert_eq!(khmer_normalize("\u{17C1}"), "\u{17C1}");
    assert_eq!(khmer_normalize("\u{17C1}\u{17B7}"), "\u{17C1}\u{17B7}");
    assert_eq!(khmer_normalize("\u{17B8}\u{17C1}"), "\u{17B8}\u{17C1}");
    assert_eq!(khmer_normalize("\u{17C1}\u{17C1}\u{17B8}"), "\u{17C1}\u{17BE}");
}

#[test]
fn zero_width_between_the_halves_stops_the_fusing() {
    assert_eq!(khmer_normalize("\u{17C1}\u{200B}\u{17B8}"), "\u{17C1}\u{17B8}");
}

#[test]
fn subscripts_come_before_vowels_and_signs() {
    assert_eq!(khmer_normalize("ក\u{17B6}\u{17D2}ខ"), "ក\u{17D2}ខ\u{17B6}");
    assert_eq!(khmer_normalize("ក\u{17C6}\u{17D2}ខ\u{17B6}"), "ក\u{17D2}ខ\u{17B6}\u{17C6}");
}

#[test]
fn vowels_come_before_signs_and_registers_before_vowels() {
    assert_eq!(khmer_normalize("ក\u{17C6}\u{17B6}"), "ក\u{17B6}\u{17C6}");
    assert_eq!(khmer_normalize("ក\u{17B6}\u{17C9}"), "ក\u{17C9}\u{17B6}");
    assert_eq!(
        khmer_normalize("ក\u{17CB}\u{17B7}\u{17CA}\u{17D2}គ"),
        "ក\u{17D2}គ\u{17CA}\u{17B7}\u{17CB}"
    );
}

#[test]
fn subscript_ro_comes_behind_other_subscripts() {
    assert_eq!(
        khmer_normalize("ក\u{17D2}\u{179A}\u{17D2}ខ"),
        "ក\u{17D2}ខ\u{17D2}\u{179A}"
    );
    assert_eq!(
        khmer_normalize("ក\u{17D2}ខ\u{17D2}\u{179A}"),
        "ក\u{17D2}ខ\u{17D2}\u{179A}"
    );
}

#[test]
fn bare_coeng_stands_between_the_subscripts() {
    // a marker that carries nothing: behind other subscripts, before RO
    assert_eq!(
        khmer_normalize("ក\u{17D2}\u{179A}\u{17D2}\u{17B6}\u{17D2}ខ"),
        "ក\u{17D2}ខ\u{17D2}\u{17D2}\u{179A}\u{17B6}"
    );
}

#[test]
fn parts_of_equal_rank_keep_their_order() {
    assert_eq!(khmer_normalize("ក\u{17B7}\u{17B6}"), "ក\u{17B7}\u{17B6}");
    assert_eq!(khmer_normalize("ក\u{17B6}\u{17B7}"), "ក\u{17B6}\u{17B7}");
    assert_eq!(
        khmer_normalize("ក\u{17C6}\u{17D2}គ\u{17C7}\u{17D2}ខ"),
        "ក\u{17D2}គ\u{17D2}ខ\u{17C6}\u{17C7}"
    );
}

#[test]
fn marks_without_a_cluster_pass_through() {
    assert_eq!(khmer_normalize("\u{17C6}\u{17B6}"), "\u{17C6}\u{17B6}");
    assert_eq!(khmer_normalize("a\u{17C6}\u{17B6}"), "a\u{17C6}\u{17B6}");
    assert_eq!(khmer_normalize("ក \u{17C6}\u{17B6}"), "ក \u{17C6}\u{17B6}");
}

#[test]
fn each_cluster_is_ordered_by_itself() {
    assert_eq!(
        khmer_normalize("ក\u{17C6}\u{17B6}ខ\u{17B6}\u{17D2}គ x\u{17B6}"),
        "ក\u{17B6}\u{17C6}ខ\u{17D2}គ\u{17B6} x\u{17B6}"
    );
}

#[test]
fn cluster_without_base_is_ordered_as_a_whole() {
    assert_eq!(khmer_normalize("\u{17D2}\u{17D2}ខ"), "\u{17D2}ខ\u{17D2}");
    assert_eq!(khmer_normalize("\u{17D2}ខ\u{17C6}\u{17B6}"), "\u{17D2}ខ\u{17B6}\u{17C6}");
}

#[test]
fn normal_forms_are_fixed_points() {
    for text in [
        "សួស្តីពិភពលោក",
        "ក\u{17C6}\u{17B6}ខ\u{17B6}\u{17D2}គ",
        "ក\u{17D2}\u{179A}\u{17D2}ខ\u{17CB}\u{17B7}\u{17CA}",
        "a\u{200B}b \u{17C1}\u{17B8}",
        "ភាសាខ្មែរ (ស.ភ.ភ.ព.) 1,000.50$",
    ] {
        let once = khmer_normalize(text);
        assert_eq!(khmer_normalize(&once), once);
    }
}

#[test]
fn split_vowel_left_by_a_dropped_joiner_is_fused_the_second_time() {
    let once = khmer_normalize("\u{17C1}\u{200B}\u{17B8}");
    assert_eq!(once, "\u{17C1}\u{17B8}");
    assert_eq!(khmer_normalize(&once), "\u{17BE}");
}

#[test]
fn split_vowel_made_by_reordering_is_fused_the_second_time() {
    // the register shifter between the two vowels moves in front of them
    let once = khmer_normalize("ក\u{17C1}\u{17C9}\u{17B8}");
    assert_eq!(once, "ក\u{17C9}\u{17C1}\u{17B8}");
    assert_eq!(khmer_normalize(&once), "ក\u{17C9}\u{17BE}");
}

#[test]
fn bare_coeng_moved_before_a_base_takes_it_the_second_time() {
    let once = khmer_normalize("ក\u{17D2}\u{17D2}ខ\u{179A}\u{17D2}គ");
    assert_eq!(once, "ក\u{17D2}ខ\u{17D2}\u{179A}\u{17D2}គ");
    assert_eq!(khmer_normalize(&once), "ក\u{17D2}ខ\u{17D2}គ\u{17D2}\u{179A}");
}

#[test]
fn text_with_every_coeng_carrying_a_base_is_settled_after_once() {
    for text in [
        "ក\u{17B6}\u{17D2}ខ\u{17C6}\u{17D2}\u{179A}គ\u{17CB}\u{17B7}",
        "\u{17D2}ខ\u{17B6}\u{17D2}គ x\u{17C6}\u{17B6}\u{17D2}\u{17A5}",
        "\u{17B6}\u{17C6}ក\u{17C6}\u{17B6}",
    ] {
        let once = khmer_normalize(text);
        assert_eq!(khmer_normalize(&once), once);
    }
}

#[test]
fn bare_coeng_that_takes_a_base_without_changing_the_order_is_settled() {
    // read again, the marker behind KHA carries KO; the joined cluster is
    // in canonical order as it stands
    let once = khmer_normalize("\u{1780}\u{17D2}\u{17D2}\u{1781}\u{1782}");
    assert_eq!(once, "\u{1780}\u{17D2}\u{1781}\u{17D2}\u{1782}");
    assert_eq!(khmer_normalize(&once), once);
    // with RO in place of KO and a vowel behind it, too
    let once = khmer_normalize("ក\u{17D2}\u{17D2}ខ\u{179A}\u{17B6}");
    assert_eq!(once, "ក\u{17D2}ខ\u{17D2}\u{179A}\u{17B6}");
    assert_eq!(khmer_normalize(&once), once);
}
