use thongna::normalize::normalize;

#[test]
fn digit_runs_are_padded_with_single_spaces() {
    assert_eq!(normalize("ราคา100บาท", true), "ราคา 100 บาท");
}

#[test]
fn digit_runs_stay_put_without_the_flag() {
    assert_eq!(normalize("ราคา100บาท", false), "ราคา100บาท");
}

#[test]
fn zero_width_spaces_are_removed() {
    assert_eq!(normalize("ก\u{200b}ข", false), "กข");
}

#[test]
fn blank_runs_collapse_to_one() {
    assert_eq!(normalize("ก  ข\t\tค\n\nง", false), "ก ข\tค\nง");
}

#[test]
fn doubled_sara_e_becomes_sara_ae() {
    assert_eq!(normalize("\u{0e40}\u{0e40}ก", false), "\u{0e41}ก");
}

#[test]
fn tone_mark_written_before_its_vowel_is_reordered() {
    // tone mark + sara i swap into vowel-then-tone order
    assert_eq!(
        normalize("น\u{0e48}\u{0e34}", false),
        "น\u{0e34}\u{0e48}"
    );
}

#[test]
fn nikhahit_sara_aa_becomes_sara_am() {
    assert_eq!(normalize("ก\u{0e4d}\u{0e32}", false), "ก\u{0e33}");
}

#[test]
fn repeated_diacritics_collapse_to_one() {
    assert_eq!(normalize("ก\u{0e48}\u{0e48}", false), "ก\u{0e48}");
}
