use thongna::newmm::NewmmTokenizer;

fn dict() -> NewmmTokenizer {
    NewmmTokenizer::from_word_list(vec!["กากบาท".to_string(), "กาแฟ".to_string()])
}

#[test]
fn segments_two_dictionary_words() {
    let t = dict();
    let toks = t.segment_to_string("กากบาทกาแฟ", false, false);
    assert_eq!(toks, vec!["กากบาท".to_string(), "กาแฟ".to_string()]);
}

#[test]
fn empty_text_gives_an_empty_list_in_every_mode() {
    let t = dict();
    assert_eq!(t.segment_to_string("", false, false), Vec::<String>::new());
    assert_eq!(t.segment_to_string("", true, false), Vec::<String>::new());
    assert_eq!(t.segment_to_string("", true, true), Vec::<String>::new());
}

#[test]
fn tokens_concatenate_to_the_input() {
    let t = dict();
    for text in [
        "กากบาทกาแฟ",
        "abc-def 123,456 กาแฟ\nข้อความ ๑๒๓",
        "no thai at all",
        "ๆๆๆ!!!??",
    ] {
        for safe in [false, true] {
            let toks = t.segment_to_string(text, safe, false);
            let joined: String = toks.concat();
            assert_eq!(joined, text, "mode safe={}", safe);
        }
    }
}

#[test]
fn safe_and_unsafe_modes_agree_on_short_text() {
    let t = dict();
    let text = "กาแฟกากบาทกาแฟ abc";
    assert_eq!(
        t.segment_to_string(text, false, false),
        t.segment_to_string(text, true, false)
    );
}

#[test]
fn parallel_flag_does_not_change_the_tokens() {
    let t = dict();
    let text = "กากบาทกาแฟ 12";
    assert_eq!(
        t.segment_to_string(text, false, false),
        t.segment_to_string(text, false, true)
    );
}

#[test]
fn safe_mode_still_round_trips_long_text() {
    let t = dict();
    let mut text = String::new();
    for _ in 0..60 {
        text.push_str("กาแฟ");
    }
    let toks = t.segment_to_string(&text, true, false);
    let joined: String = toks.concat();
    assert_eq!(joined, text);
    let unsafe_toks = t.segment_to_string(&text, false, false);
    let joined2: String = unsafe_toks.concat();
    assert_eq!(joined2, text);
}

#[test]
fn added_words_are_used_and_removed_words_are_not() {
    let mut t = dict();
    t.add_word(&vec!["ศาล".to_string()]);
    assert!(t.dict.contain(&"ศาล".chars().collect()));
    t.remove_word(&vec!["ศาล".to_string()]);
    assert!(!t.dict.contain(&"ศาล".chars().collect()));
}

#[test]
fn fallback_groups_latin_digits_and_spaces() {
    let t = dict();
    let toks = t.segment_to_string("abc 123", false, false);
    assert_eq!(
        toks,
        vec!["abc".to_string(), " ".to_string(), "123".to_string()]
    );
}
