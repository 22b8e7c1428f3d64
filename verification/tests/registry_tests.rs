use thongna::registry::Registry;

#[test]
fn first_load_wins_and_a_second_load_fails_unchanged() {
    let mut reg = Registry::new();
    let words = vec!["กากบาท".to_string(), "กาแฟ".to_string()];
    let (_msg, ok) = reg.load_dict(words.clone(), "words.txt", "th");
    assert!(ok);
    let before = reg.newmm("กากบาทกาแฟ", "th", false, false).unwrap();
    let (msg2, ok2) = reg.load_dict(vec!["อื่น".to_string()], "words.txt", "th");
    assert!(!ok2);
    assert!(msg2.contains("already exists"));
    let after = reg.newmm("กากบาทกาแฟ", "th", false, false).unwrap();
    assert_eq!(before, after);
    assert_eq!(after, vec!["กากบาท".to_string(), "กาแฟ".to_string()]);
}

#[test]
fn unknown_dictionary_name_is_a_reported_error() {
    let reg = Registry::new();
    let err = reg.newmm("กาแฟ", "missing", false, false).unwrap_err();
    assert_eq!(err, "Dictionary name missing does not exist.");
}
