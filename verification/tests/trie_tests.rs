use thongna::dict_reader::create_dict_trie_from_word_list;
use thongna::trie_char::TrieChar;

fn cs(s: &str) -> Vec<char> {
    s.chars().collect()
}

#[test]
fn test_trie() {
    let test_word_list = vec![
        "กากบาท".to_string(),
        "กาแฟ".to_string(),
        "กรรม".to_string(),
        "42".to_string(),
        "aง|.%".to_string(),
    ];
    let trie = create_dict_trie_from_word_list(&test_word_list);
    assert!(trie.contain(&cs("กาแฟ")));
    assert_eq!(trie.amount_of_words(), 5);
}

#[test]
fn test_add_and_remove_word() {
    let mut trie = TrieChar::new(&vec![cs("ศาล")]);
    assert_eq!(trie.amount_of_words(), 1);
    trie.add(&cs("ศาล"));
    assert_eq!(trie.amount_of_words(), 1);
    trie.add(&cs("  ศาล "));
    assert_eq!(trie.amount_of_words(), 1);
    trie.add(&cs("ศาลา"));
    assert_eq!(trie.amount_of_words(), 2);
    trie.remove(&cs("ศาลา"));
    assert_eq!(trie.amount_of_words(), 1);
    trie.remove(&cs("ลา"));
    assert_eq!(trie.amount_of_words(), 1);
    trie.remove(&cs("ศาล"));
    assert_eq!(trie.amount_of_words(), 0);
    trie.remove(&cs(""));
    assert_eq!(trie.amount_of_words(), 0);
}

#[test]
fn prefix_ref_lists_exactly_the_prefix_words_by_length() {
    let trie = TrieChar::new(&vec![cs("กา"), cs("กาก"), cs("กากบาท"), cs("บาท")]);
    let found = TrieChar::prefix_ref(&cs("กากบาท"), &trie);
    let words: Vec<String> = found.iter().map(|w| w.iter().collect()).collect();
    assert_eq!(words, vec!["กา".to_string(), "กาก".to_string(), "กากบาท".to_string()]);
}
