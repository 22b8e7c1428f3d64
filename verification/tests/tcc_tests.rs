use thongna::tcc_tokenizer::tcc_pos;

fn cs(s: &str) -> Vec<char> {
    s.chars().collect()
}

#[test]
fn test_cluster_karan() {
    let kr_result = tcc_pos(&cs("พิสูจน์ได้ค่ะ"));
    assert!(kr_result.contains(&2));
    assert!(kr_result.contains(&7));
    assert!(kr_result.contains(&10));
    assert!(kr_result.contains(&13));
}

#[test]
fn test_cluster_general_case() {
    let gen_result = tcc_pos(&cs("เรือน้อยลอยอยู่"));
    assert!(gen_result.contains(&4));
    assert!(gen_result.contains(&6));
    assert!(gen_result.contains(&7));
    assert!(gen_result.contains(&8));
    assert!(gen_result.contains(&9));
    assert!(gen_result.contains(&10));
    assert!(gen_result.contains(&11));
    assert!(gen_result.contains(&12));
    assert!(gen_result.contains(&15));
}

#[test]
fn boundaries_increase_and_end_at_the_character_count() {
    for text in ["พิสูจน์ได้ค่ะ", "abc กข 123", ""] {
        let b = tcc_pos(&cs(text));
        for w in b.windows(2) {
            assert!(w[0] < w[1]);
        }
        let n = text.chars().count();
        if n == 0 {
            assert!(b.is_empty());
        } else {
            assert_eq!(*b.last().unwrap(), n);
        }
    }
}
