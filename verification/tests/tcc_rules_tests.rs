use thongna::custom_regex::regex_pattern_to_custom_pattern;
use thongna::tcc_rules::replace_tcc_symbol;

#[test]
fn tcc_regex_test_cases() {
    let test_cases = [
        ("^เc็ck", "^\\x00เ\\x00[ก-ฮ]\\x00็\\x00[ก-ฮ](\\x00[ก-ฮ](\\x00[ก-ฮ])?(\\x00[ิุ-ู])?\\x00[์])?"),
        ("^เcctาะ", "^\\x00เ\\x00[ก-ฮ]\\x00[ก-ฮ](\\x00[่-๋])?\\x00า\\x00ะ"),
        ("^เccีtยะ", "^\\x00เ\\x00[ก-ฮ]\\x00[ก-ฮ]\\x00ี(\\x00[่-๋])?\\x00ย\\x00ะ"),
        ("^เcc็c", "^\\x00เ\\x00[ก-ฮ]\\x00[ก-ฮ]\\x00็\\x00[ก-ฮ]"),
        ("^เcิc์c", "^\\x00เ\\x00[ก-ฮ]\\x00ิ\\x00[ก-ฮ]\\x00์\\x00[ก-ฮ]"),
        ("^เcิtc", "^\\x00เ\\x00[ก-ฮ]\\x00ิ(\\x00[่-๋])?\\x00[ก-ฮ]"),
        ("^เcีtยะ?", "^\\x00เ\\x00[ก-ฮ]\\x00ี(\\x00[่-๋])?\\x00ย(\\x00ะ)?"),
        ("^เcืtอะ?", "^\\x00เ\\x00[ก-ฮ]\\x00ื(\\x00[่-๋])?\\x00อ(\\x00ะ)?"),
        ("^เctา?ะ?", "^\\x00เ\\x00[ก-ฮ](\\x00[่-๋])?(\\x00า)?(\\x00ะ)?"),
        ("^cัtวะ", "^\\x00[ก-ฮ]\\x00ั(\\x00[่-๋])?\\x00ว\\x00ะ"),
        ("^c[ัื]tc[ุิะ]?", "^\\x00[ก-ฮ]\\x00[ัื](\\x00[่-๋])?\\x00[ก-ฮ](\\x00[ะิุ])?"),
        ("^c[ิุู]์", "^\\x00[ก-ฮ]\\x00[ิุ-ู]\\x00์"),
        ("^c[ะ-ู]t", "^\\x00[ก-ฮ]\\x00[ะ-ู](\\x00[่-๋])?"),
        ("^c็", "^\\x00[ก-ฮ]\\x00็"),
        ("^ct[ะาำ]?", "^\\x00[ก-ฮ](\\x00[่-๋])?(\\x00[ะา-ำ])?"),
        ("^แc็c", "^\\x00แ\\x00[ก-ฮ]\\x00็\\x00[ก-ฮ]"),
        ("^แcc์", "^\\x00แ\\x00[ก-ฮ]\\x00[ก-ฮ]\\x00์"),
        ("^แctะ", "^\\x00แ\\x00[ก-ฮ](\\x00[่-๋])?\\x00ะ"),
        ("^แcc็c", "^\\x00แ\\x00[ก-ฮ]\\x00[ก-ฮ]\\x00็\\x00[ก-ฮ]"),
        ("^แccc์", "^\\x00แ\\x00[ก-ฮ]\\x00[ก-ฮ]\\x00[ก-ฮ]\\x00์"),
        ("^โctะ", "^\\x00โ\\x00[ก-ฮ](\\x00[่-๋])?\\x00ะ"),
        ("^[เ-ไ]ct", "^\\x00[เ-ไ]\\x00[ก-ฮ](\\x00[่-๋])?"),
    ];

    for (input, expected) in test_cases.iter() {
        let result = regex_pattern_to_custom_pattern(&replace_tcc_symbol(input)).unwrap();
        assert_eq!(&result, expected, "Failed for input: {}", input);
    }

    let look_ahead_cases = [
        ("^(เccีtย)[เ-ไก-ฮ]", "^(\\x00เ\\x00[ก-ฮ]\\x00[ก-ฮ]\\x00ี(\\x00[่-๋])?\\x00ย)\\x00[ก-ฮเ-ไ]"),
        ("^(เc[ิีุู]tย)[เ-ไก-ฮ]", "^(\\x00เ\\x00[ก-ฮ]\\x00[ิ-ีุ-ู](\\x00[่-๋])?\\x00ย)\\x00[ก-ฮเ-ไ]"),
    ];

    for (input, expected) in look_ahead_cases.iter() {
        let result = regex_pattern_to_custom_pattern(&replace_tcc_symbol(input)).unwrap();
        assert_eq!(&result, expected, "Failed for look-ahead input: {}", input);
    }
}

#[test]
fn newmm_exception_match_cases() {
    let test_cases = [
        ("(?x)^\\r?\\n", "^(\\x00\\x00\\x00\\r)?\\x00\\x00\\x00\\n"),
        ("^[ \\t]+", "^(\\x00\\x00\\x00[\\t ])+"),
        ("(?x)^[-a-zA-Z]+", "^(\\x00\\x00\\x00[\\-A-Za-z])+"),
        ("(?x)^[๐-๙]+([,\\.][๐-๙]+)*", "^(\\x00[๐-๙])+(\\x00\\x00\\x00[,\\.](\\x00[๐-๙])+)*"),
        ("(?x)^[0-9]+([,\\.][0-9]+)*", "^(\\x00\\x00\\x00[0-9])+(\\x00\\x00\\x00[,\\.](\\x00\\x00\\x00[0-9])+)*"),
        ("^[ก-ฮ]{0,2}$", "^(\\x00[ก-ฮ]){0,2}$"),
    ];

    for (input, expected) in test_cases.iter() {
        let result = regex_pattern_to_custom_pattern(input).unwrap();
        assert_eq!(&result, expected, "Failed for input: {}", input);
    }
}

#[test]
fn malformed_patterns_are_rejected() {
    assert!(regex_pattern_to_custom_pattern("[\u{0e01}\u{0e02}").is_none());
    assert!(regex_pattern_to_custom_pattern("(\u{0e01}\u{0e02}").is_none());
    assert!(regex_pattern_to_custom_pattern("?").is_none());
    assert!(regex_pattern_to_custom_pattern("a{2,3").is_none());
}
