use vstd::prelude::*;
use crate::chars::{chars_of, replace_char, spec_replace_char, string_from_chars};

verus! {

/// Class of Thai consonants, written `c` in the compact rule notation.
pub const CLS_CONS: u8 = 0;

/// Class of the four tone marks, written `t` (optional) in the notation.
pub const CLS_TONE: u8 = 1;

/// The two above-vowels a rule allows between consonants.
pub const CLS_AV: u8 = 2;

/// The short vowels that may close that same rule.
pub const CLS_AV_TAIL: u8 = 3;

/// The vowels that may precede a final thanthakhat.
pub const CLS_UV: u8 = 4;

/// Every dependent vowel sign.
pub const CLS_DEP: u8 = 5;

/// The vowels that may close a bare consonant-tone cluster.
pub const CLS_A_TAIL: u8 = 6;

/// The leading vowels.
pub const CLS_LV: u8 = 7;

/// A leading vowel or a consonant, the look-ahead rules' final character.
pub const CLS_LV_CONS: u8 = 8;

/// The vowels admitted inside the second look-ahead rule.
pub const CLS_IV: u8 = 9;

/// Membership of `c` in the character class `id`.
pub open spec fn spec_class_has(id: u8, c: char) -> bool {
    let u = c as u32;
    if id == CLS_CONS {
        0x0e01 <= u <= 0x0e2e
    } else if id == CLS_TONE {
        0x0e48 <= u <= 0x0e4b
    } else if id == CLS_AV {
        u == 0x0e31 || u == 0x0e37
    } else if id == CLS_AV_TAIL {
        u == 0x0e38 || u == 0x0e34 || u == 0x0e30
    } else if id == CLS_UV {
        u == 0x0e34 || u == 0x0e38 || u == 0x0e39
    } else if id == CLS_DEP {
        0x0e30 <= u <= 0x0e39
    } else if id == CLS_A_TAIL {
        u == 0x0e30 || u == 0x0e32 || u == 0x0e33
    } else if id == CLS_LV {
        0x0e40 <= u <= 0x0e44
    } else if id == CLS_LV_CONS {
        0x0e40 <= u <= 0x0e44 || 0x0e01 <= u <= 0x0e2e
    } else if id == CLS_IV {
        u == 0x0e34 || u == 0x0e35 || u == 0x0e38 || u == 0x0e39
    } else {
        false
    }
}

pub fn class_has(id: u8, c: char) -> (r: bool)
    ensures
        r == spec_class_has(id, c),
{
    let u = c as u32;
    if id == CLS_CONS {
        0x0e01 <= u && u <= 0x0e2e
    } else if id == CLS_TONE {
        0x0e48 <= u && u <= 0x0e4b
    } else if id == CLS_AV {
        u == 0x0e31 || u == 0x0e37
    } else if id == CLS_AV_TAIL {
        u == 0x0e38 || u == 0x0e34 || u == 0x0e30
    } else if id == CLS_UV {
        u == 0x0e34 || u == 0x0e38 || u == 0x0e39
    } else if id == CLS_DEP {
        0x0e30 <= u && u <= 0x0e39
    } else if id == CLS_A_TAIL {
        u == 0x0e30 || u == 0x0e32 || u == 0x0e33
    } else if id == CLS_LV {
        0x0e40 <= u && u <= 0x0e44
    } else if id == CLS_LV_CONS {
        (0x0e40 <= u && u <= 0x0e44) || (0x0e01 <= u && u <= 0x0e2e)
    } else if id == CLS_IV {
        u == 0x0e34 || u == 0x0e35 || u == 0x0e38 || u == 0x0e39
    } else {
        false
    }
}

/// One element of a cluster-shape rule: a required or optional character,
/// or the optional final consonant-thanthakhat group.
#[derive(Clone, Copy)]
pub enum TccStep {
    Lit(char),
    Cls(u8),
    OptLit(char),
    OptCls(u8),
    KGroup,
}

/// Expand the compact rule notation: `k` to the optional final group,
/// `c` to the consonant class, `t` to an optional tone mark, `d` to the
/// two long dependent vowels.
pub fn replace_tcc_symbol(tcc_pattern: &str) -> (r: String)
    ensures
        r@ == spec_replace_char(
            spec_replace_char(
                spec_replace_char(
                    spec_replace_char(tcc_pattern@, 'k', "(cc?[d\u{0e34}]?[\u{0e4c}])?"@),
                    'c',
                    "[\u{0e01}-\u{0e2e}]"@,
                ),
                't',
                "[\u{0e48}-\u{0e4b}]?"@,
            ),
            'd',
            "\u{0e39}\u{0e38}"@,
        ),
{
    let v = chars_of(tcc_pattern);
    let k_rep = chars_of("(cc?[d\u{0e34}]?[\u{0e4c}])?");
    let c_rep = chars_of("[\u{0e01}-\u{0e2e}]");
    let t_rep = chars_of("[\u{0e48}-\u{0e4b}]?");
    let d_rep = chars_of("\u{0e39}\u{0e38}");
    let s1 = replace_char(&v, 'k', &k_rep);
    let s2 = replace_char(&s1, 'c', &c_rep);
    let s3 = replace_char(&s2, 't', &t_rep);
    let s4 = replace_char(&s3, 'd', &d_rep);
    string_from_chars(&s4)
}

/// The ordered cluster-shape rules, most specific first; the first match
/// wins. Their exact shapes are the pinned reference behaviour.
pub fn tcc_patterns() -> Vec<Vec<TccStep>> {
    let mut rules: Vec<Vec<TccStep>> = Vec::new();
    let mut r: Vec<TccStep> = Vec::new();
    r.push(TccStep::Lit('\u{0e40}'));
    r.push(TccStep::Cls(CLS_CONS));
    r.push(TccStep::Lit('\u{0e47}'));
    r.push(TccStep::Cls(CLS_CONS));
    r.push(TccStep::KGroup);
    rules.push(r);
    let mut r: Vec<TccStep> = Vec::new();
    r.push(TccStep::Lit('\u{0e40}'));
    r.push(TccStep::Cls(CLS_CONS));
    r.push(TccStep::Cls(CLS_CONS));
    r.push(TccStep::OptCls(CLS_TONE));
    r.push(TccStep::Lit('\u{0e32}'));
    r.push(TccStep::Lit('\u{0e30}'));
    r.push(TccStep::KGroup);
    rules.push(r);
    let mut r: Vec<TccStep> = Vec::new();
    r.push(TccStep::Lit('\u{0e40}'));
    r.push(TccStep::Cls(CLS_CONS));
    r.push(TccStep::Cls(CLS_CONS));
    r.push(TccStep::Lit('\u{0e35}'));
    r.push(TccStep::OptCls(CLS_TONE));
    r.push(TccStep::Lit('\u{0e22}'));
    r.push(TccStep::Lit('\u{0e30}'));
    r.push(TccStep::KGroup);
    rules.push(r);
    let mut r: Vec<TccStep> = Vec::new();
    r.push(TccStep::Lit('\u{0e40}'));
    r.push(TccStep::Cls(CLS_CONS));
    r.push(TccStep::Cls(CLS_CONS));
    r.push(TccStep::Lit('\u{0e47}'));
    r.push(TccStep::Cls(CLS_CONS));
    r.push(TccStep::KGroup);
    rules.push(r);
    let mut r: Vec<TccStep> = Vec::new();
    r.push(TccStep::Lit('\u{0e40}'));
    r.push(TccStep::Cls(CLS_CONS));
    r.push(TccStep::Lit('\u{0e34}'));
    r.push(TccStep::Cls(CLS_CONS));
    r.push(TccStep::Lit('\u{0e4c}'));
    r.push(TccStep::Cls(CLS_CONS));
    r.push(TccStep::KGroup);
    rules.push(r);
    let mut r: Vec<TccStep> = Vec::new();
    r.push(TccStep::Lit('\u{0e40}'));
    r.push(TccStep::Cls(CLS_CONS));
    r.push(TccStep::Lit('\u{0e34}'));
    r.push(TccStep::OptCls(CLS_TONE));
    r.push(TccStep::Cls(CLS_CONS));
    r.push(TccStep::KGroup);
    rules.push(r);
    let mut r: Vec<TccStep> = Vec::new();
    r.push(TccStep::Lit('\u{0e40}'));
    r.push(TccStep::Cls(CLS_CONS));
    r.push(TccStep::Lit('\u{0e35}'));
    r.push(TccStep::OptCls(CLS_TONE));
    r.push(TccStep::Lit('\u{0e22}'));
    r.push(TccStep::OptLit('\u{0e30}'));
    r.push(TccStep::KGroup);
    rules.push(r);
    let mut r: Vec<TccStep> = Vec::new();
    r.push(TccStep::Lit('\u{0e40}'));
    r.push(TccStep::Cls(CLS_CONS));
    r.push(TccStep::Lit('\u{0e37}'));
    r.push(TccStep::OptCls(CLS_TONE));
    r.push(TccStep::Lit('\u{0e2d}'));
    r.push(TccStep::OptLit('\u{0e30}'));
    r.push(TccStep::KGroup);
    rules.push(r);
    let mut r: Vec<TccStep> = Vec::new();
    r.push(TccStep::Lit('\u{0e40}'));
    r.push(TccStep::Cls(CLS_CONS));
    r.push(TccStep::OptCls(CLS_TONE));
    r.push(TccStep::OptLit('\u{0e32}'));
    r.push(TccStep::OptLit('\u{0e30}'));
    r.push(TccStep::KGroup);
    rules.push(r);
    let mut r: Vec<TccStep> = Vec::new();
    r.push(TccStep::Cls(CLS_CONS));
    r.push(TccStep::Lit('\u{0e31}'));
    r.push(TccStep::OptCls(CLS_TONE));
    r.push(TccStep::Lit('\u{0e27}'));
    r.push(TccStep::Lit('\u{0e30}'));
    r.push(TccStep::KGroup);
    rules.push(r);
    let mut r: Vec<TccStep> = Vec::new();
    r.push(TccStep::Cls(CLS_CONS));
    r.push(TccStep::Cls(CLS_AV));
    r.push(TccStep::OptCls(CLS_TONE));
    r.push(TccStep::Cls(CLS_CONS));
    r.push(TccStep::OptCls(CLS_AV_TAIL));
    r.push(TccStep::KGroup);
    rules.push(r);
    let mut r: Vec<TccStep> = Vec::new();
    r.push(TccStep::Cls(CLS_CONS));
    r.push(TccStep::Cls(CLS_UV));
    r.push(TccStep::Lit('\u{0e4c}'));
    r.push(TccStep::KGroup);
    rules.push(r);
    let mut r: Vec<TccStep> = Vec::new();
    r.push(TccStep::Cls(CLS_CONS));
    r.push(TccStep::Cls(CLS_DEP));
    r.push(TccStep::OptCls(CLS_TONE));
    r.push(TccStep::KGroup);
    rules.push(r);
    let mut r: Vec<TccStep> = Vec::new();
    r.push(TccStep::Cls(CLS_CONS));
    r.push(TccStep::Lit('\u{0e23}'));
    r.push(TccStep::Lit('\u{0e23}'));
    r.push(TccStep::Cls(CLS_CONS));
    r.push(TccStep::Lit('\u{0e4c}'));
    r.push(TccStep::Lit(' '));
    r.push(TccStep::Lit('\u{0e47}'));
    rules.push(r);
    let mut r: Vec<TccStep> = Vec::new();
    r.push(TccStep::Cls(CLS_CONS));
    r.push(TccStep::Lit('\u{0e47}'));
    rules.push(r);
    let mut r: Vec<TccStep> = Vec::new();
    r.push(TccStep::Cls(CLS_CONS));
    r.push(TccStep::OptCls(CLS_TONE));
    r.push(TccStep::OptCls(CLS_A_TAIL));
    r.push(TccStep::KGroup);
    rules.push(r);
    let mut r: Vec<TccStep> = Vec::new();
    r.push(TccStep::Cls(CLS_CONS));
    r.push(TccStep::KGroup);
    rules.push(r);
    let mut r: Vec<TccStep> = Vec::new();
    r.push(TccStep::Lit('\u{0e41}'));
    r.push(TccStep::Cls(CLS_CONS));
    r.push(TccStep::Lit('\u{0e47}'));
    r.push(TccStep::Cls(CLS_CONS));
    rules.push(r);
    let mut r: Vec<TccStep> = Vec::new();
    r.push(TccStep::Lit('\u{0e41}'));
    r.push(TccStep::Cls(CLS_CONS));
    r.push(TccStep::Cls(CLS_CONS));
    r.push(TccStep::Lit('\u{0e4c}'));
    rules.push(r);
    let mut r: Vec<TccStep> = Vec::new();
    r.push(TccStep::Lit('\u{0e41}'));
    r.push(TccStep::Cls(CLS_CONS));
    r.push(TccStep::OptCls(CLS_TONE));
    r.push(TccStep::Lit('\u{0e30}'));
    rules.push(r);
    let mut r: Vec<TccStep> = Vec::new();
    r.push(TccStep::Lit('\u{0e41}'));
    r.push(TccStep::Cls(CLS_CONS));
    r.push(TccStep::Cls(CLS_CONS));
    r.push(TccStep::Lit('\u{0e47}'));
    r.push(TccStep::Cls(CLS_CONS));
    rules.push(r);
    let mut r: Vec<TccStep> = Vec::new();
    r.push(TccStep::Lit('\u{0e41}'));
    r.push(TccStep::Cls(CLS_CONS));
    r.push(TccStep::Cls(CLS_CONS));
    r.push(TccStep::Cls(CLS_CONS));
    r.push(TccStep::Lit('\u{0e4c}'));
    rules.push(r);
    let mut r: Vec<TccStep> = Vec::new();
    r.push(TccStep::Lit('\u{0e42}'));
    r.push(TccStep::Cls(CLS_CONS));
    r.push(TccStep::OptCls(CLS_TONE));
    r.push(TccStep::Lit('\u{0e30}'));
    rules.push(r);
    let mut r: Vec<TccStep> = Vec::new();
    r.push(TccStep::Cls(CLS_LV));
    r.push(TccStep::Cls(CLS_CONS));
    r.push(TccStep::OptCls(CLS_TONE));
    rules.push(r);
    let mut r: Vec<TccStep> = Vec::new();
    r.push(TccStep::Lit('\u{0e01}'));
    r.push(TccStep::Lit('\u{0e47}'));
    rules.push(r);
    let mut r: Vec<TccStep> = Vec::new();
    r.push(TccStep::Lit('\u{0e2d}'));
    r.push(TccStep::Lit('\u{0e36}'));
    rules.push(r);
    let mut r: Vec<TccStep> = Vec::new();
    r.push(TccStep::Lit('\u{0e2b}'));
    r.push(TccStep::Lit('\u{0e36}'));
    rules.push(r);
    let mut r: Vec<TccStep> = Vec::new();
    r.push(TccStep::Lit('\u{0e40}'));
    r.push(TccStep::Cls(CLS_CONS));
    r.push(TccStep::Cls(CLS_CONS));
    r.push(TccStep::Lit('\u{0e35}'));
    r.push(TccStep::OptCls(CLS_TONE));
    r.push(TccStep::Lit('\u{0e22}'));
    r.push(TccStep::Cls(CLS_LV_CONS));
    r.push(TccStep::KGroup);
    rules.push(r);
    let mut r: Vec<TccStep> = Vec::new();
    r.push(TccStep::Lit('\u{0e40}'));
    r.push(TccStep::Cls(CLS_CONS));
    r.push(TccStep::Cls(CLS_IV));
    r.push(TccStep::OptCls(CLS_TONE));
    r.push(TccStep::Lit('\u{0e22}'));
    r.push(TccStep::Cls(CLS_LV_CONS));
    r.push(TccStep::KGroup);
    rules.push(r);
    rules
}

/// The two look-ahead rules: when one of them matches a cluster just
/// matched, the cluster's final character belongs to the next cluster.
pub fn lookahead_patterns() -> (r: Vec<Vec<TccStep>>)
    ensures
        r@.len() == 2,
{
    let mut rules: Vec<Vec<TccStep>> = Vec::new();
    let mut r: Vec<TccStep> = Vec::new();
    r.push(TccStep::Lit('\u{0e40}'));
    r.push(TccStep::Cls(CLS_CONS));
    r.push(TccStep::Cls(CLS_CONS));
    r.push(TccStep::Lit('\u{0e35}'));
    r.push(TccStep::OptCls(CLS_TONE));
    r.push(TccStep::Lit('\u{0e22}'));
    r.push(TccStep::Cls(CLS_LV_CONS));
    r.push(TccStep::KGroup);
    rules.push(r);
    let mut r: Vec<TccStep> = Vec::new();
    r.push(TccStep::Lit('\u{0e40}'));
    r.push(TccStep::Cls(CLS_CONS));
    r.push(TccStep::Cls(CLS_IV));
    r.push(TccStep::OptCls(CLS_TONE));
    r.push(TccStep::Lit('\u{0e22}'));
    r.push(TccStep::Cls(CLS_LV_CONS));
    r.push(TccStep::KGroup);
    rules.push(r);
    rules
}

} // verus!
