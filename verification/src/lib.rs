pub mod chars;
pub mod custom_regex;
pub mod dict_reader;
pub mod min_heap;
pub mod normalize;
pub mod registry;
pub mod newmm;
pub mod tcc_rules;
pub mod tcc_tokenizer;
pub mod trie_char;

use vstd::prelude::*;

verus! {

/// Number of bytes the UTF-8 encoding of `c` occupies.
pub open spec fn spec_utf8_len(c: char) -> int {
    if c <= '\u{7f}' {
        1
    } else if c <= '\u{7ff}' {
        2
    } else if c <= '\u{ffff}' {
        3
    } else {
        4
    }
}

/// Width in bytes of one character in the UTF-8 encoding.
pub fn utf8_len(c: char) -> (n: usize)
    ensures
        n == spec_utf8_len(c),
{
    let u = c as u32;
    if u < 0x80 {
        1
    } else if u < 0x800 {
        2
    } else if u < 0x10000 {
        3
    } else {
        4
    }
}

} // verus!
