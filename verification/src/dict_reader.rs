use vstd::prelude::*;
use crate::chars::chars_of;
use crate::trie_char::{dict_word_set, TrieChar};

verus! {

broadcast use crate::chars::lemma_char_vec_deep_view;

#[verifier::external_type_specification]
#[verifier::external_body]
pub struct ExPathBuf(std::path::PathBuf);

/// Where a dictionary comes from: a word-list file, one trimmed word per
/// line, or an in-memory list of words.
pub enum DictSource {
    FilePath(std::path::PathBuf),
    WordList(Vec<String>),
}

/// The set of trimmed, non-blank words of a list of strings.
pub open spec fn word_list_set(ws: Seq<Seq<char>>) -> Set<Seq<char>> {
    dict_word_set(ws)
}

/// Build the dictionary trie from an in-memory word list.
pub fn create_dict_trie_from_word_list(word_list: &Vec<String>) -> (r: TrieChar)
    ensures
        r.wf(),
        r.word_set() == word_list_set(word_list.deep_view()),
{
    let n = word_list.len();
    let mut cv: Vec<Vec<char>> = Vec::new();
    let mut i: usize = 0;
    while i < n
        invariant
            i <= n,
            n == word_list@.len(),
            cv@.len() == i,
            forall|k: int| 0 <= k < i ==> (#[trigger] cv@[k])@ == word_list@[k]@,
        decreases n - i,
    {
        let w = chars_of(word_list[i].as_str());
        let ghost wv = w@;
        proof {
            assert(wv == word_list@[i as int]@);
        }
        cv.push(w);
        i += 1;
    }
    proof {
        assert(cv.deep_view() =~= word_list.deep_view()) by {
            assert forall|k: int|
                0 <= k < cv@.len() implies cv.deep_view()[k] == word_list.deep_view()[k] by {
                assert(cv.deep_view()[k] == cv@[k].deep_view());
                assert(cv@[k].deep_view() == cv@[k]@);
                assert(word_list.deep_view()[k] == word_list@[k].deep_view());
            }
        }
    }
    TrieChar::new(&cv)
}

} // verus!
