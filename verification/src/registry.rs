use vstd::prelude::*;
use vstd::string::StringExecFns;
use crate::newmm::{concat_views, NewmmTokenizer};
use crate::dict_reader::word_list_set;

verus! {

/// The named-dictionary registry: a mapping from name to tokenizer, owned
/// by whoever drives the library. The first successful load of a name wins;
/// loading an existing name changes nothing.
pub struct Registry {
    pub names: Vec<String>,
    pub dicts: Vec<NewmmTokenizer>,
}

impl Registry {
    /// One tokenizer per name, each with a consistent dictionary.
    pub open spec fn wf(self) -> bool {
        &&& self.names@.len() == self.dicts@.len()
        &&& forall|i: int| 0 <= i < self.dicts@.len() ==> (#[trigger] self.dicts@[i]).dict.wf()
    }

    /// A dictionary of this name is registered.
    pub open spec fn has_name(self, name: Seq<char>) -> bool {
        exists|i: int| 0 <= i < self.names@.len() && (#[trigger] self.names@[i])@ == name
    }

    /// An empty registry.
    pub fn new() -> (r: Self)
        ensures
            r.wf(),
            forall|name: Seq<char>| !r.has_name(name),
    {
        Registry { names: Vec::new(), dicts: Vec::new() }
    }

    fn find(&self, dict_name: &str) -> (r: Option<usize>)
        requires
            self.wf(),
        ensures
            match r {
                Some(i) => i < self.dicts.len() && self.names@[i as int]@ == dict_name@,
                None => !self.has_name(dict_name@),
            },
    {
        let key = String::from_str(dict_name);
        let n = self.names.len();
        let mut i: usize = 0;
        while i < n
            invariant
                i <= n,
                n == self.names@.len(),
                self.wf(),
                key@ == dict_name@,
                forall|m: int| 0 <= m < i ==> (#[trigger] self.names@[m])@ != dict_name@,
            decreases n - i,
        {
            if self.names[i] == key {
                return Some(i);
            }
            i += 1;
        }
        proof {
            if self.has_name(dict_name@) {
                let m = choose|m: int|
                    0 <= m < self.names@.len() && (#[trigger] self.names@[m])@ == dict_name@;
                assert((self.names@[m])@ != dict_name@);
            }
        }
        None
    }

    /// Register a dictionary built from `word_list` under `dict_name`,
    /// unless that name exists: then nothing changes and the load fails
    /// with an explanatory message. `source_label` names where the words
    /// came from, for the status message only.
    pub fn load_dict(&mut self, word_list: Vec<String>, source_label: &str, dict_name: &str) -> (r:
        (String, bool))
        requires
            old(self).wf(),
        ensures
            final(self).wf(),
            r.1 == !old(self).has_name(dict_name@),
            !r.1 ==> *final(self) == *old(self) && r.0@ == "Failed: dictionary name "@ + dict_name@
                + " already exists, please use another name."@,
            r.1 ==> {
                &&& final(self).names@.len() == old(self).names@.len() + 1
                &&& final(self).names@[final(self).names@.len() - 1]@ == dict_name@
                &&& final(self).dicts@[final(self).dicts@.len() - 1].dict.word_set()
                    == word_list_set(word_list.deep_view())
                &&& forall|i: int|
                    0 <= i < old(self).names@.len() ==> final(self).names@[i] == old(
                        self,
                    ).names@[i] && final(self).dicts@[i] == old(self).dicts@[i]
                &&& r.0@ == "Successful: file "@ + source_label@
                    + " has been successfully loaded to dictionary name "@ + dict_name@ + "."@
            },
    {
        match self.find(dict_name) {
            Some(_) => {
                proof {
                    assert(self.has_name(dict_name@));
                }
                let mut msg = String::from_str("Failed: dictionary name ");
                msg.append(dict_name);
                msg.append(" already exists, please use another name.");
                (msg, false)
            },
            None => {
                let tokenizer = NewmmTokenizer::from_word_list(word_list);
                let ghost pre = *self;
                self.names.push(String::from_str(dict_name));
                self.dicts.push(tokenizer);
                let mut msg = String::from_str("Successful: file ");
                msg.append(source_label);
                msg.append(" has been successfully loaded to dictionary name ");
                msg.append(dict_name);
                msg.append(".");
                (msg, true)
            },
        }
    }

    /// Segment `text` with the named dictionary. An unknown name is a
    /// reported error; otherwise the tokens concatenate to the text.
    pub fn newmm(&self, text: &str, dict_name: &str, safe: bool, parallel: bool) -> (r: Result<
        Vec<String>,
        String,
    >)
        requires
            self.wf(),
            text@.len() < usize::MAX,
        ensures
            match r {
                Ok(toks) => self.has_name(dict_name@) && concat_views(toks.deep_view()) == text@
                    && (forall|j: int|
                    0 <= j < toks.deep_view().len() ==> (#[trigger] toks.deep_view()[j]).len() > 0)
                    && (text@.len() == 0 ==> toks@.len() == 0),
                Err(msg) => !self.has_name(dict_name@) && msg@ == "Dictionary name "@ + dict_name@
                    + " does not exist."@,
            },
    {
        match self.find(dict_name) {
            Some(i) => {
                proof {
                    assert(self.has_name(dict_name@));
                }
                let toks = self.dicts[i].segment_to_string(text, safe, parallel);
                Ok(toks)
            },
            None => {
                let mut msg = String::from_str("Dictionary name ");
                msg.append(dict_name);
                msg.append(" does not exist.");
                Err(msg)
            },
        }
    }
}

} // verus!
