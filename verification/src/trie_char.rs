use vstd::prelude::*;
use crate::chars::{chars_eq, take_chars, trim_chars, spec_trim};

verus! {

broadcast use crate::chars::lemma_char_vec_deep_view;

/// One labelled link of the trie: (parent node, character, child node).
pub type TrieEdge = (usize, char, usize);

/// Edge `k` leaves node `i` under character `c`.
pub open spec fn edge_matches(edges: Seq<TrieEdge>, k: int, i: int, c: char) -> bool {
    &&& 0 <= k < edges.len()
    &&& edges[k].0 == i
    &&& edges[k].1 == c
}

/// Node `i` has a child reached by character `c`.
pub open spec fn has_child(edges: Seq<TrieEdge>, i: int, c: char) -> bool {
    exists|k: int| edge_matches(edges, k, i, c)
}

/// The child of node `i` under character `c` (meaningful when `has_child`).
pub open spec fn child_of(edges: Seq<TrieEdge>, i: int, c: char) -> int {
    edges[choose|k: int| edge_matches(edges, k, i, c)].2 as int
}

/// No two edges leave the same node under the same character.
pub open spec fn distinct_keys(edges: Seq<TrieEdge>) -> bool {
    forall|k1: int, k2: int|
        0 <= k1 < edges.len() && 0 <= k2 < edges.len() && k1 != k2 ==> !((#[trigger] edges[k1]).0
            == (#[trigger] edges[k2]).0 && edges[k1].1 == edges[k2].1)
}

/// Every edge stays inside the arena, never re-enters the root, and extends
/// the parent's path by its own character.
pub open spec fn edges_ok(edges: Seq<TrieEdge>, prefixes: Seq<Seq<char>>, n: int) -> bool {
    forall|k: int|
        0 <= k < edges.len() ==> {
            let e = #[trigger] edges[k];
            &&& (e.0 as int) < n
            &&& (e.2 as int) < n
            &&& e.2 != 0
            &&& prefixes[e.2 as int] == prefixes[e.0 as int].push(e.1)
        }
}

/// The node reached from `i` by walking the characters of `p`, if every step
/// has a matching edge.
pub open spec fn walk(edges: Seq<TrieEdge>, i: int, p: Seq<char>) -> Option<int>
    decreases p.len(),
{
    if p.len() == 0 {
        Some(i)
    } else if has_child(edges, i, p[0]) {
        walk(edges, child_of(edges, i, p[0]), p.subrange(1, p.len() as int))
    } else {
        None
    }
}

proof fn lemma_child_unique(edges: Seq<TrieEdge>, i: int, c: char, k: int)
    requires
        distinct_keys(edges),
        edge_matches(edges, k, i, c),
    ensures
        has_child(edges, i, c),
        child_of(edges, i, c) == edges[k].2,
{
    let k2 = choose|k2: int| edge_matches(edges, k2, i, c);
    if k2 != k {
        assert(false);
    }
}

/// Walking a path lands inside the arena, on the node whose recorded path
/// extends the start node's path by `p`.
proof fn lemma_walk_prefix(edges: Seq<TrieEdge>, prefixes: Seq<Seq<char>>, n: int, i: int, p: Seq<char>)
    requires
        edges_ok(edges, prefixes, n),
        0 <= i < n,
        walk(edges, i, p) is Some,
    ensures
        0 <= walk(edges, i, p)->Some_0 < n,
        prefixes[walk(edges, i, p)->Some_0] == prefixes[i] + p,
    decreases p.len(),
{
    if p.len() == 0 {
        assert(prefixes[i] + p =~= prefixes[i]);
    } else {
        let k = choose|k: int| edge_matches(edges, k, i, p[0]);
        let j = child_of(edges, i, p[0]);
        assert(j == edges[k].2);
        lemma_walk_prefix(edges, prefixes, n, j, p.subrange(1, p.len() as int));
        assert(prefixes[i].push(p[0]) + p.subrange(1, p.len() as int) =~= prefixes[i] + p);
    }
}

/// Walking a concatenation is walking the parts one after the other.
proof fn lemma_walk_append(edges: Seq<TrieEdge>, i: int, p: Seq<char>, q: Seq<char>)
    ensures
        walk(edges, i, p + q) == (match walk(edges, i, p) {
            Some(m) => walk(edges, m, q),
            None => None,
        }),
    decreases p.len(),
{
    if p.len() == 0 {
        assert(p + q =~= q);
    } else {
        assert((p + q)[0] == p[0]);
        if has_child(edges, i, p[0]) {
            let j = child_of(edges, i, p[0]);
            assert((p + q).subrange(1, (p + q).len() as int) =~= p.subrange(1, p.len() as int) + q);
            lemma_walk_append(edges, j, p.subrange(1, p.len() as int), q);
        }
    }
}

/// Adding an edge that leaves a node with no such child yet preserves every
/// walk that already succeeded.
proof fn lemma_walk_push_edge(edges: Seq<TrieEdge>, e: TrieEdge, i: int, p: Seq<char>)
    requires
        distinct_keys(edges),
        !has_child(edges, e.0 as int, e.1),
        walk(edges, i, p) is Some,
    ensures
        walk(edges.push(e), i, p) == walk(edges, i, p),
    decreases p.len(),
{
    let edges2 = edges.push(e);
    if p.len() > 0 {
        let k = choose|k: int| edge_matches(edges, k, i, p[0]);
        assert(edge_matches(edges2, k, i, p[0]));
        assert(distinct_keys(edges2)) by {
            lemma_distinct_push(edges, e);
        }
        lemma_child_unique(edges2, i, p[0], k);
        let j = child_of(edges, i, p[0]);
        assert(child_of(edges2, i, p[0]) == j);
        lemma_walk_push_edge(edges, e, j, p.subrange(1, p.len() as int));
    }
}

/// Key distinctness survives adding an edge under a fresh (node, character) key.
proof fn lemma_distinct_push(edges: Seq<TrieEdge>, e: TrieEdge)
    requires
        distinct_keys(edges),
        !has_child(edges, e.0 as int, e.1),
    ensures
        distinct_keys(edges.push(e)),
{
    let edges2 = edges.push(e);
    assert forall|k1: int, k2: int|
        0 <= k1 < edges2.len() && 0 <= k2 < edges2.len() && k1 != k2 implies !((#[trigger] edges2[k1]).0
        == (#[trigger] edges2[k2]).0 && edges2[k1].1 == edges2[k2].1) by {
        if k1 < edges.len() && k2 < edges.len() {
            assert(edges2[k1] == edges[k1] && edges2[k2] == edges[k2]);
        } else if k1 < edges.len() {
            assert(edges2[k2] == e);
            if edges2[k1].0 == e.0 && edges2[k1].1 == e.1 {
                assert(edge_matches(edges, k1, e.0 as int, e.1));
            }
        } else {
            assert(edges2[k1] == e);
            if edges2[k2].0 == e.0 && edges2[k2].1 == e.1 {
                assert(edge_matches(edges, k2, e.0 as int, e.1));
            }
        }
    }
}

/// Removing the sole edge into a childless node preserves every successful
/// walk that does not start or end at that node.
proof fn lemma_walk_remove_edge(edges: Seq<TrieEdge>, k: int, i: int, p: Seq<char>, x: int)
    requires
        distinct_keys(edges),
        0 <= k < edges.len(),
        forall|k2: int| 0 <= k2 < edges.len() ==> (#[trigger] edges[k2]).0 != edges[k].2,
        walk(edges, i, p) == Some(x),
        i != edges[k].2 as int,
        x != edges[k].2 as int,
    ensures
        walk(edges.remove(k), i, p) == Some(x),
    decreases p.len(),
{
    let edges2 = edges.remove(k);
    let d = edges[k].2 as int;
    if p.len() == 0 {
    } else {
        let k0 = choose|k0: int| edge_matches(edges, k0, i, p[0]);
        let j = child_of(edges, i, p[0]);
        assert(j == edges[k0].2);
        let rest = p.subrange(1, p.len() as int);
        assert(walk(edges, j, rest) == Some(x));
        if j == d {
            // a walk through the pruned node cannot continue nor stop elsewhere
            if p.len() == 1 {
                assert(rest.len() == 0);
                assert(walk(edges, j, rest) == Some(j));
                assert(x == d);
                assert(false);
            } else {
                assert(!has_child(edges, d, rest[0]));
                assert(walk(edges, j, rest) is None);
                assert(false);
            }
        }
        if k0 == k {
            assert(false);
        }
        let k0n = if k0 < k { k0 } else { k0 - 1 };
        assert(edges2[k0n] == edges[k0]);
        assert(edge_matches(edges2, k0n, i, p[0]));
        assert(distinct_keys(edges2)) by {
            lemma_distinct_remove(edges, k);
        }
        lemma_child_unique(edges2, i, p[0], k0n);
        lemma_walk_remove_edge(edges, k, j, p.subrange(1, p.len() as int), x);
    }
}

proof fn lemma_distinct_remove(edges: Seq<TrieEdge>, k: int)
    requires
        distinct_keys(edges),
        0 <= k < edges.len(),
    ensures
        distinct_keys(edges.remove(k)),
{
    let edges2 = edges.remove(k);
    assert forall|k1: int, k2: int|
        0 <= k1 < edges2.len() && 0 <= k2 < edges2.len() && k1 != k2 implies !((#[trigger] edges2[k1]).0
        == (#[trigger] edges2[k2]).0 && edges2[k1].1 == edges2[k2].1) by {
        let m1 = if k1 < k { k1 } else { k1 + 1 };
        let m2 = if k2 < k { k2 } else { k2 + 1 };
        assert(edges2[k1] == edges[m1] && edges2[k2] == edges[m2]);
    }
}

/// Removing an edge never creates a walk that did not exist.
proof fn lemma_walk_remove_none(edges: Seq<TrieEdge>, k: int, i: int, p: Seq<char>)
    requires
        distinct_keys(edges),
        0 <= k < edges.len(),
        walk(edges, i, p) is None,
    ensures
        walk(edges.remove(k), i, p) is None,
    decreases p.len(),
{
    let edges2 = edges.remove(k);
    if p.len() == 0 {
    } else {
        if has_child(edges2, i, p[0]) {
            let k0 = choose|k0: int| edge_matches(edges2, k0, i, p[0]);
            let m0 = if k0 < k {
                k0
            } else {
                k0 + 1
            };
            assert(edges2[k0] == edges[m0]);
            assert(edge_matches(edges, m0, i, p[0]));
            assert(has_child(edges, i, p[0]));
            let j = child_of(edges, i, p[0]);
            lemma_child_unique(edges, i, p[0], m0);
            assert(distinct_keys(edges2)) by {
                lemma_distinct_remove(edges, k);
            }
            lemma_child_unique(edges2, i, p[0], k0);
            assert(child_of(edges2, i, p[0]) == j);
            lemma_walk_remove_none(edges, k, j, p.subrange(1, p.len() as int));
        }
    }
}

/// After its one edge under a key is removed, a node has no child there.
proof fn lemma_no_child_after_remove(edges: Seq<TrieEdge>, k: int)
    requires
        distinct_keys(edges),
        0 <= k < edges.len(),
    ensures
        !has_child(edges.remove(k), edges[k].0 as int, edges[k].1),
{
    let edges2 = edges.remove(k);
    if has_child(edges2, edges[k].0 as int, edges[k].1) {
        let k0 = choose|k0: int| edge_matches(edges2, k0, edges[k].0 as int, edges[k].1);
        let m0 = if k0 < k {
            k0
        } else {
            k0 + 1
        };
        assert(edges2[k0] == edges[m0]);
        assert(m0 != k);
        assert(edge_matches(edges, m0, edges[k].0 as int, edges[k].1));
        assert(false);
    }
}

/// The word set seen through a pushed sequence.
proof fn lemma_to_set_push(s: Seq<Seq<char>>, x: Seq<char>)
    ensures
        s.push(x).to_set() == s.to_set().insert(x),
{
    assert forall|y: Seq<char>| s.push(x).to_set().contains(y) implies s.to_set().insert(x).contains(
        y,
    ) by {
        let i = choose|i: int| 0 <= i < s.push(x).len() && s.push(x)[i] == y;
        if i < s.len() {
            assert(s[i] == y);
        }
    }
    assert forall|y: Seq<char>| s.to_set().insert(x).contains(y) implies s.push(x).to_set().contains(
        y,
    ) by {
        if y == x {
            assert(s.push(x)[s.len() as int] == x);
        } else {
            let i = choose|i: int| 0 <= i < s.len() && s[i] == y;
            assert(s.push(x)[i] == y);
        }
    }
    assert(s.push(x).to_set() =~= s.to_set().insert(x));
}

/// Removing one entry of a duplicate-free sequence removes exactly that word.
proof fn lemma_to_set_remove(s: Seq<Seq<char>>, i: int)
    requires
        0 <= i < s.len(),
        forall|m: int, j: int| 0 <= m < j < s.len() ==> s[m] != s[j],
    ensures
        s.remove(i).to_set() == s.to_set().remove(s[i]),
{
    let s2 = s.remove(i);
    assert forall|y: Seq<char>| s2.to_set().contains(y) implies s.to_set().remove(s[i]).contains(
        y,
    ) by {
        let m = choose|m: int| 0 <= m < s2.len() && s2[m] == y;
        let m0 = if m < i { m } else { m + 1 };
        assert(s[m0] == y);
        assert(m0 != i);
        if y == s[i] {
            assert(s[m0] == s[i]);
            assert(false);
        }
    }
    assert forall|y: Seq<char>| s.to_set().remove(s[i]).contains(y) implies s2.to_set().contains(
        y,
    ) by {
        let m0 = choose|m0: int| 0 <= m0 < s.len() && s[m0] == y;
        assert(m0 != i);
        let m = if m0 < i { m0 } else { m0 - 1 };
        assert(s2[m] == y);
    }
    assert(s2.to_set() =~= s.to_set().remove(s[i]));
}

/// The set of trimmed, non-blank entries of a word list.
pub open spec fn dict_word_set(ws: Seq<Seq<char>>) -> Set<Seq<char>>
    decreases ws.len(),
{
    if ws.len() == 0 {
        Set::empty()
    } else {
        let t = spec_trim(ws.last());
        let rest = dict_word_set(ws.drop_last());
        if t.len() == 0 {
            rest
        } else {
            rest.insert(t)
        }
    }
}

/// A character-keyed prefix tree over an arena of nodes, with the raw word
/// set stored alongside for exact membership queries.
pub struct TrieChar {
    pub ends: Vec<bool>,
    pub edges: Vec<TrieEdge>,
    pub words: Vec<Vec<char>>,
    pub prefixes: Ghost<Seq<Seq<char>>>,
}

impl TrieChar {
    /// The words currently stored, in insertion order.
    pub open spec fn words_view(self) -> Seq<Seq<char>> {
        self.words.deep_view()
    }

    /// The dictionary as a set of words.
    pub open spec fn word_set(self) -> Set<Seq<char>> {
        self.words_view().to_set()
    }

    pub open spec fn n_nodes(self) -> int {
        self.ends@.len() as int
    }

    pub open spec fn wf_words(self) -> bool {
        &&& forall|i: int|
            0 <= i < self.words_view().len() ==> (#[trigger] self.words_view()[i]).len() > 0
        &&& forall|i: int, j: int|
            0 <= i < j < self.words_view().len() ==> self.words_view()[i] != self.words_view()[j]
    }

    pub open spec fn wf_struct(self) -> bool {
        &&& self.ends@.len() >= 1
        &&& self.prefixes@.len() == self.ends@.len()
        &&& self.prefixes@[0] == Seq::<char>::empty()
        &&& edges_ok(self.edges@, self.prefixes@, self.n_nodes())
        &&& distinct_keys(self.edges@)
    }

    /// Walking `w` from the root reaches a terminal node.
    pub open spec fn word_node_ok(self, w: Seq<char>) -> bool {
        match walk(self.edges@, 0, w) {
            Some(j) => 0 <= j < self.ends@.len() && self.ends@[j],
            None => false,
        }
    }

    /// Every stored word is reachable in the tree and marked terminal there.
    pub open spec fn wf_complete(self) -> bool {
        forall|w: Seq<char>| #[trigger] self.word_set().contains(w) ==> self.word_node_ok(w)
    }

    /// Every terminal node carries a stored word and is reached by its own path.
    pub open spec fn wf_sound(self) -> bool {
        forall|i: int|
            0 <= i < self.ends@.len() && #[trigger] self.ends@[i] ==> {
                &&& self.word_set().contains(self.prefixes@[i])
                &&& walk(self.edges@, 0, self.prefixes@[i]) == Some(i)
            }
    }

    /// Along the proper prefixes of `w`, every node still reachable is
    /// terminal or has a child: nothing childless and non-terminal is left.
    pub open spec fn no_dead_on_path(self, w: Seq<char>) -> bool {
        forall|m: int|
            1 <= m <= w.len() ==> {
                let wk = #[trigger] walk(self.edges@, 0, w.subrange(0, m));
                wk is Some ==> (self.ends@[wk->Some_0] || exists|k: int|
                    0 <= k < self.edges@.len() && (#[trigger] self.edges@[k]).0 == wk->Some_0)
            }
    }

    /// The auxiliary word set and the tree always agree.
    pub open spec fn wf(self) -> bool {
        &&& self.wf_words()
        &&& self.wf_struct()
        &&& self.wf_complete()
        &&& self.wf_sound()
    }

    fn find_child(&self, i: usize, c: char) -> (r: Option<usize>)
        requires
            distinct_keys(self.edges@),
        ensures
            match r {
                Some(j) => has_child(self.edges@, i as int, c) && child_of(self.edges@, i as int, c)
                    == j as int,
                None => !has_child(self.edges@, i as int, c),
            },
    {
        let n = self.edges.len();
        let mut k: usize = 0;
        while k < n
            invariant
                k <= n,
                n == self.edges.len(),
                distinct_keys(self.edges@),
                forall|m: int| 0 <= m < k ==> !edge_matches(self.edges@, m, i as int, c),
            decreases n - k,
        {
            let e = self.edges[k];
            if e.0 == i && e.1 == c {
                proof {
                    lemma_child_unique(self.edges@, i as int, c, k as int);
                }
                return Some(e.2);
            }
            k += 1;
        }
        proof {
            if has_child(self.edges@, i as int, c) {
                let m = choose|m: int| edge_matches(self.edges@, m, i as int, c);
                assert(!edge_matches(self.edges@, m, i as int, c));
            }
        }
        None
    }

    fn childless(&self, i: usize) -> (r: bool)
        ensures
            r == (forall|k: int|
                0 <= k < self.edges@.len() ==> (#[trigger] self.edges@[k]).0 != i),
    {
        let n = self.edges.len();
        let mut k: usize = 0;
        while k < n
            invariant
                k <= n,
                n == self.edges.len(),
                forall|m: int| 0 <= m < k ==> (#[trigger] self.edges@[m]).0 != i,
            decreases n - k,
        {
            if self.edges[k].0 == i {
                return false;
            }
            k += 1;
        }
        true
    }

    fn words_index(&self, w: &Vec<char>) -> (r: Option<usize>)
        ensures
            match r {
                Some(i) => i < self.words.len() && self.words_view()[i as int] == w@,
                None => !self.word_set().contains(w@),
            },
    {
        let n = self.words.len();
        let mut i: usize = 0;
        while i < n
            invariant
                i <= n,
                n == self.words.len(),
                forall|m: int| 0 <= m < i ==> self.words_view()[m] != w@,
            decreases n - i,
        {
            if chars_eq(&self.words[i], w) {
                return Some(i);
            }
            i += 1;
        }
        proof {
            if self.word_set().contains(w@) {
                let m = choose|m: int| 0 <= m < self.words_view().len() && self.words_view()[m]
                    == w@;
                assert(self.words_view()[m] != w@);
            }
        }
        None
    }

    /// Exact membership of the untrimmed word in the dictionary.
    pub fn contain(&self, word: &Vec<char>) -> (r: bool)
        ensures
            r == self.word_set().contains(word@),
    {
        let r = self.words_index(word);
        proof {
            if r is Some {
                let i = r->Some_0;
                assert(self.words_view()[i as int] == word@);
                assert(self.word_set().contains(word@));
            }
        }
        r.is_some()
    }

    /// How many distinct words the dictionary holds.
    pub fn amount_of_words(&self) -> (r: usize)
        requires
            self.wf(),
        ensures
            r == self.words_view().len(),
            r == self.word_set().len(),
    {
        proof {
            assert(self.words_view().no_duplicates());
            self.words_view().unique_seq_to_set();
        }
        self.words.len()
    }

    /// The stored words, in insertion order.
    pub fn iterate(&self) -> (r: &Vec<Vec<char>>)
        ensures
            r.deep_view() == self.words_view(),
    {
        &self.words
    }

    /// Walk the tree along `t` as far as edges exist; returns the last node
    /// reached and how many characters were consumed.
    fn trie_descend(&self, t: &Vec<char>) -> (r: (usize, usize))
        requires
            self.wf_struct(),
        ensures
            r.1 <= t.len(),
            r.0 < self.ends.len(),
            walk(self.edges@, 0, t@.subrange(0, r.1 as int)) == Some(r.0 as int),
            self.prefixes@[r.0 as int] == t@.subrange(0, r.1 as int),
            r.1 < t.len() ==> !has_child(self.edges@, r.0 as int, t@[r.1 as int]),
    {
        let n = t.len();
        let mut cur: usize = 0;
        let mut pos: usize = 0;
        proof {
            assert(t@.subrange(0, 0) =~= Seq::<char>::empty());
        }
        while pos < n
            invariant
                pos <= n,
                n == t.len(),
                self.wf_struct(),
                cur < self.ends.len(),
                walk(self.edges@, 0, t@.subrange(0, pos as int)) == Some(cur as int),
                self.prefixes@[cur as int] == t@.subrange(0, pos as int),
            decreases n - pos,
        {
            match self.find_child(cur, t[pos]) {
                Some(j) => {
                    proof {
                        let p = t@.subrange(0, pos as int);
                        let q = t@.subrange(pos as int, pos + 1 as int);
                        lemma_walk_append(self.edges@, 0, p, q);
                        assert(p + q =~= t@.subrange(0, pos + 1 as int));
                        assert(q[0] == t@[pos as int]);
                        assert(q.subrange(1, 1) =~= Seq::<char>::empty());
                        assert(walk(self.edges@, j as int, Seq::<char>::empty()) == Some(j as int));
                        assert(walk(self.edges@, j as int, q.subrange(1, 1)) == Some(j as int));
                        assert(walk(self.edges@, cur as int, q) == Some(j as int));
                        lemma_walk_prefix(self.edges@, self.prefixes@, self.n_nodes(), 0,
                            t@.subrange(0, pos + 1 as int));
                        assert(Seq::<char>::empty() + t@.subrange(0, pos + 1 as int)
                            =~= t@.subrange(0, pos + 1 as int));
                    }
                    cur = j;
                    pos += 1;
                },
                None => {
                    return (cur, pos);
                },
            }
        }
        (cur, pos)
    }

    /// Insert `word`, trimmed, unless it is blank. Keeps the tree and the
    /// word set consistent.
    pub fn add(&mut self, word: &Vec<char>)
        requires
            old(self).wf(),
        ensures
            final(self).wf(),
            spec_trim(word@).len() == 0 ==> final(self).word_set() == old(self).word_set(),
            spec_trim(word@).len() > 0 ==> final(self).word_set() == old(self).word_set().insert(
                spec_trim(word@),
            ),
    {
        let t = trim_chars(word);
        if t.len() == 0 {
            return;
        }
        if self.words_index(&t).is_some() {
            proof {
                assert(self.word_set().contains(t@));
                assert(self.word_set().insert(t@) =~= self.word_set());
            }
            return;
        }
        let ghost old_self = *self;
        let ghost old_n = self.ends@.len() as int;
        let tc = take_chars(&t, t.len());
        proof {
            assert(tc@ =~= t@);
        }
        self.words.push(tc);
        proof {
            assert(self.words_view() =~= old_self.words_view().push(t@));
            lemma_to_set_push(old_self.words_view(), t@);
        }
        // walk the existing path, then grow fresh nodes for the remainder
        let (mut cur, mut pos) = self.trie_descend(&t);
        let n = t.len();
        while pos < n
            invariant
                pos <= n,
                n == t.len(),
                t@.len() > 0,
                cur < self.ends.len(),
                old_n >= 1,
                self.ends@.len() >= old_n,
                self.words_view() == old_self.words_view().push(t@),
                self.prefixes@.len() == self.ends@.len(),
                self.prefixes@[0] == Seq::<char>::empty(),
                edges_ok(self.edges@, self.prefixes@, self.n_nodes()),
                distinct_keys(self.edges@),
                walk(self.edges@, 0, t@.subrange(0, pos as int)) == Some(cur as int),
                self.prefixes@[cur as int] == t@.subrange(0, pos as int),
                pos < n ==> !has_child(self.edges@, cur as int, t@[pos as int]),
                forall|p: Seq<char>|
                    #[trigger] walk(old_self.edges@, 0, p) is Some ==> walk(self.edges@, 0, p)
                        == walk(old_self.edges@, 0, p),
                forall|i: int| 0 <= i < old_n ==> self.ends@[i] == old_self.ends@[i],
                forall|i: int| old_n <= i < self.ends@.len() ==> !self.ends@[i],
                forall|i: int| 0 <= i < old_n ==> self.prefixes@[i] == old_self.prefixes@[i],
            decreases n - pos,
        {
            let ghost pre = *self;
            let new_idx = self.ends.len();
            let c = t[pos];
            self.ends.push(false);
            proof {
                self.prefixes@ = pre.prefixes@.push(pre.prefixes@[cur as int].push(c));
            }
            let e: TrieEdge = (cur, c, new_idx);
            self.edges.push(e);
            proof {
                lemma_distinct_push(pre.edges@, e);
                assert forall|p: Seq<char>| #[trigger] walk(old_self.edges@, 0, p) is Some implies
                    walk(self.edges@, 0, p) == walk(old_self.edges@, 0, p) by {
                    lemma_walk_push_edge(pre.edges@, e, 0, p);
                }
                // the walk to the new node
                let p = t@.subrange(0, pos as int);
                let q = t@.subrange(pos as int, pos + 1 as int);
                lemma_walk_push_edge(pre.edges@, e, 0, p);
                lemma_walk_append(self.edges@, 0, p, q);
                assert(p + q =~= t@.subrange(0, pos + 1 as int));
                assert(edge_matches(self.edges@, pre.edges@.len() as int, cur as int, c));
                lemma_child_unique(self.edges@, cur as int, c, pre.edges@.len() as int);
                assert(q[0] == c);
                assert(q.subrange(1, 1) =~= Seq::<char>::empty());
                assert(walk(self.edges@, new_idx as int, Seq::<char>::empty()) == Some(
                    new_idx as int,
                ));
                assert(walk(self.edges@, new_idx as int, q.subrange(1, 1)) == Some(
                    new_idx as int,
                ));
                assert(walk(self.edges@, cur as int, q) == Some(new_idx as int));
                // the fresh node has no outgoing edges
                assert forall|c2: char| !has_child(self.edges@, new_idx as int, c2) by {
                    if has_child(self.edges@, new_idx as int, c2) {
                        let k = choose|k: int| edge_matches(self.edges@, k, new_idx as int, c2);
                        if k < pre.edges@.len() {
                            assert((pre.edges@[k].0 as int) < pre.n_nodes());
                        }
                    }
                }
            }
            cur = new_idx;
            pos += 1;
        }
        // mark the word's node terminal
        let ghost pre2 = *self;
        self.ends.set(cur, true);
        proof {
            assert(t@.subrange(0, n as int) =~= t@);
            let ws_new = old_self.word_set().insert(t@);
            assert(self.word_set() == ws_new);
            // completeness
            assert forall|w: Seq<char>| #[trigger] self.word_set().contains(w) implies
                self.word_node_ok(w) by {
                if w == t@ {
                    assert(walk(self.edges@, 0, t@) == Some(cur as int));
                } else {
                    assert(old_self.word_set().contains(w));
                    assert(old_self.word_node_ok(w));
                    let j = walk(old_self.edges@, 0, w)->Some_0;
                    lemma_walk_prefix(old_self.edges@, old_self.prefixes@, old_n, 0, w);
                    assert(walk(self.edges@, 0, w) == Some(j));
                }
            }
            // soundness
            assert forall|i: int|
                0 <= i < self.ends@.len() && #[trigger] self.ends@[i] implies {
                    &&& self.word_set().contains(self.prefixes@[i])
                    &&& walk(self.edges@, 0, self.prefixes@[i]) == Some(i)
                } by {
                if i == cur as int {
                    assert(self.prefixes@[i] == t@);
                    assert(walk(self.edges@, 0, t@) == Some(cur as int));
                } else if i < old_n {
                    assert(old_self.ends@[i]);
                    assert(old_self.word_set().contains(old_self.prefixes@[i]));
                    assert(walk(old_self.edges@, 0, old_self.prefixes@[i]) == Some(i));
                    assert(self.prefixes@[i] == old_self.prefixes@[i]);
                }
            }
        }
    }

    fn find_edge_idx(&self, i: usize, c: char) -> (r: Option<usize>)
        ensures
            match r {
                Some(k) => edge_matches(self.edges@, k as int, i as int, c),
                None => !has_child(self.edges@, i as int, c),
            },
    {
        let n = self.edges.len();
        let mut k: usize = 0;
        while k < n
            invariant
                k <= n,
                n == self.edges.len(),
                forall|m: int| 0 <= m < k ==> !edge_matches(self.edges@, m, i as int, c),
            decreases n - k,
        {
            let e = self.edges[k];
            if e.0 == i && e.1 == c {
                return Some(k);
            }
            k += 1;
        }
        proof {
            if has_child(self.edges@, i as int, c) {
                let m = choose|m: int| edge_matches(self.edges@, m, i as int, c);
                assert(!edge_matches(self.edges@, m, i as int, c));
            }
        }
        None
    }

    /// Remove `word`, trimmed, when present: it leaves the word set, its
    /// node loses the terminal mark, and nodes of its path that end up
    /// childless and non-terminal are pruned, deepest first.
    #[verifier::loop_isolation(false)]
    #[verifier::rlimit(100)]
    pub fn remove(&mut self, word: &Vec<char>)
        requires
            old(self).wf(),
        ensures
            final(self).wf(),
            final(self).word_set() == old(self).word_set().remove(spec_trim(word@)),
            old(self).word_set().contains(spec_trim(word@)) ==> final(self).no_dead_on_path(
                spec_trim(word@),
            ),
    {
        let t = trim_chars(word);
        if t.len() == 0 {
            proof {
                if self.word_set().contains(t@) {
                    let m = choose|m: int|
                        0 <= m < self.words_view().len() && self.words_view()[m] == t@;
                    assert(self.words_view()[m].len() > 0);
                }
                assert(self.word_set().remove(t@) =~= self.word_set());
            }
            return;
        }
        let idx = match self.words_index(&t) {
            None => {
                proof {
                    assert(self.word_set().remove(t@) =~= self.word_set());
                }
                return;
            },
            Some(i) => i,
        };
        let ghost old_self = *self;
        let ghost nn = old_self.ends@.len() as int;
        proof {
            assert(old_self.word_set().contains(t@));
        }
        self.words.remove(idx);
        proof {
            lemma_to_set_remove(old_self.words_view(), idx as int);
            assert(self.words_view() =~= old_self.words_view().remove(idx as int));
            assert(self.word_set() == old_self.word_set().remove(t@));
        }
        let ghost ws2 = old_self.word_set().remove(t@);
        // walk the full path of the word, recording the node at each depth
        let n = t.len();
        let mut path: Vec<usize> = Vec::new();
        path.push(0);
        let mut cur: usize = 0;
        let mut pos: usize = 0;
        proof {
            assert(t@.subrange(0, 0) =~= Seq::<char>::empty());
            assert(old_self.word_node_ok(t@));
        }
        while pos < n
            invariant
                pos <= n,
                n == t.len(),
                t@.len() == n,
                self.edges == old_self.edges,
                self.ends == old_self.ends,
                self.prefixes == old_self.prefixes,
                self.words_view() == old_self.words_view().remove(idx as int),
                self.word_set() == ws2,
                old_self.wf_struct(),
                old_self.word_node_ok(t@),
                cur < self.ends.len(),
                path@.len() == pos + 1,
                path@[pos as int] == cur,
                forall|m: int|
                    0 <= m <= pos ==> (#[trigger] path@[m]) < self.ends@.len() && walk(
                        self.edges@,
                        0,
                        t@.subrange(0, m),
                    ) == Some(path@[m] as int),
            decreases n - pos,
        {
            match self.find_child(cur, t[pos]) {
                Some(j) => {
                    proof {
                        let p = t@.subrange(0, pos as int);
                        let q = t@.subrange(pos as int, pos + 1 as int);
                        lemma_walk_append(self.edges@, 0, p, q);
                        assert(p + q =~= t@.subrange(0, pos + 1 as int));
                        assert(q[0] == t@[pos as int]);
                        assert(q.subrange(1, 1) =~= Seq::<char>::empty());
                        assert(walk(self.edges@, j as int, Seq::<char>::empty()) == Some(j as int));
                        assert(walk(self.edges@, j as int, q.subrange(1, 1)) == Some(j as int));
                        assert(walk(self.edges@, cur as int, q) == Some(j as int));
                        lemma_walk_prefix(old_self.edges@, old_self.prefixes@, nn, 0,
                            t@.subrange(0, pos + 1 as int));
                    }
                    path.push(j);
                    cur = j;
                    pos += 1;
                },
                None => {
                    proof {
                        let p = t@.subrange(0, pos as int);
                        let q = t@.subrange(pos as int, n as int);
                        lemma_walk_append(self.edges@, 0, p, q);
                        assert(p + q =~= t@);
                        assert(q[0] == t@[pos as int]);
                        assert(false);
                    }
                    return;
                },
            }
        }
        // clear the terminal mark at the word's node
        self.ends.set(cur, false);
        let ghost word_node = cur as int;
        proof {
            assert(walk(self.edges@, 0, t@.subrange(0, n as int)) == Some(cur as int));
            assert(t@.subrange(0, n as int) =~= t@);
            lemma_walk_prefix(old_self.edges@, old_self.prefixes@, nn, 0, t@);
            assert(Seq::<char>::empty() + t@ =~= t@);
            assert(old_self.prefixes@[word_node] == t@);
            // completeness and soundness for the remaining words
            assert forall|w: Seq<char>| #[trigger] self.word_set().contains(w) implies
                self.word_node_ok(w) by {
                assert(old_self.word_set().contains(w) && w != t@);
                assert(old_self.word_node_ok(w));
                let j = walk(old_self.edges@, 0, w)->Some_0;
                lemma_walk_prefix(old_self.edges@, old_self.prefixes@, nn, 0, w);
                assert(Seq::<char>::empty() + w =~= w);
                assert(old_self.prefixes@[j] == w);
                assert(j != word_node);
            }
            assert forall|i: int| 0 <= i < self.ends@.len() && #[trigger] self.ends@[i] implies {
                &&& self.word_set().contains(self.prefixes@[i])
                &&& walk(self.edges@, 0, self.prefixes@[i]) == Some(i)
            } by {
                assert(i != word_node);
                assert(old_self.ends@[i]);
                assert(old_self.prefixes@[i] != t@);
            }
        }
        // prune childless, non-terminal nodes of the path, deepest first
        let mut m: usize = n;
        let mut stop = false;
        while m > 0 && !stop
            invariant
                m <= n,
                n == t.len(),
                t@.len() == n,
                path@.len() == n + 1,
                self.ends@.len() == nn,
                self.ends@ == old_self.ends@.update(word_node, false),
                self.prefixes == old_self.prefixes,
                self.words_view() == old_self.words_view().remove(idx as int),
                self.word_set() == ws2,
                old_self.wf(),
                old_self.prefixes@[word_node] == t@,
                edges_ok(self.edges@, self.prefixes@, nn),
                distinct_keys(self.edges@),
                forall|mm: int|
                    0 <= mm <= m ==> (#[trigger] path@[mm]) < nn && walk(
                        self.edges@,
                        0,
                        t@.subrange(0, mm),
                    ) == Some(path@[mm] as int),
                forall|w: Seq<char>| #[trigger] self.word_set().contains(w) ==> self.word_node_ok(w),
                forall|i: int|
                    0 <= i < self.ends@.len() && #[trigger] self.ends@[i] ==> {
                        &&& self.word_set().contains(self.prefixes@[i])
                        &&& walk(self.edges@, 0, self.prefixes@[i]) == Some(i)
                    },
                forall|mm: int|
                    m < mm <= n ==> #[trigger] walk(self.edges@, 0, t@.subrange(0, mm)) is None,
                stop ==> m >= 1 && (self.ends@[path@[m as int] as int] || exists|k2: int|
                    0 <= k2 < self.edges@.len() && (#[trigger] self.edges@[k2]).0 == path@[m as int]),
            decreases m, (if stop { 0int } else { 1int }),
        {
            let node = path[m];
            if self.ends[node] {
                stop = true;
            } else if !self.childless(node) {
                stop = true;
                proof {
                    let k2 = choose|k2: int|
                        0 <= k2 < self.edges@.len() && (#[trigger] self.edges@[k2]).0 == node;
                    assert(self.edges@[k2].0 == path@[m as int]);
                }
            } else {
            let parent = path[m - 1];
            let c = t[m - 1];
            proof {
                let p = t@.subrange(0, m - 1);
                let q = t@.subrange(m - 1, m as int);
                lemma_walk_append(self.edges@, 0, p, q);
                assert(p + q =~= t@.subrange(0, m as int));
                assert(q[0] == t@[m - 1]);
                assert(walk(self.edges@, parent as int, q) == Some(node as int));
                assert(has_child(self.edges@, parent as int, q[0]));
            }
            let k = match self.find_edge_idx(parent, c) {
                Some(k) => k,
                None => {
                    proof {
                        assert(false);
                    }
                    return;
                },
            };
            let ghost pre = *self;
            proof {
                lemma_child_unique(pre.edges@, parent as int, c, k as int);
                // the found edge's child is this path node
                let q = t@.subrange(m - 1, m as int);
                assert(q.subrange(1, 1) =~= Seq::<char>::empty());
                assert(walk(pre.edges@, child_of(pre.edges@, parent as int, c), q.subrange(1, 1))
                    == Some(child_of(pre.edges@, parent as int, c)));
                assert(child_of(pre.edges@, parent as int, c) == node as int);
                assert(pre.edges@[k as int].2 == node);
            }
            self.edges.remove(k);
            proof {
                lemma_distinct_remove(pre.edges@, k as int);
                assert(self.edges@ == pre.edges@.remove(k as int));
                // the pruned node is not the root
                assert(pre.prefixes@[node as int] == t@.subrange(0, m as int)) by {
                    lemma_walk_prefix(pre.edges@, pre.prefixes@, nn, 0, t@.subrange(0, m as int));
                    assert(Seq::<char>::empty() + t@.subrange(0, m as int) =~= t@.subrange(
                        0,
                        m as int,
                    ));
                }
                assert(edges_ok(self.edges@, self.prefixes@, nn)) by {
                    assert forall|k2: int| 0 <= k2 < self.edges@.len() implies {
                        let e = #[trigger] self.edges@[k2];
                        &&& (e.0 as int) < nn
                        &&& (e.2 as int) < nn
                        &&& e.2 != 0
                        &&& self.prefixes@[e.2 as int] == self.prefixes@[e.0 as int].push(e.1)
                    } by {
                        let m2 = if k2 < k { k2 } else { k2 + 1 };
                        assert(self.edges@[k2] == pre.edges@[m2]);
                    }
                }
                // path nodes above the cut are still reached
                assert forall|mm: int| 0 <= mm <= m - 1 implies (#[trigger] path@[mm]) < nn && walk(
                    self.edges@,
                    0,
                    t@.subrange(0, mm),
                ) == Some(path@[mm] as int) by {
                    assert(path@[mm] < nn && walk(pre.edges@, 0, t@.subrange(0, mm)) == Some(
                        path@[mm] as int,
                    ));
                    lemma_walk_prefix(pre.edges@, pre.prefixes@, nn, 0, t@.subrange(0, mm));
                    assert(Seq::<char>::empty() + t@.subrange(0, mm) =~= t@.subrange(0, mm));
                    assert(pre.prefixes@[path@[mm] as int] == t@.subrange(0, mm));
                    assert(path@[mm] != node);
                    assert(path@[0] == 0) by {
                        assert(walk(pre.edges@, 0, t@.subrange(0, 0)) == Some(path@[0] as int));
                        assert(t@.subrange(0, 0) =~= Seq::<char>::empty());
                    }
                    lemma_walk_remove_edge(pre.edges@, k as int, 0, t@.subrange(0, mm),
                        path@[mm] as int);
                }
                // remaining words keep their terminal nodes
                assert forall|w: Seq<char>| #[trigger] self.word_set().contains(w) implies
                    self.word_node_ok(w) by {
                    assert(pre.word_node_ok(w));
                    let j = walk(pre.edges@, 0, w)->Some_0;
                    assert(pre.ends@[j]);
                    assert(j != node);
                    assert(0 != node) by {
                        assert(pre.prefixes@[node as int].len() == m);
                    }
                    lemma_walk_remove_edge(pre.edges@, k as int, 0, w, j);
                }
                assert forall|i: int|
                    0 <= i < self.ends@.len() && #[trigger] self.ends@[i] implies {
                    &&& self.word_set().contains(self.prefixes@[i])
                    &&& walk(self.edges@, 0, self.prefixes@[i]) == Some(i)
                } by {
                    assert(pre.ends@[i]);
                    assert(i != node);
                    assert(0 != node) by {
                        assert(pre.prefixes@[node as int].len() == m);
                    }
                    lemma_walk_remove_edge(pre.edges@, k as int, 0, self.prefixes@[i], i);
                }
                // walks past the cut are gone
                assert forall|mm: int|
                    m - 1 < mm <= n implies #[trigger] walk(self.edges@, 0, t@.subrange(0, mm))
                    is None by {
                    if mm > m {
                        lemma_walk_remove_none(pre.edges@, k as int, 0, t@.subrange(0, mm));
                    } else {
                        lemma_no_child_after_remove(pre.edges@, k as int);
                        let p = t@.subrange(0, m - 1);
                        let q = t@.subrange(m - 1, m as int);
                        lemma_walk_append(self.edges@, 0, p, q);
                        assert(p + q =~= t@.subrange(0, m as int));
                        assert(walk(self.edges@, 0, p) == Some(path@[m - 1] as int));
                        assert(q[0] == t@[m - 1]);
                        assert(!has_child(self.edges@, path@[m - 1] as int, t@[m - 1]));
                        assert(walk(self.edges@, path@[m - 1] as int, q) is None);
                    }
                }
            }
            m -= 1;
            }
        }
        proof {
            // every node still reachable along the word's path is terminal
            // or keeps a child
            assert forall|mm: int|
                1 <= mm <= t@.len() implies {
                let wk = #[trigger] walk(self.edges@, 0, t@.subrange(0, mm));
                wk is Some ==> (self.ends@[wk->Some_0] || exists|k2: int|
                    0 <= k2 < self.edges@.len() && (#[trigger] self.edges@[k2]).0 == wk->Some_0)
            } by {
                if mm > m {
                    assert(walk(self.edges@, 0, t@.subrange(0, mm)) is None);
                } else {
                    assert(walk(self.edges@, 0, t@.subrange(0, mm)) == Some(path@[mm] as int));
                    if mm < m {
                        let p = t@.subrange(0, mm);
                        let q = t@.subrange(mm, mm + 1);
                        lemma_walk_append(self.edges@, 0, p, q);
                        assert(p + q =~= t@.subrange(0, mm + 1));
                        assert(walk(self.edges@, 0, t@.subrange(0, mm + 1)) == Some(path@[mm
                            + 1] as int));
                        assert(walk(self.edges@, path@[mm] as int, q) == Some(path@[mm
                            + 1] as int));
                        assert(q[0] == t@[mm as int]);
                        assert(has_child(self.edges@, path@[mm] as int, q[0])) by {
                            if !has_child(self.edges@, path@[mm] as int, q[0]) {
                                assert(walk(self.edges@, path@[mm] as int, q) is None);
                            }
                        }
                        let k2 = choose|k2: int|
                            edge_matches(self.edges@, k2, path@[mm] as int, q[0]);
                        assert(self.edges@[k2].0 == path@[mm]);
                    } else {
                        assert(stop);
                        assert(self.ends@[path@[m as int] as int] || exists|k2: int|
                            0 <= k2 < self.edges@.len() && (#[trigger] self.edges@[k2]).0
                                == path@[m as int]);
                    }
                }
            }
            assert(t@ == spec_trim(word@));
        }
        proof {
            // the stored words stay distinct and non-blank
            assert forall|i: int|
                0 <= i < self.words_view().len() implies (#[trigger] self.words_view()[i]).len()
                > 0 by {
                let m2 = if i < idx { i } else { i + 1 };
                assert(self.words_view()[i] == old_self.words_view()[m2]);
            }
            assert forall|i: int, j: int|
                0 <= i < j < self.words_view().len() implies self.words_view()[i]
                != self.words_view()[j] by {
                let i2 = if i < idx { i } else { i + 1 };
                let j2 = if j < idx { j } else { j + 1 };
                assert(self.words_view()[i] == old_self.words_view()[i2]);
                assert(self.words_view()[j] == old_self.words_view()[j2]);
            }
        }
    }

    /// All dictionary words that are literal prefixes of `prefix`, ordered
    /// by strictly increasing length: no extras, no omissions.
    #[verifier::loop_isolation(false)]
    pub fn prefix_ref(prefix: &Vec<char>, dict_trie: &TrieChar) -> (r: Vec<Vec<char>>)
        requires
            dict_trie.wf(),
        ensures
            forall|u: int|
                0 <= u < r.deep_view().len() ==> {
                    let w = #[trigger] r.deep_view()[u];
                    &&& 1 <= w.len() <= prefix@.len()
                    &&& w == prefix@.subrange(0, w.len() as int)
                    &&& dict_trie.word_set().contains(w)
                },
            forall|u1: int, u2: int|
                0 <= u1 < u2 < r.deep_view().len() ==> r.deep_view()[u1].len()
                    < r.deep_view()[u2].len(),
            forall|l: int|
                1 <= l <= prefix@.len() && #[trigger] dict_trie.word_set().contains(
                    prefix@.subrange(0, l),
                ) ==> exists|u: int|
                    0 <= u < r.deep_view().len() && r.deep_view()[u] == prefix@.subrange(0, l),
    {
        let ghost nn = dict_trie.ends@.len() as int;
        let n = prefix.len();
        let mut out: Vec<Vec<char>> = Vec::new();
        let mut cur: usize = 0;
        let mut idx: usize = 0;
        proof {
            assert(prefix@.subrange(0, 0) =~= Seq::<char>::empty());
        }
        while idx < n
            invariant
                idx <= n,
                n == prefix.len(),
                dict_trie.wf(),
                cur < dict_trie.ends.len(),
                walk(dict_trie.edges@, 0, prefix@.subrange(0, idx as int)) == Some(cur as int),
                forall|u: int|
                    0 <= u < out.deep_view().len() ==> {
                        let w = #[trigger] out.deep_view()[u];
                        &&& 1 <= w.len() <= idx
                        &&& w == prefix@.subrange(0, w.len() as int)
                        &&& dict_trie.word_set().contains(w)
                    },
                forall|u1: int, u2: int|
                    0 <= u1 < u2 < out.deep_view().len() ==> out.deep_view()[u1].len()
                        < out.deep_view()[u2].len(),
                forall|l: int|
                    1 <= l <= idx && #[trigger] dict_trie.word_set().contains(
                        prefix@.subrange(0, l),
                    ) ==> exists|u: int|
                        0 <= u < out.deep_view().len() && out.deep_view()[u] == prefix@.subrange(
                            0,
                            l,
                        ),
            decreases n - idx,
        {
            let ghost pre_out = out.deep_view();
            match dict_trie.find_child(cur, prefix[idx]) {
                Some(j) => {
                    proof {
                        let p = prefix@.subrange(0, idx as int);
                        let q = prefix@.subrange(idx as int, idx + 1 as int);
                        lemma_walk_append(dict_trie.edges@, 0, p, q);
                        assert(p + q =~= prefix@.subrange(0, idx + 1 as int));
                        assert(q[0] == prefix@[idx as int]);
                        assert(q.subrange(1, 1) =~= Seq::<char>::empty());
                        assert(walk(dict_trie.edges@, j as int, q.subrange(1, 1)) == Some(
                            j as int,
                        ));
                        assert(walk(dict_trie.edges@, cur as int, q) == Some(j as int));
                        lemma_walk_prefix(dict_trie.edges@, dict_trie.prefixes@, nn, 0,
                            prefix@.subrange(0, idx + 1 as int));
                        assert(Seq::<char>::empty() + prefix@.subrange(0, idx + 1 as int)
                            =~= prefix@.subrange(0, idx + 1 as int));
                    }
                    if dict_trie.ends[j] {
                        let w = take_chars(prefix, idx + 1);
                        out.push(w);
                        proof {
                            assert(out.deep_view() =~= pre_out.push(prefix@.subrange(
                                0,
                                idx + 1 as int,
                            )));
                            assert(dict_trie.prefixes@[j as int] == prefix@.subrange(
                                0,
                                idx + 1 as int,
                            ));
                            assert(dict_trie.word_set().contains(prefix@.subrange(
                                0,
                                idx + 1 as int,
                            )));
                        }
                    } else {
                        proof {
                            // a prefix of this length is then no dictionary word
                            if dict_trie.word_set().contains(prefix@.subrange(0, idx + 1 as int)) {
                                assert(dict_trie.word_node_ok(prefix@.subrange(0, idx + 1 as int)));
                            }
                        }
                    }
                    proof {
                        assert forall|l: int|
                            1 <= l <= idx + 1 && #[trigger] dict_trie.word_set().contains(
                                prefix@.subrange(0, l),
                            ) implies exists|u: int|
                            0 <= u < out.deep_view().len() && out.deep_view()[u]
                                == prefix@.subrange(0, l) by {
                            if l <= idx {
                                let u = choose|u: int|
                                    0 <= u < pre_out.len() && pre_out[u] == prefix@.subrange(0, l);
                                assert(out.deep_view()[u] == prefix@.subrange(0, l));
                            } else {
                                assert(dict_trie.ends@[j as int]);
                                assert(out.deep_view()[out.deep_view().len() - 1]
                                    == prefix@.subrange(0, l));
                            }
                        }
                    }
                    cur = j;
                    idx += 1;
                },
                None => {
                    proof {
                        assert forall|l: int|
                            1 <= l <= prefix@.len() && #[trigger] dict_trie.word_set().contains(
                                prefix@.subrange(0, l),
                            ) implies exists|u: int|
                            0 <= u < out.deep_view().len() && out.deep_view()[u]
                                == prefix@.subrange(0, l) by {
                            if l > idx {
                                let p = prefix@.subrange(0, idx as int);
                                let q = prefix@.subrange(idx as int, l);
                                lemma_walk_append(dict_trie.edges@, 0, p, q);
                                assert(p + q =~= prefix@.subrange(0, l));
                                assert(q[0] == prefix@[idx as int]);
                                assert(walk(dict_trie.edges@, 0, prefix@.subrange(0, l)) is None);
                                assert(dict_trie.word_node_ok(prefix@.subrange(0, l)));
                                assert(false);
                            } else {
                                let u = choose|u: int|
                                    0 <= u < out.deep_view().len() && out.deep_view()[u]
                                        == prefix@.subrange(0, l);
                            }
                        }
                    }
                    return out;
                },
            }
        }
        out
    }

    /// Build a trie holding the trimmed, non-blank words of `words`.
    pub fn new(words: &Vec<Vec<char>>) -> (r: Self)
        ensures
            r.wf(),
            r.word_set() == dict_word_set(words.deep_view()),
    {
        let mut ends: Vec<bool> = Vec::new();
        ends.push(false);
        let r0 = TrieChar {
            ends,
            edges: Vec::new(),
            words: Vec::new(),
            prefixes: Ghost(Seq::<Seq<char>>::empty().push(Seq::<char>::empty())),
        };
        proof {
            assert(r0.word_set() =~= Set::<Seq<char>>::empty());
        }
        let mut r = r0;
        let n = words.len();
        let mut i: usize = 0;
        proof {
            assert(words.deep_view().subrange(0, 0) =~= Seq::<Seq<char>>::empty());
        }
        while i < n
            invariant
                i <= n,
                n == words.len(),
                words.deep_view().len() == n,
                r.wf(),
                r.word_set() == dict_word_set(words.deep_view().subrange(0, i as int)),
            decreases n - i,
        {
            r.add(&words[i]);
            proof {
                let pre = words.deep_view().subrange(0, i as int);
                let post = words.deep_view().subrange(0, i + 1 as int);
                assert(post.drop_last() =~= pre);
                assert(post.last() == words.deep_view()[i as int]);
                assert(words[i as int].deep_view() == words.deep_view()[i as int]);
            }
            i += 1;
        }
        proof {
            assert(words.deep_view().subrange(0, n as int) =~= words.deep_view());
        }
        r
    }
}

/// Law: a non-blank word is contained right after it is added, and no
/// longer contained right after it is then removed, as `add`, `remove` and
/// `contain` describe those steps on the dictionary's word set.
pub proof fn law_dictionary_round_trip(
    before: TrieChar,
    after_add: TrieChar,
    after_remove: TrieChar,
    w: Seq<char>,
)
    requires
        w.len() > 0,
        after_add.word_set() == before.word_set().insert(w),
        after_remove.word_set() == after_add.word_set().remove(w),
    ensures
        after_add.word_set().contains(w),
        !after_remove.word_set().contains(w),
{
}

} // verus!
