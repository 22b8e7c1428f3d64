use vstd::prelude::*;
use vstd::multiset::Multiset;
use vstd::string::StrSliceExecFns;
use binary_heap_plus::{BinaryHeap, MinComparator};
use crate::chars::{chars_of, slice_chars, copy_usizes};
use crate::min_heap::{heap_contents, heap_len, heap_new_min, heap_peek, heap_pop, heap_push};
use crate::tcc_tokenizer::tcc_pos;
use crate::tcc_rules::{class_has, CLS_CONS};
use crate::trie_char::TrieChar;

verus! {

broadcast use {
    vstd::multiset::group_multiset_axioms,
    crate::chars::lemma_char_vec_deep_view,
};

/// The most candidate edges kept before the engine stops adding edges for
/// the current ambiguity window.
pub const MAX_GRAPH_SIZE: usize = 50;

/// The scan point of the safe-mode chunker, in characters.
pub const TEXT_SCAN_POINT: usize = 120;

/// How far to the left of the scan point the sample window starts.
pub const TEXT_SCAN_LEFT: usize = 20;

/// How far to the right of the scan point the sample window ends.
pub const TEXT_SCAN_RIGHT: usize = 20;

/// First character of the sample window, relative to the unconsumed text.
pub const TEXT_SCAN_BEGIN: usize = TEXT_SCAN_POINT - TEXT_SCAN_LEFT;

/// One past the last character of the sample window.
pub const TEXT_SCAN_END: usize = TEXT_SCAN_POINT + TEXT_SCAN_RIGHT;

/// `path` steps from its first element to its last along `edges`.
pub open spec fn path_ok(edges: Seq<(usize, usize)>, path: Seq<usize>) -> bool {
    &&& path.len() >= 1
    &&& forall|i: int|
        0 <= i && i + 1 < path.len() ==> edges.contains((#[trigger] path[i], path[i + 1]))
}

/// A path of at least one edge leads from `a` to `b`.
pub open spec fn reach(edges: Seq<(usize, usize)>, a: usize, b: usize) -> bool {
    exists|path: Seq<usize>|
        path_ok(edges, path) && path.len() >= 2 && path[0] == a && path[path.len() - 1] == b
}

/// `spans` are adjacent, non-empty and fill `[from, to)` in order.
pub open spec fn spans_cover(spans: Seq<(usize, usize)>, from: int, to: int) -> bool {
    &&& (spans.len() == 0 ==> from == to)
    &&& (spans.len() > 0 ==> spans[0].0 == from && spans[spans.len() - 1].1 == to)
    &&& forall|i: int| 0 <= i < spans.len() ==> (#[trigger] spans[i]).0 < spans[i].1
    &&& forall|i: int|
        0 <= i && i + 1 < spans.len() ==> (#[trigger] spans[i]).1 == spans[i + 1].0
}

/// The concatenation of a sequence of token texts.
pub open spec fn concat_views(toks: Seq<Seq<char>>) -> Seq<char>
    decreases toks.len(),
{
    if toks.len() == 0 {
        Seq::empty()
    } else {
        concat_views(toks.drop_last()) + toks.last()
    }
}

/// The concatenation of the slices of `t` that `spans` select.
pub open spec fn concat_spans(t: Seq<char>, spans: Seq<(usize, usize)>) -> Seq<char>
    decreases spans.len(),
{
    if spans.len() == 0 {
        Seq::empty()
    } else {
        concat_spans(t, spans.drop_last()) + t.subrange(
            spans.last().0 as int,
            spans.last().1 as int,
        )
    }
}

/// How many entries of `s` are false.
pub open spec fn count_false(s: Seq<bool>) -> int
    decreases s.len(),
{
    if s.len() == 0 {
        0
    } else {
        count_false(s.drop_last()) + if s.last() {
            0int
        } else {
            1int
        }
    }
}

proof fn lemma_count_false_bounds(s: Seq<bool>)
    ensures
        0 <= count_false(s) <= s.len(),
    decreases s.len(),
{
    if s.len() > 0 {
        lemma_count_false_bounds(s.drop_last());
    }
}

proof fn lemma_count_false_update(s: Seq<bool>, i: int)
    requires
        0 <= i < s.len(),
        !s[i],
    ensures
        count_false(s.update(i, true)) == count_false(s) - 1,
    decreases s.len(),
{
    let s2 = s.update(i, true);
    if i == s.len() - 1 {
        assert(s2.drop_last() =~= s.drop_last());
    } else {
        assert(s2.drop_last() =~= s.drop_last().update(i, true));
        lemma_count_false_update(s.drop_last(), i);
    }
}

proof fn lemma_contains_push<A>(s: Seq<A>, x: A, y: A)
    requires
        s.contains(x),
    ensures
        s.push(y).contains(x),
{
    let i = choose|i: int| 0 <= i < s.len() && s[i] == x;
    assert(s.push(y)[i] == x);
}

proof fn lemma_reach_push(edges: Seq<(usize, usize)>, e: (usize, usize), a: usize, b: usize)
    requires
        reach(edges, a, b),
    ensures
        reach(edges.push(e), a, b),
{
    let p = choose|p: Seq<usize>|
        path_ok(edges, p) && p.len() >= 2 && p[0] == a && p[p.len() - 1] == b;
    assert(path_ok(edges.push(e), p)) by {
        assert forall|i: int|
            0 <= i && i + 1 < p.len() implies edges.push(e).contains((#[trigger] p[i], p[i + 1])) by {
            lemma_contains_push(edges, (p[i], p[i + 1]), e);
        }
    }
}

#[verifier::rlimit(50)]
proof fn lemma_reach_step(edges: Seq<(usize, usize)>, a: usize, b: usize, c: usize)
    requires
        a == b || reach(edges, a, b),
        edges.contains((b, c)),
    ensures
        reach(edges, a, c),
{
    if a == b {
        let p = seq![a, c];
        assert(path_ok(edges, p)) by {
            assert forall|i: int|
                0 <= i && i + 1 < p.len() implies edges.contains((#[trigger] p[i], p[i + 1])) by {
                assert(i == 0);
                assert(p[0] == b && p[1] == c);
            }
        }
        assert(p[0] == a && p[p.len() - 1] == c && p.len() >= 2);
    } else {
        let p = choose|p: Seq<usize>|
            path_ok(edges, p) && p.len() >= 2 && p[0] == a && p[p.len() - 1] == b;
        let p2 = p.push(c);
        assert(path_ok(edges, p2)) by {
            assert forall|i: int|
                0 <= i && i + 1 < p2.len() implies edges.contains((#[trigger] p2[i], p2[i + 1])) by {
                if i + 1 < p.len() {
                    assert(p2[i] == p[i] && p2[i + 1] == p[i + 1]);
                } else {
                    assert(p2[i] == p[p.len() - 1] && p2[i + 1] == c);
                }
            }
        }
        assert(p2[0] == a && p2[p2.len() - 1] == c && p2.len() >= 2);
    }
}

proof fn lemma_path_push_ok(edges: Seq<(usize, usize)>, p: Seq<usize>, nxt: usize)
    requires
        path_ok(edges, p),
        edges.contains((p[p.len() - 1], nxt)),
    ensures
        path_ok(edges, p.push(nxt)),
{
    let p2 = p.push(nxt);
    assert forall|i: int|
        0 <= i && i + 1 < p2.len() implies edges.contains((#[trigger] p2[i], p2[i + 1])) by {
        if i + 1 < p.len() {
            assert(p2[i] == p[i] && p2[i + 1] == p[i + 1]);
        } else {
            assert(p2[i] == p[p.len() - 1] && p2[i + 1] == nxt);
        }
    }
}

/// In a multiset of one element, any two members are that element.
proof fn lemma_solo(ms: Multiset<usize>, a: usize, b: usize)
    requires
        ms.len() == 1,
        ms.count(a) > 0,
        ms.count(b) > 0,
    ensures
        a == b,
{
    broadcast use vstd::multiset::group_multiset_properties;

    if a != b {
        let m2 = ms.remove(a);
        assert(m2.count(b) == ms.count(b));
        assert(m2.insert(a) =~= ms);
        assert(m2.len() + 1 == ms.len());
        assert(m2.count(b) <= m2.len());
        assert(false);
    }
}

proof fn lemma_spans_bounds(spans: Seq<(usize, usize)>, from: int, to: int)
    requires
        spans_cover(spans, from, to),
    ensures
        forall|i: int|
            0 <= i < spans.len() ==> from <= (#[trigger] spans[i]).0 && (spans[i].1 as int) <= to,
    decreases spans.len(),
{
    if spans.len() > 0 {
        let d = spans.drop_last();
        assert(spans_cover(d, from, spans[spans.len() - 1].0 as int)) by {
            if d.len() > 0 {
                assert(spans[d.len() - 1].1 == spans[d.len() as int].0);
            }
        }
        lemma_spans_bounds(d, from, spans[spans.len() - 1].0 as int);
        assert forall|i: int|
            0 <= i < spans.len() implies from <= (#[trigger] spans[i]).0 && (spans[i].1 as int)
            <= to by {
            if i < d.len() {
                assert(d[i] == spans[i]);
            }
        }
    }
}

proof fn lemma_concat_spans(t: Seq<char>, spans: Seq<(usize, usize)>, from: int, to: int)
    requires
        spans_cover(spans, from, to),
        0 <= from,
        to <= t.len(),
    ensures
        concat_spans(t, spans) == t.subrange(from, to),
    decreases spans.len(),
{
    if spans.len() == 0 {
        assert(t.subrange(from, from) =~= Seq::<char>::empty());
    } else {
        let d = spans.drop_last();
        let mid = spans[spans.len() - 1].0 as int;
        assert(spans_cover(d, from, mid)) by {
            if d.len() > 0 {
                assert(spans[d.len() - 1].1 == spans[d.len() as int].0);
            }
        }
        lemma_spans_bounds(spans, from, to);
        lemma_concat_spans(t, d, from, mid);
        assert(t.subrange(from, mid) + t.subrange(mid, to) =~= t.subrange(from, to));
    }
}

proof fn lemma_concat_views_spans(t: Seq<char>, spans: Seq<(usize, usize)>, views: Seq<Seq<char>>)
    requires
        views.len() == spans.len(),
        forall|j: int|
            0 <= j < spans.len() ==> views[j] == t.subrange(
                (#[trigger] spans[j]).0 as int,
                spans[j].1 as int,
            ),
    ensures
        concat_views(views) == concat_spans(t, spans),
    decreases spans.len(),
{
    if spans.len() > 0 {
        lemma_concat_views_spans(t, spans.drop_last(), views.drop_last());
        assert(views.last() == t.subrange(
            spans[spans.len() - 1].0 as int,
            spans[spans.len() - 1].1 as int,
        ));
    }
}

proof fn lemma_concat_views_append(a: Seq<Seq<char>>, b: Seq<Seq<char>>)
    ensures
        concat_views(a + b) == concat_views(a) + concat_views(b),
    decreases b.len(),
{
    if b.len() == 0 {
        assert(a + b =~= a);
        assert(concat_views(a) + Seq::<char>::empty() =~= concat_views(a));
    } else {
        assert((a + b).drop_last() =~= a + b.drop_last());
        lemma_concat_views_append(a, b.drop_last());
        assert((a + b).last() == b.last());
        assert(concat_views(a + b) == concat_views(a) + concat_views(b.drop_last()) + b.last());
        assert(concat_views(a) + concat_views(b.drop_last()) + b.last() =~= concat_views(a) + (
        concat_views(b.drop_last()) + b.last()));
    }
}

/// The readable non-Thai character classes: Latin letters with hyphen,
/// ASCII digits, Thai digits, horizontal whitespace.
pub const NT_LATIN: u8 = 0;

pub const NT_ADIGIT: u8 = 1;

pub const NT_TDIGIT: u8 = 2;

pub const NT_HSPACE: u8 = 3;

pub open spec fn nt_class(cls: u8, c: char) -> bool {
    let u = c as u32;
    if cls == NT_LATIN {
        u == 0x2d || (0x41 <= u <= 0x5a) || (0x61 <= u <= 0x7a)
    } else if cls == NT_ADIGIT {
        0x30 <= u <= 0x39
    } else if cls == NT_TDIGIT {
        0x0e50 <= u <= 0x0e59
    } else if cls == NT_HSPACE {
        c == ' ' || c == '\t'
    } else {
        false
    }
}

/// How many characters of class `cls` stand at `p`.
pub open spec fn run_len(s: Seq<char>, p: int, cls: u8) -> nat
    decreases s.len() - p,
{
    if 0 <= p < s.len() && nt_class(cls, s[p]) {
        (1 + run_len(s, p + 1, cls)) as nat
    } else {
        0
    }
}

proof fn lemma_run_fix(s: Seq<char>, p: int, cls: u8, r: int)
    requires
        0 <= p,
        0 <= r,
        p + r <= s.len(),
        forall|m: int| p <= m < p + r ==> nt_class(cls, #[trigger] s[m]),
        p + r < s.len() ==> !nt_class(cls, s[p + r]),
    ensures
        run_len(s, p, cls) == r,
    decreases r,
{
    if r == 0 {
    } else {
        assert(nt_class(cls, s[p]));
        lemma_run_fix(s, p + 1, cls, r - 1);
    }
}

/// Where a digit run that ends at `q` finally ends once comma- or
/// period-joined digit groups are taken in.
pub open spec fn digit_groups_end(s: Seq<char>, q: int, cls: u8) -> int
    decreases s.len() - q,
{
    if 0 <= q && q + 1 < s.len() && (s[q] == ',' || s[q] == '.') && nt_class(cls, s[q + 1]) {
        let g = run_len(s, q + 1, cls) as int;
        digit_groups_end(
            s,
            if q + 1 + g <= s.len() {
                q + 1 + g
            } else {
                q + 1
            },
            cls,
        )
    } else {
        q
    }
}

/// The length of the readable non-Thai run at `p`: the first of the
/// shapes (Latin run; digit groups, ASCII before Thai; horizontal
/// whitespace; one line break) that matches there.
pub open spec fn spec_non_thai(s: Seq<char>, p: int) -> Option<int> {
    let lat = run_len(s, p, NT_LATIN) as int;
    let ad = run_len(s, p, NT_ADIGIT) as int;
    let td = run_len(s, p, NT_TDIGIT) as int;
    let ws = run_len(s, p, NT_HSPACE) as int;
    if lat > 0 {
        Some(lat)
    } else if ad > 0 {
        Some(digit_groups_end(s, p + ad, NT_ADIGIT) - p)
    } else if td > 0 {
        Some(digit_groups_end(s, p + td, NT_TDIGIT) - p)
    } else if ws > 0 {
        Some(ws)
    } else if p < s.len() && s[p] == '\n' {
        Some(1)
    } else if p + 1 < s.len() && s[p] == '\r' && s[p + 1] == '\n' {
        Some(2)
    } else {
        None
    }
}

/// Is `u` a Latin letter or a hyphen?
fn latin_char(c: char) -> (r: bool)
    ensures
        r == nt_class(NT_LATIN, c),
{
    let u = c as u32;
    u == 0x2d || (0x41 <= u && u <= 0x5a) || (0x61 <= u && u <= 0x7a)
}

fn ascii_digit(c: char) -> (r: bool)
    ensures
        r == nt_class(NT_ADIGIT, c),
{
    let u = c as u32;
    0x30 <= u && u <= 0x39
}

fn thai_digit(c: char) -> (r: bool)
    ensures
        r == nt_class(NT_TDIGIT, c),
{
    let u = c as u32;
    0x0e50 <= u && u <= 0x0e59
}

/// Is the character at `q` a digit of the chosen script?
fn digit_at(text: &Vec<char>, q: usize, thai: bool) -> (r: bool)
    requires
        q < text.len(),
    ensures
        r == nt_class(
            if thai {
                NT_TDIGIT
            } else {
                NT_ADIGIT
            },
            text@[q as int],
        ),
{
    if thai {
        thai_digit(text[q])
    } else {
        ascii_digit(text[q])
    }
}

/// Length of the run of ASCII or Thai digits starting at `p`.
#[verifier::loop_isolation(false)]
fn digit_run(text: &Vec<char>, p: usize, thai: bool) -> (r: usize)
    requires
        p <= text.len(),
    ensures
        p + r <= text.len(),
        r == run_len(
            text@,
            p as int,
            if thai {
                NT_TDIGIT
            } else {
                NT_ADIGIT
            },
        ),
{
    let ghost cls = if thai {
        NT_TDIGIT
    } else {
        NT_ADIGIT
    };
    let n = text.len();
    let mut q = p;
    while q < n && digit_at(text, q, thai)
        invariant
            p <= q <= n,
            n == text.len(),
            forall|m: int| p <= m < q ==> nt_class(cls, #[trigger] text@[m]),
        decreases n - q,
    {
        q += 1;
    }
    proof {
        lemma_run_fix(text@, p as int, cls, q - p);
    }
    q - p
}

#[verifier::loop_isolation(false)]
/// Length of the longest non-dictionary readable run at `p`: Latin
/// letters and hyphens, digit groups joined by comma or period, horizontal
/// whitespace, or one line break - the first of these shapes that matches.
#[verifier::loop_isolation(false)]
fn non_thai_match(text: &Vec<char>, p: usize) -> (r: Option<usize>)
    requires
        p < text.len(),
        text.len() < usize::MAX,
    ensures
        (match r {
            Some(l) => Some(l as int),
            None => None::<int>,
        }) == spec_non_thai(text@, p as int),
        match r {
            Some(l) => 1 <= l && p + l <= text.len(),
            None => true,
        },
{
    let n = text.len();
    // a run of Latin letters or hyphens
    let mut q = p;
    while q < n && latin_char(text[q])
        invariant
            p <= q <= n,
            forall|m: int| p <= m < q ==> nt_class(NT_LATIN, #[trigger] text@[m]),
        decreases n - q,
    {
        q += 1;
    }
    proof {
        lemma_run_fix(text@, p as int, NT_LATIN, q - p);
    }
    if q > p {
        return Some(q - p);
    }
    // digit groups, optionally joined by comma or period
    let mut thai_mode = false;
    let mut l = digit_run(text, p, false);
    if l == 0 {
        l = digit_run(text, p, true);
        thai_mode = true;
    }
    if l > 0 {
        let ghost cls = if thai_mode {
            NT_TDIGIT
        } else {
            NT_ADIGIT
        };
        let ghost q0 = (p + l) as int;
        let mut q2 = p + l;
        while q2 + 1 < n && (text[q2] == ',' || text[q2] == '.') && digit_at(text, q2 + 1, thai_mode)
            invariant
                p < q2 <= n,
                digit_groups_end(text@, q0, cls) == digit_groups_end(text@, q2 as int, cls),
            decreases n - q2,
        {
            let g = digit_run(text, q2 + 1, thai_mode);
            proof {
                assert(digit_groups_end(text@, q2 as int, cls) == digit_groups_end(text@, (q2 + 1
                    + g) as int, cls));
            }
            q2 = q2 + 1 + g;
        }
        proof {
            assert(digit_groups_end(text@, q2 as int, cls) == q2);
        }
        return Some(q2 - p);
    }
    // horizontal whitespace
    let mut q3 = p;
    while q3 < n && (text[q3] == ' ' || text[q3] == '\t')
        invariant
            p <= q3 <= n,
            forall|m: int| p <= m < q3 ==> nt_class(NT_HSPACE, #[trigger] text@[m]),
        decreases n - q3,
    {
        q3 += 1;
    }
    proof {
        lemma_run_fix(text@, p as int, NT_HSPACE, q3 - p);
    }
    if q3 > p {
        return Some(q3 - p);
    }
    // one line break
    if text[p] == '\n' {
        return Some(1);
    }
    if text[p] == '\r' && p + 1 < n && text[p + 1] == '\n' {
        return Some(2);
    }
    None
}

/// Nothing but one or two bare Thai consonants.
pub open spec fn spec_two_cons(w: Seq<char>) -> bool {
    w.len() <= 2 && (forall|k: int|
        0 <= k < w.len() ==> crate::tcc_rules::spec_class_has(CLS_CONS, #[trigger] w[k]))
}

/// Is the word nothing but one or two bare Thai consonants?
fn thai_twochars(w: &Vec<char>) -> (r: bool)
    ensures
        r == spec_two_cons(w@),
{
    if w.len() > 2 {
        return false;
    }
    let n = w.len();
    let mut i: usize = 0;
    while i < n
        invariant
            i <= n,
            n == w.len(),
            n <= 2,
            forall|k: int|
                0 <= k < i ==> crate::tcc_rules::spec_class_has(CLS_CONS, #[trigger] w@[k]),
        decreases n - i,
    {
        if !class_has(CLS_CONS, w[i]) {
            return false;
        }
        i += 1;
    }
    true
}

/// A dictionary word longer than a bare consonant pair starts at `p` and
/// ends on a legal cluster boundary.
pub open spec fn usable_prefix(dict: TrieChar, s: Seq<char>, valid: Seq<bool>, p: int) -> bool {
    exists|w: Seq<char>|
        #[trigger] dict.word_set().contains(w) && 1 <= w.len() && p + w.len() <= s.len() && w
            == s.subrange(p, p + w.len()) && valid[p + w.len()] && !spec_two_cons(w)
}

/// Position `p` may start the cluster after a forced token: a legal
/// boundary whose suffix has a usable dictionary prefix or a readable
/// non-Thai run.
pub open spec fn fallback_stop(dict: TrieChar, s: Seq<char>, valid: Seq<bool>, p: int) -> bool {
    &&& 0 <= p < s.len()
    &&& valid[p]
    &&& (usable_prefix(dict, s, valid, p) || spec_non_thai(s, p) is Some)
}

/// The internal-consistency failure of the path search: the sole frontier
/// candidate could not be reached from the last resolved position.
pub struct BFSSearchError {
    pub graph: Vec<(usize, usize)>,
    pub start: usize,
    pub goal: usize,
}

impl BFSSearchError {
    /// Record the graph and the two positions the search ran between.
    pub fn new(graph: &Vec<(usize, usize)>, start: usize, goal: usize) -> (r: Self)
        ensures
            r.start == start,
            r.goal == goal,
            r.graph@ == graph@,
    {
        let mut copied: Vec<(usize, usize)> = Vec::new();
        let n = graph.len();
        let mut i: usize = 0;
        while i < n
            invariant
                i <= n,
                n == graph.len(),
                copied@ == graph@.subrange(0, i as int),
            decreases n - i,
        {
            copied.push(graph[i]);
            i += 1;
            proof {
                assert(copied@ =~= graph@.subrange(0, i as int));
            }
        }
        proof {
            assert(copied@ =~= graph@);
        }
        BFSSearchError { graph: copied, start, goal }
    }

    /// A short description of the failure.
    pub fn message(&self) -> String {
        String::from_str("cannot find the goal position from the start position in the graph")
    }
}

/// Breadth-first search over the candidate graph for a path from `start`
/// to `goal` using the fewest edges, ties resolved in edge insertion
/// order. Returns no path only when none exists.
#[verifier::loop_isolation(false)]
#[verifier::rlimit(100)]
fn bfs_paths_graph(edges: &Vec<(usize, usize)>, start: usize, goal: usize, n: usize) -> (r:
    Option<Vec<usize>>)
    requires
        start <= n,
        n < usize::MAX,
        forall|k: int|
            0 <= k < edges@.len() ==> (#[trigger] edges@[k]).0 < edges@[k].1 && (edges@[k].1 as int)
                <= n,
    ensures
        match r {
            Some(path) => path@.len() >= 2 && path_ok(edges@, path@) && path@[0] == start
                && path@[path@.len() - 1] == goal,
            None => !reach(edges@, start, goal),
        },
{
    let mut visited: Vec<bool> = Vec::new();
    let mut vi: usize = 0;
    while vi < n + 1
        invariant
            vi <= n + 1,
            visited@.len() == vi,
            forall|x: int| 0 <= x < vi ==> !visited@[x],
        decreases n + 1 - vi,
    {
        visited.push(false);
        vi += 1;
    }
    let mut queue: Vec<(usize, Vec<usize>)> = Vec::new();
    let mut first: Vec<usize> = Vec::new();
    first.push(start);
    queue.push((start, first));
    let ghost pre_visited0 = visited@;
    visited.set(start, true);
    proof {
        lemma_count_false_bounds(visited@);
        assert(queue@[0].0 == start);
        assert(queue@[0].1@ =~= seq![start]);
        assert forall|x: int|
            0 <= x <= n && visited@[x] implies exists|q: int|
            0 <= q < queue@.len() && (#[trigger] queue@[q]).0 == x by {
            if x != start {
                assert(visited@[x] == pre_visited0[x]);
                assert(false);
            } else {
                assert(queue@[0].0 == x);
            }
        }
    }
    let mut hd: usize = 0;
    while hd < queue.len()
        invariant
            hd <= queue@.len(),
            visited@.len() == n + 1,
            visited@[start as int],
            // every queue entry carries a valid path from the start
            forall|q: int|
                0 <= q < queue@.len() ==> {
                    let entry = #[trigger] queue@[q];
                    &&& (entry.0 as int) <= n
                    &&& entry.1@.len() >= 1
                    &&& path_ok(edges@, entry.1@)
                    &&& entry.1@[0] == start
                    &&& entry.1@[entry.1@.len() - 1] == entry.0
                },
            // queue vertices are visited, visited vertices are queued
            forall|q: int| 0 <= q < queue@.len() ==> visited@[(#[trigger] queue@[q]).0 as int],
            forall|x: int|
                0 <= x <= n && visited@[x] ==> exists|q: int|
                    0 <= q < queue@.len() && (#[trigger] queue@[q]).0 == x,
            // processed vertices have no edge to the goal, and their
            // successors are all visited
            forall|q: int, k: int|
                0 <= q < hd && 0 <= k < edges@.len() && (#[trigger] edges@[k]).0 == (
                #[trigger] queue@[q]).0 ==> edges@[k].1 != goal && visited@[edges@[k].1 as int],
        decreases 2 * count_false(visited@) + queue@.len() - hd,
    {
        let v = queue[hd].0;
        let path = copy_usizes(&queue[hd].1);
        let m = edges.len();
        let mut k: usize = 0;
        let ghost bound0 = 2 * count_false(visited@) + queue@.len() as int;
        while k < m
            invariant
                k <= m,
                m == edges@.len(),
                hd < queue@.len(),
                visited@.len() == n + 1,
                visited@[start as int],
                queue@[hd as int].0 == v,
                path@ == queue@[hd as int].1@,
                2 * count_false(visited@) + queue@.len() as int <= bound0,
                forall|q: int|
                    0 <= q < queue@.len() ==> {
                        let entry = #[trigger] queue@[q];
                        &&& (entry.0 as int) <= n
                        &&& entry.1@.len() >= 1
                        &&& path_ok(edges@, entry.1@)
                        &&& entry.1@[0] == start
                        &&& entry.1@[entry.1@.len() - 1] == entry.0
                    },
                forall|q: int| 0 <= q < queue@.len() ==> visited@[(#[trigger] queue@[q]).0 as int],
                forall|x: int|
                    0 <= x <= n && visited@[x] ==> exists|q: int|
                        0 <= q < queue@.len() && (#[trigger] queue@[q]).0 == x,
                forall|q: int, k2: int|
                    0 <= q < hd && 0 <= k2 < edges@.len() && (#[trigger] edges@[k2]).0 == (
                    #[trigger] queue@[q]).0 ==> edges@[k2].1 != goal && visited@[edges@[k2].1 as int],
                // the scanned part of this vertex's out-edges
                forall|k2: int|
                    0 <= k2 < k && (#[trigger] edges@[k2]).0 == v ==> edges@[k2].1 != goal
                        && visited@[edges@[k2].1 as int],
            decreases m - k,
        {
            let e = edges[k];
            if e.0 == v {
                if e.1 == goal {
                    let mut full = copy_usizes(&path);
                    full.push(goal);
                    proof {
                        assert(edges@.contains((v, goal))) by {
                            assert(edges@[k as int] == (v, goal));
                        }
                        lemma_path_push_ok(edges@, path@, goal);
                        assert(full@ == path@.push(goal));
                    }
                    return Some(full);
                } else {
                    if !visited[e.1] {
                        let ghost pre_visited = visited@;
                        visited.set(e.1, true);
                        let mut p2 = copy_usizes(&path);
                        p2.push(e.1);
                        let ghost pre_queue = queue@;
                        queue.push((e.1, p2));
                        proof {
                            lemma_count_false_update(pre_visited, e.1 as int);
                            assert(edges@.contains((v, e.1))) by {
                                assert(edges@[k as int] == (v, e.1));
                            }
                            assert forall|q: int|
                                0 <= q < queue@.len() implies {
                                let entry = #[trigger] queue@[q];
                                &&& (entry.0 as int) <= n
                                &&& entry.1@.len() >= 1
                                &&& path_ok(edges@, entry.1@)
                                &&& entry.1@[0] == start
                                &&& entry.1@[entry.1@.len() - 1] == entry.0
                            } by {
                                if q < pre_queue.len() {
                                    assert(queue@[q] == pre_queue[q]);
                                } else {
                                    assert(queue@[q].1@ == path@.push(e.1));
                                    lemma_path_push_ok(edges@, path@, e.1);
                                }
                            }
                            assert forall|x: int|
                                0 <= x <= n && visited@[x] implies exists|q: int|
                                0 <= q < queue@.len() && (#[trigger] queue@[q]).0 == x by {
                                if x == e.1 as int {
                                    assert(queue@[queue@.len() - 1].0 == e.1);
                                } else {
                                    let q0 = choose|q0: int|
                                        0 <= q0 < pre_queue.len() && (#[trigger] pre_queue[q0]).0
                                            == x;
                                    assert(queue@[q0].0 == x);
                                }
                            }
                        }
                    }
                }
            }
            k += 1;
        }
        proof {
            lemma_count_false_bounds(visited@);
        }
        hd += 1;
    }
    proof {
        if reach(edges@, start, goal) {
            let p = choose|p: Seq<usize>|
                path_ok(edges@, p) && p.len() >= 2 && p[0] == start && p[p.len() - 1] == goal;
            lemma_bfs_closure(edges@, visited@, queue@, goal, p, n);
            assert(false);
        }
    }
    None
}

/// At the end of the search, the visited set is closed under successors and
/// touches no edge into the goal, so a path that starts at a visited
/// vertex never ends at the goal.
proof fn lemma_bfs_closure(
    edges: Seq<(usize, usize)>,
    visited: Seq<bool>,
    queue: Seq<(usize, Vec<usize>)>,
    goal: usize,
    p: Seq<usize>,
    n: usize,
)
    requires
        visited.len() == n + 1,
        forall|k: int|
            0 <= k < edges.len() ==> (#[trigger] edges[k]).0 < edges[k].1 && (edges[k].1 as int)
                <= n,
        forall|x: int|
            0 <= x <= n && visited[x] ==> exists|q: int|
                0 <= q < queue.len() && (#[trigger] queue[q]).0 == x,
        forall|q: int, k: int|
            0 <= q < queue.len() && 0 <= k < edges.len() && (#[trigger] edges[k]).0 == (
            #[trigger] queue[q]).0 ==> edges[k].1 != goal && visited[edges[k].1 as int],
        path_ok(edges, p),
        p.len() >= 2,
        (p[0] as int) <= n,
        visited[p[0] as int],
    ensures
        p[p.len() - 1] != goal,
    decreases p.len(),
{
    assert(edges.contains((p[0], p[1])));
    let k = choose|k: int| 0 <= k < edges.len() && edges[k] == (p[0], p[1]);
    let q = choose|q: int| 0 <= q < queue.len() && (#[trigger] queue[q]).0 == p[0];
    if p.len() == 2 {
        assert(edges[k].1 != goal);
    } else {
        assert(visited[p[1] as int]);
        let p2 = p.subrange(1, p.len() as int);
        assert(path_ok(edges, p2)) by {
            assert forall|i: int|
                0 <= i && i + 1 < p2.len() implies edges.contains((#[trigger] p2[i], p2[i + 1])) by {
                assert(p2[i] == p[i + 1] && p2[i + 1] == p[i + 2]);
            }
        }
        lemma_bfs_closure(edges, visited, queue, goal, p2, n);
        assert(p2[p2.len() - 1] == p[p.len() - 1]);
    }
}

/// Where the forced token that starts at `begin` must end: after the
/// readable non-Thai run there if one matches; else at the first legal
/// boundary whose suffix has a usable dictionary prefix or a readable run,
/// scanning left to right; else at the end of the text.
#[verifier::loop_isolation(false)]
#[verifier::rlimit(100)]
fn find_fallback_end(
    text: &Vec<char>,
    valid: &Vec<bool>,
    begin: usize,
    custom_dict: &TrieChar,
) -> (r: usize)
    requires
        custom_dict.wf(),
        text.len() < usize::MAX,
        begin < text.len(),
        valid@.len() == text.len() + 1,
    ensures
        begin < r <= text.len(),
        spec_non_thai(text@, begin as int) matches Some(l) ==> r == begin + l,
        spec_non_thai(text@, begin as int) is None ==> {
            &&& (forall|p: int|
                begin < p < r ==> !(#[trigger] fallback_stop(*custom_dict, text@, valid@, p)))
            &&& ((r as int) < text@.len() ==> fallback_stop(*custom_dict, text@, valid@, r as int))
        },
{
    let n = text.len();
    match non_thai_match(text, begin) {
        Some(l) => begin + l,
        None => {
            let mut p2: usize = begin + 1;
            while p2 < n
                invariant
                    begin < p2 <= n,
                    forall|p: int|
                        begin < p < p2 ==> !(#[trigger] fallback_stop(*custom_dict, text@, valid@,
                        p)),
                decreases n - p2,
            {
                if valid[p2] {
                    let suffix2 = slice_chars(text, p2, n);
                    let prefixes2 = TrieChar::prefix_ref(&suffix2, custom_dict);
                    let np2 = prefixes2.len();
                    let mut ok = false;
                    let ghost mut gu: int = 0;
                    let mut u: usize = 0;
                    while u < np2
                        invariant
                            u <= np2,
                            np2 == prefixes2.len(),
                            p2 < n,
                            ok ==> 0 <= gu < prefixes2.deep_view().len() && valid@[p2
                                + prefixes2.deep_view()[gu].len()] && !spec_two_cons(
                                prefixes2.deep_view()[gu],
                            ),
                            !ok ==> (forall|u2: int|
                                0 <= u2 < u ==> !(valid@[p2 + (
                                #[trigger] prefixes2.deep_view()[u2]).len()] && !spec_two_cons(
                                    prefixes2.deep_view()[u2],
                                ))),
                        decreases np2 - u,
                    {
                        let wl = prefixes2[u].len();
                        proof {
                            assert(prefixes2.deep_view()[u as int] == prefixes2@[u as int]@);
                            assert(prefixes2.deep_view()[u as int].len() <= suffix2@.len());
                        }
                        if valid[p2 + wl] && !thai_twochars(&prefixes2[u]) {
                            ok = true;
                            proof {
                                gu = u as int;
                            }
                            u = np2;
                        } else {
                            u += 1;
                        }
                    }
                    if ok {
                        proof {
                            let w = prefixes2.deep_view()[gu];
                            assert(custom_dict.word_set().contains(w));
                            assert(w == suffix2@.subrange(0, w.len() as int));
                            assert(w =~= text@.subrange(p2 as int, p2 + w.len()));
                            assert(usable_prefix(*custom_dict, text@, valid@, p2 as int));
                        }
                        return p2;
                    }
                    if non_thai_match(text, p2).is_some() {
                        return p2;
                    }
                    proof {
                        // no usable prefix: any witness would stand in the
                        // prefix list, which was searched in full
                        if usable_prefix(*custom_dict, text@, valid@, p2 as int) {
                            let w = choose|w: Seq<char>|
                                #[trigger] custom_dict.word_set().contains(w) && 1 <= w.len() && p2
                                    + w.len() <= text@.len() && w == text@.subrange(
                                    p2 as int,
                                    p2 + w.len(),
                                ) && valid@[p2 + w.len()] && !spec_two_cons(w);
                            assert(w =~= suffix2@.subrange(0, w.len() as int));
                            assert(custom_dict.word_set().contains(
                                suffix2@.subrange(0, w.len() as int),
                            ));
                            let u2 = choose|u2: int|
                                0 <= u2 < prefixes2.deep_view().len()
                                    && prefixes2.deep_view()[u2] == suffix2@.subrange(
                                    0,
                                    w.len() as int,
                                );
                            assert(!(valid@[p2 + prefixes2.deep_view()[u2].len()]
                                && !spec_two_cons(prefixes2.deep_view()[u2])));
                            assert(false);
                        }
                        assert(!fallback_stop(*custom_dict, text@, valid@, p2 as int));
                    }
                } else {
                    proof {
                        assert(!fallback_stop(*custom_dict, text@, valid@, p2 as int));
                    }
                }
                p2 += 1;
            }
            n
        },
    }
}

/// One pass of the maximal-matching engine: the ordered token spans of
/// `text`, which are adjacent, non-empty, end only on legal cluster
/// boundaries or fallback cuts, and fill the text exactly.
#[verifier::rlimit(100)]
pub fn one_cut(text: &Vec<char>, custom_dict: &TrieChar) -> (r: Result<
    Vec<(usize, usize)>,
    BFSSearchError,
>)
    requires
        custom_dict.wf(),
        text.len() < usize::MAX,
    ensures
        match r {
            Ok(spans) => spans_cover(spans@, 0, text@.len() as int),
            Err(_) => false,
        },
{
    let n = text.len();
    let boundaries = tcc_pos(text);
    // membership vector of the legal boundary set
    let mut valid: Vec<bool> = Vec::new();
    let mut vi: usize = 0;
    while vi < n + 1
        invariant
            n < usize::MAX,
            vi <= n + 1,
            valid@.len() == vi,
            forall|p: int| 0 <= p < vi ==> !valid@[p],
        decreases n + 1 - vi,
    {
        valid.push(false);
        vi += 1;
    }
    let nb = boundaries.len();
    let mut bi: usize = 0;
    while bi < nb
        invariant
            bi <= nb,
            n < usize::MAX,
            nb == boundaries@.len(),
            forall|j: int| 0 <= j < nb ==> 0 < #[trigger] boundaries@[j] && (boundaries@[j] as int)
                <= n,
            valid@.len() == n + 1,
            forall|p: int| 0 <= p <= n && #[trigger] valid@[p] ==> 0 < p,
            forall|j: int| 0 <= j < bi ==> valid@[boundaries@[j] as int],
        decreases nb - bi,
    {
        let b = boundaries[bi];
        valid.set(b, true);
        bi += 1;
    }
    proof {
        if n > 0 {
            assert(valid@[boundaries@[nb - 1] as int]);
        }
    }
    let mut graph: Vec<(usize, usize)> = Vec::new();
    let mut result: Vec<(usize, usize)> = Vec::new();
    let mut position_list = heap_new_min();
    let mut candidate: Vec<bool> = Vec::new();
    let mut ci: usize = 0;
    while ci < n + 1
        invariant
            n < usize::MAX,
            ci <= n + 1,
            candidate@.len() == ci,
            forall|p: int| 0 <= p < ci ==> !candidate@[p],
        decreases n + 1 - ci,
    {
        candidate.push(false);
        ci += 1;
    }
    let ghost pre_candidate0 = candidate@;
    heap_push(&mut position_list, 0);
    candidate.set(0, true);
    let mut end_position: usize = 0;
    let ghost last_pop: usize = 0;
    proof {
        lemma_count_false_update(pre_candidate0, 0);
        lemma_count_false_bounds(candidate@);
    }
    let mut done = false;
    while !done
        invariant
            done ==> end_position == n && spans_cover(result@, 0, n as int),
            n == text@.len(),
            n < usize::MAX,
            valid@.len() == n + 1,
            candidate@.len() == n + 1,
            custom_dict.wf(),
            forall|p: int| 0 <= p <= n && #[trigger] valid@[p] ==> 0 < p,
            n > 0 ==> valid@[n as int],
            end_position <= n,
            last_pop <= n,
            spans_cover(result@, 0, end_position as int),
            !done ==> heap_contents(&position_list).len() >= 1,
            forall|x: usize|
                #[trigger] heap_contents(&position_list).count(x) > 0 ==> (x as int) <= n
                    && candidate@[x as int] && heap_contents(&position_list).count(x) == 1 && x
                    >= end_position && x >= last_pop,
            heap_contents(&position_list).len() == 1 ==> (forall|x: usize|
                #[trigger] heap_contents(&position_list).count(x) > 0 ==> x == end_position),
            forall|k: int|
                0 <= k < graph@.len() ==> (#[trigger] graph@[k]).0 < graph@[k].1 && (
                graph@[k].1 as int) <= n,
            forall|x: usize|
                #[trigger] heap_contents(&position_list).count(x) > 0 ==> x == end_position
                    || reach(graph@, end_position, x),
            !done ==> (forall|x: int|
                0 <= x <= n && #[trigger] candidate@[x] ==> heap_contents(&position_list).count(
                    x as usize,
                ) > 0 || x <= last_pop),
        decreases 2 * count_false(candidate@) + heap_contents(&position_list).len(),
    {
        let ghost m_head: int = 2 * count_false(candidate@) + heap_contents(
            &position_list,
        ).len() as int;
        proof {
            lemma_count_false_bounds(candidate@);
        }
        let ghost heap0 = heap_contents(&position_list);
        let popped = heap_pop(&mut position_list);
        let begin_position = match popped {
            Some(b) => b,
            None => {
                proof {
                    assert(false);
                }
                0
            },
        };
        proof {
            assert(heap0.count(begin_position) == 1);
            assert(heap_contents(&position_list) == heap0.remove(begin_position));
            assert(heap_contents(&position_list).insert(begin_position) =~= heap0);
            vstd::multiset::lemma_insert_len(heap_contents(&position_list), begin_position);
            assert(heap_contents(&position_list).len() == heap0.len() - 1);
            assert forall|x: usize|
                #[trigger] heap_contents(&position_list).count(x) > 0 implies x
                > begin_position by {
                assert(heap0.count(x) > 0);
                assert(begin_position <= x);
                if x == begin_position {
                    assert(heap_contents(&position_list).count(x) == 0);
                }
            }
        }
        if begin_position >= n {
            proof {
                assert(begin_position == n);
                assert forall|x: usize| #[trigger] heap0.count(x) > 0 implies x == n by {
                    assert(begin_position <= x && (x as int) <= n);
                }
                assert(heap0 =~= Multiset::<usize>::empty().insert(n));
                assert(heap0.len() == 1);
                assert(begin_position == end_position);
                lemma_count_false_bounds(candidate@);
                assert((2 * count_false(candidate@) + heap_contents(&position_list).len() as int)
                    < m_head);
            }
            done = true;
        } else {
        proof {
            last_pop = begin_position;
        }
        let sub_text_prefix = slice_chars(text, begin_position, n);
        let prefixes = TrieChar::prefix_ref(&sub_text_prefix, custom_dict);
        proof {
            assert forall|u: int|
                0 <= u < prefixes.deep_view().len() implies 1 <= (
            #[trigger] prefixes.deep_view()[u]).len() <= n - begin_position by {
                assert(prefixes.deep_view()[u].len() <= sub_text_prefix@.len());
            }
        }
        let ghost m_pop: int = 2 * count_false(candidate@) + heap_contents(
            &position_list,
        ).len() as int;
        let np = prefixes.len();
        let mut pi: usize = 0;
        while pi < np
            invariant
                pi <= np,
                np == prefixes@.len(),
                n == text@.len(),
                n < usize::MAX,
                valid@.len() == n + 1,
                forall|p: int| 0 <= p <= n && #[trigger] valid@[p] ==> 0 < p,
                begin_position < n,
                begin_position >= end_position,
                begin_position == last_pop,
                candidate@.len() == n + 1,
                heap_contents(&position_list).len() >= heap0.len() - 1,
                2 * count_false(candidate@) + heap_contents(&position_list).len() as int <= m_pop,
                forall|u: int|
                    0 <= u < prefixes.deep_view().len() ==> 1 <= (
                    #[trigger] prefixes.deep_view()[u]).len() <= n - begin_position,
                forall|x: usize|
                    #[trigger] heap_contents(&position_list).count(x) > 0 ==> (x as int) <= n
                        && candidate@[x as int] && heap_contents(&position_list).count(x) == 1 && x
                        > begin_position,
                forall|x: usize|
                    #[trigger] heap_contents(&position_list).count(x) > 0 ==> x == end_position
                        || reach(graph@, end_position, x),
                begin_position == end_position || reach(graph@, end_position, begin_position),
                forall|k: int|
                    0 <= k < graph@.len() ==> (#[trigger] graph@[k]).0 < graph@[k].1 && (
                    graph@[k].1 as int) <= n,
                forall|x: int|
                    0 <= x <= n && #[trigger] candidate@[x] ==> heap_contents(
                        &position_list,
                    ).count(x as usize) > 0 || x <= last_pop,
            decreases np - pi,
        {
            let w_len = prefixes[pi].len();
            proof {
                assert(prefixes.deep_view()[pi as int] == prefixes@[pi as int].deep_view());
                assert(prefixes@[pi as int].deep_view() == prefixes@[pi as int]@);
                assert(w_len == prefixes.deep_view()[pi as int].len());
                assert(1 <= w_len <= n - begin_position);
            }
            let e = begin_position + w_len;
            if valid[e] {
                let ghost graph_pre = graph@;
                graph.push((begin_position, e));
                proof {
                    assert forall|x: usize|
                        #[trigger] heap_contents(&position_list).count(x) > 0 implies x
                        == end_position || reach(graph@, end_position, x) by {
                        if x != end_position && reach(graph_pre, end_position, x) {
                            lemma_reach_push(graph_pre, (begin_position, e), end_position, x);
                        }
                    }
                    if begin_position != end_position && reach(
                        graph_pre,
                        end_position,
                        begin_position,
                    ) {
                        lemma_reach_push(graph_pre, (begin_position, e), end_position,
                            begin_position);
                    }
                }
                if !candidate[e] {
                    let ghost pre_cand = candidate@;
                    let ghost pre_heap = heap_contents(&position_list);
                    candidate.set(e, true);
                    heap_push(&mut position_list, e);
                    proof {
                        lemma_count_false_update(pre_cand, e as int);
                        assert(pre_heap.count(e) == 0) by {
                            if pre_heap.count(e) > 0 {
                                assert(pre_cand[e as int]);
                            }
                        }
                        assert(graph@.contains((begin_position, e))) by {
                            assert(graph@[graph@.len() - 1] == (begin_position, e));
                        }
                        lemma_reach_step(graph@, end_position, begin_position, e);
                    }
                }
                if graph.len() > MAX_GRAPH_SIZE {
                    break ;
                }
            }
            pi += 1;
        }
        let hlen = heap_len(&position_list);
        if hlen == 1 {
            let fopt = heap_peek(&position_list);
            let f = match fopt {
                Some(f) => f,
                None => {
                    proof {
                        assert(false);
                    }
                    0
                },
            };
            proof {
                assert(f > begin_position);
                assert(f != end_position);
                assert(reach(graph@, end_position, f));
            }
            let path = match bfs_paths_graph(&graph, end_position, f, n) {
                Some(p) => p,
                None => {
                    return Err(BFSSearchError::new(&graph, end_position, f));
                },
            };
            let pl = path.len();
            let ghost f_heap = heap_contents(&position_list);
            let mut qi: usize = 1;
            while qi < pl
                invariant
                    1 <= qi <= pl,
                    pl == path@.len(),
                    pl >= 2,
                    path_ok(graph@, path@),
                    path@[pl - 1] == f,
                    end_position == path@[qi - 1],
                    end_position <= n,
                    spans_cover(result@, 0, end_position as int),
                    heap_contents(&position_list) == f_heap,
                    forall|k: int|
                        0 <= k < graph@.len() ==> (#[trigger] graph@[k]).0 < graph@[k].1 && (
                        graph@[k].1 as int) <= n,
                decreases pl - qi,
            {
                let pos2 = path[qi];
                let ghost pre_result = result@;
                proof {
                    assert(graph@.contains((path@[qi - 1], path@[qi as int])));
                    let k = choose|k: int|
                        0 <= k < graph@.len() && graph@[k] == (path@[qi - 1], path@[qi as int]);
                    assert(path@[qi - 1] < path@[qi as int] && (path@[qi as int] as int) <= n);
                }
                result.push((end_position, pos2));
                end_position = pos2;
                qi += 1;
                proof {
                    assert forall|i: int|
                        0 <= i < result@.len() implies (#[trigger] result@[i]).0
                        < result@[i].1 by {
                        if i < pre_result.len() {
                            assert(result@[i] == pre_result[i]);
                        }
                    }
                    assert forall|i: int|
                        0 <= i && i + 1 < result@.len() implies (#[trigger] result@[i]).1
                        == result@[i + 1].0 by {
                        if i + 1 < pre_result.len() {
                            assert(result@[i] == pre_result[i] && result@[i + 1] == pre_result[i
                                + 1]);
                        } else {
                            if pre_result.len() > 0 {
                                assert(result@[i] == pre_result[pre_result.len() - 1]);
                            }
                        }
                    }
                }
            }
            graph.clear();
            proof {
                assert(end_position == f);
                assert forall|x: usize|
                    #[trigger] heap_contents(&position_list).count(x) > 0 implies x
                    == end_position by {
                    lemma_solo(heap_contents(&position_list), x, f);
                }
                assert(2 * count_false(candidate@) + heap_contents(&position_list).len() as int
                    <= m_pop);
                assert(m_pop < m_head);
                lemma_count_false_bounds(candidate@);
                assert((2 * count_false(candidate@) + heap_contents(&position_list).len() as int)
                    < m_head);
            }
        } else if hlen == 0 {
            proof {
                assert(heap0.len() - 1 <= 0);
                assert(heap0.count(begin_position) <= heap0.len());
                assert(heap0.len() == 1);
                assert(begin_position == end_position);
            }
            let end2 = find_fallback_end(text, &valid, begin_position, custom_dict);
            let ghost graph_pre2 = graph@;
            let ghost pre_result2 = result@;
            graph.push((begin_position, end2));
            result.push((begin_position, end2));
            proof {
                assert forall|i: int|
                    0 <= i < result@.len() implies (#[trigger] result@[i]).0 < result@[i].1 by {
                    if i < pre_result2.len() {
                        assert(result@[i] == pre_result2[i]);
                    }
                }
                assert forall|i: int|
                    0 <= i && i + 1 < result@.len() implies (#[trigger] result@[i]).1 == result@[i
                    + 1].0 by {
                    if i + 1 < pre_result2.len() {
                        assert(result@[i] == pre_result2[i] && result@[i + 1] == pre_result2[i
                            + 1]);
                    } else {
                        if pre_result2.len() > 0 {
                            assert(result@[i] == pre_result2[pre_result2.len() - 1]);
                        }
                    }
                }
            }
            end_position = end2;
            let ghost pre_cand2 = candidate@;
            let ghost pre_heap2 = heap_contents(&position_list);
            proof {
                assert(pre_heap2.len() == 0);
                assert(pre_heap2.count(end2) == 0) by {
                    assert(pre_heap2.count(end2) <= pre_heap2.len());
                }
                assert(!pre_cand2[end2 as int]) by {
                    if pre_cand2[end2 as int] {
                        assert(pre_heap2.count(end2) > 0 || end2 <= last_pop);
                    }
                }
            }
            heap_push(&mut position_list, end2);
            candidate.set(end2, true);
            proof {
                lemma_count_false_update(pre_cand2, end2 as int);
                assert((2 * count_false(candidate@) + heap_contents(&position_list).len() as int)
                    < m_pop);
                assert(m_pop < m_head);
                lemma_count_false_bounds(candidate@);
                assert((2 * count_false(candidate@) + heap_contents(&position_list).len() as int)
                    < m_head);
            }
        } else {
            proof {
                assert(2 * count_false(candidate@) + heap_contents(&position_list).len() as int
                    <= m_pop);
                assert(m_pop < m_head);
                lemma_count_false_bounds(candidate@);
                assert((2 * count_false(candidate@) + heap_contents(&position_list).len() as int)
                    < m_head);
            }
        }
        }
    }
    proof {
        assert(text@.len() == n);
    }
    Ok(result)
}

/// The index of the last plain space character of `sample`, if any.
pub fn rfind_space_char_index(sample: &Vec<char>) -> (r: Option<usize>)
    ensures
        match r {
            Some(i) => i < sample.len() && sample@[i as int] == ' ' && (forall|j: int|
                i < j < sample@.len() ==> sample@[j] != ' '),
            None => forall|j: int| 0 <= j < sample@.len() ==> sample@[j] != ' ',
        },
{
    let mut i = sample.len();
    while i > 0
        invariant
            i <= sample.len(),
            forall|j: int| i <= j < sample@.len() ==> sample@[j] != ' ',
        decreases i,
    {
        i -= 1;
        if sample[i] == ' ' {
            return Some(i);
        }
    }
    None
}

/// Tokenize `input[from..to)` in one engine pass and decode each span back
/// to an owned string.
#[verifier::rlimit(100)]
fn segment_core(
    input: &str,
    chars: &Vec<char>,
    from: usize,
    to: usize,
    custom_dict: &TrieChar,
) -> (r: Result<Vec<String>, BFSSearchError>)
    requires
        custom_dict.wf(),
        chars@ == input@,
        from <= to <= chars.len(),
        chars@.len() < usize::MAX,
    ensures
        match r {
            Ok(toks) => concat_views(toks.deep_view()) == input@.subrange(from as int, to as int)
                && (forall|j: int|
                0 <= j < toks.deep_view().len() ==> (#[trigger] toks.deep_view()[j]).len() > 0),
            Err(_) => false,
        },
{
    let part = slice_chars(chars, from, to);
    let spans = match one_cut(&part, custom_dict) {
        Ok(s) => s,
        Err(e) => {
            return Err(e);
        },
    };
    let ghost pv = part@;
    let ns = spans.len();
    let mut toks: Vec<String> = Vec::new();
    let mut i: usize = 0;
    proof {
        lemma_spans_bounds(spans@, 0, part@.len() as int);
    }
    while i < ns
        invariant
            i <= ns,
            ns == spans@.len(),
            chars@ == input@,
            pv == part@,
            pv == chars@.subrange(from as int, to as int),
            from <= to <= chars@.len(),
            spans_cover(spans@, 0, pv.len() as int),
            forall|j: int|
                0 <= j < spans@.len() ==> (#[trigger] spans@[j]).0 < spans@[j].1 && (
                spans@[j].1 as int) <= pv.len(),
            toks.deep_view().len() == i,
            forall|j: int|
                0 <= j < i ==> toks.deep_view()[j] == pv.subrange(
                    (#[trigger] spans@[j]).0 as int,
                    spans@[j].1 as int,
                ),
        decreases ns - i,
    {
        let ghost pre = toks.deep_view();
        let sp = spans[i];
        let t = input.substring_char(from + sp.0, from + sp.1);
        toks.push(t.to_owned());
        i += 1;
        proof {
            assert(input@.subrange(from + sp.0 as int, from + sp.1 as int) =~= pv.subrange(
                sp.0 as int,
                sp.1 as int,
            ));
            assert(toks.deep_view() =~= pre.push(pv.subrange(sp.0 as int, sp.1 as int)));
        }
    }
    proof {
        lemma_concat_views_spans(pv, spans@, toks.deep_view());
        lemma_concat_spans(pv, spans@, 0, pv.len() as int);
        assert(pv.subrange(0, pv.len() as int) =~= pv);
        assert(pv =~= input@.subrange(from as int, to as int));
        assert forall|j: int|
            0 <= j < toks.deep_view().len() implies (#[trigger] toks.deep_view()[j]).len()
            > 0 by {
            assert(toks.deep_view()[j] == pv.subrange(spans@[j].0 as int, spans@[j].1 as int));
            assert(spans@[j].0 < spans@[j].1);
        }
    }
    Ok(toks)
}

/// Segment `input` with the given dictionary. Short or unsafe-mode text is
/// handled in one engine pass; safe mode first chunks long text at sample
/// windows around the scan point. Token order and content are such that the
/// concatenation of the tokens is exactly the input. The parallel flag is
/// accepted for interface compatibility: chunks and fallback checks are
/// evaluated sequentially either way, which the order-preserving join makes
/// observably identical.
pub fn internal_segment(input: &str, custom_dict: &TrieChar, safe: bool, parallel: bool) -> (r:
    Result<Vec<String>, BFSSearchError>)
    requires
        custom_dict.wf(),
        input@.len() < usize::MAX,
    ensures
        match r {
            Ok(toks) => concat_views(toks.deep_view()) == input@ && (forall|j: int|
                0 <= j < toks.deep_view().len() ==> (#[trigger] toks.deep_view()[j]).len() > 0)
                && (input@.len() == 0 ==> toks@.len() == 0),
            Err(_) => false,
        },
{
    let chars = chars_of(input);
    let n = chars.len();
    if n == 0 {
        let toks: Vec<String> = Vec::new();
        proof {
            assert(toks.deep_view() =~= Seq::<Seq<char>>::empty());
            assert(concat_views(toks.deep_view()) =~= input@);
        }
        return Ok(toks);
    }
    if !safe || n < TEXT_SCAN_END {
        let r = segment_core(input, &chars, 0, n, custom_dict);
        proof {
            assert(input@.subrange(0, n as int) =~= input@);
        }
        return r;
    }
    let mut cursor: usize = 0;
    let mut out: Vec<String> = Vec::new();
    proof {
        assert(out.deep_view() =~= Seq::<Seq<char>>::empty());
        assert(concat_views(out.deep_view()) =~= input@.subrange(0, 0));
    }
    while n - cursor >= TEXT_SCAN_END
        invariant
            cursor <= n,
            n == chars@.len(),
            n < usize::MAX,
            chars@ == input@,
            custom_dict.wf(),
            concat_views(out.deep_view()) == input@.subrange(0, cursor as int),
            forall|j: int|
                0 <= j < out.deep_view().len() ==> (#[trigger] out.deep_view()[j]).len() > 0,
        decreases n - cursor,
    {
        let s_begin = cursor + TEXT_SCAN_BEGIN;
        let s_end = cursor + TEXT_SCAN_END;
        let sample = slice_chars(&chars, s_begin, s_end);
        let cut: usize;
        match rfind_space_char_index(&sample) {
            Some(si) => {
                // cut right after the last space in the sample window
                cut = s_begin + si + 1;
            },
            None => {
                // cut right after the longest token of the sample, the
                // last such token on ties
                let spans = match one_cut(&sample, custom_dict) {
                    Ok(s) => s,
                    Err(e) => {
                        return Err(e);
                    },
                };
                proof {
                    lemma_spans_bounds(spans@, 0, sample@.len() as int);
                    assert(spans@.len() > 0);
                }
                let ns = spans.len();
                let mut best_end: usize = 0;
                let mut best_len: usize = 0;
                let mut si2: usize = 0;
                while si2 < ns
                    invariant
                        si2 <= ns,
                        ns == spans@.len(),
                        ns >= 1,
                        forall|j: int|
                            0 <= j < spans@.len() ==> (#[trigger] spans@[j]).0 < spans@[j].1 && (
                            spans@[j].1 as int) <= sample@.len(),
                        si2 == 0 ==> best_len == 0,
                        si2 > 0 ==> 1 <= best_end && (best_end as int) <= sample@.len(),
                    decreases ns - si2,
                {
                    let sp = spans[si2];
                    let l = sp.1 - sp.0;
                    if l >= best_len {
                        best_len = l;
                        best_end = sp.1;
                    }
                    si2 += 1;
                }
                cut = s_begin + best_end;
            },
        }
        proof {
            assert(cursor < cut <= n);
        }
        let toks = match segment_core(input, &chars, cursor, cut, custom_dict) {
            Ok(t) => t,
            Err(e) => {
                return Err(e);
            },
        };
        let ghost pre_out = out.deep_view();
        let ghost toks_dv = toks.deep_view();
        let mut toks_m = toks;
        out.append(&mut toks_m);
        proof {
            assert(out.deep_view() =~= pre_out + toks_dv);
            lemma_concat_views_append(pre_out, toks_dv);
            assert(input@.subrange(0, cursor as int) + input@.subrange(
                cursor as int,
                cut as int,
            ) =~= input@.subrange(0, cut as int));
            assert forall|j: int|
                0 <= j < out.deep_view().len() implies (#[trigger] out.deep_view()[j]).len()
                > 0 by {
                if j < pre_out.len() {
                    assert(out.deep_view()[j] == pre_out[j]);
                } else {
                    assert(out.deep_view()[j] == toks_dv[j - pre_out.len()]);
                }
            }
        }
        cursor = cut;
    }
    if cursor < n {
        let toks = match segment_core(input, &chars, cursor, n, custom_dict) {
            Ok(t) => t,
            Err(e) => {
                return Err(e);
            },
        };
        let ghost pre_out = out.deep_view();
        let ghost toks_dv = toks.deep_view();
        let mut toks_m = toks;
        out.append(&mut toks_m);
        proof {
            assert(out.deep_view() =~= pre_out + toks_dv);
            lemma_concat_views_append(pre_out, toks_dv);
            assert(input@.subrange(0, cursor as int) + input@.subrange(cursor as int, n as int)
                =~= input@.subrange(0, n as int));
            assert forall|j: int|
                0 <= j < out.deep_view().len() implies (#[trigger] out.deep_view()[j]).len()
                > 0 by {
                if j < pre_out.len() {
                    assert(out.deep_view()[j] == pre_out[j]);
                } else {
                    assert(out.deep_view()[j] == toks_dv[j - pre_out.len()]);
                }
            }
        }
    }
    proof {
        assert(input@.subrange(0, n as int) =~= input@);
    }
    Ok(out)
}

/// The set that results from adding each word of `ws`, trimmed, blank ones
/// skipped, to `s0`.
pub open spec fn add_all(s0: Set<Seq<char>>, ws: Seq<Seq<char>>) -> Set<Seq<char>>
    decreases ws.len(),
{
    if ws.len() == 0 {
        s0
    } else {
        let t = crate::chars::spec_trim(ws.last());
        let rest = add_all(s0, ws.drop_last());
        if t.len() == 0 {
            rest
        } else {
            rest.insert(t)
        }
    }
}

/// The set that results from removing each word of `ws`, trimmed, from `s0`.
pub open spec fn remove_all(s0: Set<Seq<char>>, ws: Seq<Seq<char>>) -> Set<Seq<char>>
    decreases ws.len(),
{
    if ws.len() == 0 {
        s0
    } else {
        remove_all(s0, ws.drop_last()).remove(crate::chars::spec_trim(ws.last()))
    }
}

/// The dictionary-based maximal-matching tokenizer.
pub struct NewmmTokenizer {
    pub dict: TrieChar,
}

impl NewmmTokenizer {
    /// Create a tokenizer whose dictionary holds the given words.
    pub fn from_word_list(word_list: Vec<String>) -> (r: Self)
        ensures
            r.dict.wf(),
            r.dict.word_set() == crate::dict_reader::word_list_set(word_list.deep_view()),
    {
        NewmmTokenizer { dict: crate::dict_reader::create_dict_trie_from_word_list(&word_list) }
    }

    /// Add each word of the list to the dictionary.
    pub fn add_word(&mut self, word_list: &Vec<String>)
        requires
            old(self).dict.wf(),
        ensures
            final(self).dict.wf(),
            final(self).dict.word_set() == add_all(
                old(self).dict.word_set(),
                word_list.deep_view(),
            ),
    {
        let n = word_list.len();
        let mut i: usize = 0;
        proof {
            assert(add_all(self.dict.word_set(), word_list.deep_view().subrange(0, 0))
                == self.dict.word_set());
        }
        while i < n
            invariant
                i <= n,
                n == word_list@.len(),
                self.dict.wf(),
                self.dict.word_set() == add_all(
                    old(self).dict.word_set(),
                    word_list.deep_view().subrange(0, i as int),
                ),
            decreases n - i,
        {
            let w = chars_of(word_list[i].as_str());
            self.dict.add(&w);
            proof {
                let pre = word_list.deep_view().subrange(0, i as int);
                let post = word_list.deep_view().subrange(0, i + 1 as int);
                assert(post.drop_last() =~= pre);
                assert(post.last() == word_list.deep_view()[i as int]);
                assert(w@ == word_list.deep_view()[i as int]);
            }
            i += 1;
        }
        proof {
            assert(word_list.deep_view().subrange(0, n as int) =~= word_list.deep_view());
        }
    }

    /// Remove each word of the list from the dictionary.
    pub fn remove_word(&mut self, word_list: &Vec<String>)
        requires
            old(self).dict.wf(),
        ensures
            final(self).dict.wf(),
            final(self).dict.word_set() == remove_all(
                old(self).dict.word_set(),
                word_list.deep_view(),
            ),
    {
        let n = word_list.len();
        let mut i: usize = 0;
        proof {
            assert(remove_all(self.dict.word_set(), word_list.deep_view().subrange(0, 0))
                == self.dict.word_set());
        }
        while i < n
            invariant
                i <= n,
                n == word_list@.len(),
                self.dict.wf(),
                self.dict.word_set() == remove_all(
                    old(self).dict.word_set(),
                    word_list.deep_view().subrange(0, i as int),
                ),
            decreases n - i,
        {
            let w = chars_of(word_list[i].as_str());
            self.dict.remove(&w);
            proof {
                let pre = word_list.deep_view().subrange(0, i as int);
                let post = word_list.deep_view().subrange(0, i + 1 as int);
                assert(post.drop_last() =~= pre);
                assert(post.last() == word_list.deep_view()[i as int]);
                assert(w@ == word_list.deep_view()[i as int]);
            }
            i += 1;
        }
        proof {
            assert(word_list.deep_view().subrange(0, n as int) =~= word_list.deep_view());
        }
    }

    /// Break the text into tokens: their concatenation, in order, is
    /// exactly the text, every token is non-empty, and empty text yields
    /// the empty list, whatever the dictionary holds. Both values of the
    /// parallel flag take the same sequential path, so the tokens do not
    /// depend on it.
    pub fn segment(&self, text: &str, safe: bool, parallel: bool) -> (r: Result<
        Vec<String>,
        BFSSearchError,
    >)
        requires
            self.dict.wf(),
            text@.len() < usize::MAX,
        ensures
            match r {
                Ok(toks) => concat_views(toks.deep_view()) == text@ && (forall|j: int|
                    0 <= j < toks.deep_view().len() ==> (#[trigger] toks.deep_view()[j]).len() > 0)
                    && (text@.len() == 0 ==> toks@.len() == 0),
                Err(_) => false,
            },
    {
        internal_segment(text, &self.dict, safe, parallel)
    }

    /// As `segment`; a failed search yields no tokens, which cannot happen.
    pub fn segment_to_string(&self, text: &str, safe: bool, parallel: bool) -> (r: Vec<String>)
        requires
            self.dict.wf(),
            text@.len() < usize::MAX,
        ensures
            concat_views(r.deep_view()) == text@,
            forall|j: int|
                0 <= j < r.deep_view().len() ==> (#[trigger] r.deep_view()[j]).len() > 0,
            text@.len() == 0 ==> r@.len() == 0,
    {
        match self.segment(text, safe, parallel) {
            Ok(toks) => toks,
            Err(_) => {
                proof {
                    assert(false);
                }
                Vec::new()
            },
        }
    }
}

} // verus!
