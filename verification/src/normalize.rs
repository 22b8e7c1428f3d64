use vstd::prelude::*;
use crate::chars::{chars_of, string_from_chars};

verus! {

/// The four tone marks.
pub const NC_TONE: u8 = 0;

/// The above vowels that a tone mark written first must follow.
pub const NC_AV: u8 = 1;

/// The two below vowels of the same reordering rule.
pub const NC_UU: u8 = 2;

/// The dependent vowels that a leading thanthakhat must follow.
pub const NC_AV2: u8 = 3;

pub open spec fn spec_nclass(id: u8, c: char) -> bool {
    let u = c as u32;
    if id == NC_TONE {
        0x0e48 <= u <= 0x0e4b
    } else if id == NC_AV {
        u == 0x0e31 || (0x0e34 <= u <= 0x0e37)
    } else if id == NC_UU {
        u == 0x0e39 || u == 0x0e38
    } else if id == NC_AV2 {
        u == 0x0e31 || (0x0e34 <= u <= 0x0e39)
    } else {
        false
    }
}

pub fn nclass(id: u8, c: char) -> (r: bool)
    ensures
        r == spec_nclass(id, c),
{
    let u = c as u32;
    if id == NC_TONE {
        0x0e48 <= u && u <= 0x0e4b
    } else if id == NC_AV {
        u == 0x0e31 || (0x0e34 <= u && u <= 0x0e37)
    } else if id == NC_UU {
        u == 0x0e39 || u == 0x0e38
    } else if id == NC_AV2 {
        u == 0x0e31 || (0x0e34 <= u && u <= 0x0e39)
    } else {
        false
    }
}

/// One element of a rewrite pattern: a fixed character or a class.
#[derive(Clone, Copy)]
pub enum PatItem {
    Lit(char),
    Cls(u8),
}

/// One element of a replacement: a fixed character, or the character the
/// pattern matched at the given offset.
#[derive(Clone, Copy)]
pub enum RepItem {
    Lit(char),
    Group(usize),
}

pub open spec fn pat_item_matches(it: PatItem, c: char) -> bool {
    match it {
        PatItem::Lit(l) => c == l,
        PatItem::Cls(id) => spec_nclass(id, c),
    }
}

/// The pattern matches at the head of `s`.
pub open spec fn pat_matches(s: Seq<char>, pat: Seq<PatItem>) -> bool {
    pat.len() <= s.len() && (forall|k: int|
        0 <= k < pat.len() ==> pat_item_matches(#[trigger] pat[k], s[k]))
}

/// Every group reference stays inside the pattern.
pub open spec fn rep_ok(rep: Seq<RepItem>, plen: int) -> bool {
    forall|k: int|
        0 <= k < rep.len() ==> match #[trigger] rep[k] {
            RepItem::Lit(_) => true,
            RepItem::Group(g) => g < plen,
        }
}

/// What the replacement emits for a window starting at the head of `s`.
pub open spec fn rep_emit(s: Seq<char>, rep: Seq<RepItem>) -> Seq<char> {
    Seq::new(
        rep.len(),
        |k: int|
            match rep[k] {
                RepItem::Lit(l) => l,
                RepItem::Group(g) => if g < s.len() {
                    s[g as int]
                } else {
                    ' '
                },
            },
    )
}

/// Left-to-right, non-overlapping rewrite of `pat` to `rep` over `s`.
pub open spec fn spec_rewrite(s: Seq<char>, pat: Seq<PatItem>, rep: Seq<RepItem>) -> Seq<char>
    decreases s.len(),
{
    if s.len() == 0 {
        Seq::empty()
    } else if pat.len() >= 1 && pat_matches(s, pat) {
        rep_emit(s, rep) + spec_rewrite(s.subrange(pat.len() as int, s.len() as int), pat, rep)
    } else {
        seq![s[0]] + spec_rewrite(s.subrange(1, s.len() as int), pat, rep)
    }
}

fn pat_match_at(v: &Vec<char>, i: usize, pat: &Vec<PatItem>) -> (r: bool)
    requires
        i <= v.len(),
    ensures
        r == pat_matches(v@.subrange(i as int, v@.len() as int), pat@),
{
    let ghost suffix = v@.subrange(i as int, v@.len() as int);
    let pl = pat.len();
    if v.len() - i < pl {
        return false;
    }
    let mut k: usize = 0;
    while k < pl
        invariant
            k <= pl,
            pl == pat@.len(),
            i <= v.len(),
            pl <= v.len() - i,
            suffix == v@.subrange(i as int, v@.len() as int),
            forall|m: int| 0 <= m < k ==> pat_item_matches(#[trigger] pat@[m], suffix[m]),
        decreases pl - k,
    {
        let c = v[i + k];
        proof {
            assert(suffix[k as int] == c);
        }
        let ok = match pat[k] {
            PatItem::Lit(l) => c == l,
            PatItem::Cls(id) => nclass(id, c),
        };
        if !ok {
            return false;
        }
        k += 1;
    }
    true
}

/// Rewrite every non-overlapping occurrence of `pat`, scanning left to
/// right, to `rep`.
#[verifier::loop_isolation(false)]
pub fn rewrite(v: &Vec<char>, pat: &Vec<PatItem>, rep: &Vec<RepItem>) -> (r: Vec<char>)
    requires
        pat@.len() >= 1,
        rep_ok(rep@, pat@.len() as int),
    ensures
        r@ == spec_rewrite(v@, pat@, rep@),
{
    let n = v.len();
    let mut out: Vec<char> = Vec::new();
    let mut i: usize = 0;
    proof {
        assert(v@.subrange(0, n as int) =~= v@);
        assert(out@ + spec_rewrite(v@, pat@, rep@) =~= spec_rewrite(v@, pat@, rep@));
    }
    while i < n
        invariant
            i <= n,
            spec_rewrite(v@, pat@, rep@) == out@ + spec_rewrite(
                v@.subrange(i as int, n as int),
                pat@,
                rep@,
            ),
        decreases n - i,
    {
        let ghost pre = out@;
        let ghost tail = v@.subrange(i as int, n as int);
        if pat_match_at(v, i, pat) {
            let pl = pat.len();
            let rl = rep.len();
            let mut k: usize = 0;
            while k < rl
                invariant
                    k <= rl,
                    i + pat@.len() <= n,
                    out@ == pre + rep_emit(tail, rep@).subrange(0, k as int),
                decreases rl - k,
            {
                let c = match rep[k] {
                    RepItem::Lit(l) => l,
                    RepItem::Group(g) => v[i + g],
                };
                proof {
                    assert(rep_emit(tail, rep@)[k as int] == c);
                }
                out.push(c);
                k += 1;
                proof {
                    assert(out@ =~= pre + rep_emit(tail, rep@).subrange(0, k as int));
                }
            }
            i += pl;
            proof {
                let tail2 = v@.subrange(i as int, n as int);
                assert(tail.subrange(pat@.len() as int, tail.len() as int) =~= tail2);
                assert(rep_emit(tail, rep@).subrange(0, rep@.len() as int) =~= rep_emit(
                    tail,
                    rep@,
                ));
                assert(spec_rewrite(tail, pat@, rep@) == rep_emit(tail, rep@) + spec_rewrite(
                    tail2,
                    pat@,
                    rep@,
                ));
                assert(pre + (rep_emit(tail, rep@) + spec_rewrite(tail2, pat@, rep@)) =~= (pre
                    + rep_emit(tail, rep@)) + spec_rewrite(tail2, pat@, rep@));
            }
        } else {
            out.push(v[i]);
            i += 1;
            proof {
                let tail2 = v@.subrange(i as int, n as int);
                assert(tail[0] == v@[i - 1]);
                assert(tail.subrange(1, tail.len() as int) =~= tail2);
                assert(spec_rewrite(tail, pat@, rep@) == seq![tail[0]] + spec_rewrite(
                    tail2,
                    pat@,
                    rep@,
                ));
                assert(pre + (seq![tail[0]] + spec_rewrite(tail2, pat@, rep@)) =~= (pre.push(
                    tail[0],
                )) + spec_rewrite(tail2, pat@, rep@));
            }
        }
    }
    proof {
        let tail = v@.subrange(n as int, n as int);
        assert(tail =~= Seq::<char>::empty());
        assert(out@ + spec_rewrite(tail, pat@, rep@) =~= out@);
    }
    out
}

/// Runs of two or more `c` collapsed to a single `c`.
pub open spec fn spec_collapse(s: Seq<char>, c: char) -> Seq<char>
    decreases s.len(),
{
    if s.len() == 0 {
        Seq::empty()
    } else if s.len() >= 2 && s[0] == c && s[1] == c {
        spec_collapse(s.subrange(1, s.len() as int), c)
    } else {
        seq![s[0]] + spec_collapse(s.subrange(1, s.len() as int), c)
    }
}

#[verifier::loop_isolation(false)]
pub fn collapse_runs(v: &Vec<char>, c: char) -> (r: Vec<char>)
    ensures
        r@ == spec_collapse(v@, c),
{
    let n = v.len();
    let mut out: Vec<char> = Vec::new();
    let mut i: usize = 0;
    proof {
        assert(v@.subrange(0, n as int) =~= v@);
        assert(out@ + spec_collapse(v@, c) =~= spec_collapse(v@, c));
    }
    while i < n
        invariant
            i <= n,
            spec_collapse(v@, c) == out@ + spec_collapse(v@.subrange(i as int, n as int), c),
        decreases n - i,
    {
        let ghost pre = out@;
        let ghost tail = v@.subrange(i as int, n as int);
        if !(v[i] == c && i + 1 < n && v[i + 1] == c) {
            out.push(v[i]);
        }
        i += 1;
        proof {
            let tail2 = v@.subrange(i as int, n as int);
            assert(tail[0] == v@[i - 1]);
            assert(tail.subrange(1, tail.len() as int) =~= tail2);
            if !(v@[i - 1] == c && i < n && v@[i as int] == c) {
                assert(spec_collapse(tail, c) == seq![tail[0]] + spec_collapse(tail2, c));
                assert(pre + (seq![tail[0]] + spec_collapse(tail2, c)) =~= (pre.push(tail[0]))
                    + spec_collapse(tail2, c));
            } else {
                assert(tail.len() >= 2 && tail[0] == c && tail[1] == c);
            }
        }
    }
    proof {
        let tail = v@.subrange(n as int, n as int);
        assert(tail =~= Seq::<char>::empty());
        assert(out@ + spec_collapse(tail, c) =~= out@);
    }
    out
}

/// `s` without any occurrence of `c`.
pub open spec fn spec_remove_char(s: Seq<char>, c: char) -> Seq<char>
    decreases s.len(),
{
    if s.len() == 0 {
        Seq::empty()
    } else if s[0] == c {
        spec_remove_char(s.subrange(1, s.len() as int), c)
    } else {
        seq![s[0]] + spec_remove_char(s.subrange(1, s.len() as int), c)
    }
}

#[verifier::loop_isolation(false)]
pub fn remove_char_all(v: &Vec<char>, c: char) -> (r: Vec<char>)
    ensures
        r@ == spec_remove_char(v@, c),
{
    let n = v.len();
    let mut out: Vec<char> = Vec::new();
    let mut i: usize = 0;
    proof {
        assert(v@.subrange(0, n as int) =~= v@);
        assert(out@ + spec_remove_char(v@, c) =~= spec_remove_char(v@, c));
    }
    while i < n
        invariant
            i <= n,
            spec_remove_char(v@, c) == out@ + spec_remove_char(v@.subrange(i as int, n as int), c),
        decreases n - i,
    {
        let ghost pre = out@;
        let ghost tail = v@.subrange(i as int, n as int);
        if v[i] != c {
            out.push(v[i]);
        }
        i += 1;
        proof {
            let tail2 = v@.subrange(i as int, n as int);
            assert(tail[0] == v@[i - 1]);
            assert(tail.subrange(1, tail.len() as int) =~= tail2);
            if v@[i - 1] != c {
                assert(pre + (seq![tail[0]] + spec_remove_char(tail2, c)) =~= (pre.push(tail[0]))
                    + spec_remove_char(tail2, c));
            }
        }
    }
    proof {
        let tail = v@.subrange(n as int, n as int);
        assert(tail =~= Seq::<char>::empty());
        assert(out@ + spec_remove_char(tail, c) =~= out@);
    }
    out
}

pub open spec fn is_ascii_digit(c: char) -> bool {
    0x30 <= c as u32 <= 0x39
}

fn digit_char(c: char) -> (r: bool)
    ensures
        r == is_ascii_digit(c),
{
    let u = c as u32;
    0x30 <= u && u <= 0x39
}

/// How many ASCII digits stand at the head of `s`.
pub open spec fn spec_digit_run(s: Seq<char>) -> nat
    decreases s.len(),
{
    if s.len() > 0 && is_ascii_digit(s[0]) {
        1 + spec_digit_run(s.subrange(1, s.len() as int))
    } else {
        0
    }
}

proof fn lemma_digit_run_le(s: Seq<char>)
    ensures
        spec_digit_run(s) <= s.len(),
    decreases s.len(),
{
    if s.len() > 0 && is_ascii_digit(s[0]) {
        lemma_digit_run_le(s.subrange(1, s.len() as int));
    }
}

/// Every maximal digit run set off by one space on each side.
pub open spec fn spec_pad_digits(s: Seq<char>) -> Seq<char>
    decreases s.len(),
{
    if s.len() == 0 {
        Seq::empty()
    } else if is_ascii_digit(s[0]) {
        let r = 1 + spec_digit_run(s.subrange(1, s.len() as int));
        if r <= s.len() {
            seq![' '] + s.subrange(0, r as int) + seq![' '] + spec_pad_digits(
                s.subrange(r as int, s.len() as int),
            )
        } else {
            Seq::empty()
        }
    } else {
        seq![s[0]] + spec_pad_digits(s.subrange(1, s.len() as int))
    }
}

#[verifier::loop_isolation(false)]
#[verifier::rlimit(100)]
pub fn pad_digits(v: &Vec<char>) -> (r: Vec<char>)
    ensures
        r@ == spec_pad_digits(v@),
{
    let n = v.len();
    let mut out: Vec<char> = Vec::new();
    let mut i: usize = 0;
    proof {
        assert(v@.subrange(0, n as int) =~= v@);
        assert(out@ + spec_pad_digits(v@) =~= spec_pad_digits(v@));
    }
    while i < n
        invariant
            i <= n,
            spec_pad_digits(v@) == out@ + spec_pad_digits(v@.subrange(i as int, n as int)),
        decreases n - i,
    {
        let ghost pre = out@;
        let ghost tail = v@.subrange(i as int, n as int);
        let c0 = v[i];
        let u0 = c0 as u32;
        if 0x30 <= u0 && u0 <= 0x39 {
            // measure the run, then wrap it in single spaces
            let mut j = i + 1;
            while j < n && digit_char(v[j])
                invariant
                    i < j <= n,
                    forall|m: int| i < m < j ==> is_ascii_digit(v@[m]),
                decreases n - j,
            {
                j += 1;
            }
            proof {
                let trest = tail.subrange(1, tail.len() as int);
                assert forall|m: int| 0 <= m < j - i - 1 implies is_ascii_digit(
                    #[trigger] trest[m],
                ) by {
                    assert(trest[m] == v@[i + 1 + m]);
                }
                if j < n {
                    assert(trest[j - i - 1] == v@[j as int]);
                    assert(!is_ascii_digit(v@[j as int]));
                }
                lemma_digit_run_fix(trest, (j - i - 1) as nat);
                assert(spec_digit_run(trest) == j - i - 1);
                assert(is_ascii_digit(tail[0]));
            }
            out.push(' ');
            let mut m2 = i;
            while m2 < j
                invariant
                    i <= m2 <= j <= n,
                    out@ == pre + seq![' '] + v@.subrange(i as int, m2 as int),
                decreases j - m2,
            {
                out.push(v[m2]);
                m2 += 1;
                proof {
                    assert(out@ =~= pre + seq![' '] + v@.subrange(i as int, m2 as int));
                }
            }
            out.push(' ');
            proof {
                assert(tail.subrange(0, j - i) =~= v@.subrange(i as int, j as int));
                assert(out@ =~= pre + (seq![' '] + tail.subrange(0, j - i) + seq![' ']));
                let tail2 = v@.subrange(j as int, n as int);
                assert(tail.subrange(j - i, tail.len() as int) =~= tail2);
                assert(spec_pad_digits(tail) == seq![' '] + tail.subrange(0, j - i) + seq![' ']
                    + spec_pad_digits(tail2));
                assert(pre + (seq![' '] + tail.subrange(0, j - i) + seq![' '] + spec_pad_digits(
                    tail2,
                )) =~= (pre + (seq![' '] + tail.subrange(0, j - i) + seq![' ']))
                    + spec_pad_digits(tail2));
            }
            i = j;
        } else {
            out.push(c0);
            i += 1;
            proof {
                let tail2 = v@.subrange(i as int, n as int);
                assert(tail[0] == v@[i - 1]);
                assert(tail.subrange(1, tail.len() as int) =~= tail2);
                assert(pre + (seq![tail[0]] + spec_pad_digits(tail2)) =~= (pre.push(tail[0]))
                    + spec_pad_digits(tail2));
            }
        }
    }
    proof {
        let tail = v@.subrange(n as int, n as int);
        assert(tail =~= Seq::<char>::empty());
        assert(out@ + spec_pad_digits(tail) =~= out@);
    }
    out
}

proof fn lemma_digit_run_fix(s: Seq<char>, r: nat)
    requires
        r <= s.len(),
        forall|m: int| 0 <= m < r ==> is_ascii_digit(#[trigger] s[m]),
        r < s.len() ==> !is_ascii_digit(s[r as int]),
    ensures
        spec_digit_run(s) == r,
    decreases s.len(),
{
    if r == 0 {
    } else {
        let t = s.subrange(1, s.len() as int);
        assert forall|m: int| 0 <= m < r - 1 implies is_ascii_digit(#[trigger] t[m]) by {
            assert(t[m] == s[m + 1]);
        }
        assert(r - 1 < t.len() ==> t[r - 1] == s[r as int]);
        lemma_digit_run_fix(t, (r - 1) as nat);
    }
}

/// Collapse runs of each character of `cs`, in order.
pub open spec fn spec_collapse_all(s: Seq<char>, cs: Seq<char>) -> Seq<char>
    decreases cs.len(),
{
    if cs.len() == 0 {
        s
    } else {
        spec_collapse_all(spec_collapse(s, cs[0]), cs.subrange(1, cs.len() as int))
    }
}

/// The sequence of rewrite rules applied after whitespace cleanup, in
/// order. Their shapes are the pinned reference behaviour: canonical sara
/// am, tone marks moved after the vowels they follow, thanthakhat moved
/// after dependent vowels.
pub open spec fn norm_rules() -> Seq<(Seq<PatItem>, Seq<RepItem>)> {
    seq![
        (seq![PatItem::Lit('\u{0e40}'), PatItem::Lit('\u{0e40}')], seq![RepItem::Lit('\u{0e41}')]),
        (
            seq![PatItem::Lit('\u{0e39}'), PatItem::Lit('\u{0e49}')],
            seq![RepItem::Lit('\u{0e39}'), RepItem::Lit('\u{0e49}')],
        ),
        (seq![PatItem::Lit('\u{0e4d}'), PatItem::Lit('\u{0e32}')], seq![RepItem::Lit('\u{0e33}')]),
        (
            seq![PatItem::Lit('\u{0e4d}'), PatItem::Cls(NC_TONE), PatItem::Lit('\u{0e32}')],
            seq![RepItem::Group(1), RepItem::Lit('\u{0e33}')],
        ),
        (
            seq![PatItem::Lit('\u{0e4d}'), PatItem::Lit('\u{0e32}'), PatItem::Cls(NC_TONE)],
            seq![RepItem::Group(2), RepItem::Lit('\u{0e33}')],
        ),
        (
            seq![PatItem::Cls(NC_TONE), PatItem::Cls(NC_AV)],
            seq![RepItem::Group(1), RepItem::Group(0)],
        ),
        (
            seq![PatItem::Cls(NC_TONE), PatItem::Cls(NC_UU)],
            seq![RepItem::Group(1), RepItem::Group(0)],
        ),
        (
            seq![PatItem::Lit('\u{0e33}'), PatItem::Cls(NC_TONE)],
            seq![RepItem::Group(1), RepItem::Lit('\u{0e33}')],
        ),
        (
            seq![PatItem::Lit('\u{0e4c}'), PatItem::Cls(NC_AV2)],
            seq![RepItem::Group(1), RepItem::Group(0)],
        ),
    ]
}

/// Apply the rules from index `idx` on, in order.
pub open spec fn apply_rules(s: Seq<char>, idx: int) -> Seq<char>
    decreases norm_rules().len() - idx,
{
    if idx < 0 || idx >= norm_rules().len() {
        s
    } else {
        apply_rules(spec_rewrite(s, norm_rules()[idx].0, norm_rules()[idx].1), idx + 1)
    }
}

/// The deterministic cleanup pass: digit runs set off by spaces when
/// requested, zero-width spaces dropped, runs of blanks collapsed, the
/// fixed reorderings applied, repeated diacritics collapsed to one.
pub open spec fn spec_normalize(s: Seq<char>, whitespace_number: bool) -> Seq<char> {
    let s1 = if whitespace_number {
        spec_pad_digits(s)
    } else {
        s
    };
    let s2 = spec_remove_char(s1, '\u{200b}');
    let s3 = spec_collapse(spec_collapse(spec_collapse(s2, ' '), '\t'), '\n');
    let s4 = apply_rules(s3, 0);
    spec_collapse_all(
        s4,
        "\u{0e30}\u{0e31}\u{0e47}\u{0e32}\u{0e34}\u{0e35}\u{0e36}\u{0e48}\u{0e4d}\u{0e38}\u{0e39}\u{0e43}\u{0e44}\u{0e42}\u{0e37}\u{0e48}\u{0e49}\u{0e4b}\u{0e4a}\u{0e36}\u{0e4c}\u{0e4b}\u{0e33}"@,
    )
}

/// Normalize Thai text: a fixed, order-sensitive cascade of cleanup steps.
pub fn normalize(text: &str, whitespace_number: bool) -> (r: String)
    ensures
        r@ == spec_normalize(text@, whitespace_number),
{
    let v0 = chars_of(text);
    let v1 = if whitespace_number {
        pad_digits(&v0)
    } else {
        v0
    };
    let v2 = remove_char_all(&v1, '\u{200b}');
    let v3 = collapse_runs(&collapse_runs(&collapse_runs(&v2, ' '), '\t'), '\n');
    let mut cur = v3;
    let mut ri: usize = 0;
    while ri < 9
        invariant
            ri <= 9,
            norm_rules().len() == 9,
            apply_rules(cur@, ri as int) == apply_rules(
                spec_collapse(
                    spec_collapse(
                        spec_collapse(
                            spec_remove_char(
                                if whitespace_number {
                                    spec_pad_digits(text@)
                                } else {
                                    text@
                                },
                                '\u{200b}',
                            ),
                            ' ',
                        ),
                        '\t',
                    ),
                    '\n',
                ),
                0,
            ),
        decreases 9 - ri,
    {
        let (pat, rep) = build_rule(ri);
        proof {
            assert(pat@ == norm_rules()[ri as int].0);
            assert(rep@ == norm_rules()[ri as int].1);
        }
        let nxt = rewrite(&cur, &pat, &rep);
        proof {
            assert(apply_rules(cur@, ri as int) == apply_rules(nxt@, ri + 1));
        }
        cur = nxt;
        ri += 1;
    }
    let marks = chars_of(
        "\u{0e30}\u{0e31}\u{0e47}\u{0e32}\u{0e34}\u{0e35}\u{0e36}\u{0e48}\u{0e4d}\u{0e38}\u{0e39}\u{0e43}\u{0e44}\u{0e42}\u{0e37}\u{0e48}\u{0e49}\u{0e4b}\u{0e4a}\u{0e36}\u{0e4c}\u{0e4b}\u{0e33}",
    );
    let nm = marks.len();
    let ghost s4 = cur@;
    proof {
        assert(marks@.subrange(0, nm as int) =~= marks@);
    }
    let mut mi: usize = 0;
    while mi < nm
        invariant
            mi <= nm,
            nm == marks@.len(),
            spec_collapse_all(cur@, marks@.subrange(mi as int, nm as int)) == spec_collapse_all(
                s4,
                marks@,
            ),
        decreases nm - mi,
    {
        let ghost mtail = marks@.subrange(mi as int, nm as int);
        let nxt = collapse_runs(&cur, marks[mi]);
        proof {
            assert(mtail[0] == marks@[mi as int]);
            assert(mtail.subrange(1, mtail.len() as int) =~= marks@.subrange(
                mi + 1 as int,
                nm as int,
            ));
            assert(spec_collapse_all(cur@, mtail) == spec_collapse_all(
                spec_collapse(cur@, mtail[0]),
                mtail.subrange(1, mtail.len() as int),
            ));
        }
        cur = nxt;
        mi += 1;
    }
    proof {
        assert(marks@.subrange(nm as int, nm as int) =~= Seq::<char>::empty());
        assert(spec_collapse_all(cur@, Seq::<char>::empty()) == cur@);
    }
    string_from_chars(&cur)
}

/// The executable form of rule `ri` of `norm_rules`.
fn build_rule(ri: usize) -> (r: (Vec<PatItem>, Vec<RepItem>))
    requires
        ri < 9,
    ensures
        norm_rules().len() == 9,
        r.0@ == norm_rules()[ri as int].0,
        r.1@ == norm_rules()[ri as int].1,
        r.0@.len() >= 1,
        rep_ok(r.1@, r.0@.len() as int),
{
    let mut pat: Vec<PatItem> = Vec::new();
    let mut rep: Vec<RepItem> = Vec::new();
    if ri == 0 {
        pat.push(PatItem::Lit('\u{0e40}'));
        pat.push(PatItem::Lit('\u{0e40}'));
        rep.push(RepItem::Lit('\u{0e41}'));
    } else if ri == 1 {
        pat.push(PatItem::Lit('\u{0e39}'));
        pat.push(PatItem::Lit('\u{0e49}'));
        rep.push(RepItem::Lit('\u{0e39}'));
        rep.push(RepItem::Lit('\u{0e49}'));
    } else if ri == 2 {
        pat.push(PatItem::Lit('\u{0e4d}'));
        pat.push(PatItem::Lit('\u{0e32}'));
        rep.push(RepItem::Lit('\u{0e33}'));
    } else if ri == 3 {
        pat.push(PatItem::Lit('\u{0e4d}'));
        pat.push(PatItem::Cls(NC_TONE));
        pat.push(PatItem::Lit('\u{0e32}'));
        rep.push(RepItem::Group(1));
        rep.push(RepItem::Lit('\u{0e33}'));
    } else if ri == 4 {
        pat.push(PatItem::Lit('\u{0e4d}'));
        pat.push(PatItem::Lit('\u{0e32}'));
        pat.push(PatItem::Cls(NC_TONE));
        rep.push(RepItem::Group(2));
        rep.push(RepItem::Lit('\u{0e33}'));
    } else if ri == 5 {
        pat.push(PatItem::Cls(NC_TONE));
        pat.push(PatItem::Cls(NC_AV));
        rep.push(RepItem::Group(1));
        rep.push(RepItem::Group(0));
    } else if ri == 6 {
        pat.push(PatItem::Cls(NC_TONE));
        pat.push(PatItem::Cls(NC_UU));
        rep.push(RepItem::Group(1));
        rep.push(RepItem::Group(0));
    } else if ri == 7 {
        pat.push(PatItem::Lit('\u{0e33}'));
        pat.push(PatItem::Cls(NC_TONE));
        rep.push(RepItem::Group(1));
        rep.push(RepItem::Lit('\u{0e33}'));
    } else {
        pat.push(PatItem::Lit('\u{0e4c}'));
        pat.push(PatItem::Cls(NC_AV2));
        rep.push(RepItem::Group(1));
        rep.push(RepItem::Group(0));
    }
    proof {
        assert(pat@ =~= norm_rules()[ri as int].0);
        assert(rep@ =~= norm_rules()[ri as int].1);
    }
    (pat, rep)
}

} // verus!
