use vstd::prelude::*;
use vstd::string::StrSliceExecFns;

verus! {

/// A vector of characters viewed deeply is its plain view.
pub broadcast proof fn lemma_char_vec_deep_view(v: Vec<char>)
    ensures
        #[trigger] v.deep_view() == v@,
{
    assert(v.deep_view() =~= v@);
}

/// Characters this library trims from the ends of dictionary words.
pub open spec fn is_trim_space(c: char) -> bool {
    c == ' ' || c == '\t' || c == '\r' || c == '\n'
}

pub fn trim_space_char(c: char) -> (r: bool)
    ensures
        r == is_trim_space(c),
{
    c == ' ' || c == '\t' || c == '\r' || c == '\n'
}

/// All characters of `s`, in order.
pub fn chars_of(s: &str) -> (r: Vec<char>)
    ensures
        r@ == s@,
{
    let n = s.unicode_len();
    let mut out: Vec<char> = Vec::new();
    let mut i: usize = 0;
    while i < n
        invariant
            i <= n,
            n == s@.len(),
            out@ == s@.subrange(0, i as int),
        decreases n - i,
    {
        out.push(s.get_char(i));
        i += 1;
        proof {
            assert(out@ =~= s@.subrange(0, i as int));
        }
    }
    proof {
        assert(out@ =~= s@);
    }
    out
}

/// Relies on String's FromIterator impl over char: the collected string
/// holds exactly the characters of `v`, in order.
#[verifier::external_body]
pub fn string_from_chars(v: &Vec<char>) -> (r: String)
    ensures
        r@ == v@,
{
    v.iter().collect()
}

/// The first `n` characters of `v`.
pub fn take_chars(v: &Vec<char>, n: usize) -> (r: Vec<char>)
    requires
        n <= v.len(),
    ensures
        r@ == v@.subrange(0, n as int),
{
    let mut out: Vec<char> = Vec::new();
    let mut i: usize = 0;
    while i < n
        invariant
            i <= n,
            n <= v.len(),
            out@ == v@.subrange(0, i as int),
        decreases n - i,
    {
        out.push(v[i]);
        i += 1;
        proof {
            assert(out@ =~= v@.subrange(0, i as int));
        }
    }
    out
}

/// The characters of `v` between indices `a` and `b`.
pub fn slice_chars(v: &Vec<char>, a: usize, b: usize) -> (r: Vec<char>)
    requires
        a <= b <= v.len(),
    ensures
        r@ == v@.subrange(a as int, b as int),
{
    let mut out: Vec<char> = Vec::new();
    let mut i: usize = a;
    while i < b
        invariant
            a <= i <= b <= v.len(),
            out@ == v@.subrange(a as int, i as int),
        decreases b - i,
    {
        out.push(v[i]);
        i += 1;
        proof {
            assert(out@ =~= v@.subrange(a as int, i as int));
        }
    }
    out
}

/// A plain copy of a vector of positions.
pub fn copy_usizes(v: &Vec<usize>) -> (r: Vec<usize>)
    ensures
        r@ == v@,
{
    let n = v.len();
    let mut out: Vec<usize> = Vec::new();
    let mut i: usize = 0;
    while i < n
        invariant
            i <= n,
            n == v.len(),
            out@ == v@.subrange(0, i as int),
        decreases n - i,
    {
        out.push(v[i]);
        i += 1;
        proof {
            assert(out@ =~= v@.subrange(0, i as int));
        }
    }
    proof {
        assert(out@ =~= v@);
    }
    out
}

/// Character-wise equality of two vectors.
pub fn chars_eq(a: &Vec<char>, b: &Vec<char>) -> (r: bool)
    ensures
        r == (a@ == b@),
{
    if a.len() != b.len() {
        proof {
            assert(a@.len() != b@.len());
        }
        return false;
    }
    let n = a.len();
    let mut i: usize = 0;
    while i < n
        invariant
            i <= n,
            n == a.len() == b.len(),
            forall|k: int| 0 <= k < i ==> a@[k] == b@[k],
        decreases n - i,
    {
        if a[i] != b[i] {
            return false;
        }
        i += 1;
    }
    proof {
        assert(a@ =~= b@);
    }
    true
}

/// Append the characters of `src` to `out`.
pub fn push_all(out: &mut Vec<char>, src: &Vec<char>)
    ensures
        final(out)@ == old(out)@ + src@,
{
    let m = src.len();
    let mut j: usize = 0;
    proof {
        assert(old(out)@ + src@.subrange(0, 0) =~= old(out)@);
    }
    while j < m
        invariant
            j <= m,
            m == src.len(),
            out@ == old(out)@ + src@.subrange(0, j as int),
        decreases m - j,
    {
        out.push(src[j]);
        j += 1;
        proof {
            assert(old(out)@ + src@.subrange(0, j - 1 as int) + seq![src@[j - 1]] =~= old(out)@
                + src@.subrange(0, j as int));
        }
    }
    proof {
        assert(old(out)@ + src@.subrange(0, m as int) =~= old(out)@ + src@);
    }
}

/// `s` with every occurrence of the character `c` replaced by `rep`.
pub open spec fn spec_replace_char(s: Seq<char>, c: char, rep: Seq<char>) -> Seq<char>
    decreases s.len(),
{
    if s.len() == 0 {
        Seq::empty()
    } else if s[0] == c {
        rep + spec_replace_char(s.subrange(1, s.len() as int), c, rep)
    } else {
        seq![s[0]] + spec_replace_char(s.subrange(1, s.len() as int), c, rep)
    }
}

pub fn replace_char(v: &Vec<char>, c: char, rep: &Vec<char>) -> (r: Vec<char>)
    ensures
        r@ == spec_replace_char(v@, c, rep@),
{
    let n = v.len();
    let mut out: Vec<char> = Vec::new();
    let mut i: usize = 0;
    proof {
        assert(v@.subrange(0, n as int) =~= v@);
        assert(out@ + spec_replace_char(v@, c, rep@) =~= spec_replace_char(v@, c, rep@));
    }
    while i < n
        invariant
            i <= n,
            n == v.len(),
            spec_replace_char(v@, c, rep@) == out@ + spec_replace_char(
                v@.subrange(i as int, n as int),
                c,
                rep@,
            ),
        decreases n - i,
    {
        let ghost pre = out@;
        let ghost tail = v@.subrange(i as int, n as int);
        if v[i] == c {
            push_all(&mut out, rep);
        } else {
            out.push(v[i]);
        }
        i += 1;
        proof {
            let tail2 = v@.subrange(i as int, n as int);
            assert(tail[0] == v@[i - 1]);
            assert(tail.subrange(1, tail.len() as int) =~= tail2);
            if v@[i - 1] == c {
                assert(spec_replace_char(tail, c, rep@) == rep@ + spec_replace_char(tail2, c, rep@));
                assert(pre + (rep@ + spec_replace_char(tail2, c, rep@)) =~= (pre + rep@)
                    + spec_replace_char(tail2, c, rep@));
            } else {
                assert(spec_replace_char(tail, c, rep@) == seq![v@[i - 1]] + spec_replace_char(
                    tail2,
                    c,
                    rep@,
                ));
                assert(pre + (seq![v@[i - 1]] + spec_replace_char(tail2, c, rep@)) =~= (pre.push(
                    v@[i - 1],
                )) + spec_replace_char(tail2, c, rep@));
            }
        }
    }
    proof {
        let tail = v@.subrange(n as int, n as int);
        assert(tail =~= Seq::<char>::empty());
        assert(spec_replace_char(tail, c, rep@) =~= Seq::<char>::empty());
        assert(out@ + Seq::<char>::empty() =~= out@);
    }
    out
}

/// `drop(s)` with the leading run of trim characters removed.
pub open spec fn trim_front(s: Seq<char>) -> Seq<char>
    decreases s.len(),
{
    if s.len() > 0 && is_trim_space(s[0]) {
        trim_front(s.subrange(1, s.len() as int))
    } else {
        s
    }
}

/// `s` with the trailing run of trim characters removed.
pub open spec fn trim_back(s: Seq<char>) -> Seq<char>
    decreases s.len(),
{
    if s.len() > 0 && is_trim_space(s[s.len() - 1]) {
        trim_back(s.subrange(0, s.len() - 1))
    } else {
        s
    }
}

/// `s` without surrounding whitespace.
pub open spec fn spec_trim(s: Seq<char>) -> Seq<char> {
    trim_back(trim_front(s))
}

proof fn lemma_trim_front_skip(s: Seq<char>, a: int)
    requires
        0 <= a <= s.len(),
        forall|i: int| 0 <= i < a ==> is_trim_space(s[i]),
        a < s.len() ==> !is_trim_space(s[a]),
    ensures
        trim_front(s) == s.subrange(a, s.len() as int),
    decreases a,
{
    if a == 0 {
        if s.len() > 0 && is_trim_space(s[0]) {
            assert(false);
        }
        assert(s.subrange(0, s.len() as int) =~= s);
    } else {
        let t = s.subrange(1, s.len() as int);
        lemma_trim_front_skip(t, a - 1);
        assert(t.subrange(a - 1, t.len() as int) =~= s.subrange(a, s.len() as int));
    }
}

proof fn lemma_trim_back_take(s: Seq<char>, b: int)
    requires
        0 <= b <= s.len(),
        forall|i: int| b <= i < s.len() ==> is_trim_space(s[i]),
        b > 0 ==> !is_trim_space(s[b - 1]),
    ensures
        trim_back(s) == s.subrange(0, b),
    decreases s.len(),
{
    if b == s.len() {
        if s.len() > 0 && is_trim_space(s[s.len() - 1]) {
            assert(false);
        }
        assert(s.subrange(0, s.len() as int) =~= s);
    } else {
        let t = s.subrange(0, s.len() - 1);
        lemma_trim_back_take(t, b);
        assert(t.subrange(0, b) =~= s.subrange(0, b));
    }
}

/// Surrounding whitespace removed, as the dictionary stores words.
pub fn trim_chars(v: &Vec<char>) -> (r: Vec<char>)
    ensures
        r@ == spec_trim(v@),
{
    let n = v.len();
    let mut a: usize = 0;
    while a < n && trim_space_char(v[a as usize])
        invariant
            a <= n,
            n == v.len(),
            forall|i: int| 0 <= i < a ==> is_trim_space(v@[i]),
        decreases n - a,
    {
        a += 1;
    }
    let mut b: usize = n;
    while b > a && trim_space_char(v[b - 1])
        invariant
            a <= b <= n,
            n == v.len(),
            forall|i: int| 0 <= i < a ==> is_trim_space(v@[i]),
            forall|i: int| b <= i < n ==> is_trim_space(v@[i]),
        decreases b,
    {
        b -= 1;
    }
    let mut out: Vec<char> = Vec::new();
    let mut i: usize = a;
    while i < b
        invariant
            a <= i <= b <= n,
            n == v.len(),
            out@ == v@.subrange(a as int, i as int),
        decreases b - i,
    {
        out.push(v[i]);
        i += 1;
        proof {
            assert(out@ =~= v@.subrange(a as int, i as int));
        }
    }
    proof {
        lemma_trim_front_skip(v@, a as int);
        let f = v@.subrange(a as int, n as int);
        if b == a {
            lemma_trim_back_take(f, 0);
        } else {
            lemma_trim_back_take(f, b - a);
        }
        assert(f.subrange(0, b - a) =~= v@.subrange(a as int, b as int));
        assert(out@ =~= v@.subrange(a as int, b as int));
    }
    out
}

} // verus!
