use vstd::prelude::*;
use crate::chars::{chars_of, string_from_chars};
use crate::{spec_utf8_len, utf8_len};

verus! {

/// Characters the transcoder may synthesize: padding, grouping, class and
/// quantifier syntax, and the letters of control escapes.
pub open spec fn is_syntax_char(c: char) -> bool {
    ||| c == '\\'
    ||| c == 'x'
    ||| c == '0'
    ||| c == '('
    ||| c == ')'
    ||| c == '['
    ||| c == ']'
    ||| c == '-'
    ||| c == '?'
    ||| c == '+'
    ||| c == '*'
    ||| c == '{'
    ||| c == '}'
    ||| c == '^'
    ||| c == '$'
    ||| c == 't'
    ||| c == 'r'
    ||| c == 'n'
    ||| c == '.'
    ||| c == '|'
    ||| c == '#'
    ||| c == '&'
    ||| c == '~'
}

/// Every character of the result is pattern syntax or comes from the input.
pub open spec fn from_input(c: char, s: Seq<char>) -> bool {
    is_syntax_char(c) || s.contains(c)
}

pub open spec fn out_ok(o: Seq<char>, s: Seq<char>) -> bool {
    forall|k: int| 0 <= k < o.len() ==> from_input(#[trigger] o[k], s)
}

/// The character a class escape stands for.
pub open spec fn unescape_char(c: char) -> char {
    if c == 't' {
        '\t'
    } else if c == 'r' {
        '\r'
    } else if c == 'n' {
        '\n'
    } else {
        c
    }
}

/// One class member at `i`: a single possibly escaped character, or a
/// range of two joined by a dash. Yields the index after the member and
/// its low and high characters, or nothing when the member is malformed
/// (a trailing backslash, or a range running downward).
pub open spec fn spec_class_item(s: Seq<char>, i: int) -> Option<(int, char, char)> {
    if s[i] == '\\' && !(i + 1 < s.len()) {
        None
    } else {
        let j = if s[i] == '\\' {
            i + 2
        } else {
            i + 1
        };
        let lo = if s[i] == '\\' {
            unescape_char(s[i + 1])
        } else {
            s[i]
        };
        if j + 1 < s.len() && s[j] == '-' && s[j + 1] != ']' {
            if s[j + 1] == '\\' && !(j + 2 < s.len()) {
                None
            } else {
                let j2 = if s[j + 1] == '\\' {
                    j + 3
                } else {
                    j + 2
                };
                let hi = if s[j + 1] == '\\' {
                    unescape_char(s[j + 2])
                } else {
                    s[j + 1]
                };
                if (hi as u32) < (lo as u32) {
                    None
                } else {
                    Some((j2, lo, hi))
                }
            }
        } else {
            Some((j, lo, lo))
        }
    }
}

/// The members of a class after the first, all of encoded width `w`, up to
/// the closing bracket; yields the index just past the bracket.
pub open spec fn scan_class_rest(s: Seq<char>, i: int, w: int) -> Option<int>
    decreases s.len() - i,
{
    if i >= s.len() {
        None
    } else if s[i] == ']' {
        Some(i + 1)
    } else {
        match spec_class_item(s, i) {
            None => None,
            Some((j, lo, hi)) => {
                if spec_utf8_len(lo) == w && spec_utf8_len(hi) == w {
                    scan_class_rest(
                        s,
                        if i < j && j <= s.len() {
                            j
                        } else {
                            i + 1
                        },
                        w,
                    )
                } else {
                    None
                }
            },
        }
    }
}

/// A whole class body starting at `i` (just after the opening bracket): at
/// least one member, all of one encoded width, then the closing bracket.
pub open spec fn spec_scan_class(s: Seq<char>, i: int) -> Option<int> {
    if i >= s.len() {
        None
    } else if s[i] == ']' {
        None
    } else {
        match spec_class_item(s, i) {
            None => None,
            Some((j, lo, hi)) => {
                let w = spec_utf8_len(lo);
                if spec_utf8_len(hi) != w {
                    None
                } else {
                    scan_class_rest(s, j, w)
                }
            },
        }
    }
}

/// The index just past the first closing brace at or after `i`.
pub open spec fn spec_brace_end(s: Seq<char>, i: int) -> Option<int>
    decreases s.len() - i,
{
    if i >= s.len() {
        None
    } else if s[i] == '}' {
        Some(i + 1)
    } else {
        spec_brace_end(s, i + 1)
    }
}

/// The acceptance condition of the supported pattern grammar, scanned left
/// to right: anchors, literals, escapes, classes, groups and postfix
/// quantifiers; a quantifier needs a preceding atom, groups must balance,
/// classes and counted repetitions must be terminated, and the bare
/// metacharacters this encoding does not support are refused.
pub open spec fn scan_pattern(s: Seq<char>, i: int, has_atom: bool, depth: int, xmode: bool) -> bool
    decreases s.len() - i,
{
    if i >= s.len() {
        depth == 0
    } else {
        let c = s[i];
        if xmode && c == ' ' {
            scan_pattern(s, i + 1, has_atom, depth, xmode)
        } else if c == '^' || c == '$' {
            scan_pattern(s, i + 1, false, depth, xmode)
        } else if c == '(' {
            scan_pattern(s, i + 1, false, depth + 1, xmode)
        } else if c == ')' {
            depth > 0 && scan_pattern(s, i + 1, true, depth - 1, xmode)
        } else if c == '?' || c == '+' || c == '*' {
            has_atom && scan_pattern(s, i + 1, false, depth, xmode)
        } else if c == '{' {
            has_atom && match spec_brace_end(s, i + 1) {
                None => false,
                Some(j) => scan_pattern(
                    s,
                    if i < j && j <= s.len() {
                        j
                    } else {
                        i + 1
                    },
                    false,
                    depth,
                    xmode,
                ),
            }
        } else if c == '[' {
            match spec_scan_class(s, i + 1) {
                None => false,
                Some(j) => scan_pattern(
                    s,
                    if i < j && j <= s.len() {
                        j
                    } else {
                        i + 1
                    },
                    true,
                    depth,
                    xmode,
                ),
            }
        } else if c == '\\' {
            i + 1 < s.len() && scan_pattern(s, i + 2, true, depth, xmode)
        } else if c == '.' || c == '|' || c == '}' || c == ']' {
            false
        } else {
            scan_pattern(s, i + 1, true, depth, xmode)
        }
    }
}

/// A pattern the transcoder accepts: its body scans under the grammar
/// above, in extended mode when the extended-mode marker leads.
pub open spec fn wf_pattern(s: Seq<char>) -> bool {
    if s.len() >= 4 && s[0] == '(' && s[1] == '?' && s[2] == 'x' && s[3] == ')' {
        scan_pattern(s, 4, false, 0, true)
    } else {
        scan_pattern(s, 0, false, 0, false)
    }
}

fn push_from(out: &mut Vec<char>, c: char, Ghost(s): Ghost<Seq<char>>)
    requires
        from_input(c, s),
        out_ok(old(out)@, s),
    ensures
        final(out)@ == old(out)@.push(c),
        out_ok(final(out)@, s),
{
    let ghost pre = out@;
    out.push(c);
    proof {
        assert forall|k: int| 0 <= k < out@.len() implies from_input(#[trigger] out@[k], s) by {
            if k < pre.len() {
                assert(out@[k] == pre[k]);
            }
        }
    }
}

fn insert_from(out: &mut Vec<char>, pos: usize, c: char, Ghost(s): Ghost<Seq<char>>)
    requires
        pos <= old(out).len(),
        from_input(c, s),
        out_ok(old(out)@, s),
    ensures
        final(out)@ == old(out)@.insert(pos as int, c),
        out_ok(final(out)@, s),
{
    let ghost pre = out@;
    out.insert(pos, c);
    proof {
        assert forall|k: int| 0 <= k < out@.len() implies from_input(#[trigger] out@[k], s) by {
            if k < pos {
                assert(out@[k] == pre[k]);
            } else if k > pos {
                assert(out@[k] == pre[k - 1]);
            }
        }
    }
}

/// Emit the `\x00` padding that fills one character up to four bytes.
fn push_pad(out: &mut Vec<char>, width: usize, Ghost(s): Ghost<Seq<char>>)
    requires
        out_ok(old(out)@, s),
    ensures
        out_ok(final(out)@, s),
        final(out)@.len() >= old(out)@.len(),
{
    let mut t: usize = 0;
    while t < width
        invariant
            out_ok(out@, s),
            out@.len() >= old(out)@.len(),
        decreases width - t,
    {
        push_from(out, '\\', Ghost(s));
        push_from(out, 'x', Ghost(s));
        push_from(out, '0', Ghost(s));
        push_from(out, '0', Ghost(s));
        t += 1;
    }
}

fn is_meta(c: char) -> bool {
    c == '\\' || c == '.' || c == '+' || c == '*' || c == '?' || c == '(' || c == ')' || c == '|'
        || c == '[' || c == ']' || c == '{' || c == '}' || c == '^' || c == '$' || c == '#' || c
        == '&' || c == '-' || c == '~'
}

/// Write one class member, escaping metacharacters and control characters.
fn emit_class_char(out: &mut Vec<char>, c: char, Ghost(s): Ghost<Seq<char>>)
    requires
        from_input(c, s) || c == '\t' || c == '\r' || c == '\n',
        out_ok(old(out)@, s),
    ensures
        out_ok(final(out)@, s),
        final(out)@.len() >= old(out)@.len(),
{
    if c == '\t' {
        push_from(out, '\\', Ghost(s));
        push_from(out, 't', Ghost(s));
    } else if c == '\r' {
        push_from(out, '\\', Ghost(s));
        push_from(out, 'r', Ghost(s));
    } else if c == '\n' {
        push_from(out, '\\', Ghost(s));
        push_from(out, 'n', Ghost(s));
    } else if is_meta(c) {
        push_from(out, '\\', Ghost(s));
        push_from(out, c, Ghost(s));
    } else {
        push_from(out, c, Ghost(s));
    }
}

fn unescape(c: char) -> (r: char)
    ensures
        r == unescape_char(c),
{
    if c == 't' {
        '\t'
    } else if c == 'r' {
        '\r'
    } else if c == 'n' {
        '\n'
    } else {
        c
    }
}

/// Read one class member starting at `i`, as `spec_class_item` describes.
fn parse_class_item(v: &Vec<char>, i: usize) -> (r: Option<(usize, char, char)>)
    requires
        i < v.len(),
    ensures
        match r {
            Some(t) => spec_class_item(v@, i as int) == Some((t.0 as int, t.1, t.2)) && i < t.0
                <= v.len() && (v@.contains(t.1) || t.1 == '\t' || t.1 == '\r' || t.1 == '\n') && (
            v@.contains(t.2) || t.2 == '\t' || t.2 == '\r' || t.2 == '\n'),
            None => spec_class_item(v@, i as int) is None,
        },
{
    let n = v.len();
    let lo: char;
    let j: usize;
    if v[i] == '\\' {
        if n - i <= 1 {
            return None;
        }
        lo = unescape(v[i + 1]);
        j = i + 2;
        proof {
            if !(lo == '\t' || lo == '\r' || lo == '\n') {
                assert(v@.contains(lo)) by {
                    assert(v@[i + 1] == lo);
                }
            }
        }
    } else {
        lo = v[i];
        j = i + 1;
        proof {
            assert(v@.contains(lo)) by {
                assert(v@[i as int] == lo);
            }
        }
    }
    if n - j > 1 && v[j] == '-' && v[j + 1] != ']' {
        let hi: char;
        let j2: usize;
        if v[j + 1] == '\\' {
            if n - j <= 2 {
                return None;
            }
            hi = unescape(v[j + 2]);
            j2 = j + 3;
            proof {
                if !(hi == '\t' || hi == '\r' || hi == '\n') {
                    assert(v@.contains(hi)) by {
                        assert(v@[j + 2] == hi);
                    }
                }
            }
        } else {
            hi = v[j + 1];
            j2 = j + 2;
            proof {
                assert(v@.contains(hi)) by {
                    assert(v@[j + 1] == hi);
                }
            }
        }
        if (hi as u32) < (lo as u32) {
            return None;
        }
        Some((j2, lo, hi))
    } else {
        Some((j, lo, lo))
    }
}

/// Rewrite an ordinary character-level pattern into one that matches the
/// fixed-width four-byte encoding: every literal and class is preceded by
/// the padding its character width calls for, quantified atoms are grouped,
/// class members are sorted and merged into ranges. The rewrite succeeds
/// exactly on the patterns the grammar accepts, and every character of the
/// result is pattern syntax or a character of the input.
#[verifier::loop_isolation(false)]
#[verifier::rlimit(100)]
pub fn regex_pattern_to_custom_pattern(pattern: &str) -> (r: Option<String>)
    ensures
        r is Some <==> wf_pattern(pattern@),
        match r {
            Some(out) => out_ok(out@, pattern@),
            None => true,
        },
{
    let v = chars_of(pattern);
    let ghost s = pattern@;
    let n = v.len();
    let mut i: usize = 0;
    let mut xmode = false;
    if n >= 4 && v[0] == '(' && v[1] == '?' && v[2] == 'x' && v[3] == ')' {
        xmode = true;
        i = 4;
    }
    let mut out: Vec<char> = Vec::new();
    let mut atom_start: usize = 0;
    let mut has_atom = false;
    let mut atom_wrapped = false;
    let mut groups: Vec<usize> = Vec::new();
    while i < n
        invariant
            i <= n,
            n == v.len(),
            v@ == s,
            s == pattern@,
            out_ok(out@, s),
            atom_start <= out.len(),
            forall|g: int| 0 <= g < groups@.len() ==> (#[trigger] groups@[g]) <= out.len(),
            wf_pattern(s) == scan_pattern(s, i as int, has_atom, groups@.len() as int, xmode),
        decreases n - i,
    {
        let ghost gi = i as int;
        let ghost gha = has_atom;
        let ghost gd = groups@.len() as int;
        let c = v[i];
        proof {
            assert(s.contains(c)) by {
                assert(s[i as int] == c);
            }
        }
        if xmode && c == ' ' {
            i += 1;
            proof {
                assert(scan_pattern(s, gi, gha, gd, xmode) == scan_pattern(s, gi + 1, gha, gd,
                    xmode));
            }
        } else if c == '^' || c == '$' {
            push_from(&mut out, c, Ghost(s));
            has_atom = false;
            i += 1;
            proof {
                assert(scan_pattern(s, gi, gha, gd, xmode) == scan_pattern(s, gi + 1, false, gd,
                    xmode));
            }
        } else if c == '(' {
            groups.push(out.len());
            push_from(&mut out, '(', Ghost(s));
            has_atom = false;
            i += 1;
            proof {
                assert(scan_pattern(s, gi, gha, gd, xmode) == scan_pattern(s, gi + 1, false, gd
                    + 1, xmode));
            }
        } else if c == ')' {
            match groups.pop() {
                None => {
                    proof {
                        assert(!scan_pattern(s, gi, gha, gd, xmode));
                    }
                    return None;
                },
                Some(g) => {
                    push_from(&mut out, ')', Ghost(s));
                    atom_start = g;
                    has_atom = true;
                    atom_wrapped = true;
                    i += 1;
                    proof {
                        assert(scan_pattern(s, gi, gha, gd, xmode) == scan_pattern(s, gi + 1, true,
                            gd - 1, xmode));
                    }
                },
            }
        } else if c == '?' || c == '+' || c == '*' {
            if !has_atom {
                proof {
                    assert(!scan_pattern(s, gi, gha, gd, xmode));
                }
                return None;
            }
            if !atom_wrapped {
                insert_from(&mut out, atom_start, '(', Ghost(s));
                push_from(&mut out, ')', Ghost(s));
            }
            push_from(&mut out, c, Ghost(s));
            has_atom = false;
            i += 1;
            proof {
                assert(scan_pattern(s, gi, gha, gd, xmode) == scan_pattern(s, gi + 1, false, gd,
                    xmode));
            }
        } else if c == '{' {
            if !has_atom {
                proof {
                    assert(!scan_pattern(s, gi, gha, gd, xmode));
                }
                return None;
            }
            if !atom_wrapped {
                insert_from(&mut out, atom_start, '(', Ghost(s));
                push_from(&mut out, ')', Ghost(s));
            }
            push_from(&mut out, '{', Ghost(s));
            i += 1;
            let ghost i0 = i;
            let ghost len0 = out@.len();
            while i < n && v[i] != '}'
                invariant
                    i0 <= i <= n,
                    n == v.len(),
                    v@ == s,
                    out_ok(out@, s),
                    out@.len() >= len0,
                    spec_brace_end(s, i0 as int) == spec_brace_end(s, i as int),
                decreases n - i,
            {
                proof {
                    assert(s.contains(v@[i as int]));
                    assert(spec_brace_end(s, i as int) == spec_brace_end(s, i + 1));
                }
                push_from(&mut out, v[i], Ghost(s));
                i += 1;
            }
            if i >= n {
                proof {
                    assert(spec_brace_end(s, i as int) is None);
                    assert(!scan_pattern(s, gi, gha, gd, xmode));
                }
                return None;
            }
            push_from(&mut out, '}', Ghost(s));
            has_atom = false;
            i += 1;
            proof {
                assert(spec_brace_end(s, i - 1) == Some(i as int));
                assert(spec_brace_end(s, gi + 1) == Some(i as int));
                assert(scan_pattern(s, gi, gha, gd, xmode) == scan_pattern(s, i as int, false, gd,
                    xmode));
            }
        } else if c == '[' {
            i += 1;
            let ghost cs0 = i as int;
            if i >= n {
                proof {
                    assert(spec_scan_class(s, cs0) is None);
                    assert(!scan_pattern(s, gi, gha, gd, xmode));
                }
                return None;
            }
            if v[i] == ']' {
                proof {
                    assert(spec_scan_class(s, cs0) is None);
                    assert(!scan_pattern(s, gi, gha, gd, xmode));
                }
                return None;
            }
            let mut items: Vec<(char, char)> = Vec::new();
            let first = match parse_class_item(&v, i) {
                None => {
                    proof {
                        assert(spec_scan_class(s, cs0) is None);
                        assert(!scan_pattern(s, gi, gha, gd, xmode));
                    }
                    return None;
                },
                Some(t) => t,
            };
            let bl = utf8_len(first.1);
            if utf8_len(first.2) != bl {
                proof {
                    assert(spec_scan_class(s, cs0) is None);
                    assert(!scan_pattern(s, gi, gha, gd, xmode));
                }
                return None;
            }
            items.push((first.1, first.2));
            i = first.0;
            proof {
                assert(spec_scan_class(s, cs0) == scan_class_rest(s, i as int, bl as int));
            }
            while i < n && v[i] != ']'
                invariant
                    cs0 < i as int <= n,
                    n == v.len(),
                    v@ == s,
                    items@.len() >= 1,
                    spec_scan_class(s, cs0) == scan_class_rest(s, i as int, bl as int),
                    forall|m: int|
                        0 <= m < items@.len() ==> {
                            let it = #[trigger] items@[m];
                            &&& (from_input(it.0, s) || it.0 == '\t' || it.0 == '\r' || it.0
                                == '\n')
                            &&& (from_input(it.1, s) || it.1 == '\t' || it.1 == '\r' || it.1
                                == '\n')
                        },
                decreases n - i,
            {
                let nxt = match parse_class_item(&v, i) {
                    None => {
                        proof {
                            assert(scan_class_rest(s, i as int, bl as int) is None);
                            assert(!scan_pattern(s, gi, gha, gd, xmode));
                        }
                        return None;
                    },
                    Some(t) => t,
                };
                if utf8_len(nxt.1) != bl || utf8_len(nxt.2) != bl {
                    proof {
                        assert(scan_class_rest(s, i as int, bl as int) is None);
                        assert(!scan_pattern(s, gi, gha, gd, xmode));
                    }
                    return None;
                }
                let ghost pre_items = items@;
                items.push((nxt.1, nxt.2));
                proof {
                    assert(scan_class_rest(s, i as int, bl as int) == scan_class_rest(s,
                        nxt.0 as int, bl as int));
                    assert forall|m: int| 0 <= m < items@.len() implies {
                        let it = #[trigger] items@[m];
                        &&& (from_input(it.0, s) || it.0 == '\t' || it.0 == '\r' || it.0 == '\n')
                        &&& (from_input(it.1, s) || it.1 == '\t' || it.1 == '\r' || it.1 == '\n')
                    } by {
                        if m < pre_items.len() {
                            assert(items@[m] == pre_items[m]);
                        }
                    }
                }
                i = nxt.0;
            }
            if i >= n {
                proof {
                    assert(scan_class_rest(s, i as int, bl as int) is None);
                    assert(!scan_pattern(s, gi, gha, gd, xmode));
                }
                return None;
            }
            i += 1;
            proof {
                assert(scan_class_rest(s, i - 1, bl as int) == Some(i as int));
                assert(spec_scan_class(s, cs0) == Some(i as int));
                assert(scan_pattern(s, gi, gha, gd, xmode) == scan_pattern(s, i as int, true, gd,
                    xmode));
            }
            // sort members by first codepoint
            let mut sorted: Vec<(char, char)> = Vec::new();
            let mut si: usize = 0;
            while si < items.len()
                invariant
                    si <= items@.len(),
                    sorted@.len() == si,
                    forall|m: int|
                        0 <= m < items@.len() ==> {
                            let it = #[trigger] items@[m];
                            &&& (from_input(it.0, s) || it.0 == '\t' || it.0 == '\r' || it.0
                                == '\n')
                            &&& (from_input(it.1, s) || it.1 == '\t' || it.1 == '\r' || it.1
                                == '\n')
                        },
                    forall|m: int|
                        0 <= m < sorted@.len() ==> {
                            let it = #[trigger] sorted@[m];
                            &&& (from_input(it.0, s) || it.0 == '\t' || it.0 == '\r' || it.0
                                == '\n')
                            &&& (from_input(it.1, s) || it.1 == '\t' || it.1 == '\r' || it.1
                                == '\n')
                        },
                decreases items@.len() - si,
            {
                let it = items[si];
                let mut pos: usize = 0;
                while pos < sorted.len() && (sorted[pos].0 as u32) <= (it.0 as u32)
                    invariant
                        pos <= sorted@.len(),
                    decreases sorted@.len() - pos,
                {
                    pos += 1;
                }
                let ghost pre_sorted = sorted@;
                sorted.insert(pos, it);
                proof {
                    assert forall|m: int| 0 <= m < sorted@.len() implies {
                        let it2 = #[trigger] sorted@[m];
                        &&& (from_input(it2.0, s) || it2.0 == '\t' || it2.0 == '\r' || it2.0
                            == '\n')
                        &&& (from_input(it2.1, s) || it2.1 == '\t' || it2.1 == '\r' || it2.1
                            == '\n')
                    } by {
                        if m < pos {
                            assert(sorted@[m] == pre_sorted[m]);
                        } else if m > pos {
                            assert(sorted@[m] == pre_sorted[m - 1]);
                        }
                    }
                }
                si += 1;
            }
            // merge adjacent and overlapping ranges
            let mut merged: Vec<(char, char)> = Vec::new();
            let mut mi: usize = 0;
            let mut cur = sorted[0];
            while sorted.len() - mi > 1
                invariant
                    mi < sorted@.len(),
                    sorted@.len() >= 1,
                    forall|m: int|
                        0 <= m < sorted@.len() ==> {
                            let it = #[trigger] sorted@[m];
                            &&& (from_input(it.0, s) || it.0 == '\t' || it.0 == '\r' || it.0
                                == '\n')
                            &&& (from_input(it.1, s) || it.1 == '\t' || it.1 == '\r' || it.1
                                == '\n')
                        },
                    (from_input(cur.0, s) || cur.0 == '\t' || cur.0 == '\r' || cur.0 == '\n'),
                    (from_input(cur.1, s) || cur.1 == '\t' || cur.1 == '\r' || cur.1 == '\n'),
                    forall|m: int|
                        0 <= m < merged@.len() ==> {
                            let it = #[trigger] merged@[m];
                            &&& (from_input(it.0, s) || it.0 == '\t' || it.0 == '\r' || it.0
                                == '\n')
                            &&& (from_input(it.1, s) || it.1 == '\t' || it.1 == '\r' || it.1
                                == '\n')
                        },
                decreases sorted@.len() - mi,
            {
                let nxt = sorted[mi + 1];
                if (nxt.0 as u32) as u64 <= (cur.1 as u32) as u64 + 1 {
                    if (nxt.1 as u32) > (cur.1 as u32) {
                        cur = (cur.0, nxt.1);
                    }
                } else {
                    let ghost pre_merged = merged@;
                    merged.push(cur);
                    proof {
                        assert forall|m: int| 0 <= m < merged@.len() implies {
                            let it = #[trigger] merged@[m];
                            &&& (from_input(it.0, s) || it.0 == '\t' || it.0 == '\r' || it.0
                                == '\n')
                            &&& (from_input(it.1, s) || it.1 == '\t' || it.1 == '\r' || it.1
                                == '\n')
                        } by {
                            if m < pre_merged.len() {
                                assert(merged@[m] == pre_merged[m]);
                            }
                        }
                    }
                    cur = nxt;
                }
                mi += 1;
            }
            let ghost pre_merged2 = merged@;
            merged.push(cur);
            proof {
                assert forall|m: int| 0 <= m < merged@.len() implies {
                    let it = #[trigger] merged@[m];
                    &&& (from_input(it.0, s) || it.0 == '\t' || it.0 == '\r' || it.0 == '\n')
                    &&& (from_input(it.1, s) || it.1 == '\t' || it.1 == '\r' || it.1 == '\n')
                } by {
                    if m < pre_merged2.len() {
                        assert(merged@[m] == pre_merged2[m]);
                    }
                }
            }
            // the class atom: padding, then the normalized members
            atom_start = out.len();
            push_pad(&mut out, 4 - bl, Ghost(s));
            push_from(&mut out, '[', Ghost(s));
            let ghost elen0 = out@.len();
            let mut ei: usize = 0;
            while ei < merged.len()
                invariant
                    out_ok(out@, s),
                    out@.len() >= elen0,
                    forall|m: int|
                        0 <= m < merged@.len() ==> {
                            let it = #[trigger] merged@[m];
                            &&& (from_input(it.0, s) || it.0 == '\t' || it.0 == '\r' || it.0
                                == '\n')
                            &&& (from_input(it.1, s) || it.1 == '\t' || it.1 == '\r' || it.1
                                == '\n')
                        },
                decreases merged@.len() - ei,
            {
                let e = merged[ei];
                emit_class_char(&mut out, e.0, Ghost(s));
                if e.1 != e.0 {
                    push_from(&mut out, '-', Ghost(s));
                    emit_class_char(&mut out, e.1, Ghost(s));
                }
                ei += 1;
            }
            push_from(&mut out, ']', Ghost(s));
            has_atom = true;
            atom_wrapped = false;
        } else if c == '\\' {
            if n - i <= 1 {
                proof {
                    assert(!scan_pattern(s, gi, gha, gd, xmode));
                }
                return None;
            }
            let e = v[i + 1];
            proof {
                assert(s.contains(v@[i + 1]));
            }
            atom_start = out.len();
            push_pad(&mut out, 3, Ghost(s));
            if e == ' ' {
                push_from(&mut out, ' ', Ghost(s));
            } else {
                push_from(&mut out, '\\', Ghost(s));
                push_from(&mut out, e, Ghost(s));
            }
            has_atom = true;
            atom_wrapped = false;
            i += 2;
            proof {
                assert(scan_pattern(s, gi, gha, gd, xmode) == scan_pattern(s, gi + 2, true, gd,
                    xmode));
            }
        } else if c == '.' || c == '|' || c == '}' || c == ']' {
            // not part of the pattern language this encoding supports
            proof {
                assert(!scan_pattern(s, gi, gha, gd, xmode));
            }
            return None;
        } else {
            // one literal character, padded to the fixed width
            atom_start = out.len();
            let w = utf8_len(c);
            push_pad(&mut out, 4 - w, Ghost(s));
            if is_meta(c) {
                push_from(&mut out, '\\', Ghost(s));
            }
            push_from(&mut out, c, Ghost(s));
            has_atom = true;
            atom_wrapped = false;
            i += 1;
            proof {
                assert(scan_pattern(s, gi, gha, gd, xmode) == scan_pattern(s, gi + 1, true, gd,
                    xmode));
            }
        }
    }
    if groups.len() > 0 {
        proof {
            assert(!scan_pattern(s, i as int, has_atom, groups@.len() as int, xmode));
        }
        return None;
    }
    proof {
        assert(scan_pattern(s, i as int, has_atom, 0, xmode));
    }
    Some(string_from_chars(&out))
}

} // verus!
