use vstd::prelude::*;
use crate::tcc_rules::{class_has, lookahead_patterns, tcc_patterns, TccStep, CLS_CONS, CLS_UV};

verus! {

/// Length of the optional final group of a cluster: a consonant, an
/// optional second consonant, an optional vowel, then a required
/// thanthakhat — or nothing at all.
fn match_karan_group(text: &Vec<char>, from: usize, to: usize) -> (r: usize)
    requires
        from <= to <= text.len(),
    ensures
        from + r <= to,
{
    let mut p = from;
    if p < to && class_has(CLS_CONS, text[p]) {
        p += 1;
    } else {
        return 0;
    }
    if p < to && class_has(CLS_CONS, text[p]) {
        p += 1;
    }
    if p < to && class_has(CLS_UV, text[p]) {
        p += 1;
    }
    if p < to && text[p] == '\u{0e4c}' {
        p + 1 - from
    } else {
        0
    }
}

/// Match one cluster-shape rule against `text[from..to]`, taking each
/// optional element greedily; returns how many characters the rule consumed
/// when it matched as a whole.
fn match_steps(text: &Vec<char>, from: usize, to: usize, steps: &Vec<TccStep>) -> (r: Option<
    usize,
>)
    requires
        from <= to <= text.len(),
    ensures
        r matches Some(l) ==> from + l <= to,
{
    let mut p = from;
    let n_steps = steps.len();
    let mut si: usize = 0;
    while si < n_steps
        invariant
            from <= p <= to <= text.len(),
            n_steps == steps.len(),
        decreases n_steps - si,
    {
        let st = steps[si];
        match st {
            TccStep::Lit(c) => {
                if p < to && text[p] == c {
                    p += 1;
                } else {
                    return None;
                }
            },
            TccStep::Cls(id) => {
                if p < to && class_has(id, text[p]) {
                    p += 1;
                } else {
                    return None;
                }
            },
            TccStep::OptLit(c) => {
                if p < to && text[p] == c {
                    p += 1;
                }
            },
            TccStep::OptCls(id) => {
                if p < to && class_has(id, text[p]) {
                    p += 1;
                }
            },
            TccStep::KGroup => {
                let l = match_karan_group(text, p, to);
                p += l;
            },
        }
        si += 1;
    }
    Some(p - from)
}

/// The legal cluster boundaries of `text`: a strictly increasing vector of
/// character indices, all positive, whose last entry is the character
/// count. The cut positions themselves follow the pinned cascade of
/// cluster-shape rules, first match wins; where no rule matches, one
/// isolated character is consumed.
pub fn tcc_pos(text: &Vec<char>) -> (r: Vec<usize>)
    ensures
        forall|i: int| 0 <= i && i + 1 < r@.len() ==> #[trigger] r@[i] < r@[i + 1],
        forall|i: int| 0 <= i < r@.len() ==> 0 < #[trigger] r@[i] <= text@.len(),
        (r@.len() == 0) == (text@.len() == 0),
        r@.len() > 0 ==> r@[r@.len() - 1] == text@.len(),
{
    let rules = tcc_patterns();
    let looks = lookahead_patterns();
    let n = text.len();
    let mut out: Vec<usize> = Vec::new();
    let mut pos: usize = 0;
    while pos < n
        invariant
            pos <= n,
            n == text.len(),
            out@.len() > 0 ==> out@[out@.len() - 1] == pos,
            out@.len() == 0 ==> pos == 0,
            forall|i: int| 0 <= i && i + 1 < out@.len() ==> #[trigger] out@[i] < out@[i + 1],
            forall|i: int| 0 <= i < out@.len() ==> 0 < #[trigger] out@[i] <= n,
            looks.len() == 2,
        decreases n - pos,
    {
        let n_rules = rules.len();
        let mut found: usize = 0;
        let mut matched = false;
        let mut ri: usize = 0;
        while ri < n_rules
            invariant
                n_rules == rules.len(),
                pos <= n == text.len(),
                matched ==> pos + found <= n,
            decreases n_rules - ri,
        {
            match match_steps(text, pos, n, &rules[ri]) {
                Some(l) => {
                    found = l;
                    matched = true;
                    ri = n_rules;
                },
                None => {
                    ri += 1;
                },
            }
        }
        let adv: usize;
        if matched && found >= 2 {
            // a look-ahead rule needs at least five characters, so the
            // shortened cluster is never empty
            let trim = match_steps(text, pos, pos + found, &looks[0]).is_some() || match_steps(
                text,
                pos,
                pos + found,
                &looks[1],
            ).is_some();
            if trim {
                adv = found - 1;
            } else {
                adv = found;
            }
        } else if matched && found >= 1 {
            adv = found;
        } else {
            // no rule matched: an isolated, unclusterable character
            adv = 1;
        }
        let ghost pre = out@;
        let ghost pre_pos = pos;
        pos += adv;
        out.push(pos);
        proof {
            assert(out@ == pre.push(pos));
            assert(pos > pre_pos);
            assert(out@.len() == pre.len() + 1);
            assert forall|i: int| 0 <= i && i + 1 < out@.len() implies #[trigger] out@[i] < out@[i
                + 1] by {
                assert(0 <= i < pre.len() + 1);
                assert(out@[i] == pre.push(pos)[i]);
                if i + 1 < pre.len() {
                    assert(pre.push(pos)[i] == pre[i]);
                    assert(pre.push(pos)[i + 1] == pre[i + 1]);
                    assert(pre[i] < pre[i + 1]);
                } else {
                    assert(i + 1 == pre.len());
                    assert(pre.push(pos)[i + 1] == pos);
                    assert(pre.push(pos)[i] == pre[i]);
                    assert(pre.len() > 0);
                    assert(i == pre.len() - 1);
                    assert(pre[pre.len() - 1] == pre_pos);
                    assert(pre[i] < pos);
                }
            }
        }
    }
    out
}

} // verus!
