use vstd::pervasive::VecAdditionalExecFns;
use vstd::prelude::*;

use crate::borders::{
    head_part, is_border, is_longest_border, lemma_border_drop_last, lemma_border_nesting,
    lemma_longest_border_exists, tail_part,
};
use crate::kmp::compute_prefix;
use crate::matching::{is_match_at, is_match_result, MatchError, TextMatch};

verus! {

/// `i` is the rightmost position of symbol `c` in the pattern.
pub open spec fn is_last_occurrence(p: Seq<char>, c: char, i: int) -> bool {
    &&& 0 <= i < p.len()
    &&& p[i] == c
    &&& forall|j: int| i < j < p.len() ==> p[j] != c
}

/// The table holds an entry for symbol `c`.
pub open spec fn has_entry(map: Seq<(char, usize)>, c: char) -> bool {
    exists|k: int| 0 <= k < map.len() && (#[trigger] map[k]).0 == c
}

/// After the last `b` symbols of the pattern matched at some alignment, an
/// occurrence `d` positions further right agrees with what was seen.
pub open spec fn shift_consistent(p: Seq<char>, b: int, d: int) -> bool {
    forall|i: int| p.len() - b <= i < p.len() && i - d >= 0 ==> (#[trigger] p[i - d]) == p[i]
}

/// Shifting by anything under `d_max` after matching the last `b` symbols
/// skips no alignment that could still be an occurrence.
pub open spec fn safe_shift(p: Seq<char>, b: int, d_max: int) -> bool {
    forall|d: int| 1 <= d < d_max ==> !(#[trigger] shift_consistent(p, b, d))
}

/// The last-occurrence table: the rightmost index of each distinct symbol
/// of the pattern.
pub(crate) fn last_occurancies(pattern: &[char]) -> (map: Vec<(char, usize)>)
    ensures
        forall|k: int| 0 <= k < map@.len() ==> is_last_occurrence(
            pattern@,
            (#[trigger] map@[k]).0,
            map@[k].1 as int,
        ),
        forall|c: char| pattern@.contains(c) ==> has_entry(map@, c),
{
    let ghost p = pattern@;
    let m = pattern.len();
    let mut map: Vec<(char, usize)> = Vec::new();
    let mut r: usize = m;
    while r > 0
        invariant
            p == pattern@,
            m == pattern@.len(),
            0 <= r <= m,
            forall|k: int| 0 <= k < map@.len() ==> is_last_occurrence(
                p,
                (#[trigger] map@[k]).0,
                map@[k].1 as int,
            ),
            forall|j: int| r <= j < m ==> has_entry(map@, #[trigger] p[j]),
        decreases r,
    {
        let c = pattern[r - 1];
        let mut found = false;
        let mut k: usize = 0;
        while k < map.len()
            invariant
                0 <= k <= map@.len(),
                found == exists|e: int| 0 <= e < k && (#[trigger] map@[e]).0 == c,
            decreases map@.len() - k,
        {
            if map[k].0 == c {
                found = true;
            }
            k += 1;
        }
        let ghost pre = map@;
        if !found {
            map.push((c, r - 1));
            proof {
                assert(map@[pre.len() as int].0 == c);
                assert(is_last_occurrence(p, c, r - 1)) by {
                    assert forall|j: int| r - 1 < j < m implies p[j] != c by {
                        if p[j] == c {
                            assert(has_entry(pre, p[j]));
                            let e = choose|e: int| 0 <= e < pre.len() && (#[trigger] pre[e]).0
                                == c;
                            assert(map@[e].0 == c);
                        }
                    }
                }
            }
        }
        proof {
            assert forall|k2: int| 0 <= k2 < map@.len() implies is_last_occurrence(
                p,
                (#[trigger] map@[k2]).0,
                map@[k2].1 as int,
            ) by {
                if k2 < pre.len() {
                    assert(map@[k2] == pre[k2]);
                }
            }
            assert forall|j: int| r - 1 <= j < m implies has_entry(map@, #[trigger] p[j]) by {
                if j >= r {
                    let e = choose|e: int| 0 <= e < pre.len() && (#[trigger] pre[e]).0 == p[j];
                    assert(map@[e].0 == p[j]);
                } else {
                    if found {
                        let e = choose|e: int| 0 <= e < pre.len() && (#[trigger] pre[e]).0 == c;
                        assert(map@[e].0 == c);
                    } else {
                        assert(map@[pre.len() as int].0 == c);
                    }
                }
            }
        }
        r -= 1;
    }
    map
}

/// Look a symbol up in the last-occurrence table.
pub(crate) fn lookup_last(map: &Vec<(char, usize)>, c: char) -> (r: Option<usize>)
    ensures
        match r {
            Some(i) => exists|k: int| 0 <= k < map@.len() && (#[trigger] map@[k]) == (c, i),
            None => !has_entry(map@, c),
        },
{
    let mut k: usize = 0;
    while k < map.len()
        invariant
            0 <= k <= map@.len(),
            forall|j: int| 0 <= j < k ==> (#[trigger] map@[j]).0 != c,
        decreases map@.len() - k,
    {
        let entry = map[k];
        if entry.0 == c {
            proof {
                assert(map@[k as int] == (c, entry.1));
            }
            return Some(entry.1);
        }
        k += 1;
    }
    None
}

/// Copy a slice of symbols in reverse order.
pub(crate) fn reverse_chars(x: &[char]) -> (r: Vec<char>)
    ensures
        r@ == x@.reverse(),
{
    let n = x.len();
    let mut r: Vec<char> = Vec::new();
    let mut i: usize = 0;
    while i < n
        invariant
            n == x@.len(),
            0 <= i <= n,
            r@.len() == i,
            forall|j: int| 0 <= j < i ==> #[trigger] r@[j] == x@[n - 1 - j],
        decreases n - i,
    {
        r.push(x[n - 1 - i]);
        i += 1;
    }
    proof {
        assert(r@ =~= x@.reverse());
    }
    r
}

/// A string and its reverse have the same border lengths.
proof fn lemma_border_reverse(x: Seq<char>, k: int)
    requires
        0 <= k,
    ensures
        is_border(x, k) <==> is_border(x.reverse(), k),
{
    let n = x.len() as int;
    let y = x.reverse();
    if is_border(x, k) {
        assert forall|i: int| 0 <= i < k implies head_part(y, k)[i] == tail_part(y, k)[i] by {
            assert(head_part(y, k)[i] == y[i]);
            assert(y[i] == x[n - 1 - i]);
            assert(tail_part(y, k)[i] == y[n - k + i]);
            assert(y[n - k + i] == x[k - 1 - i]);
            assert(head_part(x, k)[k - 1 - i] == tail_part(x, k)[k - 1 - i]);
            assert(head_part(x, k)[k - 1 - i] == x[k - 1 - i]);
            assert(tail_part(x, k)[k - 1 - i] == x[n - 1 - i]);
        }
        assert(head_part(y, k) =~= tail_part(y, k));
    }
    if is_border(y, k) {
        assert forall|i: int| 0 <= i < k implies head_part(x, k)[i] == tail_part(x, k)[i] by {
            assert(head_part(y, k)[k - 1 - i] == tail_part(y, k)[k - 1 - i]);
            assert(head_part(y, k)[k - 1 - i] == y[k - 1 - i]);
            assert(y[k - 1 - i] == x[n - k + i]);
            assert(tail_part(y, k)[k - 1 - i] == y[n - 1 - i]);
            assert(y[n - 1 - i] == x[i]);
            assert(head_part(x, k)[i] == x[i]);
            assert(tail_part(x, k)[i] == x[n - k + i]);
        }
        assert(head_part(x, k) =~= tail_part(x, k));
    }
}

/// The suffix of length `l` of a pattern has the same borders as the
/// prefix of length `l` of the reversed pattern.
proof fn lemma_suffix_border_reverse(p: Seq<char>, l: int, b: int)
    requires
        0 <= l <= p.len(),
        0 <= b,
    ensures
        is_border(tail_part(p, l), b) <==> is_border(head_part(p.reverse(), l), b),
{
    let n = p.len() as int;
    assert forall|i: int| 0 <= i < l implies head_part(p.reverse(), l)[i] == tail_part(
        p,
        l,
    ).reverse()[i] by {
        assert(head_part(p.reverse(), l)[i] == p.reverse()[i]);
        assert(p.reverse()[i] == p[n - 1 - i]);
        assert(tail_part(p, l).reverse()[i] == tail_part(p, l)[l - 1 - i]);
        assert(tail_part(p, l)[l - 1 - i] == p[n - l + l - 1 - i]);
    }
    assert(head_part(p.reverse(), l) =~= tail_part(p, l).reverse());
    lemma_border_reverse(tail_part(p, l), b);
}

/// Within any prefix that has a border of length `b`, some shorter prefix
/// has `b` as its longest border.
proof fn lemma_chain_to_exact_border(x: Seq<char>, l0: int, b: int)
    requires
        0 <= b < l0 <= x.len(),
        is_border(head_part(x, l0), b),
    ensures
        exists|l: int| b < l <= l0 && #[trigger] is_longest_border(head_part(x, l), b),
    decreases l0,
{
    lemma_longest_border_exists(head_part(x, l0), b);
    let bb = choose|bb: int| b <= bb && #[trigger] is_longest_border(head_part(x, l0), bb);
    assert(head_part(x, l0).len() == l0);
    if bb == b {
        assert(is_longest_border(head_part(x, l0), b));
    } else {
        lemma_border_nesting(head_part(x, l0), b, bb);
        assert(head_part(head_part(x, l0), bb) =~= head_part(x, bb));
        lemma_chain_to_exact_border(x, bb, b);
        let lw = choose|l: int| b < l <= bb && #[trigger] is_longest_border(head_part(x, l), b);
        assert(b < lw <= l0 && is_longest_border(head_part(x, lw), b));
    }
}

/// The good-suffix shift table. Entry `i` is a shift that is safe once the
/// last `len - 2 - i` pattern symbols have matched: the matched suffix
/// realigns with its nearest earlier occurrence, with the pattern's own
/// border period as the default. Entry 0 also serves a full match.
pub(crate) fn good_suffix(pattern: &[char]) -> (lambda: Vec<usize>)
    requires
        pattern@.len() >= 1,
    ensures
        lambda@.len() == if pattern@.len() == 1 {
            1int
        } else {
            pattern@.len() - 1
        },
        forall|i: int| 0 <= i < lambda@.len() ==> 1 <= #[trigger] lambda@[i] <= pattern@.len(),
        forall|i: int| 0 <= i < lambda@.len() ==> safe_shift(
            pattern@,
            pattern@.len() - 2 - i,
            #[trigger] lambda@[i] as int,
        ),
{
    let ghost p = pattern@;
    let m = pattern.len();
    if m == 1 {
        let lambda: Vec<usize> = vec![1];
        proof {
            assert(lambda@[0] == 1);
            assert(safe_shift(p, -1, 1));
        }
        return lambda;
    }
    let pi = compute_prefix(pattern);
    let prev = reverse_chars(pattern);
    proof {
        assert(prev@.len() == m);
    }
    let pi_rev = compute_prefix(prev.as_slice());
    proof {
        assert(is_longest_border(p.subrange(0, m - 1), pi@[m - 1] as int));
        assert(p.subrange(0, m - 1).len() == m - 1);
    }
    let mdef = (m - 1) - pi[m - 1];
    let mut lambda: Vec<usize> = Vec::new();
    let mut ii: usize = 0;
    while ii < m - 1
        invariant
            m >= 2,
            1 <= mdef,
            0 <= ii <= m - 1,
            lambda@.len() == ii,
            forall|k: int| 0 <= k < ii ==> #[trigger] lambda@[k] == mdef,
        decreases m - 1 - ii,
    {
        lambda.push(mdef);
        ii += 1;
    }
    let mut l: usize = 1;
    while l <= m - 1
        invariant
            p == pattern@,
            m == pattern@.len(),
            m >= 2,
            1 <= l <= m,
            1 <= mdef <= m - 1,
            mdef == (m - 1) - pi@[m - 1],
            pi@.len() == m + 1,
            forall|k: int| 1 <= k <= m ==> is_longest_border(
                p.subrange(0, k),
                #[trigger] pi@[k] as int,
            ),
            prev@ == p.reverse(),
            pi_rev@.len() == m + 1,
            forall|k: int| 1 <= k <= m ==> is_longest_border(
                prev@.subrange(0, k),
                #[trigger] pi_rev@[k] as int,
            ),
            lambda@.len() == m - 1,
            forall|i: int| 0 <= i < m - 1 ==> 1 <= #[trigger] lambda@[i] <= mdef,
            forall|ll: int| 1 <= ll < l ==> lambda@[m - (#[trigger] pi_rev@[ll]) - 2] <= ll
                - pi_rev@[ll],
        decreases m - l,
    {
        let off = pi_rev[l];
        proof {
            assert(is_longest_border(prev@.subrange(0, l as int), pi_rev@[l as int] as int));
            assert(prev@.subrange(0, l as int).len() == l as int);
        }
        let j = m - off - 2;
        let next = l - off;
        let ghost before = lambda@;
        if lambda[j] > next {
            lambda.set(j, next);
        }
        proof {
            assert(lambda@[j as int] <= next);
            assert forall|ll: int| 1 <= ll < l + 1 implies lambda@[m - (#[trigger] pi_rev@[ll])
                - 2] <= ll - pi_rev@[ll] by {
                if ll < l {
                    assert(before[m - pi_rev@[ll] - 2] <= ll - pi_rev@[ll]);
                    assert(lambda@[m - pi_rev@[ll] - 2] <= before[m - pi_rev@[ll] - 2]);
                }
            }
        }
        l += 1;
    }
    proof {
        assert forall|i: int| 0 <= i < lambda@.len() implies safe_shift(
            p,
            m - 2 - i,
            #[trigger] lambda@[i] as int,
        ) by {
            let b = m - 2 - i;
            assert forall|d: int| 1 <= d < lambda@[i] implies !shift_consistent(p, b, d) by {
                if shift_consistent(p, b, d) {
                    assert(lambda@[i] <= mdef);
                    if b + d <= m {
                        let l0 = b + d;
                        assert(is_border(tail_part(p, l0), b)) by {
                            assert(tail_part(p, l0).len() == l0);
                            assert forall|u: int| 0 <= u < b implies head_part(
                                tail_part(p, l0),
                                b,
                            )[u] == tail_part(tail_part(p, l0), b)[u] by {
                                let ip = m - b + u;
                                assert(p[ip - d] == p[ip]);
                                assert(head_part(tail_part(p, l0), b)[u] == tail_part(p, l0)[u]);
                                assert(tail_part(p, l0)[u] == p[m - l0 + u]);
                                assert(tail_part(tail_part(p, l0), b)[u] == tail_part(p, l0)[l0
                                    - b + u]);
                                assert(tail_part(p, l0)[l0 - b + u] == p[m - b + u]);
                            }
                            assert(head_part(tail_part(p, l0), b) =~= tail_part(
                                tail_part(p, l0),
                                b,
                            ));
                        }
                        lemma_suffix_border_reverse(p, l0, b);
                        lemma_chain_to_exact_border(p.reverse(), l0, b);
                        let lw = choose|lw: int|
                            b < lw <= l0 && #[trigger] is_longest_border(
                                head_part(p.reverse(), lw),
                                b,
                            );
                        if lw <= m - 1 {
                            assert(is_longest_border(prev@.subrange(0, lw), pi_rev@[lw] as int));
                            assert(head_part(p.reverse(), lw) == prev@.subrange(0, lw));
                            assert(pi_rev@[lw] as int == b) by {
                                let v = pi_rev@[lw] as int;
                                assert(head_part(p.reverse(), lw).len() == lw);
                                if v < b {
                                    assert(is_border(head_part(p.reverse(), lw), b));
                                    assert(false);
                                }
                                if v > b {
                                    assert(is_border(head_part(p.reverse(), lw), v));
                                    assert(false);
                                }
                            }
                            assert(lambda@[m - b - 2] <= lw - b);
                            assert(m - b - 2 == i);
                            assert(lambda@[i] <= d);
                        } else {
                            assert(lw == m);
                            assert(head_part(p.reverse(), m as int) =~= p.reverse());
                            assert(is_border(p.reverse(), b));
                            lemma_border_reverse(p, b);
                            assert(is_border(p, b));
                            if b >= 1 {
                                lemma_border_drop_last(p, b);
                                assert(is_border(head_part(p, m - 1), b - 1));
                                assert(p.subrange(0, m - 1) == head_part(p, m - 1));
                                assert(b - 1 <= pi@[m - 1]);
                                assert(mdef <= m - b);
                            }
                            assert(d == m - b);
                            assert(lambda@[i] <= d);
                        }
                    } else {
                        let c = m - d;
                        assert(1 <= c);
                        assert(is_border(p, c)) by {
                            assert forall|u: int| 0 <= u < c implies head_part(p, c)[u]
                                == tail_part(p, c)[u] by {
                                let ip = d + u;
                                assert(m - b <= ip < m);
                                assert(p[ip - d] == p[ip]);
                                assert(head_part(p, c)[u] == p[u]);
                                assert(tail_part(p, c)[u] == p[m - c + u]);
                            }
                            assert(head_part(p, c) =~= tail_part(p, c));
                        }
                        lemma_border_drop_last(p, c);
                        assert(is_border(head_part(p, m - 1), c - 1));
                        assert(p.subrange(0, m - 1) == head_part(p, m - 1));
                        assert(c - 1 <= pi@[m - 1]);
                        assert(lambda@[i] <= mdef);
                        assert(mdef <= d);
                    }
                    assert(false);
                }
            }
        }
    }
    lambda
}

/// The Boyer-Moore matcher: the pattern with its last-occurrence table and
/// good-suffix shift table, scanned right to left at each alignment.
pub struct BoyerMoore {
    last_occurancies: Vec<(char, usize)>,
    good_suffix: Vec<usize>,
    pattern: Vec<char>,
}

impl BoyerMoore {
    /// Prepare the matcher: build both shift tables and keep the pattern.
    pub fn new(pattern: &[char]) -> (r: Result<BoyerMoore, MatchError>)
        ensures
            match r {
                Ok(bm) => pattern@.len() >= 1 && bm.wf() && bm.pat() == pattern@,
                Err(e) => e == MatchError::InvalidInput && pattern@.len() == 0,
            },
    {
        if pattern.len() == 0 {
            return Err(MatchError::InvalidInput);
        }
        Ok(
            BoyerMoore {
                last_occurancies: last_occurancies(pattern),
                good_suffix: good_suffix(pattern),
                pattern: vstd::slice::slice_to_vec(pattern),
            },
        )
    }
}

impl TextMatch for BoyerMoore {
    closed spec fn pat(&self) -> Seq<char> {
        self.pattern@
    }

    closed spec fn wf(&self) -> bool {
        let p = self.pattern@;
        let m = p.len() as int;
        &&& m >= 1
        &&& self.good_suffix@.len() == if m == 1 {
            1int
        } else {
            m - 1
        }
        &&& forall|i: int| 0 <= i < self.good_suffix@.len() ==> 1 <= #[trigger] self.good_suffix@[i]
            <= m
        &&& forall|i: int| 0 <= i < self.good_suffix@.len() ==> safe_shift(
            p,
            m - 2 - i,
            #[trigger] self.good_suffix@[i] as int,
        )
        &&& forall|k: int| 0 <= k < self.last_occurancies@.len() ==> is_last_occurrence(
            p,
            (#[trigger] self.last_occurancies@[k]).0,
            self.last_occurancies@[k].1 as int,
        )
        &&& forall|c: char| p.contains(c) ==> has_entry(self.last_occurancies@, c)
    }

    closed spec fn rejects(&self, text: Seq<char>) -> bool {
        false
    }

    /// Scan right to left at each alignment; on a mismatch shift by the
    /// larger of the good-suffix shift and the bad-character shift, on a
    /// full match record the alignment and shift by the pattern's period.
    fn match_text(&self, text: &[char]) -> (r: Result<Vec<usize>, MatchError>) {
        let ghost p = self.pattern@;
        let n = text.len();
        let m = self.pattern.len();
        if m > n {
            return Err(MatchError::InvalidInput);
        }
        let mut matches: Vec<usize> = Vec::new();
        let mut s: usize = 0;
        while s <= n - m
            invariant
                self.wf(),
                p == self.pattern@,
                n == text@.len(),
                m == p.len(),
                1 <= m <= n,
                0 <= s <= n,
                forall|k: int| 0 <= k < matches@.len() ==> is_match_at(
                    text@,
                    p,
                    #[trigger] matches@[k] as int,
                ) && matches@[k] < s,
                forall|k1: int, k2: int| 0 <= k1 < k2 < matches@.len()
                    ==> matches@[k1] < matches@[k2],
                forall|s2: int| 0 <= s2 < s && is_match_at(text@, p, s2)
                    ==> matches@.contains(s2 as usize),
            decreases n - s,
    {
            let mut j: usize = m;
            while j > 0 && self.pattern[j - 1] == text[s + j - 1]
                invariant
                    p == self.pattern@,
                    m == p.len(),
                    n == text@.len(),
                    s + m <= n,
                    0 <= j <= m,
                    forall|jj: int| j <= jj < m ==> p[jj] == text@[s + jj],
                decreases j,
            {
                j -= 1;
            }
            let ghost prev = matches@;
            let mut shift: usize = 1;
            if j == 0 {
                matches.push(s);
                shift = self.good_suffix[0];
                proof {
                    assert forall|u: int| 0 <= u < m implies text@.subrange(
                        s as int,
                        s as int + m as int,
                    )[u] == p[u] by {
                        assert(text@.subrange(s as int, s as int + m as int)[u] == text@[s + u]);
                    }
                    assert(text@.subrange(s as int, s as int + m as int) =~= p);
                    assert(is_match_at(text@, p, s as int));
                    assert forall|s2: int| s < s2 < s + shift implies !is_match_at(
                        text@,
                        p,
                        s2,
                    ) by {
                        let d = s2 - s;
                        if is_match_at(text@, p, s + d) {
                            assert(shift_consistent(p, m - 2, d)) by {
                                assert forall|ip: int| m - (m - 2) <= ip < m && ip - d >= 0
                                    implies (#[trigger] p[ip - d]) == p[ip] by {
                                    assert(text@.subrange(s as int, s as int + m as int)[ip]
                                        == text@[s + ip]);
                                    assert(text@.subrange(s + d, s + d + m)[ip - d] == text@[s + d
                                        + (ip - d)]);
                                    assert(text@.subrange(s + d, s + d + m)[ip - d] == p[ip - d]);
                                }
                            }
                            assert(safe_shift(p, m - 2, self.good_suffix@[0] as int));
                            assert(false);
                        }
                    }
                }
            } else {
                let jm = j - 1;
                let t_c = text[s + jm];
                let looked = lookup_last(&self.last_occurancies, t_c);
                let bc: usize = match looked {
                    Some(oc) => {
                        if oc < jm {
                            jm - oc
                        } else {
                            0
                        }
                    },
                    None => jm + 1,
                };
                let gs: usize = if jm >= 1 {
                    self.good_suffix[jm - 1]
                } else {
                    1
                };
                shift = if gs > bc {
                    gs
                } else {
                    bc
                };
                proof {
                    assert(p[jm as int] != text@[s + jm]);
                    assert(!is_match_at(text@, p, s as int)) by {
                        if is_match_at(text@, p, s as int) {
                            assert(text@.subrange(s as int, s as int + m as int)[jm as int]
                                == text@[s + jm]);
                        }
                    }
                    let b = m - j;
                    assert forall|s2: int| s < s2 < s + shift implies !is_match_at(
                        text@,
                        p,
                        s2,
                    ) by {
                        let d = s2 - s;
                        if is_match_at(text@, p, s + d) {
                            if d < gs {
                                assert(jm >= 1);
                                assert(shift_consistent(p, b, d)) by {
                                    assert forall|ip: int| m - b <= ip < m && ip - d >= 0
                                        implies (#[trigger] p[ip - d]) == p[ip] by {
                                        assert(p[ip] == text@[s + ip]);
                                        assert(text@.subrange(s + d, s + d + m)[ip - d] == text@[s
                                            + d + (ip - d)]);
                                        assert(text@.subrange(s + d, s + d + m)[ip - d] == p[ip
                                            - d]);
                                    }
                                }
                                assert(safe_shift(p, m - 2 - (jm - 1), self.good_suffix@[jm
                                    - 1] as int));
                                assert(m - 2 - (jm - 1) == b);
                                assert(false);
                            } else {
                                assert(d < bc);
                                assert(d <= jm);
                                assert(text@.subrange(s + d, s + d + m)[jm - d] == text@[s + d
                                    + (jm - d)]);
                                assert(text@.subrange(s + d, s + d + m)[jm - d] == p[jm - d]);
                                assert(p[jm - d] == t_c);
                                match looked {
                                    Some(oc) => {
                                        let k = choose|k: int|
                                            0 <= k < self.last_occurancies@.len() && (
                                            #[trigger] self.last_occurancies@[k]) == (t_c, oc);
                                        assert(is_last_occurrence(p, t_c, oc as int));
                                        assert(oc < jm - d);
                                        assert(false);
                                    },
                                    None => {
                                        assert(p.contains(t_c));
                                        assert(has_entry(self.last_occurancies@, t_c));
                                        assert(false);
                                    },
                                }
                            }
                        }
                    }
                }
            }
            proof {
                assert(1 <= shift <= m);
                assert forall|s2: int| 0 <= s2 < s + shift && is_match_at(text@, p, s2)
                    implies matches@.contains(s2 as usize) by {
                    if s2 < s {
                        let k = choose|k: int| 0 <= k < prev.len() && prev[k] == s2 as usize;
                        assert(matches@[k] == s2 as usize);
                    } else if s2 == s {
                        assert(matches@[matches@.len() - 1] == s2 as usize);
                    }
                }
            }
            s += shift;
        }
        proof {
            assert forall|s2: int| 0 <= s2 && is_match_at(text@, p, s2) implies matches@.contains(
                s2 as usize,
            ) by {
                assert(s2 + m <= n);
            }
        }
        Ok(matches)
    }
}

/// One-shot Boyer-Moore search: prepare the tables for the pattern and
/// report every offset where it occurs in the text, ascending.
pub fn boyer_moore(text: &[char], pattern: &[char]) -> (r: Result<Vec<usize>, MatchError>)
    ensures
        match r {
            Ok(v) => 1 <= pattern@.len() <= text@.len() && is_match_result(text@, pattern@, v@),
            Err(e) => e == MatchError::InvalidInput && (pattern@.len() == 0 || pattern@.len()
                > text@.len()),
        },
{
    match BoyerMoore::new(pattern) {
        Ok(bm) => bm.match_text(text),
        Err(e) => Err(e),
    }
}

} // verus!
