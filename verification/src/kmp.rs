use vstd::prelude::*;

use crate::automaton::Automat;
use crate::borders::{
    head_matches_tail, head_part, is_border, is_longest_border, is_longest_head_tail,
    lemma_border_of_prefix, lemma_hmt_nest, lemma_hmt_push, lemma_hmt_to_border, lemma_hmt_trans,
    lemma_hmt_zero, lemma_match_iff_head_tail,
};
use crate::matching::{is_match_at, MatchError, TextMatch};

verus! {

/// The prefix function of a pattern, as a dense table: entry `k` is the
/// length of the longest proper border of the pattern's first `k` symbols,
/// with entry 0 fixed at 0.
pub(crate) fn compute_prefix(pattern: &[char]) -> (pi: Vec<usize>)
    ensures
        pi@.len() == pattern@.len() + 1,
        pi@[0] == 0,
        forall|k: int| 1 <= k <= pattern@.len() ==> is_longest_border(
            pattern@.subrange(0, k),
            #[trigger] pi@[k] as int,
        ),
{
    let m = pattern.len();
    let mut pi: Vec<usize> = Vec::new();
    pi.push(0);
    let mut k: usize = 0;
    while k < m
        invariant
            m == pattern@.len(),
            0 <= k <= m,
            pi@.len() == k + 1,
            pi@[0] == 0,
            forall|j: int| 1 <= j <= k ==> is_longest_border(
                pattern@.subrange(0, j),
                #[trigger] pi@[j] as int,
            ),
        decreases m - k,
    {
        let b = Automat::sigma_suffix(&pattern[0..k + 1]);
        pi.push(b);
        k += 1;
    }
    pi
}

/// The Knuth-Morris-Pratt matcher: the pattern together with its prefix
/// function, used to resume a scan after a mismatch without backing up in
/// the text.
pub struct KnuthMorrisPratt {
    pattern: Vec<char>,
    pi: Vec<usize>,
}

impl KnuthMorrisPratt {
    /// Prepare the matcher: store the pattern and its prefix function.
    pub fn new(pattern: &[char]) -> (r: Result<KnuthMorrisPratt, MatchError>)
        ensures
            match r {
                Ok(kmp) => pattern@.len() >= 1 && kmp.wf() && kmp.pat() == pattern@,
                Err(e) => e == MatchError::InvalidInput && pattern@.len() == 0,
            },
    {
        if pattern.len() == 0 {
            return Err(MatchError::InvalidInput);
        }
        let pi = compute_prefix(pattern);
        Ok(KnuthMorrisPratt { pattern: vstd::slice::slice_to_vec(pattern), pi })
    }
}

impl TextMatch for KnuthMorrisPratt {
    closed spec fn pat(&self) -> Seq<char> {
        self.pattern@
    }

    closed spec fn wf(&self) -> bool {
        &&& self.pattern@.len() >= 1
        &&& self.pi@.len() == self.pattern@.len() + 1
        &&& forall|k: int| 1 <= k <= self.pattern@.len() ==> is_longest_border(
            self.pattern@.subrange(0, k),
            #[trigger] self.pi@[k] as int,
        )
    }

    closed spec fn rejects(&self, text: Seq<char>) -> bool {
        false
    }

    /// Scan the text once, keeping `q`, the length of the longest pattern
    /// prefix that ends at the current position; a mismatch retreats along
    /// the prefix function instead of rescanning the text.
    fn match_text(&self, text: &[char]) -> (r: Result<Vec<usize>, MatchError>) {
        let ghost p = self.pattern@;
        let n = text.len();
        let m = self.pattern.len();
        if m > n {
            return Err(MatchError::InvalidInput);
        }
        let mut matches: Vec<usize> = Vec::new();
        let mut q: usize = 0;
        let mut i: usize = 0;
        proof {
            assert(text@.subrange(0, 0) =~= Seq::<char>::empty());
            lemma_hmt_zero(p, text@.subrange(0, 0));
        }
        while i < n
            invariant
                self.wf(),
                p == self.pattern@,
                n == text@.len(),
                m == p.len(),
                m <= n,
                0 <= i <= n,
                0 <= q <= m,
                is_longest_head_tail(p, text@.subrange(0, i as int), q as int),
                forall|k: int| 0 <= k < matches@.len() ==> is_match_at(
                    text@,
                    p,
                    #[trigger] matches@[k] as int,
                ) && matches@[k] + m <= i,
                forall|k1: int, k2: int| 0 <= k1 < k2 < matches@.len()
                    ==> matches@[k1] < matches@[k2],
                forall|s: int| 0 <= s && s + m <= i && is_match_at(text@, p, s)
                    ==> matches@.contains(s as usize),
            decreases n - i,
        {
            let a = text[i];
            let ghost x = text@.subrange(0, i as int);
            let ghost x1 = text@.subrange(0, i + 1);
            proof {
                assert(x1 =~= x.push(a));
                assert forall|j: int| q + 1 < j <= m implies !head_matches_tail(p, x1, j) by {
                    if head_matches_tail(p, x1, j) {
                        lemma_hmt_push(p, x, a, j);
                    }
                }
            }
            while q > 0 && (q == m || text[i] != self.pattern[q])
                invariant
                    self.wf(),
                    p == self.pattern@,
                    n == text@.len(),
                    m == p.len(),
                    0 <= i < n,
                    0 <= q <= m,
                    a == text@[i as int],
                    x == text@.subrange(0, i as int),
                    x1 == x.push(a),
                    head_matches_tail(p, x, q as int),
                    forall|j: int| q + 1 < j <= m ==> !head_matches_tail(p, x1, j),
                decreases q,
            {
                proof {
                    if q + 1 <= m && head_matches_tail(p, x1, q + 1) {
                        lemma_hmt_push(p, x, a, q + 1);
                        assert(false);
                    }
                    let b = self.pi@[q as int] as int;
                    assert(is_longest_border(head_part(p, q as int), b));
                    assert(head_part(p, q as int).len() == q as int);
                    lemma_border_of_prefix(p, q as int, b);
                    lemma_hmt_trans(p, x, b, q as int);
                    assert forall|j: int| b + 1 < j <= m implies !head_matches_tail(
                        p,
                        x1,
                        j,
                    ) by {
                        if j <= q + 1 && head_matches_tail(p, x1, j) {
                            lemma_hmt_push(p, x, a, j);
                            assert(head_matches_tail(p, x, j - 1));
                            if j - 1 == q {
                                assert(p[q as int] == a);
                                assert(false);
                            } else {
                                lemma_hmt_nest(p, x, j - 1, q as int);
                                lemma_hmt_to_border(p, j - 1, q as int);
                                assert(false);
                            }
                        }
                    }
                }
                q = self.pi[q];
            }
            if q < m && text[i] == self.pattern[q] {
                proof {
                    lemma_hmt_push(p, x, a, q + 1);
                }
                q += 1;
            } else {
                proof {
                    lemma_hmt_zero(p, x1);
                    if head_matches_tail(p, x1, 1) {
                        lemma_hmt_push(p, x, a, 1);
                        assert(false);
                    }
                }
            }
            proof {
                assert(is_longest_head_tail(p, x1, q as int));
            }
            let ghost prev = matches@;
            if q == m {
                let s = i + 1 - m;
                matches.push(s);
                proof {
                    lemma_match_iff_head_tail(text@, p, s as int);
                    assert(is_match_at(text@, p, s as int));
                }
            }
            proof {
                assert forall|s: int| 0 <= s && s + m <= i + 1 && is_match_at(text@, p, s)
                    implies matches@.contains(s as usize) by {
                    if s + m <= i {
                        let k = choose|k: int| 0 <= k < prev.len() && prev[k] == s as usize;
                        assert(matches@[k] == s as usize);
                    } else {
                        lemma_match_iff_head_tail(text@, p, s);
                        assert(head_matches_tail(p, x1, m as int));
                        assert(q == m);
                        assert(matches@[matches@.len() - 1] == s as usize);
                    }
                }
            }
            i += 1;
        }
        Ok(matches)
    }
}

} // verus!
