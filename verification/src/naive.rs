use vstd::prelude::*;

use crate::matching::{is_match_at, is_match_result, MatchError};

verus! {

/// The pattern matches the text at offset `start`, symbol by symbol.
pub(crate) fn str_match(start: usize, text: &[char], pattern: &[char]) -> (r: bool)
    requires
        start + pattern@.len() <= text@.len(),
    ensures
        r == is_match_at(text@, pattern@, start as int),
{
    let n = text.len();
    let m = pattern.len();
    let mut i: usize = 0;
    while i < m
        invariant
            n == text@.len(),
            m == pattern@.len(),
            start + m <= n,
            0 <= i <= m,
            forall|j: int| 0 <= j < i ==> text@[start as int + j] == pattern@[j],
        decreases m - i,
    {
        if text[start + i] != pattern[i] {
            proof {
                assert(text@.subrange(start as int, start as int + m)[i as int]
                    == text@[start as int + i]);
            }
            return false;
        }
        i += 1;
    }
    proof {
        assert(text@.subrange(start as int, start as int + m) =~= pattern@);
    }
    true
}

/// The baseline matcher: scan every candidate offset of the text and
/// compare the pattern against it, reporting each full match in order.
pub fn naive_match(text: &[char], pattern: &[char]) -> (r: Result<Vec<usize>, MatchError>)
    ensures
        match r {
            Ok(v) => 1 <= pattern@.len() <= text@.len()
                && is_match_result(text@, pattern@, v@),
            Err(e) => e == MatchError::InvalidInput
                && (pattern@.len() == 0 || pattern@.len() > text@.len()),
        },
{
    let n = text.len();
    let m = pattern.len();
    if m == 0 || m > n {
        return Err(MatchError::InvalidInput);
    }
    let mut matches: Vec<usize> = Vec::new();
    let mut t_i: usize = 0;
    while t_i <= n - m
        invariant
            n == text@.len(),
            m == pattern@.len(),
            1 <= m <= n,
            0 <= t_i <= n - m + 1,
            forall|k: int| 0 <= k < matches@.len()
                ==> is_match_at(text@, pattern@, #[trigger] matches@[k] as int)
                    && matches@[k] < t_i,
            forall|k1: int, k2: int| 0 <= k1 < k2 < matches@.len()
                ==> matches@[k1] < matches@[k2],
            forall|i: int| 0 <= i < t_i && is_match_at(text@, pattern@, i)
                ==> matches@.contains(i as usize),
        decreases n - m + 1 - t_i,
    {
        let ghost prev = matches@;
        if str_match(t_i, text, pattern) {
            matches.push(t_i);
        }
        proof {
            assert forall|i: int| 0 <= i < t_i + 1 && is_match_at(text@, pattern@, i)
                implies matches@.contains(i as usize) by {
                if i < t_i {
                    let k = choose|k: int| 0 <= k < prev.len() && prev[k] == i as usize;
                    assert(matches@[k] == i as usize);
                } else {
                    assert(matches@[matches@.len() - 1] == i as usize);
                }
            }
        }
        t_i += 1;
    }
    proof {
        assert forall|i: int| is_match_at(text@, pattern@, i)
            implies matches@.contains(i as usize) by {
            assert(i <= n - m);
        }
    }
    Ok(matches)
}

} // verus!
