use vstd::prelude::*;

verus! {

/// Number of positions among the first `k` at which `a` and `b` differ.
pub open spec fn hamming_count(a: Seq<char>, b: Seq<char>, k: int) -> int
    decreases k,
{
    if k <= 0 {
        0
    } else {
        hamming_count(a, b, k - 1) + if a[k - 1] != b[k - 1] {
            1int
        } else {
            0int
        }
    }
}

proof fn lemma_hamming_count_bound(a: Seq<char>, b: Seq<char>, k: int)
    requires
        k >= 0,
    ensures
        0 <= hamming_count(a, b, k) <= k,
    decreases k,
{
    if k > 0 {
        lemma_hamming_count_bound(a, b, k - 1);
    }
}

/// Hamming distance: the number of positions at which two sequences of the
/// same length differ; sequences of different lengths have no distance.
pub fn hamming(a: &[char], b: &[char]) -> (r: Option<usize>)
    ensures
        match r {
            Some(d) => a@.len() == b@.len() && d == hamming_count(a@, b@, a@.len() as int),
            None => a@.len() != b@.len(),
        },
{
    if a.len() != b.len() {
        None
    } else {
        let n = a.len();
        let mut distance: usize = 0;
        let mut i: usize = 0;
        while i < n
            invariant
                n == a@.len(),
                n == b@.len(),
                0 <= i <= n,
                distance == hamming_count(a@, b@, i as int),
                distance <= i,
            decreases n - i,
        {
            if a[i] != b[i] {
                distance += 1;
            }
            i += 1;
        }
        Some(distance)
    }
}

/// The distance computed by `levenshtein`: zero once either sequence is
/// exhausted, free advance on equal heads, otherwise one plus the best of
/// the three one-step reductions.
pub open spec fn levenshtein_dist(a: Seq<char>, b: Seq<char>) -> int
    decreases a.len() + b.len(),
{
    if a.len() == 0 || b.len() == 0 {
        0
    } else if a[0] == b[0] {
        levenshtein_dist(a.drop_first(), b.drop_first())
    } else {
        let x = levenshtein_dist(a.drop_first(), b.drop_first());
        let y = levenshtein_dist(a.drop_first(), b);
        let z = levenshtein_dist(a, b.drop_first());
        let m1 = if x < y {
            x
        } else {
            y
        };
        1 + (if m1 < z {
            m1
        } else {
            z
        })
    }
}

proof fn lemma_levenshtein_bound(a: Seq<char>, b: Seq<char>)
    ensures
        0 <= levenshtein_dist(a, b) <= a.len(),
        levenshtein_dist(a, b) <= b.len(),
    decreases a.len() + b.len(),
{
    if a.len() == 0 || b.len() == 0 {
    } else {
        lemma_levenshtein_bound(a.drop_first(), b.drop_first());
        lemma_levenshtein_bound(a.drop_first(), b);
        lemma_levenshtein_bound(a, b.drop_first());
    }
}

/// Edit distance over the shared extent of the two sequences: equal heads
/// advance for free, a mismatch costs one step and takes the cheapest of
/// substitution, deletion and insertion; a run-off end costs nothing.
pub fn levenshtein(a: &[char], b: &[char]) -> (r: usize)
    ensures
        r == levenshtein_dist(a@, b@),
    decreases a@.len() + b@.len(),
{
    proof {
        lemma_levenshtein_bound(a@, b@);
    }
    if b.len() == 0 || a.len() == 0 {
        0
    } else if b[0] == a[0] {
        levenshtein(&a[1..a.len()], &b[1..b.len()])
    } else {
        let x = levenshtein(&a[1..a.len()], &b[1..b.len()]);
        let y = levenshtein(&a[1..a.len()], b);
        let z = levenshtein(a, &b[1..b.len()]);
        proof {
            lemma_levenshtein_bound(a@.drop_first(), b@.drop_first());
            lemma_levenshtein_bound(a@.drop_first(), b@);
            lemma_levenshtein_bound(a@, b@.drop_first());
        }
        let m1 = if x < y {
            x
        } else {
            y
        };
        let m2 = if m1 < z {
            m1
        } else {
            z
        };
        1 + m2
    }
}

} // verus!
