use vstd::prelude::*;

verus! {

/// The first `k` symbols of `x`.
pub open spec fn head_part(x: Seq<char>, k: int) -> Seq<char> {
    x.subrange(0, k)
}

/// The last `k` symbols of `x`.
pub open spec fn tail_part(x: Seq<char>, k: int) -> Seq<char> {
    x.subrange(x.len() - k, x.len() as int)
}

/// `k` is a proper border length of `x`: the first `k` symbols equal the
/// last `k` symbols, and `k` is shorter than `x` itself.
pub open spec fn is_border(x: Seq<char>, k: int) -> bool {
    &&& 0 <= k < x.len()
    &&& head_part(x, k) == tail_part(x, k)
}

/// `k` is the length of the longest proper border of `x`.
pub open spec fn is_longest_border(x: Seq<char>, k: int) -> bool {
    &&& is_border(x, k)
    &&& forall|j: int| k < j < x.len() ==> !is_border(x, j)
}

/// The first `k` symbols of the pattern `p` occur as a suffix of `x`.
pub open spec fn head_matches_tail(p: Seq<char>, x: Seq<char>, k: int) -> bool {
    &&& 0 <= k <= p.len()
    &&& k <= x.len()
    &&& head_part(p, k) == tail_part(x, k)
}

/// `k` is the length of the longest prefix of `p` that is a suffix of `x`.
/// This is the state a pattern-matching automaton tracks while it scans.
pub open spec fn is_longest_head_tail(p: Seq<char>, x: Seq<char>, k: int) -> bool {
    &&& head_matches_tail(p, x, k)
    &&& forall|j: int| k < j <= p.len() ==> !head_matches_tail(p, x, j)
}

/// The empty prefix is a suffix of anything.
pub proof fn lemma_hmt_zero(p: Seq<char>, x: Seq<char>)
    ensures
        head_matches_tail(p, x, 0),
{
    assert(head_part(p, 0) =~= tail_part(x, 0));
}

/// Extending the scanned text by one symbol: a nonempty prefix of `p` is a
/// suffix of `x + [a]` exactly when it ends in `a` and its remainder is a
/// suffix of `x`.
pub proof fn lemma_hmt_push(p: Seq<char>, x: Seq<char>, a: char, j: int)
    requires
        1 <= j <= p.len(),
        j - 1 <= x.len(),
    ensures
        head_matches_tail(p, x.push(a), j) <==> (p[j - 1] == a && head_matches_tail(
            p,
            x,
            j - 1,
        )),
{
    let y = x.push(a);
    let n = x.len() as int;
    if p[j - 1] == a && head_matches_tail(p, x, j - 1) {
        assert forall|i: int| 0 <= i < j implies head_part(p, j)[i] == tail_part(y, j)[i] by {
            if i < j - 1 {
                assert(head_part(p, j - 1)[i] == tail_part(x, j - 1)[i]);
                assert(tail_part(y, j)[i] == y[n + 1 - j + i]);
                assert(y[n + 1 - j + i] == x[n - (j - 1) + i]);
            } else {
                assert(tail_part(y, j)[j - 1] == y[n]);
            }
        }
        assert(head_part(p, j) =~= tail_part(y, j));
    }
    if head_matches_tail(p, y, j) {
        assert(head_part(p, j)[j - 1] == tail_part(y, j)[j - 1]);
        assert(tail_part(y, j)[j - 1] == y[n]);
        assert(p[j - 1] == a);
        assert forall|i: int| 0 <= i < j - 1 implies #[trigger] head_part(p, j - 1)[i]
            == tail_part(x, j - 1)[i] by {
            assert(head_part(p, j)[i] == tail_part(y, j)[i]);
            assert(tail_part(y, j)[i] == y[n + 1 - j + i]);
            assert(y[n + 1 - j + i] == x[n - (j - 1) + i]);
        }
        assert(head_part(p, j - 1) =~= tail_part(x, j - 1));
    }
}

/// If prefixes of `p` of lengths `j <= k` are both suffixes of `x`, then
/// the shorter is a suffix of the longer, taken as a string of its own.
pub proof fn lemma_hmt_nest(p: Seq<char>, x: Seq<char>, j: int, k: int)
    requires
        head_matches_tail(p, x, j),
        head_matches_tail(p, x, k),
        j <= k,
    ensures
        head_matches_tail(p, head_part(p, k), j),
{
    let n = x.len() as int;
    assert forall|i: int| 0 <= i < j implies head_part(p, j)[i] == tail_part(
        head_part(p, k),
        j,
    )[i] by {
        assert(head_part(p, j)[i] == tail_part(x, j)[i]);
        assert(tail_part(x, j)[i] == x[n - j + i]);
        assert(head_part(p, k)[k - j + i] == tail_part(x, k)[k - j + i]);
        assert(tail_part(x, k)[k - j + i] == x[n - j + i]);
        assert(tail_part(head_part(p, k), j)[i] == head_part(p, k)[k - j + i]);
    }
    assert(head_part(p, j) =~= tail_part(head_part(p, k), j));
}

/// A suffix of a suffix is a suffix: if the `j`-prefix of `p` is a suffix
/// of the `k`-prefix, and the `k`-prefix is a suffix of `x`, then the
/// `j`-prefix is a suffix of `x`.
pub proof fn lemma_hmt_trans(p: Seq<char>, x: Seq<char>, j: int, k: int)
    requires
        head_matches_tail(p, head_part(p, k), j),
        head_matches_tail(p, x, k),
        0 <= k <= p.len(),
    ensures
        head_matches_tail(p, x, j),
{
    let n = x.len() as int;
    assert forall|i: int| 0 <= i < j implies head_part(p, j)[i] == tail_part(x, j)[i] by {
        assert(head_part(p, j)[i] == tail_part(head_part(p, k), j)[i]);
        assert(tail_part(head_part(p, k), j)[i] == head_part(p, k)[k - j + i]);
        assert(head_part(p, k)[k - j + i] == tail_part(x, k)[k - j + i]);
        assert(tail_part(x, k)[k - j + i] == x[n - j + i]);
        assert(tail_part(x, j)[i] == x[n - j + i]);
    }
    assert(head_part(p, j) =~= tail_part(x, j));
}

/// A border of a prefix of `p` is itself a prefix of `p` that is a suffix
/// of that prefix.
pub proof fn lemma_border_of_prefix(p: Seq<char>, k: int, b: int)
    requires
        0 <= k <= p.len(),
        is_border(head_part(p, k), b),
    ensures
        head_matches_tail(p, head_part(p, k), b),
{
    assert(head_part(p, b) =~= head_part(head_part(p, k), b));
}

/// Conversely: a prefix of `p` of length `j < k` that is a suffix of the
/// `k`-prefix is a border of that prefix.
pub proof fn lemma_hmt_to_border(p: Seq<char>, j: int, k: int)
    requires
        0 <= j < k <= p.len(),
        head_matches_tail(p, head_part(p, k), j),
    ensures
        is_border(head_part(p, k), j),
{
    assert(head_part(p, j) =~= head_part(head_part(p, k), j));
}

/// The automaton step: if `q` is the longest prefix of `p` that is a
/// suffix of `x`, and `v` is the longest prefix of `p` that is a suffix
/// of that prefix extended by `a`, then `v` is the longest prefix of `p`
/// that is a suffix of `x + [a]`.
pub proof fn lemma_sigma_step(p: Seq<char>, x: Seq<char>, a: char, q: int, v: int)
    requires
        is_longest_head_tail(p, x, q),
        is_longest_head_tail(p, head_part(p, q).push(a), v),
    ensures
        is_longest_head_tail(p, x.push(a), v),
{
    let z = head_part(p, q).push(a);
    if v > 0 {
        lemma_hmt_push(p, head_part(p, q), a, v);
        lemma_hmt_trans(p, x, v - 1, q);
        lemma_hmt_push(p, x, a, v);
    } else {
        lemma_hmt_zero(p, x.push(a));
    }
    assert forall|j: int| v < j <= p.len() implies !head_matches_tail(p, x.push(a), j) by {
        if head_matches_tail(p, x.push(a), j) {
            lemma_hmt_push(p, x, a, j);
            assert(head_matches_tail(p, x, j - 1));
            assert(j - 1 <= q);
            lemma_hmt_nest(p, x, j - 1, q);
            lemma_hmt_push(p, head_part(p, q), a, j);
            assert(head_matches_tail(p, z, j));
        }
    }
}

/// A symbol that never occurs in the pattern drives the automaton to the
/// start state.
pub proof fn lemma_sigma_absent(p: Seq<char>, x: Seq<char>, a: char)
    requires
        forall|i: int| 0 <= i < p.len() ==> p[i] != a,
    ensures
        is_longest_head_tail(p, x.push(a), 0),
{
    lemma_hmt_zero(p, x.push(a));
    assert forall|j: int| 0 < j <= p.len() implies !head_matches_tail(p, x.push(a), j) by {
        if head_matches_tail(p, x.push(a), j) {
            lemma_hmt_push(p, x, a, j);
        }
    }
}

/// When the next pattern symbol does not continue the prefix, the longest
/// border of `prefix + [a]` is exactly the longest prefix of `p` that is a
/// suffix of `prefix + [a]`.
pub proof fn lemma_longest_border_to_sigma(p: Seq<char>, k: int, a: char, b: int)
    requires
        0 <= k <= p.len(),
        k == p.len() || p[k] != a,
        is_longest_border(head_part(p, k).push(a), b),
    ensures
        is_longest_head_tail(p, head_part(p, k).push(a), b),
{
    let z = head_part(p, k).push(a);
    assert(z.len() == k + 1);
    assert(0 <= b <= k);
    assert(head_matches_tail(p, z, b)) by {
        assert(head_part(p, b) =~= head_part(z, b));
        assert(head_part(z, b) == tail_part(z, b));
    }
    assert forall|j: int| b < j <= p.len() implies !head_matches_tail(p, z, j) by {
        if head_matches_tail(p, z, j) {
            if j == k + 1 {
                assert(head_part(p, j)[k] == tail_part(z, j)[k]);
                assert(tail_part(z, j)[k] == z[k]);
                assert(z[k] == a);
                assert(p[k] == a);
            } else {
                assert(j <= k);
                assert(head_part(z, j) =~= head_part(p, j));
                assert(is_border(z, j));
            }
        }
    }
}

/// Two borders of one string nest: the shorter is a border of the string
/// cut down to the longer.
pub proof fn lemma_border_nesting(y: Seq<char>, b: int, k: int)
    requires
        is_border(y, b),
        is_border(y, k),
        b < k,
    ensures
        is_border(head_part(y, k), b),
{
    assert(head_matches_tail(y, y, b));
    assert(head_matches_tail(y, y, k));
    lemma_hmt_nest(y, y, b, k);
    lemma_hmt_to_border(y, b, k);
}

/// Every bordered string has a longest border, at least as long.
pub proof fn lemma_longest_border_exists(y: Seq<char>, b: int)
    requires
        is_border(y, b),
    ensures
        exists|bb: int| b <= bb && #[trigger] is_longest_border(y, bb),
    decreases y.len() - b,
{
    if forall|j: int| b < j < y.len() ==> !is_border(y, j) {
        assert(is_longest_border(y, b));
    } else {
        let j = choose|j: int| b < j < y.len() && #[trigger] is_border(y, j);
        lemma_longest_border_exists(y, j);
    }
}

/// A nonempty border shrinks by one when the string's last symbol is
/// dropped.
pub proof fn lemma_border_drop_last(p: Seq<char>, c: int)
    requires
        1 <= c,
        is_border(p, c),
    ensures
        is_border(head_part(p, p.len() - 1), c - 1),
{
    let n = p.len() as int;
    let y = head_part(p, n - 1);
    assert forall|i: int| 0 <= i < c - 1 implies #[trigger] head_part(y, c - 1)[i] == tail_part(
        y,
        c - 1,
    )[i] by {
        assert(head_part(p, c)[i] == tail_part(p, c)[i]);
        assert(head_part(p, c)[i] == p[i]);
        assert(tail_part(p, c)[i] == p[n - c + i]);
        assert(head_part(y, c - 1)[i] == y[i]);
        assert(y[i] == p[i]);
        assert(tail_part(y, c - 1)[i] == y[(n - 1) - (c - 1) + i]);
        assert(y[(n - 1) - (c - 1) + i] == p[n - c + i]);
    }
    assert(head_part(y, c - 1) =~= tail_part(y, c - 1));
}

/// The pattern occurs ending at position `e` of the text exactly when the
/// whole pattern is a suffix of the text cut off at `e`.
pub proof fn lemma_match_iff_head_tail(text: Seq<char>, pattern: Seq<char>, s: int)
    requires
        0 <= s,
        s + pattern.len() <= text.len(),
    ensures
        crate::matching::is_match_at(text, pattern, s) <==> head_matches_tail(
            pattern,
            text.subrange(0, s + pattern.len()),
            pattern.len() as int,
        ),
{
    let m = pattern.len() as int;
    let x = text.subrange(0, s + m);
    assert(head_part(pattern, m) =~= pattern);
    assert(tail_part(x, m) =~= text.subrange(s, s + m));
}

/// Compare a range of `x` against a range of `y`, symbol by symbol.
pub(crate) fn ranges_equal(x: &[char], y: &[char], xs: usize, ys: usize, l: usize) -> (r: bool)
    requires
        xs + l <= x@.len(),
        ys + l <= y@.len(),
    ensures
        r == (x@.subrange(xs as int, xs as int + l as int) == y@.subrange(
            ys as int,
            ys as int + l as int,
        )),
{
    let xn = x.len();
    let yn = y.len();
    let mut i: usize = 0;
    while i < l
        invariant
            xn == x@.len(),
            yn == y@.len(),
            xs + l <= xn,
            ys + l <= yn,
            0 <= i <= l,
            forall|j: int| 0 <= j < i ==> #[trigger] x@[xs as int + j] == y@[ys as int + j],
        decreases l - i,
    {
        if x[xs + i] != y[ys + i] {
            proof {
                assert(x@.subrange(xs as int, xs as int + l as int)[i as int] == x@[xs as int
                    + i]);
                assert(y@.subrange(ys as int, ys as int + l as int)[i as int] == y@[ys as int
                    + i]);
            }
            return false;
        }
        i += 1;
    }
    proof {
        assert forall|k: int| 0 <= k < l implies #[trigger] x@.subrange(
            xs as int,
            xs as int + l as int,
        )[k] == y@.subrange(ys as int, ys as int + l as int)[k] by {
            assert(x@[xs as int + k] == y@[ys as int + k]);
        }
        assert(x@.subrange(xs as int, xs as int + l as int) =~= y@.subrange(
            ys as int,
            ys as int + l as int,
        ));
    }
    true
}

} // verus!
