use vstd::prelude::*;

verus! {

/// How the interactive driver runs a matcher: timed runs, or verbose runs
/// that show every result.
pub enum MatchingState {
    Performance,
    Debug,
}

/// The one error the matchers report: the input breaks a precondition of
/// the algorithm, that is an empty pattern, a pattern longer than the text,
/// or a symbol outside the prepared alphabet.
#[derive(Clone, Copy, Debug, PartialEq, Eq, Structural)]
pub enum MatchError {
    InvalidInput,
}

/// The pattern occurs in the text as a contiguous substring starting at
/// offset `i`.
pub open spec fn is_match_at(text: Seq<char>, pattern: Seq<char>, i: int) -> bool {
    &&& 0 <= i
    &&& i + pattern.len() <= text.len()
    &&& text.subrange(i, i + pattern.len()) == pattern
}

/// `r` lists exactly the offsets at which the pattern occurs in the text,
/// in strictly ascending order. This is the contract every matcher meets.
pub open spec fn is_match_result(text: Seq<char>, pattern: Seq<char>, r: Seq<usize>) -> bool {
    &&& forall|k: int| 0 <= k < r.len() ==> is_match_at(text, pattern, #[trigger] r[k] as int)
    &&& forall|k1: int, k2: int| 0 <= k1 < k2 < r.len() ==> r[k1] < r[k2]
    &&& forall|i: int| is_match_at(text, pattern, i) ==> r.contains(i as usize)
}

/// The shared capability of every prepared matcher: it owns a pattern and
/// reports, for any text, every offset where the pattern occurs, ascending,
/// overlaps included. A pattern longer than the text is refused.
pub trait TextMatch: Sized {
    /// The pattern the matcher was prepared for.
    spec fn pat(&self) -> Seq<char>;

    /// The matcher's internal tables are consistent with its pattern.
    spec fn wf(&self) -> bool;

    /// The extra texts this matcher refuses beyond an overlong pattern.
    spec fn rejects(&self, text: Seq<char>) -> bool;

    /// Report every offset where the pattern occurs in `text`.
    fn match_text(&self, text: &[char]) -> (r: Result<Vec<usize>, MatchError>)
        requires
            self.wf(),
        ensures
            match r {
                Ok(v) => self.pat().len() <= text@.len() && !self.rejects(text@)
                    && is_match_result(text@, self.pat(), v@),
                Err(e) => e == MatchError::InvalidInput
                    && (self.pat().len() > text@.len() || self.rejects(text@)),
            },
    ;
}

/// Two strictly ascending listings with the same members are equal.
proof fn lemma_ascending_same_members(a: Seq<usize>, b: Seq<usize>)
    requires
        forall|k1: int, k2: int| 0 <= k1 < k2 < a.len() ==> a[k1] < a[k2],
        forall|k1: int, k2: int| 0 <= k1 < k2 < b.len() ==> b[k1] < b[k2],
        forall|x: usize| a.contains(x) <==> b.contains(x),
    ensures
        a == b,
    decreases a.len(),
{
    if a.len() == 0 {
        if b.len() > 0 {
            assert(b.contains(b[0]));
            assert(a.contains(b[0]));
        }
        assert(a =~= b);
    } else {
        assert(a.contains(a[0]));
        assert(b.contains(a[0]));
        if b.len() == 0 {
            assert(!b.contains(a[0]));
        }
        let j = choose|j: int| 0 <= j < b.len() && b[j] == a[0];
        assert(b[0] <= b[j]);
        assert(b.contains(b[0]));
        assert(a.contains(b[0]));
        let i = choose|i: int| 0 <= i < a.len() && a[i] == b[0];
        assert(a[0] <= a[i]);
        assert(a[0] == b[0]);
        let at = a.subrange(1, a.len() as int);
        let bt = b.subrange(1, b.len() as int);
        assert forall|x: usize| at.contains(x) implies bt.contains(x) by {
            let k = choose|k: int| 0 <= k < at.len() && at[k] == x;
            assert(a[k + 1] == x);
            assert(a[0] < x);
            assert(a.contains(x));
            assert(b.contains(x));
            let kb = choose|kb: int| 0 <= kb < b.len() && b[kb] == x;
            assert(kb != 0);
            assert(bt[kb - 1] == x);
        }
        assert forall|x: usize| bt.contains(x) implies at.contains(x) by {
            let k = choose|k: int| 0 <= k < bt.len() && bt[k] == x;
            assert(b[k + 1] == x);
            assert(b[0] < x);
            assert(b.contains(x));
            assert(a.contains(x));
            let ka = choose|ka: int| 0 <= ka < a.len() && a[ka] == x;
            assert(ka != 0);
            assert(at[ka - 1] == x);
        }
        assert forall|x: usize| at.contains(x) <==> bt.contains(x) by {}
        lemma_ascending_same_members(at, bt);
        assert(a.len() == b.len());
        assert forall|k: int| 0 <= k < a.len() implies a[k] == b[k] by {
            if k > 0 {
                assert(a[k] == at[k - 1]);
                assert(b[k] == bt[k - 1]);
            }
        }
        assert(a =~= b);
    }
}

/// Cross-validation law: any two listings that each report exactly the
/// occurrences of the same pattern in the same text, in ascending order,
/// are equal. Every matcher variant returns such a listing, so all agree.
pub proof fn lemma_match_result_unique(
    text: Seq<char>,
    pattern: Seq<char>,
    r1: Seq<usize>,
    r2: Seq<usize>,
)
    requires
        is_match_result(text, pattern, r1),
        is_match_result(text, pattern, r2),
    ensures
        r1 == r2,
{
    assert forall|x: usize| r1.contains(x) implies r2.contains(x) by {
        let k = choose|k: int| 0 <= k < r1.len() && r1[k] == x;
        assert(is_match_at(text, pattern, r1[k] as int));
    }
    assert forall|x: usize| r2.contains(x) implies r1.contains(x) by {
        let k = choose|k: int| 0 <= k < r2.len() && r2[k] == x;
        assert(is_match_at(text, pattern, r2[k] as int));
    }
    lemma_ascending_same_members(r1, r2);
}

/// Idempotence law: a prepared matcher applied twice to the same text
/// yields identical results, since both runs meet the same exact contract.
pub proof fn lemma_match_idempotent(
    text: Seq<char>,
    pattern: Seq<char>,
    first: Seq<usize>,
    second: Seq<usize>,
)
    requires
        is_match_result(text, pattern, first),
        is_match_result(text, pattern, second),
    ensures
        first == second,
{
    lemma_match_result_unique(text, pattern, first, second);
}

/// Boundary law: a single-symbol pattern occurs exactly at the positions
/// that hold that symbol.
pub proof fn lemma_single_symbol_positions(text: Seq<char>, pattern: Seq<char>)
    requires
        pattern.len() == 1,
    ensures
        forall|i: int| is_match_at(text, pattern, i)
            <==> (0 <= i < text.len() && text[i] == pattern[0]),
{
    assert forall|i: int| is_match_at(text, pattern, i)
        <==> (0 <= i < text.len() && text[i] == pattern[0]) by {
        if 0 <= i < text.len() {
            if text[i] == pattern[0] {
                assert(text.subrange(i, i + 1) =~= pattern);
            }
            if is_match_at(text, pattern, i) {
                assert(text.subrange(i, i + 1)[0] == text[i]);
            }
        }
    }
}

/// Boundary law: a pattern as long as the text can occur at offset zero
/// only, and does so exactly when the two are equal.
pub proof fn lemma_full_length_match(text: Seq<char>, pattern: Seq<char>)
    requires
        pattern.len() == text.len(),
    ensures
        is_match_at(text, pattern, 0) <==> pattern == text,
        forall|i: int| i != 0 ==> !is_match_at(text, pattern, i),
{
    assert(text.subrange(0, text.len() as int) =~= text);
}

} // verus!
