use vstd::prelude::*;

use crate::borders::{
    head_matches_tail, head_part, is_border, is_longest_border, is_longest_head_tail,
    lemma_longest_border_to_sigma, lemma_match_iff_head_tail, lemma_sigma_absent, lemma_sigma_step,
    ranges_equal, tail_part,
};
use crate::matching::{is_match_at, is_match_result, MatchError, TextMatch};

verus! {

/// Transition table of the pattern automaton, keyed by state and symbol
/// and backed by hashbrown's hash map. Only the three helpers below touch
/// the outside crate; all proofs see the table through `table_entries`.
#[verifier::external_body]
pub struct TransTable {
    map: hashbrown::HashMap<(usize, char), usize>,
}

/// The bindings the transition table holds.
pub uninterp spec fn table_entries(t: TransTable) -> Map<(usize, char), usize>;

/// A table with no bindings at all.
pub open spec fn no_entries() -> Map<(usize, char), usize> {
    Map::empty()
}

/// Relies on hashbrown::HashMap::new: a newly created map is empty.
#[verifier::external_body]
fn table_new() -> (out: TransTable)
    ensures
        table_entries(out) == no_entries(),
{
    TransTable { map: hashbrown::HashMap::new() }
}

/// Relies on hashbrown::HashMap::insert: it binds the key to the value
/// and leaves every other binding alone.
#[verifier::external_body]
fn table_insert(t: &mut TransTable, state: usize, symbol: char, next: usize)
    ensures
        table_entries(*final(t)) == table_entries(*old(t)).insert((state, symbol), next),
{
    t.map.insert((state, symbol), next);
}

/// Relies on hashbrown::HashMap::get: it returns the value bound to the
/// key, if the key has one.
#[verifier::external_body]
fn table_get(t: &TransTable, state: usize, symbol: char) -> (r: Option<usize>)
    ensures
        r == if table_entries(*t).dom().contains((state, symbol)) {
            Some(table_entries(*t)[(state, symbol)])
        } else {
            None::<usize>
        },
{
    t.map.get(&(state, symbol)).copied()
}

/// The transition the automaton takes from `state` on `symbol`: the
/// table's binding, or the start state where the table holds none.
pub open spec fn table_lookup(t: TransTable, state: int, symbol: char) -> int {
    if state >= 0 && table_entries(t).dom().contains((state as usize, symbol)) {
        table_entries(t)[(state as usize, symbol)] as int
    } else {
        0
    }
}

/// The finite-automaton matcher: a deterministic transition table over
/// the pattern's alphabet, with the pattern length as the one accepting
/// state. Missing entries mean a transition to the start state.
pub struct Automat {
    accept: usize,
    transition_functions: TransTable,
    pattern: Ghost<Seq<char>>,
}

impl Automat {
    /// Return the length of the longest proper prefix of `x` that is also
    /// a suffix of `x`.
    pub fn sigma_suffix(x: &[char]) -> (r: usize)
        ensures
            x@.len() == 0 ==> r == 0,
            x@.len() > 0 ==> is_longest_border(x@, r as int),
    {
        let n = x.len();
        if n == 0 {
            return 0;
        }
        let mut k: usize = 1;
        while k < n
            invariant
                n == x@.len(),
                1 <= k <= n,
                forall|j: int| n - k < j < n ==> !is_border(x@, j),
            decreases n - k,
        {
            proof {
                assert(tail_part(x@, n - k) =~= x@.subrange(k as int, k as int + (n - k) as int));
            }
            if ranges_equal(x, x, 0, k, n - k) {
                return n - k;
            }
            k += 1;
        }
        proof {
            assert(head_part(x@, 0) =~= tail_part(x@, 0));
        }
        0
    }

    /// Prepare the automaton for a pattern: for every state and alphabet
    /// symbol, the next state is one further on a match of the next
    /// pattern symbol, and otherwise the length of the longest pattern
    /// prefix that ends the extended scan; zero-valued transitions are
    /// left out of the table.
    pub fn new(pattern: &[char]) -> (r: Result<Automat, MatchError>)
        ensures
            match r {
                Ok(auto) => pattern@.len() >= 1 && auto.wf() && auto.pat() == pattern@,
                Err(e) => e == MatchError::InvalidInput && pattern@.len() == 0,
            },
    {
        let ghost p = pattern@;
        let m = pattern.len();
        if m == 0 {
            return Err(MatchError::InvalidInput);
        }
        let mut alphabet: Vec<char> = Vec::new();
        let mut ci: usize = 0;
        while ci < m
            invariant
                m == pattern@.len(),
                0 <= ci <= m,
                forall|j: int| 0 <= j < ci ==> alphabet@.contains(#[trigger] pattern@[j]),
                forall|j: int| 0 <= j < alphabet@.len() ==> pattern@.contains(#[trigger] alphabet@[j]),
                forall|j1: int, j2: int| 0 <= j1 < j2 < alphabet@.len()
                    ==> alphabet@[j1] != alphabet@[j2],
            decreases m - ci,
        {
            let c = pattern[ci];
            let mut found = false;
            let mut ai: usize = 0;
            while ai < alphabet.len()
                invariant
                    0 <= ai <= alphabet@.len(),
                    found == exists|j: int| 0 <= j < ai && alphabet@[j] == c,
                decreases alphabet@.len() - ai,
            {
                if alphabet[ai] == c {
                    found = true;
                }
                ai += 1;
            }
            let ghost pre = alphabet@;
            if !found {
                alphabet.push(c);
            }
            proof {
                assert forall|j: int| 0 <= j < ci + 1 implies alphabet@.contains(
                    #[trigger] pattern@[j],
                ) by {
                    if j < ci {
                        let k = choose|k: int| 0 <= k < pre.len() && pre[k] == pattern@[j];
                        assert(alphabet@[k] == pattern@[j]);
                    } else {
                        if found {
                            let k = choose|k: int| 0 <= k < pre.len() && pre[k] == c;
                            assert(alphabet@[k] == c);
                        } else {
                            assert(alphabet@[pre.len() as int] == c);
                        }
                    }
                }
                assert forall|j: int| 0 <= j < alphabet@.len() implies pattern@.contains(
                    #[trigger] alphabet@[j],
                ) by {
                    if j < pre.len() {
                        assert(alphabet@[j] == pre[j]);
                    } else {
                        assert(alphabet@[j] == pattern@[ci as int]);
                    }
                }
            }
            ci += 1;
        }
        let mut transition_functions = table_new();
        let mut idx: usize = 0;
        while idx < m
            invariant
                p == pattern@,
                m == pattern@.len(),
                1 <= m,
                0 <= idx <= m,
                forall|j1: int, j2: int| 0 <= j1 < j2 < alphabet@.len()
                    ==> alphabet@[j1] != alphabet@[j2],
                forall|e: (usize, char)| #[trigger] table_entries(
                    transition_functions,
                ).dom().contains(e) ==> e.0 < idx && alphabet@.contains(e.1),
                forall|k: int, a: char| 0 <= k < idx && alphabet@.contains(a)
                    ==> is_longest_head_tail(
                        pattern@,
                        head_part(pattern@, k).push(a),
                        #[trigger] table_lookup(transition_functions, k, a),
                    ),
            decreases m - idx,
        {
            let ghost tb = transition_functions;
            fill_state(pattern, &alphabet, &mut transition_functions, idx);
            proof {
                assert forall|k: int, a: char| 0 <= k < idx + 1 && alphabet@.contains(a)
                    implies is_longest_head_tail(
                    p,
                    head_part(p, k).push(a),
                    #[trigger] table_lookup(transition_functions, k, a),
                ) by {
                    if k < idx {
                        assert(table_lookup(transition_functions, k, a) == table_lookup(
                            tb,
                            k,
                            a,
                        ));
                    } else {
                        assert(is_longest_head_tail(
                            p,
                            head_part(p, idx as int).push(a),
                            table_lookup(transition_functions, idx as int, a),
                        ));
                    }
                }
            }
            idx += 1;
        }
        let ghost tb = transition_functions;
        fill_state(pattern, &alphabet, &mut transition_functions, m);
        let auto = Automat {
            accept: m,
            transition_functions,
            pattern: Ghost(pattern@),
        };
        proof {
            assert forall|k: int, a: char| 0 <= k <= m implies is_longest_head_tail(
                p,
                head_part(p, k).push(a),
                #[trigger] table_lookup(auto.transition_functions, k, a),
            ) by {
                if alphabet@.contains(a) {
                    if k < m {
                        assert(table_lookup(auto.transition_functions, k, a) == table_lookup(
                            tb,
                            k,
                            a,
                        ));
                    }
                } else {
                    assert(!table_entries(auto.transition_functions).dom().contains(
                        (k as usize, a),
                    ));
                    assert forall|i: int| 0 <= i < p.len() implies p[i] != a by {
                        if p[i] == a {
                            assert(alphabet@.contains(p[i]));
                        }
                    }
                    lemma_sigma_absent(p, head_part(p, k), a);
                }
            }
        }
        Ok(auto)
    }
}

/// Fill every transition out of one state: for each alphabet symbol the
/// next state on that symbol, leaving zero-valued transitions out.
fn fill_state(pattern: &[char], alphabet: &Vec<char>, t: &mut TransTable, idx: usize)
    requires
        idx <= pattern@.len(),
        forall|j1: int, j2: int| 0 <= j1 < j2 < alphabet@.len() ==> alphabet@[j1] != alphabet@[j2],
        forall|a: char| !table_entries(*old(t)).dom().contains((idx, a)),
    ensures
        forall|e: (usize, char)| #[trigger] table_entries(*final(t)).dom().contains(e)
            ==> table_entries(*old(t)).dom().contains(e) || (e.0 == idx && alphabet@.contains(
                e.1,
            )),
        forall|k: int, a: char| 0 <= k <= pattern@.len() && k != idx
            ==> #[trigger] table_lookup(*final(t), k, a) == table_lookup(*old(t), k, a),
        forall|a: char| alphabet@.contains(a) ==> is_longest_head_tail(
            pattern@,
            head_part(pattern@, idx as int).push(a),
            #[trigger] table_lookup(*final(t), idx as int, a),
        ),
        forall|a: char| !alphabet@.contains(a) ==> !table_entries(*final(t)).dom().contains(
            (idx, a),
        ),
{
    let ghost p = pattern@;
    let m = pattern.len();
    let mut ai: usize = 0;
    while ai < alphabet.len()
        invariant
            p == pattern@,
            m == pattern@.len(),
            idx <= m,
            0 <= ai <= alphabet@.len(),
            forall|j1: int, j2: int| 0 <= j1 < j2 < alphabet@.len()
                ==> alphabet@[j1] != alphabet@[j2],
            forall|a: char| !table_entries(*old(t)).dom().contains((idx, a)),
            forall|e: (usize, char)| #[trigger] table_entries(*t).dom().contains(e)
                ==> table_entries(*old(t)).dom().contains(e) || (e.0 == idx
                    && alphabet@.subrange(0, ai as int).contains(e.1)),
            forall|k: int, a: char| 0 <= k <= pattern@.len() && k != idx
                ==> #[trigger] table_lookup(*t, k, a) == table_lookup(*old(t), k, a),
            forall|a: char| alphabet@.subrange(0, ai as int).contains(a)
                ==> is_longest_head_tail(
                    pattern@,
                    head_part(pattern@, idx as int).push(a),
                    #[trigger] table_lookup(*t, idx as int, a),
                ),
        decreases alphabet@.len() - ai,
    {
        let a = alphabet[ai];
        let ghost t0 = *t;
        proof {
            assert(!alphabet@.subrange(0, ai as int).contains(a)) by {
                if alphabet@.subrange(0, ai as int).contains(a) {
                    let j = choose|j: int|
                        0 <= j < ai && #[trigger] alphabet@.subrange(0, ai as int)[j] == a;
                    assert(alphabet@[j] == alphabet@[ai as int]);
                }
            }
        }
        if idx < m && pattern[idx] == a {
            table_insert(t, idx, a, idx + 1);
            proof {
                let z = head_part(p, idx as int).push(a);
                assert(head_part(p, idx as int).len() == idx as int);
                assert(z.len() == idx + 1);
                assert(head_part(p, idx + 1).len() == idx + 1);
                assert forall|i: int| 0 <= i < idx + 1 implies head_part(p, idx + 1)[i]
                    == z[i] by {
                    if i < idx {
                        assert(z[i] == head_part(p, idx as int)[i]);
                        assert(head_part(p, idx as int)[i] == p[i]);
                        assert(head_part(p, idx + 1)[i] == p[i]);
                    } else {
                        assert(z[i] == a);
                        assert(head_part(p, idx + 1)[i] == p[idx as int]);
                    }
                }
                assert(head_part(p, idx + 1) =~= z);
                assert forall|i: int| 0 <= i < idx + 1 implies tail_part(z, idx + 1)[i]
                    == z[i] by {}
                assert(tail_part(z, idx + 1) =~= z);
                assert(head_matches_tail(p, z, idx + 1));
                assert(is_longest_head_tail(p, z, idx + 1));
                assert(table_lookup(*t, idx as int, a) == idx + 1);
                assert(is_longest_head_tail(
                    p,
                    head_part(p, idx as int).push(a),
                    table_lookup(*t, idx as int, a),
                ));
            }
        } else {
            let mut ext = vstd::slice::slice_to_vec(&pattern[0..idx]);
            ext.push(a);
            let pos = Automat::sigma_suffix(ext.as_slice());
            proof {
                assert(head_part(p, idx as int).len() == idx as int);
                assert(head_part(p, idx as int).push(a).len() == idx + 1);
                assert(ext@ =~= head_part(p, idx as int).push(a));
                lemma_longest_border_to_sigma(p, idx as int, a, pos as int);
            }
            if pos != 0 {
                table_insert(t, idx, a, pos);
                proof {
                    assert(table_lookup(*t, idx as int, a) == pos as int);
                    assert(is_longest_head_tail(
                        p,
                        head_part(p, idx as int).push(a),
                        table_lookup(*t, idx as int, a),
                    ));
                }
            } else {
                proof {
                    assert(!table_entries(*t).dom().contains((idx, a))) by {
                        if table_entries(*t).dom().contains((idx, a)) {
                            let e = (idx, a);
                            assert(table_entries(*t).dom().contains(e));
                            assert(alphabet@.subrange(0, ai as int).contains(a));
                        }
                    }
                    assert(table_lookup(*t, idx as int, a) == 0);
                    assert(is_longest_head_tail(
                        p,
                        head_part(p, idx as int).push(a),
                        table_lookup(*t, idx as int, a),
                    ));
                }
            }
        }
        proof {
            assert(alphabet@.subrange(0, ai + 1)[ai as int] == a);
            assert(alphabet@.subrange(0, ai + 1).contains(a));
            assert forall|e: (usize, char)| #[trigger] table_entries(*t).dom().contains(e)
                implies table_entries(*old(t)).dom().contains(e) || (e.0 == idx
                && alphabet@.subrange(0, ai + 1).contains(e.1)) by {
                if table_entries(t0).dom().contains(e) {
                    if !table_entries(*old(t)).dom().contains(e) {
                        assert(alphabet@.subrange(0, ai as int).contains(e.1));
                        let j = choose|j: int|
                            0 <= j < ai && #[trigger] alphabet@.subrange(0, ai as int)[j]
                                == e.1;
                        assert(alphabet@.subrange(0, ai + 1)[j] == alphabet@[j]);
                        assert(alphabet@.subrange(0, ai + 1).contains(e.1));
                    }
                } else {
                    assert(e == (idx, a));
                }
            }
            assert forall|k: int, a2: char| 0 <= k <= p.len() && k != idx
                implies #[trigger] table_lookup(*t, k, a2) == table_lookup(t0, k, a2) by {
                assert(k as usize != idx);
                assert(table_entries(*t).dom().contains((k as usize, a2))
                    == table_entries(t0).dom().contains((k as usize, a2)));
            }
            assert forall|c: char| alphabet@.subrange(0, ai + 1).contains(c)
                implies is_longest_head_tail(
                p,
                head_part(p, idx as int).push(c),
                #[trigger] table_lookup(*t, idx as int, c),
            ) by {
                if c != a {
                    assert(alphabet@.subrange(0, ai as int).contains(c)) by {
                        let j = choose|j: int|
                            0 <= j < ai + 1 && #[trigger] alphabet@.subrange(0, ai + 1)[j]
                                == c;
                        assert(alphabet@[j] == c);
                        assert(j < ai);
                        assert(alphabet@.subrange(0, ai as int)[j] == c);
                    }
                    assert(table_lookup(*t, idx as int, c) == table_lookup(t0, idx as int, c));
                }
            }
        }
        ai += 1;
    }
    proof {
        assert(alphabet@.subrange(0, alphabet@.len() as int) =~= alphabet@);
        assert forall|a: char| !alphabet@.contains(a) implies !table_entries(
            *t,
        ).dom().contains((idx, a)) by {
            if table_entries(*t).dom().contains((idx, a)) {
                let e = (idx, a);
                assert(table_entries(*t).dom().contains(e));
            }
        }
    }
}

impl TextMatch for Automat {
    closed spec fn pat(&self) -> Seq<char> {
        self.pattern@
    }

    closed spec fn wf(&self) -> bool {
        &&& self.pattern@.len() >= 1
        &&& self.accept == self.pattern@.len()
        &&& forall|k: int, a: char| 0 <= k <= self.pattern@.len() ==> is_longest_head_tail(
            self.pattern@,
            head_part(self.pattern@, k).push(a),
            #[trigger] table_lookup(self.transition_functions, k, a),
        )
    }

    closed spec fn rejects(&self, text: Seq<char>) -> bool {
        false
    }

    /// Scan the text once: one transition per symbol, recording a match
    /// start whenever the accepting state is reached. The state is never
    /// reset, so overlapping matches are found.
    fn match_text(&self, text: &[char]) -> (r: Result<Vec<usize>, MatchError>) {
        let ghost p = self.pattern@;
        let n = text.len();
        let m = self.accept;
        if m > n {
            return Err(MatchError::InvalidInput);
        }
        let mut matches: Vec<usize> = Vec::new();
        let mut start: usize = 0;
        let mut idx: usize = 0;
        proof {
            assert(text@.subrange(0, 0) =~= Seq::<char>::empty());
            crate::borders::lemma_hmt_zero(p, text@.subrange(0, 0));
        }
        while idx < n
            invariant
                self.wf(),
                p == self.pattern@,
                n == text@.len(),
                m == p.len(),
                m <= n,
                0 <= idx <= n,
                0 <= start <= m,
                is_longest_head_tail(p, text@.subrange(0, idx as int), start as int),
                forall|k: int| 0 <= k < matches@.len() ==> is_match_at(
                    text@,
                    p,
                    #[trigger] matches@[k] as int,
                ) && matches@[k] + m <= idx,
                forall|k1: int, k2: int| 0 <= k1 < k2 < matches@.len()
                    ==> matches@[k1] < matches@[k2],
                forall|s: int| 0 <= s && s + m <= idx && is_match_at(text@, p, s)
                    ==> matches@.contains(s as usize),
            decreases n - idx,
        {
            let c = text[idx];
            let ghost x = text@.subrange(0, idx as int);
            let next = match table_get(&self.transition_functions, start, c) {
                Some(v) => v,
                None => 0,
            };
            proof {
                assert(next as int == table_lookup(self.transition_functions, start as int, c));
                assert(is_longest_head_tail(p, head_part(p, start as int).push(c), next as int));
                lemma_sigma_step(p, x, c, start as int, next as int);
                assert(text@.subrange(0, idx + 1) =~= x.push(c));
            }
            start = next;
            let ghost prev = matches@;
            if start == m {
                let s = idx + 1 - m;
                matches.push(s);
                proof {
                    lemma_match_iff_head_tail(text@, p, s as int);
                    assert(is_match_at(text@, p, s as int));
                }
            }
            proof {
                assert forall|s: int| 0 <= s && s + m <= idx + 1 && is_match_at(text@, p, s)
                    implies matches@.contains(s as usize) by {
                    if s + m <= idx {
                        let k = choose|k: int| 0 <= k < prev.len() && prev[k] == s as usize;
                        assert(matches@[k] == s as usize);
                    } else {
                        lemma_match_iff_head_tail(text@, p, s);
                        assert(head_matches_tail(p, text@.subrange(0, idx + 1), m as int));
                        assert(start == m);
                        assert(matches@[matches@.len() - 1] == s as usize);
                    }
                }
            }
            idx += 1;
        }
        Ok(matches)
    }
}

} // verus!
