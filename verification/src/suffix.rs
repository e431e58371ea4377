use vstd::prelude::*;

verus! {

/// One edge of the tree: a non-empty label, the subtree under it, and a
/// mark for a suffix that ends exactly at the end of the label.
enum SuffixNode {
    Edge { label: Vec<char>, childs: Vec<SuffixNode>, terminal: bool },
}

/// The symbol an edge starts with.
spec fn first_sym(node: SuffixNode) -> char {
    match node {
        SuffixNode::Edge { label, childs, terminal } => label@[0],
    }
}

/// The edge is well formed: its label is non-empty, a childless edge is a
/// plain leaf, and its subtree is well formed in turn.
spec fn node_wf(node: SuffixNode) -> bool
    decreases node,
{
    match node {
        SuffixNode::Edge { label, childs, terminal } => {
            &&& label@.len() >= 1
            &&& (childs@.len() == 0 ==> !terminal)
            &&& forest_wf(childs@)
        },
    }
}

/// Sibling edges start with pairwise-distinct symbols, and each is well
/// formed.
spec fn forest_wf(s: Seq<SuffixNode>) -> bool
    decreases s,
{
    &&& forall|k1: int, k2: int| 0 <= k1 < k2 < s.len() ==> first_sym(s[k1]) != first_sym(s[k2])
    &&& forall|k: int| 0 <= k < s.len() ==> node_wf(#[trigger] s[k])
}

/// How many suffixes end in this edge's subtree: one per leaf edge and one
/// per terminal mark.
spec fn node_leaves(node: SuffixNode) -> nat
    decreases node,
{
    match node {
        SuffixNode::Edge { label, childs, terminal } => {
            if childs@.len() == 0 {
                1nat
            } else {
                forest_leaves(childs@) + if terminal {
                    1nat
                } else {
                    0nat
                }
            }
        },
    }
}

/// The leaves of a list of sibling subtrees.
spec fn forest_leaves(s: Seq<SuffixNode>) -> nat
    decreases s,
{
    if s.len() == 0 {
        0nat
    } else {
        node_leaves(s[0]) + forest_leaves(s.subrange(1, s.len() as int))
    }
}

proof fn lemma_forest_leaves_push(s: Seq<SuffixNode>, node: SuffixNode)
    ensures
        forest_leaves(s.push(node)) == forest_leaves(s) + node_leaves(node),
    decreases s.len(),
{
    let sp = s.push(node);
    assert(forest_leaves(sp) == node_leaves(sp[0]) + forest_leaves(
        sp.subrange(1, sp.len() as int),
    ));
    if s.len() == 0 {
        assert(sp[0] == node);
        assert(sp.subrange(1, sp.len() as int) =~= Seq::<SuffixNode>::empty());
        assert(forest_leaves(Seq::<SuffixNode>::empty()) == 0);
        assert(forest_leaves(s) == 0);
    } else {
        assert(sp[0] == s[0]);
        assert(sp.subrange(1, sp.len() as int) =~= s.subrange(1, s.len() as int).push(node));
        lemma_forest_leaves_push(s.subrange(1, s.len() as int), node);
        assert(forest_leaves(s) == node_leaves(s[0]) + forest_leaves(
            s.subrange(1, s.len() as int),
        ));
    }
}

proof fn lemma_forest_leaves_prefix_step(s: Seq<SuffixNode>, i: int)
    requires
        0 <= i < s.len(),
    ensures
        forest_leaves(s.subrange(0, i + 1)) == forest_leaves(s.subrange(0, i)) + node_leaves(
            s[i],
        ),
{
    assert(s.subrange(0, i + 1) =~= s.subrange(0, i).push(s[i]));
    lemma_forest_leaves_push(s.subrange(0, i), s[i]);
}

proof fn lemma_forest_leaves_member_le(s: Seq<SuffixNode>, k: int)
    requires
        0 <= k < s.len(),
    ensures
        node_leaves(s[k]) <= forest_leaves(s),
    decreases s.len(),
{
    if k == 0 {
    } else {
        assert(s.subrange(1, s.len() as int)[k - 1] == s[k]);
        lemma_forest_leaves_member_le(s.subrange(1, s.len() as int), k - 1);
    }
}

proof fn lemma_forest_leaves_prefix_le(s: Seq<SuffixNode>, i: int)
    requires
        0 <= i <= s.len(),
    ensures
        forest_leaves(s.subrange(0, i)) <= forest_leaves(s),
    decreases s.len() - i,
{
    if i == s.len() {
        assert(s.subrange(0, i) =~= s);
    } else {
        lemma_forest_leaves_prefix_step(s, i);
        lemma_forest_leaves_prefix_le(s, i + 1);
    }
}

/// How many of the first `k` words start with `c`.
spec fn count_first(text: Seq<char>, words: Seq<usize>, c: char) -> nat
    decreases words.len(),
{
    if words.len() == 0 {
        0nat
    } else {
        (if text[words[0] as int] == c {
            1nat
        } else {
            0nat
        }) + count_first(text, words.subrange(1, words.len() as int), c)
    }
}

proof fn lemma_count_first_push(text: Seq<char>, words: Seq<usize>, c: char, w: usize)
    ensures
        count_first(text, words.push(w), c) == count_first(text, words, c) + (if text[w as int]
            == c {
            1nat
        } else {
            0nat
        }),
    decreases words.len(),
{
    let sp = words.push(w);
    assert(count_first(text, sp, c) == (if text[sp[0] as int] == c {
        1nat
    } else {
        0nat
    }) + count_first(text, sp.subrange(1, sp.len() as int), c));
    if words.len() == 0 {
        assert(sp[0] == w);
        assert(sp.subrange(1, sp.len() as int) =~= Seq::<usize>::empty());
        assert(count_first(text, Seq::<usize>::empty(), c) == 0);
        assert(count_first(text, words, c) == 0);
    } else {
        assert(sp[0] == words[0]);
        assert(sp.subrange(1, sp.len() as int) =~= words.subrange(
            1,
            words.len() as int,
        ).push(w));
        lemma_count_first_push(text, words.subrange(1, words.len() as int), c, w);
        assert(count_first(text, words, c) == (if text[words[0] as int] == c {
            1nat
        } else {
            0nat
        }) + count_first(text, words.subrange(1, words.len() as int), c));
    }
}

/// The words counted per symbol of the first `ci` alphabet entries.
spec fn count_upto(text: Seq<char>, words: Seq<usize>, sigma: Seq<char>, ci: int) -> nat
    decreases ci,
{
    if ci <= 0 {
        0nat
    } else {
        count_upto(text, words, sigma, ci - 1) + count_first(text, words, sigma[ci - 1])
    }
}

proof fn lemma_count_upto_empty(text: Seq<char>, sigma: Seq<char>, ci: int)
    ensures
        count_upto(text, Seq::<usize>::empty(), sigma, ci) == 0,
    decreases ci,
{
    if ci > 0 {
        lemma_count_upto_empty(text, sigma, ci - 1);
    }
}

proof fn lemma_count_upto_cons(text: Seq<char>, words: Seq<usize>, sigma: Seq<char>, ci: int)
    requires
        words.len() >= 1,
        0 <= ci <= sigma.len(),
        forall|j1: int, j2: int| 0 <= j1 < j2 < sigma.len() ==> sigma[j1] != sigma[j2],
    ensures
        count_upto(text, words, sigma, ci) == count_upto(
            text,
            words.subrange(1, words.len() as int),
            sigma,
            ci,
        ) + (if sigma.subrange(0, ci).contains(text[words[0] as int]) {
            1nat
        } else {
            0nat
        }),
    decreases ci,
{
    let rest = words.subrange(1, words.len() as int);
    let c0 = text[words[0] as int];
    if ci <= 0 {
        assert(!sigma.subrange(0, 0).contains(c0));
    } else {
        lemma_count_upto_cons(text, words, sigma, ci - 1);
        assert(count_first(text, words, sigma[ci - 1]) == (if c0 == sigma[ci - 1] {
            1nat
        } else {
            0nat
        }) + count_first(text, rest, sigma[ci - 1]));
        if sigma[ci - 1] == c0 {
            assert(sigma.subrange(0, ci).contains(c0)) by {
                assert(sigma.subrange(0, ci)[ci - 1] == c0);
            }
            assert(!sigma.subrange(0, ci - 1).contains(c0)) by {
                if sigma.subrange(0, ci - 1).contains(c0) {
                    let j = choose|j: int|
                        0 <= j < ci - 1 && #[trigger] sigma.subrange(0, ci - 1)[j] == c0;
                    assert(sigma[j] == sigma[ci - 1]);
                }
            }
        } else {
            assert(sigma.subrange(0, ci).contains(c0) == sigma.subrange(0, ci - 1).contains(
                c0,
            )) by {
                if sigma.subrange(0, ci).contains(c0) {
                    let j = choose|j: int|
                        0 <= j < ci && #[trigger] sigma.subrange(0, ci)[j] == c0;
                    assert(sigma[j] == c0);
                    assert(j < ci - 1);
                    assert(sigma.subrange(0, ci - 1)[j] == c0);
                }
                if sigma.subrange(0, ci - 1).contains(c0) {
                    let j = choose|j: int|
                        0 <= j < ci - 1 && #[trigger] sigma.subrange(0, ci - 1)[j] == c0;
                    assert(sigma.subrange(0, ci)[j] == c0);
                }
            }
        }
    }
}

proof fn lemma_count_partition(text: Seq<char>, words: Seq<usize>, sigma: Seq<char>)
    requires
        forall|k: int| 0 <= k < words.len() ==> (#[trigger] words[k]) < text.len(),
        forall|k: int| 0 <= k < words.len() ==> sigma.contains(text[(#[trigger] words[k]) as int]),
        forall|j1: int, j2: int| 0 <= j1 < j2 < sigma.len() ==> sigma[j1] != sigma[j2],
    ensures
        count_upto(text, words, sigma, sigma.len() as int) == words.len(),
    decreases words.len(),
{
    if words.len() == 0 {
        assert(words =~= Seq::<usize>::empty());
        lemma_count_upto_empty(text, sigma, sigma.len() as int);
    } else {
        let rest = words.subrange(1, words.len() as int);
        lemma_count_upto_cons(text, words, sigma, sigma.len() as int);
        assert(sigma.subrange(0, sigma.len() as int) =~= sigma);
        assert forall|k: int| 0 <= k < rest.len() implies (#[trigger] rest[k]) < text.len()
            && sigma.contains(text[rest[k] as int]) by {
            assert(rest[k] == words[k + 1]);
        }
        lemma_count_partition(text, rest, sigma);
    }
}


/// The suffix of `text` that starts at `p`.
spec fn suffix_at(text: Seq<char>, p: int) -> Seq<char> {
    text.subrange(p, text.len() as int)
}

/// Every non-empty suffix of `text`.
pub open spec fn all_suffixes(text: Seq<char>) -> Set<Seq<char>> {
    Set::new(
        |w: Seq<char>|
            exists|i: int| 0 <= i < text.len() && w == #[trigger] text.subrange(
                i,
                text.len() as int,
            ),
    )
}

/// The suffixes of `text` that start at the positions in `words`.
spec fn words_set(text: Seq<char>, words: Seq<usize>) -> Set<Seq<char>> {
    Set::new(
        |w: Seq<char>|
            exists|k: int|
                0 <= k < words.len() && w == suffix_at(text, (#[trigger] words[k]) as int),
    )
}

/// The suffixes of `text` at the positions in `words` whose first symbol
/// lies in `syms`.
spec fn words_set_by(text: Seq<char>, words: Seq<usize>, syms: Seq<char>) -> Set<Seq<char>> {
    Set::new(
        |w: Seq<char>|
            exists|k: int|
                0 <= k < words.len() && syms.contains(text[(#[trigger] words[k]) as int]) && w
                    == suffix_at(text, words[k] as int),
    )
}

/// Every word of `s`, with `l` put in front.
spec fn prefixed(l: Seq<char>, s: Set<Seq<char>>) -> Set<Seq<char>> {
    Set::new(|y: Seq<char>| exists|w: Seq<char>| #[trigger] s.contains(w) && y == l + w)
}

/// The words an edge's subtree spells out, label included: one word per
/// leaf edge and one per terminal mark.
spec fn node_words(node: SuffixNode) -> Set<Seq<char>>
    decreases node,
{
    match node {
        SuffixNode::Edge { label, childs, terminal } => {
            if childs@.len() == 0 {
                Set::empty().insert(label@)
            } else if terminal {
                prefixed(label@, forest_words(childs@)).insert(label@)
            } else {
                prefixed(label@, forest_words(childs@))
            }
        },
    }
}

/// The words a list of sibling subtrees spells out.
spec fn forest_words(s: Seq<SuffixNode>) -> Set<Seq<char>>
    decreases s,
{
    if s.len() == 0 {
        Set::empty()
    } else {
        node_words(s[0]).union(forest_words(s.subrange(1, s.len() as int)))
    }
}

proof fn lemma_forest_words_push(s: Seq<SuffixNode>, node: SuffixNode)
    ensures
        forest_words(s.push(node)) == forest_words(s).union(node_words(node)),
    decreases s.len(),
{
    let sp = s.push(node);
    assert(forest_words(sp) == node_words(sp[0]).union(
        forest_words(sp.subrange(1, sp.len() as int)),
    ));
    if s.len() == 0 {
        assert(sp[0] == node);
        assert(sp.subrange(1, sp.len() as int) =~= Seq::<SuffixNode>::empty());
        assert(forest_words(Seq::<SuffixNode>::empty()) =~= Set::<Seq<char>>::empty());
        assert(forest_words(s) =~= Set::<Seq<char>>::empty());
        assert(forest_words(sp) =~= forest_words(s).union(node_words(node)));
    } else {
        assert(sp[0] == s[0]);
        assert(sp.subrange(1, sp.len() as int) =~= s.subrange(1, s.len() as int).push(node));
        lemma_forest_words_push(s.subrange(1, s.len() as int), node);
        assert(forest_words(s) == node_words(s[0]).union(
            forest_words(s.subrange(1, s.len() as int)),
        ));
        assert(forest_words(sp) =~= forest_words(s).union(node_words(node)));
    }
}

proof fn lemma_subrange_concat(t: Seq<char>, a: int, b: int, c2: int)
    requires
        0 <= a <= b <= c2 <= t.len(),
    ensures
        t.subrange(a, b) + t.subrange(b, c2) == t.subrange(a, c2),
{
    let lhs = t.subrange(a, b) + t.subrange(b, c2);
    assert forall|i: int| 0 <= i < c2 - a implies lhs[i] == t.subrange(a, c2)[i] by {
        if i < b - a {
            assert(lhs[i] == t.subrange(a, b)[i]);
        } else {
            assert(lhs[i] == t.subrange(b, c2)[i - (b - a)]);
        }
    }
    assert(lhs =~= t.subrange(a, c2));
}

/// All group words share their first `lcp` symbols, so each one's label
/// slice equals the first word's.
proof fn lemma_label_matches(t: Seq<char>, group: Seq<usize>, lcp: int, j: int)
    requires
        0 <= j < group.len(),
        0 <= lcp,
        forall|k: int| 0 <= k < group.len() ==> (#[trigger] group[k]) + lcp <= t.len(),
        forall|k: int, i: int| 0 <= k < group.len() && 0 <= i < lcp ==> #[trigger] word_sym(
            t,
            group[k],
            i,
        ) == word_sym(t, group[0], i),
    ensures
        t.subrange(group[j] as int, group[j] + lcp) == t.subrange(
            group[0] as int,
            group[0] + lcp,
        ),
{
    assert forall|i: int| 0 <= i < lcp implies #[trigger] t.subrange(
        group[j] as int,
        group[j] + lcp,
    )[i] == t.subrange(group[0] as int, group[0] + lcp)[i] by {
        assert(word_sym(t, group[j], i) == word_sym(t, group[0], i));
    }
    assert(t.subrange(group[j] as int, group[j] + lcp) =~= t.subrange(
        group[0] as int,
        group[0] + lcp,
    ));
}

/// The words a forest of sibling subtrees spells out, one per leaf.

proof fn lemma_contains_push(s: Seq<usize>, v: usize, x: usize)
    requires
        s.contains(v),
    ensures
        s.push(x).contains(v),
{
    let i = choose|i: int| 0 <= i < s.len() && s[i] == v;
    assert(s.push(x)[i] == v);
}

/// Extending the processed alphabet by one symbol adds exactly the
/// suffixes of the words that start with that symbol.
proof fn lemma_words_set_extend(
    t: Seq<char>,
    wall: Seq<usize>,
    sigma: Seq<char>,
    ci: int,
    c: char,
    group: Seq<usize>,
)
    requires
        0 <= ci < sigma.len(),
        c == sigma[ci],
        forall|k: int| 0 <= k < group.len() ==> (#[trigger] group[k]) < t.len() && t[group[k] as int]
            == c,
        forall|k: int| 0 <= k < group.len() ==> wall.contains(#[trigger] group[k]),
        forall|j: int| 0 <= j < wall.len() && t[(#[trigger] wall[j]) as int] == c
            ==> group.contains(wall[j]),
    ensures
        words_set_by(t, wall, sigma.subrange(0, ci + 1)) == words_set_by(
            t,
            wall,
            sigma.subrange(0, ci),
        ).union(words_set(t, group)),
{
    let syms0 = sigma.subrange(0, ci);
    let syms1 = sigma.subrange(0, ci + 1);
    assert forall|w: Seq<char>| words_set_by(t, wall, syms1).contains(w)
        implies words_set_by(t, wall, syms0).union(words_set(t, group)).contains(w) by {
        let k = choose|k: int|
            0 <= k < wall.len() && syms1.contains(t[(#[trigger] wall[k]) as int]) && w
                == suffix_at(t, wall[k] as int);
        let cc = t[wall[k] as int];
        let jj = choose|jj: int| 0 <= jj < syms1.len() && syms1[jj] == cc;
        if jj < ci {
            assert(syms0[jj] == cc);
            assert(syms0.contains(cc));
            assert(words_set_by(t, wall, syms0).contains(w));
        } else {
            assert(cc == c);
            assert(group.contains(wall[k]));
            let k2 = choose|k2: int| 0 <= k2 < group.len() && group[k2] == wall[k];
            assert(w == suffix_at(t, group[k2] as int));
            assert(words_set(t, group).contains(w));
        }
    }
    assert forall|w: Seq<char>| words_set_by(t, wall, syms0).union(
        words_set(t, group),
    ).contains(w) implies words_set_by(t, wall, syms1).contains(w) by {
        if words_set_by(t, wall, syms0).contains(w) {
            let k = choose|k: int|
                0 <= k < wall.len() && syms0.contains(t[(#[trigger] wall[k]) as int]) && w
                    == suffix_at(t, wall[k] as int);
            let jj = choose|jj: int|
                0 <= jj < syms0.len() && syms0[jj] == t[wall[k] as int];
            assert(syms1[jj] == t[wall[k] as int]);
            assert(syms1.contains(t[wall[k] as int]));
        } else {
            let k = choose|k: int|
                0 <= k < group.len() && w == suffix_at(t, (#[trigger] group[k]) as int);
            assert(wall.contains(group[k]));
            let j = choose|j: int| 0 <= j < wall.len() && wall[j] == group[k];
            assert(syms1[ci] == c);
            assert(syms1.contains(t[wall[j] as int]));
        }
    }
    assert(words_set_by(t, wall, syms1) =~= words_set_by(t, wall, syms0).union(
        words_set(t, group),
    ));
}

/// Once the whole alphabet has been processed, every word is covered.
proof fn lemma_words_set_full(t: Seq<char>, wall: Seq<usize>, sigma: Seq<char>)
    requires
        forall|k: int| 0 <= k < wall.len() ==> (#[trigger] wall[k]) < t.len(),
        forall|k: int| 0 <= k < wall.len() ==> sigma.contains(t[(#[trigger] wall[k]) as int]),
    ensures
        words_set_by(t, wall, sigma.subrange(0, sigma.len() as int)) == words_set(t, wall),
{
    assert(sigma.subrange(0, sigma.len() as int) =~= sigma);
    assert forall|w: Seq<char>| words_set(t, wall).contains(w) implies words_set_by(
        t,
        wall,
        sigma,
    ).contains(w) by {
        let k = choose|k: int|
            0 <= k < wall.len() && w == suffix_at(t, (#[trigger] wall[k]) as int);
        assert(sigma.contains(t[wall[k] as int]));
    }
    assert forall|w: Seq<char>| words_set_by(t, wall, sigma).contains(w) implies words_set(
        t,
        wall,
    ).contains(w) by {
        let k = choose|k: int|
            0 <= k < wall.len() && sigma.contains(t[(#[trigger] wall[k]) as int]) && w
                == suffix_at(t, wall[k] as int);
    }
    assert(words_set_by(t, wall, sigma) =~= words_set(t, wall));
}

/// An inner edge labeled with the group's common prefix spells exactly the
/// group's suffixes: the stripped remainders below it, plus the label
/// itself where a suffix ends with the label.
#[verifier::rlimit(100)]
proof fn lemma_internal_node_words(
    t: Seq<char>,
    group: Seq<usize>,
    rest: Seq<usize>,
    lcp: int,
    lv: Seq<char>,
    cw: Set<Seq<char>>,
    term: bool,
)
    requires
        group.len() >= 1,
        1 <= lcp,
        t.len() <= usize::MAX,
        forall|k: int| 0 <= k < group.len() ==> (#[trigger] group[k]) + lcp <= t.len(),
        forall|k: int, i: int| 0 <= k < group.len() && 0 <= i < lcp ==> #[trigger] word_sym(
            t,
            group[k],
            i,
        ) == word_sym(t, group[0], i),
        lv == t.subrange(group[0] as int, group[0] + lcp),
        cw == words_set(t, rest),
        forall|k: int| 0 <= k < rest.len() ==> (#[trigger] rest[k]) >= lcp && group.contains(
            ((rest[k] - lcp) as usize),
        ),
        forall|j: int| 0 <= j < group.len() && (#[trigger] group[j]) + lcp < t.len()
            ==> rest.contains(((group[j] + lcp) as usize)),
        forall|j: int| 0 <= j < group.len() && (#[trigger] group[j]) + lcp == t.len() ==> term,
        term ==> exists|j: int| 0 <= j < group.len() && (#[trigger] group[j]) + lcp == t.len(),
    ensures
        (if term {
            prefixed(lv, cw).insert(lv)
        } else {
            prefixed(lv, cw)
        }) == words_set(t, group),
{
    let n = t.len() as int;
    let nw = if term {
        prefixed(lv, cw).insert(lv)
    } else {
        prefixed(lv, cw)
    };
    assert forall|y: Seq<char>| nw.contains(y) implies words_set(t, group).contains(y) by {
        if prefixed(lv, cw).contains(y) {
            let w = choose|w: Seq<char>| #[trigger] cw.contains(w) && y == lv + w;
            let k = choose|k: int|
                0 <= k < rest.len() && w == suffix_at(t, (#[trigger] rest[k]) as int);
            assert(group.contains(((rest[k] - lcp) as usize)));
            let j = choose|j: int|
                0 <= j < group.len() && group[j] == ((rest[k] - lcp) as usize);
            assert(group[j] + lcp == rest[k]);
            lemma_label_matches(t, group, lcp, j);
            lemma_subrange_concat(t, group[j] as int, group[j] + lcp, n);
            assert(y == suffix_at(t, group[j] as int));
            assert(words_set(t, group).contains(y));
        } else {
            assert(term && y == lv);
            let j = choose|j: int| 0 <= j < group.len() && (#[trigger] group[j]) + lcp == n;
            lemma_label_matches(t, group, lcp, j);
            assert(y == suffix_at(t, group[j] as int));
            assert(words_set(t, group).contains(y));
        }
    }
    assert forall|y: Seq<char>| words_set(t, group).contains(y) implies nw.contains(y) by {
        let j = choose|j: int|
            0 <= j < group.len() && y == suffix_at(t, (#[trigger] group[j]) as int);
        lemma_label_matches(t, group, lcp, j);
        lemma_subrange_concat(t, group[j] as int, group[j] + lcp, n);
        if group[j] + lcp < n {
            assert(rest.contains(((group[j] + lcp) as usize)));
            let k = choose|k: int| 0 <= k < rest.len() && rest[k] == ((group[j] + lcp) as usize);
            let w = suffix_at(t, rest[k] as int);
            assert(words_set(t, rest).contains(w));
            assert(cw.contains(w));
            assert(rest[k] as int == group[j] + lcp);
            assert(w == t.subrange(group[j] + lcp, t.len() as int));
            assert(lv == t.subrange(group[j] as int, group[j] + lcp));
            assert(y == lv + w);
            assert(prefixed(lv, cw).contains(y));
        } else {
            assert(group[j] + lcp == n);
            assert(y == lv);
        }
    }
    assert(nw =~= words_set(t, group));
}

/// The greatest remaining word length.

spec fn longest_word(n: int, s: Seq<usize>) -> int
    decreases s.len(),
{
    if s.len() == 0 {
        0
    } else {
        let rest = longest_word(n, s.subrange(1, s.len() as int));
        if n - s[0] > rest {
            n - s[0]
        } else {
            rest
        }
    }
}

proof fn lemma_longest_word_ge(n: int, s: Seq<usize>, k: int)
    requires
        0 <= k < s.len(),
    ensures
        n - s[k] <= longest_word(n, s),
    decreases s.len(),
{
    if k > 0 {
        assert(s.subrange(1, s.len() as int)[k - 1] == s[k]);
        lemma_longest_word_ge(n, s.subrange(1, s.len() as int), k - 1);
    }
}

proof fn lemma_longest_word_le(n: int, s: Seq<usize>, bound: int)
    requires
        bound >= 0,
        forall|k: int| 0 <= k < s.len() ==> n - (#[trigger] s[k]) <= bound,
    ensures
        longest_word(n, s) <= bound,
    decreases s.len(),
{
    if s.len() > 0 {
        let rest = s.subrange(1, s.len() as int);
        assert forall|k: int| 0 <= k < rest.len() implies n - (#[trigger] rest[k]) <= bound by {
            assert(rest[k] == s[k + 1]);
        }
        lemma_longest_word_le(n, rest, bound);
    }
}

/// Copy the symbols of `text` between `a` and `b`.
fn copy_range(text: &[char], a: usize, b: usize) -> (v: Vec<char>)
    requires
        a <= b <= text@.len(),
    ensures
        v@ == text@.subrange(a as int, b as int),
{
    let mut v: Vec<char> = Vec::new();
    let mut i: usize = a;
    while i < b
        invariant
            a <= i <= b <= text@.len(),
            v@.len() == i - a,
            forall|j: int| 0 <= j < v@.len() ==> #[trigger] v@[j] == text@[a + j],
        decreases b - i,
    {
        v.push(text[i]);
        i += 1;
    }
    proof {
        assert(v@ =~= text@.subrange(a as int, b as int));
    }
    v
}

/// The symbol `i` places into the word that starts at `w`.
spec fn word_sym(text: Seq<char>, w: usize, i: int) -> char {
    text[w + i]
}

/// The length of the longest common prefix of the words `text[w..]` for
/// the positions `w` in `group`.
fn lcp_len(text: &[char], group: &Vec<usize>) -> (r: usize)
    requires
        group@.len() >= 1,
        forall|k: int| 0 <= k < group@.len() ==> (#[trigger] group@[k]) < text@.len(),
    ensures
        forall|k: int| 0 <= k < group@.len() ==> (#[trigger] group@[k]) + r <= text@.len(),
        forall|k: int, i: int| 0 <= k < group@.len() && 0 <= i < r ==> #[trigger] word_sym(
            text@,
            group@[k],
            i,
        ) == word_sym(text@, group@[0], i),
        (exists|k: int| 0 <= k < group@.len() && (#[trigger] group@[k]) + r == text@.len()) || (
        exists|k: int| 0 <= k < group@.len() && (#[trigger] group@[k]) + r < text@.len()
            && group@[0] + r < text@.len() && text@[group@[k] + r] != text@[group@[0] + r]),
{
    let n = text.len();
    let mut wmax: usize = group[0];
    let mut k: usize = 1;
    while k < group.len()
        invariant
            1 <= k <= group@.len(),
            exists|j: int| 0 <= j < k && (#[trigger] group@[j]) == wmax,
            forall|j: int| 0 <= j < k ==> (#[trigger] group@[j]) <= wmax,
        decreases group@.len() - k,
    {
        if group[k] > wmax {
            wmax = group[k];
        }
        k += 1;
    }
    let limit = n - wmax;
    let mut r: usize = 0;
    let mut done = false;
    while r < limit && !done
        invariant
            n == text@.len(),
            group@.len() >= 1,
            forall|j: int| 0 <= j < group@.len() ==> (#[trigger] group@[j]) < n,
            exists|j: int| 0 <= j < group@.len() && (#[trigger] group@[j]) == wmax,
            forall|j: int| 0 <= j < group@.len() ==> (#[trigger] group@[j]) <= wmax,
            wmax < n,
            limit == n - wmax,
            0 <= r <= limit,
            forall|k2: int, i: int| 0 <= k2 < group@.len() && 0 <= i < r ==> #[trigger] word_sym(
                text@,
                group@[k2],
                i,
            ) == word_sym(text@, group@[0], i),
            done ==> r < limit && exists|k2: int|
                0 <= k2 < group@.len() && (#[trigger] group@[k2]) + r < n && group@[0] + r < n
                    && text@[group@[k2] + r] != text@[group@[0] + r],
        decreases limit - r, (if done {
            0int
        } else {
            1int
        }),
    {
        let mut all_eq = true;
        let mut k2: usize = 0;
        while k2 < group.len()
            invariant
                n == text@.len(),
                group@.len() >= 1,
                forall|j: int| 0 <= j < group@.len() ==> (#[trigger] group@[j]) <= wmax,
                wmax < n,
                r < limit,
                limit == n - wmax,
                0 <= k2 <= group@.len(),
                all_eq == forall|j: int|
                    0 <= j < k2 ==> text@[(#[trigger] group@[j]) + r] == text@[group@[0] + r],
            decreases group@.len() - k2,
        {
            if text[group[k2] + r] != text[group[0] + r] {
                all_eq = false;
            }
            k2 += 1;
        }
        if all_eq {
            r += 1;
        } else {
            proof {
                let j = choose|j: int|
                    0 <= j < group@.len() && text@[(#[trigger] group@[j]) + r] != text@[group@[0]
                        + r];
            }
            done = true;
        }
    }
    proof {
        if !done {
            assert(r == limit);
            let j = choose|j: int| 0 <= j < group@.len() && (#[trigger] group@[j]) == wmax;
            assert(group@[j] + r == n);
        }
    }
    r
}

/// The suffix tree of a text, built write-once top-down: the suffixes are
/// grouped by first symbol, each group becomes one edge labeled with the
/// group's longest common prefix, and the stripped remainders are grouped
/// again below it.
pub struct SuffixTree {
    childs: Vec<SuffixNode>,
}

impl SuffixTree {
    /// The number of suffixes the tree's leaves stand for.
    pub closed spec fn leaf_count_spec(&self) -> nat {
        forest_leaves(self.childs@)
    }

    /// Every node's sibling edges carry non-empty labels that start with
    /// pairwise-distinct symbols.
    pub closed spec fn deterministic(&self) -> bool {
        forest_wf(self.childs@)
    }

    /// The words the tree's leaves spell out, read root to leaf.
    pub closed spec fn words(&self) -> Set<Seq<char>> {
        forest_words(self.childs@)
    }

    /// Build the suffix tree of `input` by write-once top-down expansion:
    /// its leaves spell out exactly the suffixes of the input.
    pub fn wotd(input: &[char]) -> (t: SuffixTree)
        ensures
            t.deterministic(),
            t.leaf_count_spec() == input@.len(),
            t.words() == all_suffixes(input@),
    {
        let n = input.len();
        let mut sigma: Vec<char> = Vec::new();
        let mut ci: usize = 0;
        while ci < n
            invariant
                n == input@.len(),
                0 <= ci <= n,
                forall|j: int| 0 <= j < ci ==> sigma@.contains(#[trigger] input@[j]),
                forall|j: int| 0 <= j < sigma@.len() ==> input@.contains(#[trigger] sigma@[j]),
                forall|j1: int, j2: int| 0 <= j1 < j2 < sigma@.len() ==> sigma@[j1] != sigma@[j2],
            decreases n - ci,
        {
            let c = input[ci];
            let mut found = false;
            let mut ai: usize = 0;
            while ai < sigma.len()
                invariant
                    0 <= ai <= sigma@.len(),
                    found == exists|j: int| 0 <= j < ai && sigma@[j] == c,
                decreases sigma@.len() - ai,
            {
                if sigma[ai] == c {
                    found = true;
                }
                ai += 1;
            }
            let ghost pre = sigma@;
            if !found {
                sigma.push(c);
            }
            proof {
                assert forall|j: int| 0 <= j < ci + 1 implies sigma@.contains(
                    #[trigger] input@[j],
                ) by {
                    if j < ci {
                        let k = choose|k: int| 0 <= k < pre.len() && pre[k] == input@[j];
                        assert(sigma@[k] == input@[j]);
                    } else {
                        if found {
                            let k = choose|k: int| 0 <= k < pre.len() && pre[k] == c;
                            assert(sigma@[k] == c);
                        } else {
                            assert(sigma@[pre.len() as int] == c);
                        }
                    }
                }
                assert forall|j: int| 0 <= j < sigma@.len() implies input@.contains(
                    #[trigger] sigma@[j],
                ) by {
                    if j < pre.len() {
                        assert(sigma@[j] == pre[j]);
                    } else {
                        assert(sigma@[j] == input@[ci as int]);
                    }
                }
            }
            ci += 1;
        }
        let mut words: Vec<usize> = Vec::new();
        let mut wi: usize = 0;
        while wi < n
            invariant
                0 <= wi <= n,
                words@.len() == wi,
                forall|k: int| 0 <= k < wi ==> #[trigger] words@[k] == k,
            decreases n - wi,
        {
            words.push(wi);
            wi += 1;
        }
        let childs = SuffixTree::wotd_rec(input, sigma.as_slice(), &words);
        let tree = SuffixTree { childs };
        proof {
            assert forall|w: Seq<char>| words_set(input@, words@).contains(w)
                implies all_suffixes(input@).contains(w) by {
                let k = choose|k: int|
                    0 <= k < words@.len() && w == suffix_at(input@, (#[trigger] words@[k]) as int);
                assert(w == input@.subrange(words@[k] as int, input@.len() as int));
            }
            assert forall|w: Seq<char>| all_suffixes(input@).contains(w)
                implies words_set(input@, words@).contains(w) by {
                let i = choose|i: int|
                    0 <= i < input@.len() && w == #[trigger] input@.subrange(
                        i,
                        input@.len() as int,
                    );
                assert(words@[i] == i);
                assert(w == suffix_at(input@, words@[i] as int));
            }
            assert(words_set(input@, words@) =~= all_suffixes(input@));
        }
        tree
    }

    /// Collect, in order, the words that start with `c`.
    fn collect_group(text: &[char], words: &Vec<usize>, c: char) -> (group: Vec<usize>)
        requires
            forall|k: int| 0 <= k < words@.len() ==> (#[trigger] words@[k]) < text@.len(),
            forall|k1: int, k2: int| 0 <= k1 < k2 < words@.len() ==> words@[k1] != words@[k2],
        ensures
            forall|k: int| 0 <= k < group@.len() ==> (#[trigger] group@[k]) < text@.len()
                && text@[group@[k] as int] == c,
            forall|k: int| 0 <= k < group@.len() ==> words@.contains(#[trigger] group@[k]),
            forall|k1: int, k2: int| 0 <= k1 < k2 < group@.len() ==> group@[k1] != group@[k2],
            forall|j: int| 0 <= j < words@.len() && text@[(#[trigger] words@[j]) as int] == c
                ==> group@.contains(words@[j]),
            group@.len() == count_first(text@, words@, c),
    {
        let ghost t = text@;
        let ghost wall = words@;
        let mut group: Vec<usize> = Vec::new();
        let mut wi: usize = 0;
        while wi < words.len()
            invariant
                t == text@,
                wall == words@,
                0 <= wi <= words@.len(),
                forall|k: int| 0 <= k < words@.len() ==> (#[trigger] words@[k]) < text@.len(),
                forall|k1: int, k2: int| 0 <= k1 < k2 < words@.len() ==> words@[k1]
                    != words@[k2],
                forall|k: int| 0 <= k < group@.len() ==> (#[trigger] group@[k]) < text@.len()
                    && text@[group@[k] as int] == c,
                forall|k: int| 0 <= k < group@.len() ==> exists|j: int|
                    0 <= j < wi && words@[j] == (#[trigger] group@[k]),
                forall|k1: int, k2: int| 0 <= k1 < k2 < group@.len() ==> group@[k1]
                    != group@[k2],
                forall|j: int| 0 <= j < wi && text@[(#[trigger] words@[j]) as int] == c
                    ==> group@.contains(words@[j]),
                group@.len() == count_first(t, wall.subrange(0, wi as int), c),
            decreases words@.len() - wi,
        {
            let ghost gpre = group@;
            let w = words[wi];
            if text[w] == c {
                group.push(w);
                proof {
                    assert forall|k1: int, k2: int| 0 <= k1 < k2 < group@.len()
                        implies group@[k1] != group@[k2] by {
                        if k2 == group@.len() - 1 {
                            let j = choose|j: int|
                                0 <= j < wi && words@[j] == (#[trigger] gpre[k1]);
                            assert(words@[j] != words@[wi as int]);
                        }
                    }
                    assert forall|k: int| 0 <= k < group@.len() implies exists|j: int|
                        0 <= j < wi + 1 && words@[j] == (#[trigger] group@[k]) by {
                        if k < gpre.len() {
                            let j = choose|j: int|
                                0 <= j < wi && words@[j] == (#[trigger] gpre[k]);
                            assert(words@[j] == group@[k]);
                        } else {
                            assert(words@[wi as int] == group@[k]);
                        }
                    }
                }
            }
            proof {
                assert(wall.subrange(0, wi + 1) =~= wall.subrange(0, wi as int).push(
                    words@[wi as int],
                ));
                lemma_count_first_push(t, wall.subrange(0, wi as int), c, words@[wi as int]);
                assert forall|j: int| 0 <= j < wi + 1 && text@[(#[trigger] words@[j]) as int]
                    == c implies group@.contains(words@[j]) by {
                    if j < wi {
                        assert(gpre.contains(words@[j]));
                        if group@.len() > gpre.len() {
                            lemma_contains_push(gpre, words@[j], words@[wi as int]);
                        }
                    } else {
                        assert(group@[group@.len() - 1] == words@[j]);
                    }
                }
            }
            wi += 1;
        }
        proof {
            assert(wall.subrange(0, wall.len() as int) =~= wall);
            assert forall|k: int| 0 <= k < group@.len() implies words@.contains(
                #[trigger] group@[k],
            ) by {
                let j = choose|j: int| 0 <= j < wi && words@[j] == (#[trigger] group@[k]);
            }
        }
        group
    }

    /// Strip the shared prefix from each group word, leaving out a word
    /// that is the prefix itself.
    #[verifier::rlimit(100)]
    fn strip_group(text: &[char], group: &Vec<usize>, lcp: usize) -> (rest: Vec<usize>)
        requires
            1 <= lcp,
            forall|k: int| 0 <= k < group@.len() ==> (#[trigger] group@[k]) + lcp
                <= text@.len(),
            forall|k1: int, k2: int| 0 <= k1 < k2 < group@.len() ==> group@[k1] != group@[k2],
        ensures
            forall|k: int| 0 <= k < rest@.len() ==> (#[trigger] rest@[k]) < text@.len(),
            forall|k: int| 0 <= k < rest@.len() ==> (#[trigger] rest@[k]) >= lcp
                && group@.contains(((rest@[k] - lcp) as usize)),
            forall|k1: int, k2: int| 0 <= k1 < k2 < rest@.len() ==> rest@[k1] != rest@[k2],
            forall|j: int| 0 <= j < group@.len() && (#[trigger] group@[j]) + lcp < text@.len()
                ==> rest@.contains(((group@[j] + lcp) as usize)),
            rest@.len() + (if exists|j: int|
                0 <= j < group@.len() && (#[trigger] group@[j]) + lcp == text@.len() {
                1int
            } else {
                0int
            }) == group@.len(),
    {
        let n = text.len();
        let mut rest: Vec<usize> = Vec::new();
        let mut term = false;
        let mut gi: usize = 0;
        while gi < group.len()
            invariant
                n == text@.len(),
                1 <= lcp,
                0 <= gi <= group@.len(),
                forall|k: int| 0 <= k < group@.len() ==> (#[trigger] group@[k]) + lcp <= n,
                forall|k1: int, k2: int| 0 <= k1 < k2 < group@.len() ==> group@[k1]
                    != group@[k2],
                forall|k: int| 0 <= k < rest@.len() ==> (#[trigger] rest@[k]) < n,
                forall|k: int| 0 <= k < rest@.len() ==> (#[trigger] rest@[k]) >= lcp
                    && group@.contains(((rest@[k] - lcp) as usize)),
                forall|k: int| 0 <= k < rest@.len() ==> exists|j: int|
                    0 <= j < gi && group@[j] + lcp == (#[trigger] rest@[k]),
                forall|k1: int, k2: int| 0 <= k1 < k2 < rest@.len() ==> rest@[k1] != rest@[k2],
                forall|j: int| 0 <= j < gi && (#[trigger] group@[j]) + lcp < n
                    ==> rest@.contains(((group@[j] + lcp) as usize)),
                forall|j: int| 0 <= j < gi && (#[trigger] group@[j]) + lcp == n ==> term,
                term ==> exists|j: int| 0 <= j < gi && (#[trigger] group@[j]) + lcp == n,
                rest@.len() + (if term {
                    1int
                } else {
                    0int
                }) == gi,
            decreases group@.len() - gi,
        {
            let ghost rspre = rest@;
            let w = group[gi];
            if w + lcp < n {
                rest.push(w + lcp);
                proof {
                    assert(group@[gi as int] == w);
                    assert(group@.contains(w));
                    assert forall|k1: int, k2: int| 0 <= k1 < k2 < rest@.len()
                        implies rest@[k1] != rest@[k2] by {
                        if k2 == rest@.len() - 1 {
                            let j = choose|j: int|
                                0 <= j < gi && group@[j] + lcp == (#[trigger] rspre[k1]);
                            assert(group@[j] != group@[gi as int]);
                        }
                    }
                    assert forall|k: int| 0 <= k < rest@.len() implies exists|j: int|
                        0 <= j < gi + 1 && group@[j] + lcp == (#[trigger] rest@[k]) by {
                        if k < rspre.len() {
                            let j = choose|j: int|
                                0 <= j < gi && group@[j] + lcp == (#[trigger] rspre[k]);
                            assert(group@[j] + lcp == rest@[k]);
                        } else {
                            assert(group@[gi as int] + lcp == rest@[k]);
                        }
                    }
                    assert forall|k: int| 0 <= k < rest@.len() implies (#[trigger] rest@[k])
                        >= lcp && group@.contains(((rest@[k] - lcp) as usize)) by {
                        if k < rspre.len() {
                            assert(rest@[k] == rspre[k]);
                        } else {
                            assert(rest@[k] == w + lcp);
                            assert(((rest@[k] - lcp) as usize) == w);
                        }
                    }
                    assert forall|j: int| 0 <= j < gi + 1 && (#[trigger] group@[j]) + lcp < n
                        implies rest@.contains(((group@[j] + lcp) as usize)) by {
                        if j < gi {
                            assert(rspre.contains(((group@[j] + lcp) as usize)));
                            lemma_contains_push(
                                rspre,
                                ((group@[j] + lcp) as usize),
                                ((w + lcp) as usize),
                            );
                        } else {
                            assert(rest@[rest@.len() - 1] == group@[j] + lcp);
                        }
                    }
                }
            } else {
                proof {
                    if term {
                        let j = choose|j: int|
                            0 <= j < gi && (#[trigger] group@[j]) + lcp == n;
                        assert(group@[j] == group@[gi as int]);
                    }
                }
                term = true;
            }
            gi += 1;
        }
        rest
    }

    /// Does some word of the group end exactly at the end of the shared
    /// prefix?
    fn has_terminal(text: &[char], group: &Vec<usize>, lcp: usize) -> (term: bool)
        requires
            forall|k: int| 0 <= k < group@.len() ==> (#[trigger] group@[k]) + lcp
                <= text@.len(),
        ensures
            term == exists|j: int|
                0 <= j < group@.len() && (#[trigger] group@[j]) + lcp == text@.len(),
    {
        let n = text.len();
        let mut term = false;
        let mut gi: usize = 0;
        while gi < group.len()
            invariant
                n == text@.len(),
                0 <= gi <= group@.len(),
                forall|k: int| 0 <= k < group@.len() ==> (#[trigger] group@[k]) + lcp <= n,
                term == exists|j: int| 0 <= j < gi && (#[trigger] group@[j]) + lcp == n,
            decreases group@.len() - gi,
        {
            if group[gi] + lcp == n {
                term = true;
            }
            gi += 1;
        }
        term
    }

    /// Turn one non-empty group into its edge: a single word becomes a
    /// leaf, a larger group an edge labeled with the group's longest
    /// common prefix over the recursively expanded remainders.
    #[verifier::rlimit(100)]
    fn expand_group(
        text: &[char],
        sigma: &[char],
        words: &Vec<usize>,
        c: char,
        group: &Vec<usize>,
    ) -> (node: SuffixNode)
        requires
            forall|i: int| 0 <= i < text@.len() ==> sigma@.contains(#[trigger] text@[i]),
            forall|j1: int, j2: int| 0 <= j1 < j2 < sigma@.len() ==> sigma@[j1] != sigma@[j2],
            forall|k: int| 0 <= k < words@.len() ==> (#[trigger] words@[k]) < text@.len(),
            forall|k1: int, k2: int| 0 <= k1 < k2 < words@.len() ==> words@[k1] != words@[k2],
            group@.len() >= 1,
            forall|k: int| 0 <= k < group@.len() ==> (#[trigger] group@[k]) < text@.len()
                && text@[group@[k] as int] == c,
            forall|k: int| 0 <= k < group@.len() ==> words@.contains(#[trigger] group@[k]),
            forall|k1: int, k2: int| 0 <= k1 < k2 < group@.len() ==> group@[k1] != group@[k2],
        ensures
            node_wf(node),
            node_leaves(node) == group@.len(),
            node_words(node) == words_set(text@, group@),
            first_sym(node) == c,
        decreases longest_word(text@.len() as int, words@), 0int,
    {
        let ghost t = text@;
        let ghost wall = words@;
        let n = text.len();
        if group.len() == 1 {
            let w = group[0];
            let label = copy_range(text, w, n);
            let ghost lv = label@;
            let node = SuffixNode::Edge { label, childs: Vec::new(), terminal: false };
            proof {
                assert(node_wf(node));
                assert(node_leaves(node) == 1);
                assert(first_sym(node) == text@[w as int]);
                assert(node_words(node) =~= words_set(t, group@)) by {
                    assert(node_words(node).contains(lv));
                    assert(lv == suffix_at(t, group@[0] as int));
                    assert(words_set(t, group@).contains(lv));
                    assert forall|y: Seq<char>| words_set(t, group@).contains(y)
                        implies node_words(node).contains(y) by {
                        let k = choose|k: int|
                            0 <= k < group@.len() && y == suffix_at(
                                t,
                                (#[trigger] group@[k]) as int,
                            );
                        assert(k == 0);
                    }
                }
            }
            node
        } else {
            let lcp = lcp_len(text, group);
            proof {
                if lcp == 0 {
                    if exists|k: int| 0 <= k < group@.len() && (#[trigger] group@[k]) + lcp
                        == n {
                        let k = choose|k: int|
                            0 <= k < group@.len() && (#[trigger] group@[k]) + lcp == n;
                        assert(group@[k] < n);
                    } else {
                        let k = choose|k: int|
                            0 <= k < group@.len() && (#[trigger] group@[k]) + lcp < n
                                && group@[0] + lcp < n && text@[group@[k] + lcp] != text@[
                            group@[0] + lcp];
                        assert(text@[group@[k] as int] == c);
                        assert(text@[group@[0] as int] == c);
                    }
                    assert(false);
                }
                assert(lcp >= 1);
            }
            let rest = SuffixTree::strip_group(text, group, lcp);
            let term = SuffixTree::has_terminal(text, group, lcp);
            proof {
                assert(wall.contains(group@[0]));
                let j20 = choose|j2: int| 0 <= j2 < wall.len() && wall[j2] == group@[0];
                lemma_longest_word_ge(n as int, wall, j20);
                assert(longest_word(n as int, wall) >= 1);
                assert forall|k: int| 0 <= k < rest@.len() implies n - (#[trigger] rest@[k])
                    <= longest_word(n as int, wall) - 1 by {
                    let gv = ((rest@[k] - lcp) as usize);
                    assert(group@.contains(gv));
                    let j = choose|j: int| 0 <= j < group@.len() && group@[j] == gv;
                    assert(wall.contains(group@[j]));
                    let j2 = choose|j2: int| 0 <= j2 < wall.len() && wall[j2] == group@[j];
                    lemma_longest_word_ge(n as int, wall, j2);
                    assert(n - wall[j2] <= longest_word(n as int, wall));
                    assert(rest@[k] == gv + lcp);
                }
                lemma_longest_word_le(n as int, rest@, longest_word(n as int, wall) - 1);
            }
            let childs = SuffixTree::wotd_rec(text, sigma, &rest);
            let label = copy_range(text, group[0], group[0] + lcp);
            let ghost cv = childs@;
            let ghost lv = label@;
            let node = SuffixNode::Edge { label, childs, terminal: term };
            proof {
                if term && cv.len() == 0 {
                    assert(forest_leaves(cv) == 0);
                    assert(rest@.len() == 0);
                    assert(group@.len() == 1);
                    assert(false);
                }
                assert(lv.len() == lcp);
                assert(node_wf(node));
                assert(node_leaves(node) == group@.len());
                assert(lv[0] == text@[group@[0] as int]);
                assert(first_sym(node) == text@[group@[0] as int]);
                lemma_internal_node_words(
                    t,
                    group@,
                    rest@,
                    lcp as int,
                    lv,
                    forest_words(cv),
                    term,
                );
                assert(node_words(node) == words_set(t, group@));
            }
            node
        }
    }

    /// One expansion level: group the words by first symbol and expand
    /// each non-empty group into one edge.
    fn wotd_rec(text: &[char], sigma: &[char], words: &Vec<usize>) -> (r: Vec<SuffixNode>)
        requires
            forall|i: int| 0 <= i < text@.len() ==> sigma@.contains(#[trigger] text@[i]),
            forall|j1: int, j2: int| 0 <= j1 < j2 < sigma@.len() ==> sigma@[j1] != sigma@[j2],
            forall|k: int| 0 <= k < words@.len() ==> (#[trigger] words@[k]) < text@.len(),
            forall|k1: int, k2: int| 0 <= k1 < k2 < words@.len() ==> words@[k1] != words@[k2],
        ensures
            forest_wf(r@),
            forest_leaves(r@) == words@.len(),
            forest_words(r@) == words_set(text@, words@),
        decreases longest_word(text@.len() as int, words@), 1int,
    {
        let ghost t = text@;
        let ghost wall = words@;
        let n = text.len();
        let mut result: Vec<SuffixNode> = Vec::new();
        let mut ci: usize = 0;
        while ci < sigma.len()
            invariant
                t == text@,
                wall == words@,
                n == text@.len(),
                0 <= ci <= sigma@.len(),
                forall|i: int| 0 <= i < text@.len() ==> sigma@.contains(#[trigger] text@[i]),
                forall|j1: int, j2: int| 0 <= j1 < j2 < sigma@.len() ==> sigma@[j1] != sigma@[j2],
                forall|k: int| 0 <= k < words@.len() ==> (#[trigger] words@[k]) < text@.len(),
                forall|k1: int, k2: int| 0 <= k1 < k2 < words@.len() ==> words@[k1] != words@[k2],
                forall|k: int| 0 <= k < result@.len() ==> node_wf(#[trigger] result@[k]),
                forall|k: int| 0 <= k < result@.len() ==> sigma@.subrange(0, ci as int).contains(
                    first_sym(#[trigger] result@[k]),
                ),
                forall|k1: int, k2: int| 0 <= k1 < k2 < result@.len() ==> first_sym(result@[k1])
                    != first_sym(result@[k2]),
                forest_leaves(result@) == count_upto(t, wall, sigma@, ci as int),
                forest_words(result@) == words_set_by(t, wall, sigma@.subrange(0, ci as int)),
            decreases sigma@.len() - ci,
        {
            let c = sigma[ci];
            proof {
                assert(!sigma@.subrange(0, ci as int).contains(c)) by {
                    if sigma@.subrange(0, ci as int).contains(c) {
                        let j = choose|j: int|
                            0 <= j < ci && #[trigger] sigma@.subrange(0, ci as int)[j] == c;
                        assert(sigma@[j] == sigma@[ci as int]);
                    }
                }
            }
            let group = SuffixTree::collect_group(text, words, c);
            let ghost rpre = result@;
            if group.len() > 0 {
                let node = SuffixTree::expand_group(text, sigma, words, c, &group);
                proof {
                    lemma_forest_leaves_push(rpre, node);
                    lemma_forest_words_push(rpre, node);
                }
                result.push(node);
            }
            proof {
                lemma_words_set_extend(t, wall, sigma@, ci as int, c, group@);
                if group@.len() == 0 {
                    assert(words_set(t, group@) =~= Set::<Seq<char>>::empty()) by {
                        assert forall|y: Seq<char>| !words_set(t, group@).contains(y) by {
                            if words_set(t, group@).contains(y) {
                                let k = choose|k: int|
                                    0 <= k < group@.len() && y == suffix_at(
                                        t,
                                        (#[trigger] group@[k]) as int,
                                    );
                            }
                        }
                    }
                }
                assert(forest_words(result@) =~= words_set_by(
                    t,
                    wall,
                    sigma@.subrange(0, ci + 1),
                ));
                assert forall|k: int| 0 <= k < result@.len() implies sigma@.subrange(
                    0,
                    ci + 1,
                ).contains(first_sym(#[trigger] result@[k])) by {
                    if k < rpre.len() {
                        assert(result@[k] == rpre[k]);
                        let j = choose|j: int|
                            0 <= j < ci && #[trigger] sigma@.subrange(0, ci as int)[j]
                                == first_sym(rpre[k]);
                        assert(sigma@.subrange(0, ci + 1)[j] == first_sym(result@[k]));
                    } else {
                        assert(first_sym(result@[k]) == c);
                        assert(sigma@.subrange(0, ci + 1)[ci as int] == c);
                    }
                }
                assert forall|k1: int, k2: int| 0 <= k1 < k2 < result@.len()
                    implies first_sym(result@[k1]) != first_sym(result@[k2]) by {
                    if k2 == result@.len() - 1 && result@.len() > rpre.len() {
                        let j = choose|j: int|
                            0 <= j < ci && #[trigger] sigma@.subrange(0, ci as int)[j]
                                == first_sym(rpre[k1]);
                    }
                }
            }
            ci += 1;
        }
        proof {
            assert(forest_wf(result@));
            lemma_count_partition(t, wall, sigma@);
            lemma_words_set_full(t, wall, sigma@);
            assert(sigma@.subrange(0, sigma@.len() as int) =~= sigma@);
        }
        result
    }

    /// The suffixes of the input, longest first: entry `i` is `input[i..]`.
    pub fn set_of_words(input: &[char]) -> (r: Vec<Vec<char>>)
        ensures
            r@.len() == input@.len(),
            forall|i: int| 0 <= i < r@.len() ==> (#[trigger] r@[i])@ == input@.subrange(
                i,
                input@.len() as int,
            ),
    {
        let n = input.len();
        let mut r: Vec<Vec<char>> = Vec::new();
        let mut i: usize = 0;
        while i < n
            invariant
                n == input@.len(),
                0 <= i <= n,
                r@.len() == i,
                forall|j: int| 0 <= j < i ==> (#[trigger] r@[j])@ == input@.subrange(
                    j,
                    n as int,
                ),
            decreases n - i,
        {
            r.push(copy_range(input, i, n));
            i += 1;
        }
        r
    }

    /// The longest common prefix of a family of words that all start with
    /// the same symbol.
    pub fn longest_prefix(s_c: &Vec<Vec<char>>) -> (r: Vec<char>)
        requires
            s_c@.len() >= 1,
            forall|k: int| 0 <= k < s_c@.len() ==> (#[trigger] s_c@[k])@.len() >= 1,
            forall|k: int| 0 <= k < s_c@.len() ==> (#[trigger] s_c@[k])@[0] == s_c@[0]@[0],
        ensures
            1 <= r@.len(),
            forall|k: int| 0 <= k < s_c@.len() ==> r@.len() <= (#[trigger] s_c@[k])@.len(),
            forall|k: int, i: int|
                #![trigger s_c@[k]@[i]]
                0 <= k < s_c@.len() && 0 <= i < r@.len() ==> s_c@[k]@[i] == r@[i],
            forall|i: int| 0 <= i < r@.len() ==> #[trigger] r@[i] == s_c@[0]@[i],
            (exists|k: int| 0 <= k < s_c@.len() && (#[trigger] s_c@[k])@.len() == r@.len()) || (
            exists|k: int| 0 <= k < s_c@.len() && r@.len() < (#[trigger] s_c@[k])@.len()
                && r@.len() < s_c@[0]@.len() && s_c@[k]@[r@.len() as int] != s_c@[0]@[r@.len() as int]),
    {
        let mut limit: usize = s_c[0].len();
        let mut k: usize = 1;
        while k < s_c.len()
            invariant
                1 <= k <= s_c@.len(),
                exists|j: int| 0 <= j < k && (#[trigger] s_c@[j])@.len() == limit,
                forall|j: int| 0 <= j < k ==> limit <= (#[trigger] s_c@[j])@.len(),
            decreases s_c@.len() - k,
        {
            if s_c[k].len() < limit {
                limit = s_c[k].len();
            }
            k += 1;
        }
        let mut r: usize = 1;
        let mut done = false;
        proof {
            assert(limit >= 1);
        }
        while r < limit && !done
            invariant
                s_c@.len() >= 1,
                forall|j: int| 0 <= j < s_c@.len() ==> limit <= (#[trigger] s_c@[j])@.len(),
                exists|j: int| 0 <= j < s_c@.len() && (#[trigger] s_c@[j])@.len() == limit,
                forall|k2: int| 0 <= k2 < s_c@.len() ==> (#[trigger] s_c@[k2])@.len() >= 1,
                forall|k2: int| 0 <= k2 < s_c@.len() ==> (#[trigger] s_c@[k2])@[0] == s_c@[0]@[0],
                1 <= r <= limit,
                forall|k2: int, i: int|
                    #![trigger s_c@[k2]@[i]]
                    0 <= k2 < s_c@.len() && 0 <= i < r ==> s_c@[k2]@[i] == s_c@[0]@[i],
                done ==> r < limit && exists|k2: int|
                    0 <= k2 < s_c@.len() && r < (#[trigger] s_c@[k2])@.len() && r
                        < s_c@[0]@.len() && s_c@[k2]@[r as int] != s_c@[0]@[r as int],
            decreases limit - r, (if done {
                0int
            } else {
                1int
            }),
        {
            let mut all_eq = true;
            let mut k2: usize = 0;
            while k2 < s_c.len()
                invariant
                    s_c@.len() >= 1,
                    r < limit,
                    forall|j: int| 0 <= j < s_c@.len() ==> limit <= (#[trigger] s_c@[j])@.len(),
                    0 <= k2 <= s_c@.len(),
                    all_eq == forall|j: int|
                        0 <= j < k2 ==> (#[trigger] s_c@[j])@[r as int] == s_c@[0]@[r as int],
                decreases s_c@.len() - k2,
            {
                if s_c[k2][r] != s_c[0][r] {
                    all_eq = false;
                }
                k2 += 1;
            }
            if all_eq {
                r += 1;
            } else {
                proof {
                    let j = choose|j: int|
                        0 <= j < s_c@.len() && (#[trigger] s_c@[j])@[r as int] != s_c@[0]@[r as int];
                }
                done = true;
            }
        }
        proof {
            if !done {
                assert(r == limit);
                let j = choose|j: int| 0 <= j < s_c@.len() && (#[trigger] s_c@[j])@.len() == limit;
            }
        }
        copy_range(s_c[0].as_slice(), 0, r)
    }

    /// Count the tree's leaves.
    pub fn leaf_count(&self) -> (r: usize)
        requires
            self.leaf_count_spec() <= usize::MAX,
        ensures
            r == self.leaf_count_spec(),
    {
        forest_count(&self.childs)
    }

    /// Check that every node's sibling edges carry non-empty labels that
    /// start with pairwise-distinct symbols.
    pub fn distinct_sibling_symbols(&self) -> (r: bool)
        ensures
            r == self.deterministic(),
    {
        forest_check(&self.childs)
    }
}

/// Count the leaves under one edge.
fn node_count(node: &SuffixNode) -> (r: usize)
    requires
        node_leaves(*node) <= usize::MAX,
    ensures
        r == node_leaves(*node),
    decreases *node,
{
    match node {
        SuffixNode::Edge { label, childs, terminal } => {
            if childs.len() == 0 {
                1
            } else {
                let base = forest_count(childs);
                if *terminal {
                    base + 1
                } else {
                    base
                }
            }
        },
    }
}

/// Count the leaves of sibling subtrees.
fn forest_count(nodes: &Vec<SuffixNode>) -> (r: usize)
    requires
        forest_leaves(nodes@) <= usize::MAX,
    ensures
        r == forest_leaves(nodes@),
    decreases *nodes,
{
    let mut total: usize = 0;
    let mut i: usize = 0;
    while i < nodes.len()
        invariant
            forest_leaves(nodes@) <= usize::MAX,
            0 <= i <= nodes@.len(),
            total == forest_leaves(nodes@.subrange(0, i as int)),
        decreases nodes@.len() - i,
    {
        proof {
            lemma_forest_leaves_prefix_step(nodes@, i as int);
            lemma_forest_leaves_prefix_le(nodes@, i + 1);
            lemma_forest_leaves_member_le(nodes@, i as int);
        }
        let c = node_count(&nodes[i]);
        total = total + c;
        i += 1;
    }
    proof {
        assert(nodes@.subrange(0, nodes@.len() as int) =~= nodes@);
    }
    total
}

/// The symbol an edge starts with; its label must be non-empty.
fn first_char(node: &SuffixNode) -> (c: char)
    requires
        node_wf(*node),
    ensures
        c == first_sym(*node),
{
    match node {
        SuffixNode::Edge { label, childs, terminal } => label[0],
    }
}

/// Check one edge and its subtree.
fn node_check(node: &SuffixNode) -> (r: bool)
    ensures
        r == node_wf(*node),
    decreases *node,
{
    match node {
        SuffixNode::Edge { label, childs, terminal } => {
            if label.len() == 0 {
                return false;
            }
            if childs.len() == 0 && *terminal {
                return false;
            }
            forest_check(childs)
        },
    }
}

/// Check sibling subtrees.
fn forest_check(nodes: &Vec<SuffixNode>) -> (r: bool)
    ensures
        r == forest_wf(nodes@),
    decreases *nodes,
{
    let mut i: usize = 0;
    while i < nodes.len()
        invariant
            0 <= i <= nodes@.len(),
            forall|k: int| 0 <= k < i ==> node_wf(#[trigger] nodes@[k]),
        decreases nodes@.len() - i,
    {
        if !node_check(&nodes[i]) {
            return false;
        }
        i += 1;
    }
    let mut i2: usize = 1;
    while i2 < nodes.len()
        invariant
            1 <= i2,
            i2 <= nodes@.len() || i2 == 1,
            forall|k: int| 0 <= k < nodes@.len() ==> node_wf(#[trigger] nodes@[k]),
            forall|k1: int, k2: int| 0 <= k1 < k2 < i2 && k2 < nodes@.len() ==> first_sym(
                nodes@[k1],
            ) != first_sym(nodes@[k2]),
        decreases nodes@.len() - i2,
    {
        let ci = first_char(&nodes[i2]);
        let mut j: usize = 0;
        while j < i2
            invariant
                0 <= j <= i2 < nodes@.len(),
                forall|k: int| 0 <= k < nodes@.len() ==> node_wf(#[trigger] nodes@[k]),
                ci == first_sym(nodes@[i2 as int]),
                forall|k: int| 0 <= k < j ==> first_sym(#[trigger] nodes@[k]) != first_sym(
                    nodes@[i2 as int],
                ),
            decreases i2 - j,
        {
            if first_char(&nodes[j]) == ci {
                return false;
            }
            j += 1;
        }
        i2 += 1;
    }
    true
}

} // verus!
