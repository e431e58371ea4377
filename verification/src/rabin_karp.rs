use vstd::arithmetic::div_mod::{
    lemma_add_mod_noop, lemma_mod_add_multiples_vanish, lemma_mod_bound,
    lemma_mod_sub_multiples_vanish, lemma_mul_mod_noop_left, lemma_mul_mod_noop_right,
    lemma_small_mod,
};
use vstd::arithmetic::mul::lemma_mul_nonnegative;
use vstd::prelude::*;

use primes::PrimeSet;

use crate::matching::{is_match_at, is_match_result, MatchError, TextMatch};
use crate::naive::str_match;

verus! {

/// `p` has no divisor between 2 and itself.
pub open spec fn is_prime_val(p: int) -> bool {
    p >= 2 && forall|d: int| 2 <= d < p ==> #[trigger] (p % d) != 0
}

/// Relies on primes::Sieve::new and primes::PrimeSet::find: the sieve
/// enumerates the primes in increasing order starting from 2, and `find`
/// expands it as needed and returns the first prime at least its argument.
/// The bound on the argument keeps the sieve small enough to build.
#[verifier::external_body]
fn find_prime_at_least(n: u64) -> (r: u64)
    requires
        n <= 2_000_000,
    ensures
        2 <= r,
        n <= r,
        is_prime_val(r as int),
        forall|x: int| n <= x < r ==> !is_prime_val(x),
{
    let mut sieve = primes::Sieve::new();
    let (_, pr) = sieve.find(n);
    pr
}

/// The base raised to a natural power.
pub open spec fn pow_of(b: int, e: nat) -> int
    decreases e,
{
    if e == 0 {
        1
    } else {
        b * pow_of(b, (e - 1) as nat)
    }
}

proof fn lemma_pow_of_nonneg(b: int, e: nat)
    requires
        b >= 0,
    ensures
        pow_of(b, e) >= 0,
    decreases e,
{
    if e > 0 {
        lemma_pow_of_nonneg(b, (e - 1) as nat);
        lemma_mul_nonnegative(b, pow_of(b, (e - 1) as nat));
    }
}

/// Multiply two symbols' worth of residues, add a third, and reduce.
fn mul_mod_add(a: u64, b: u64, c: u64, q: u64) -> (r: u64)
    requires
        q >= 1,
    ensures
        r as int == ((a as int) * (b as int) + c as int) % (q as int),
        r < q,
{
    proof {
        assert((a as int) * (b as int) <= 0xffff_ffff_ffff_ffff * 0xffff_ffff_ffff_ffff)
            by (nonlinear_arith)
            requires
                a as int <= 0xffff_ffff_ffff_ffff,
                b as int <= 0xffff_ffff_ffff_ffff,
                a as int >= 0,
                b as int >= 0,
        ;
        lemma_mul_nonnegative(a as int, b as int);
    }
    let prod: u128 = (a as u128) * (b as u128);
    let sum: u128 = prod + (c as u128);
    (sum % (q as u128)) as u64
}

/// The rolling hash of `s`: fold the symbols left to right, multiplying by
/// the base and reducing by the modulus at each step, from `init`.
pub open spec fn hash_fold(d: int, q: int, init: int, s: Seq<u64>) -> int
    decreases s.len(),
{
    if s.len() == 0 {
        init
    } else {
        (d * hash_fold(d, q, init, s.drop_last()) + s.last() as int) % q
    }
}

/// Appending a symbol folds it into the hash.
proof fn lemma_hash_push(d: int, q: int, init: int, s: Seq<u64>, v: u64)
    ensures
        hash_fold(d, q, init, s.push(v)) == (d * hash_fold(d, q, init, s) + v as int) % q,
{
    assert(s.push(v).drop_last() =~= s);
    assert(s.push(v).last() == v);
}

/// A nonempty hash is a reduced residue.
proof fn lemma_hash_bound(d: int, q: int, s: Seq<u64>)
    requires
        q >= 1,
        s.len() >= 1,
    ensures
        0 <= hash_fold(d, q, 0, s) < q,
{
    lemma_mod_bound(d * hash_fold(d, q, 0, s.drop_last()) + s.last() as int, q);
}

/// The hash splits off its first symbol: it is the first symbol weighted
/// by the base raised to the window length less one, plus the hash of the
/// rest, reduced.
proof fn lemma_hash_split_first(d: int, q: int, s: Seq<u64>)
    requires
        q >= 1,
        d >= 0,
        s.len() >= 1,
    ensures
        hash_fold(d, q, 0, s) == ((s.first() as int) * pow_of(d, (s.len() - 1) as nat) + hash_fold(
            d,
            q,
            0,
            s.drop_first(),
        )) % q,
    decreases s.len(),
{
    let s0 = s.first() as int;
    if s.len() == 1 {
        assert(s.drop_first().len() == 0);
        assert(s.drop_last().len() == 0);
        assert(hash_fold(d, q, 0, s.drop_first()) == 0);
        assert(hash_fold(d, q, 0, s.drop_last()) == 0);
        assert(pow_of(d, 0) == 1);
        assert(s.last() == s.first());
        assert(hash_fold(d, q, 0, s) == (d * 0 + s.last() as int) % q);
        assert(s0 * 1 == s0);
    } else {
        let sp = s.drop_last();
        let x = s.last() as int;
        assert(sp.first() == s.first());
        lemma_hash_split_first(d, q, sp);
        let np = (sp.len() - 1) as nat;
        let hp = hash_fold(d, q, 0, sp);
        let rp = hash_fold(d, q, 0, sp.drop_first());
        let aa = s0 * pow_of(d, np) + rp;
        assert(hp == aa % q);
        assert(s.drop_first() =~= sp.drop_first().push(s.last()));
        lemma_hash_push(d, q, 0, sp.drop_first(), s.last());
        let rr = hash_fold(d, q, 0, s.drop_first());
        assert(rr == (d * rp + x) % q);
        assert(hash_fold(d, q, 0, s) == (d * hp + x) % q);
        assert((d * (aa % q) + x) % q == (d * aa + x) % q) by {
            lemma_mul_mod_noop_right(d, aa, q);
            lemma_add_mod_noop(d * (aa % q), x, q);
            lemma_add_mod_noop(d * aa, x, q);
        }
        assert(d * aa + x == s0 * pow_of(d, (s.len() - 1) as nat) + (d * rp + x)) by {
            assert(pow_of(d, (s.len() - 1) as nat) == d * pow_of(d, np));
            assert(d * (s0 * pow_of(d, np) + rp) == s0 * (d * pow_of(d, np)) + d * rp)
                by (nonlinear_arith);
        }
        assert((s0 * pow_of(d, (s.len() - 1) as nat) + (d * rp + x)) % q == (s0 * pow_of(
            d,
            (s.len() - 1) as nat,
        ) + rr) % q) by {
            lemma_add_mod_noop(s0 * pow_of(d, (s.len() - 1) as nat), d * rp + x, q);
            lemma_add_mod_noop(s0 * pow_of(d, (s.len() - 1) as nat), rr, q);
            lemma_mod_bound(d * rp + x, q);
            lemma_small_mod(rr as nat, q as nat);
        }
    }
}

/// Undo the leading symbol's weighted contribution: adding the modulus and
/// subtracting the reduced contribution recovers the hash of the rest.
proof fn lemma_roll_diff(w: int, s0p: int, r: int, q: int)
    requires
        q >= 1,
        0 <= w < q,
        0 <= r < q,
        s0p >= 0,
        w == (s0p + r) % q,
    ensures
        (w + q - s0p % q) % q == r,
{
    let a = s0p % q;
    lemma_mod_bound(s0p, q);
    lemma_add_mod_noop(s0p, r, q);
    lemma_small_mod(r as nat, q as nat);
    assert(w == (a + r) % q);
    if a + r < q {
        lemma_small_mod((a + r) as nat, q as nat);
        assert(w + q - a == r + q);
        lemma_mod_add_multiples_vanish(r, q);
    } else {
        lemma_mod_sub_multiples_vanish(a + r, q);
        lemma_small_mod((a + r - q) as nat, q as nat);
        assert(w == a + r - q);
        assert(w + q - a == r);
    }
}

/// The base raised to `e`, reduced by the modulus.
fn mod_pow(d: u64, e: usize, q: u64) -> (r: u64)
    requires
        q >= 1,
    ensures
        r as int == pow_of(d as int, e as nat) % (q as int),
        r < q,
{
    let mut r: u64 = 1 % q;
    let mut i: usize = 0;
    proof {
        assert(pow_of(d as int, 0) == 1);
    }
    while i < e
        invariant
            q >= 1,
            0 <= i <= e,
            r as int == pow_of(d as int, i as nat) % (q as int),
            r < q,
        decreases e - i,
    {
        let t2 = mul_mod_add(r, d, 0, q);
        proof {
            lemma_mul_mod_noop_left(pow_of(d as int, i as nat), d as int, q as int);
            assert(pow_of(d as int, (i + 1) as nat) == d as int * pow_of(d as int, i as nat));
            assert(pow_of(d as int, i as nat) % (q as int) * (d as int) == (r as int) * (d as int));
        }
        r = t2;
        i += 1;
    }
    r
}

/// `i` is the position of the first occurrence of `c` in `sigma`.
pub open spec fn is_first_index(sigma: Seq<char>, c: char, i: int) -> bool {
    &&& 0 <= i < sigma.len()
    &&& sigma[i] == c
    &&& forall|j: int| 0 <= j < i ==> sigma[j] != c
}

/// Find the first occurrence of a symbol in the alphabet.
fn sigma_index(sigma: &Vec<char>, c: char) -> (r: Option<usize>)
    ensures
        match r {
            Some(i) => is_first_index(sigma@, c, i as int),
            None => !sigma@.contains(c),
        },
{
    let mut k: usize = 0;
    while k < sigma.len()
        invariant
            0 <= k <= sigma@.len(),
            forall|j: int| 0 <= j < k ==> sigma@[j] != c,
        decreases sigma@.len() - k,
    {
        if sigma[k] == c {
            return Some(k);
        }
        k += 1;
    }
    proof {
        if sigma@.contains(c) {
            let j = choose|j: int| 0 <= j < sigma@.len() && sigma@[j] == c;
        }
    }
    None
}

/// The scan shared by the Rabin-Karp entry points: slide a window over the
/// translated text, update its hash incrementally, and confirm each hash
/// hit symbol by symbol before reporting it.
fn rolling_scan(
    text: &[char],
    pattern: &[char],
    tt: &Vec<u64>,
    tp: &Vec<u64>,
    d: u64,
    q: u64,
) -> (v: Vec<usize>)
    requires
        q >= 1,
        1 <= pattern@.len() <= text@.len(),
        tt@.len() == text@.len(),
        tp@.len() == pattern@.len(),
        forall|i: int, k: int|
            #![trigger tt@[i], tp@[k]]
            0 <= i < text@.len() && 0 <= k < pattern@.len() && text@[i] == pattern@[k]
                ==> tt@[i] == tp@[k],
    ensures
        is_match_result(text@, pattern@, v@),
{
    let ghost p = pattern@;
    let n = text.len();
    let m = pattern.len();
    let h = mod_pow(d, m - 1, q);
    let mut p_h: u64 = 0;
    let mut k: usize = 0;
    while k < m
        invariant
            q >= 1,
            m == pattern@.len(),
            tp@.len() == m,
            0 <= k <= m,
            p_h as int == hash_fold(d as int, q as int, 0, tp@.subrange(0, k as int)),
            p_h < q,
        decreases m - k,
    {
        let ghost pre = tp@.subrange(0, k as int);
        let t2 = mul_mod_add(d, p_h, tp[k], q);
        proof {
            lemma_hash_push(d as int, q as int, 0, pre, tp@[k as int]);
            assert(tp@.subrange(0, k + 1) =~= pre.push(tp@[k as int]));
        }
        p_h = t2;
        k += 1;
    }
    proof {
        assert(tp@.subrange(0, m as int) =~= tp@);
    }
    let mut t_s: u64 = 0;
    let mut k2: usize = 0;
    while k2 < m
        invariant
            q >= 1,
            m <= tt@.len(),
            0 <= k2 <= m,
            t_s as int == hash_fold(d as int, q as int, 0, tt@.subrange(0, k2 as int)),
            t_s < q,
        decreases m - k2,
    {
        let ghost pre = tt@.subrange(0, k2 as int);
        let t2 = mul_mod_add(d, t_s, tt[k2], q);
        proof {
            lemma_hash_push(d as int, q as int, 0, pre, tt@[k2 as int]);
            assert(tt@.subrange(0, k2 + 1) =~= pre.push(tt@[k2 as int]));
        }
        t_s = t2;
        k2 += 1;
    }
    let mut matches: Vec<usize> = Vec::new();
    let mut i: usize = 0;
    while i <= n - m
        invariant
            q >= 1,
            p == pattern@,
            n == text@.len(),
            m == p.len(),
            1 <= m <= n,
            tt@.len() == n,
            tp@.len() == m,
            forall|i2: int, k3: int|
                #![trigger tt@[i2], tp@[k3]]
                0 <= i2 < n && 0 <= k3 < m && text@[i2] == p[k3] ==> tt@[i2] == tp@[k3],
            0 <= i <= n - m + 1,
            i <= n - m ==> t_s as int == hash_fold(
                d as int,
                q as int,
                0,
                tt@.subrange(i as int, i + m),
            ),
            i <= n - m ==> t_s < q,
            p_h as int == hash_fold(d as int, q as int, 0, tp@),
            h as int == pow_of(d as int, (m - 1) as nat) % (q as int),
            h < q,
            forall|k3: int| 0 <= k3 < matches@.len() ==> is_match_at(
                text@,
                p,
                #[trigger] matches@[k3] as int,
            ) && matches@[k3] < i,
            forall|k3: int, k4: int| 0 <= k3 < k4 < matches@.len()
                ==> matches@[k3] < matches@[k4],
            forall|s2: int| 0 <= s2 < i && is_match_at(text@, p, s2) ==> matches@.contains(
                s2 as usize,
            ),
        decreases n - m + 1 - i,
    {
        let ghost win = tt@.subrange(i as int, i + m);
        let ghost prev = matches@;
        let mut hit = false;
        if t_s == p_h {
            if str_match(i, text, pattern) {
                matches.push(i);
                hit = true;
            }
        }
        proof {
            if is_match_at(text@, p, i as int) {
                assert forall|u: int| 0 <= u < m implies win[u] == tp@[u] by {
                    assert(text@.subrange(i as int, i + m)[u] == text@[i + u]);
                    assert(text@[i + u] == p[u]);
                    assert(win[u] == tt@[i + u]);
                }
                assert(win =~= tp@);
                assert(t_s == p_h);
                assert(hit);
            }
            assert forall|s2: int| 0 <= s2 < i + 1 && is_match_at(text@, p, s2)
                implies matches@.contains(s2 as usize) by {
                if s2 < i {
                    let k3 = choose|k3: int| 0 <= k3 < prev.len() && prev[k3] == s2 as usize;
                    assert(matches@[k3] == s2 as usize);
                } else {
                    assert(matches@[matches@.len() - 1] == s2 as usize);
                }
            }
        }
        if i < n - m {
            let pop = tt[i];
            let x = tt[i + m];
            let sub_v = mul_mod_add(pop, h, 0, q);
            let diff = (((t_s as u128) + (q as u128) - (sub_v as u128)) % (q as u128)) as u64;
            let t2 = mul_mod_add(diff, d, x, q);
            proof {
                let di = d as int;
                let qi = q as int;
                let rest = win.drop_first();
                lemma_hash_split_first(di, qi, win);
                let s0 = win.first() as int;
                assert(win.first() == tt@[i as int]);
                let rr = hash_fold(di, qi, 0, rest);
                if m == 1 {
                    assert(rest.len() == 0);
                } else {
                    lemma_hash_bound(di, qi, rest);
                }
                let pw = pow_of(di, (m - 1) as nat);
                assert(pw >= 0) by {
                    lemma_pow_of_nonneg(di, (m - 1) as nat);
                }
                lemma_mul_nonnegative(s0, pw);
                assert(sub_v as int == (s0 * pw) % qi) by {
                    lemma_mul_mod_noop_right(s0, pw, qi);
                }
                lemma_roll_diff(t_s as int, s0 * pw, rr, qi);
                assert(diff as int == rr);
                assert(tt@.subrange(i + 1, i + 1 + m) =~= rest.push(tt@[i + m]));
                lemma_hash_push(di, qi, 0, rest, tt@[i + m]);
                assert(t2 as int == (rr * di + x as int) % qi);
                vstd::arithmetic::mul::lemma_mul_is_commutative(rr, di);
            }
            t_s = t2;
        }
        i += 1;
    }
    proof {
        assert forall|s2: int| 0 <= s2 && is_match_at(text@, p, s2) implies matches@.contains(
            s2 as usize,
        ) by {
            assert(s2 + m <= n);
        }
    }
    matches
}

/// The Rabin-Karp matcher: the pattern translated over an explicit
/// alphabet, with the base and prime modulus of its rolling hash.
pub struct RabinKarp {
    trans_pattern: Vec<u64>,
    sigma_map: Vec<char>,
    pattern: Vec<char>,
    d_base: u64,
    q_prime: u64,
}

impl RabinKarp {
    /// Prepare the matcher: collect the distinct alphabet symbols, map the
    /// pattern over them, and pick a prime modulus no smaller than the
    /// base, which is one less than the alphabet size.
    pub fn new(pattern: &[char], sigma: &[char]) -> (r: Result<RabinKarp, MatchError>)
        ensures
            match r {
                Ok(rk) => pattern@.len() >= 1 && (forall|k: int| 0 <= k < pattern@.len()
                    ==> sigma@.contains(#[trigger] pattern@[k])) && sigma@.to_set().len()
                    <= 2_000_000 && rk.wf() && rk.pat() == pattern@,
                Err(e) => e == MatchError::InvalidInput && (pattern@.len() == 0 || (exists|k: int|
                    0 <= k < pattern@.len() && !sigma@.contains(#[trigger] pattern@[k]))
                    || sigma@.to_set().len() > 2_000_000),
            },
    {
        let ghost p = pattern@;
        if pattern.len() == 0 {
            return Err(MatchError::InvalidInput);
        }
        let mut distinct: Vec<char> = Vec::new();
        let mut ci: usize = 0;
        while ci < sigma.len()
            invariant
                0 <= ci <= sigma@.len(),
                forall|j: int| 0 <= j < ci ==> distinct@.contains(#[trigger] sigma@[j]),
                forall|j: int| 0 <= j < distinct@.len() ==> sigma@.contains(
                    #[trigger] distinct@[j],
                ),
                forall|j1: int, j2: int| 0 <= j1 < j2 < distinct@.len() ==> distinct@[j1]
                    != distinct@[j2],
            decreases sigma@.len() - ci,
        {
            let c = sigma[ci];
            let mut found = false;
            let mut ai: usize = 0;
            while ai < distinct.len()
                invariant
                    0 <= ai <= distinct@.len(),
                    found == exists|j: int| 0 <= j < ai && distinct@[j] == c,
                decreases distinct@.len() - ai,
            {
                if distinct[ai] == c {
                    found = true;
                }
                ai += 1;
            }
            let ghost pre = distinct@;
            if !found {
                distinct.push(c);
            }
            proof {
                assert forall|j: int| 0 <= j < ci + 1 implies distinct@.contains(
                    #[trigger] sigma@[j],
                ) by {
                    if j < ci {
                        let k = choose|k: int| 0 <= k < pre.len() && pre[k] == sigma@[j];
                        assert(distinct@[k] == sigma@[j]);
                    } else {
                        if found {
                            let k = choose|k: int| 0 <= k < pre.len() && pre[k] == c;
                            assert(distinct@[k] == c);
                        } else {
                            assert(distinct@[pre.len() as int] == c);
                        }
                    }
                }
                assert forall|j: int| 0 <= j < distinct@.len() implies sigma@.contains(
                    #[trigger] distinct@[j],
                ) by {
                    if j < pre.len() {
                        assert(distinct@[j] == pre[j]);
                    } else {
                        assert(distinct@[j] == sigma@[ci as int]);
                    }
                }
            }
            ci += 1;
        }
        proof {
            distinct@.unique_seq_to_set();
            assert(distinct@.to_set() =~= sigma@.to_set()) by {
                assert forall|c: char| distinct@.to_set().contains(c) <==> sigma@.to_set().contains(
                    c,
                ) by {
                    if distinct@.contains(c) {
                        let k = choose|k: int| 0 <= k < distinct@.len() && distinct@[k] == c;
                    }
                    if sigma@.contains(c) {
                        let k = choose|k: int| 0 <= k < sigma@.len() && sigma@[k] == c;
                    }
                }
            }
        }
        if distinct.len() > 2_000_000 {
            return Err(MatchError::InvalidInput);
        }
        if distinct.len() == 0 {
            proof {
                assert(!sigma@.contains(p[0]));
            }
            return Err(MatchError::InvalidInput);
        }
        let mut trans_pattern: Vec<u64> = Vec::new();
        let mut k: usize = 0;
        while k < pattern.len()
            invariant
                p == pattern@,
                0 <= k <= pattern@.len(),
                trans_pattern@.len() == k,
                forall|j: int| 0 <= j < distinct@.len() ==> sigma@.contains(
                    #[trigger] distinct@[j],
                ),
                forall|j: int| 0 <= j < sigma@.len() ==> distinct@.contains(#[trigger] sigma@[j]),
                distinct@.len() <= 2_000_000,
                1 <= distinct@.len(),
                forall|j: int| 0 <= j < k ==> is_first_index(
                    distinct@,
                    p[j],
                    #[trigger] trans_pattern@[j] as int,
                ),
            decreases pattern@.len() - k,
        {
            match sigma_index(&distinct, pattern[k]) {
                Some(i) => {
                    trans_pattern.push(i as u64);
                },
                None => {
                    proof {
                        assert(!sigma@.contains(p[k as int])) by {
                            if sigma@.contains(p[k as int]) {
                                let j = choose|j: int|
                                    0 <= j < sigma@.len() && sigma@[j] == p[k as int];
                                assert(distinct@.contains(sigma@[j]));
                            }
                        }
                    }
                    return Err(MatchError::InvalidInput);
                },
            }
            k += 1;
        }
        let d_base = (distinct.len() - 1) as u64;
        let q_prime = find_prime_at_least(d_base);
        let rk = RabinKarp {
            trans_pattern,
            sigma_map: distinct,
            pattern: vstd::slice::slice_to_vec(pattern),
            d_base,
            q_prime,
        };
        proof {
            assert forall|j: int| 0 <= j < p.len() implies sigma@.contains(#[trigger] p[j]) by {
                assert(is_first_index(rk.sigma_map@, p[j], rk.trans_pattern@[j] as int));
                assert(rk.sigma_map@[rk.trans_pattern@[j] as int] == p[j]);
                assert(sigma@.contains(rk.sigma_map@[rk.trans_pattern@[j] as int]));
            }
        }
        Ok(rk)
    }
}

impl TextMatch for RabinKarp {
    closed spec fn pat(&self) -> Seq<char> {
        self.pattern@
    }

    closed spec fn wf(&self) -> bool {
        &&& self.pattern@.len() >= 1
        &&& self.q_prime >= 1
        &&& self.trans_pattern@.len() == self.pattern@.len()
        &&& forall|k: int| 0 <= k < self.pattern@.len() ==> is_first_index(
            self.sigma_map@,
            self.pattern@[k],
            #[trigger] self.trans_pattern@[k] as int,
        )
    }

    closed spec fn rejects(&self, text: Seq<char>) -> bool {
        exists|i: int| 0 <= i < text.len() && !self.sigma_map@.contains(#[trigger] text[i])
    }

    /// Translate the text over the alphabet, then slide the rolling hash
    /// over it; every hash hit is confirmed symbol by symbol, so a
    /// colliding window is never reported.
    fn match_text(&self, text: &[char]) -> (r: Result<Vec<usize>, MatchError>) {
        let ghost p = self.pattern@;
        let n = text.len();
        let m = self.pattern.len();
        if m > n {
            return Err(MatchError::InvalidInput);
        }
        let mut trans_text: Vec<u64> = Vec::new();
        let mut k: usize = 0;
        while k < n
            invariant
                self.wf(),
                p == self.pattern@,
                n == text@.len(),
                0 <= k <= n,
                trans_text@.len() == k,
                forall|j: int| 0 <= j < k ==> is_first_index(
                    self.sigma_map@,
                    text@[j],
                    #[trigger] trans_text@[j] as int,
                ),
            decreases n - k,
        {
            match sigma_index(&self.sigma_map, text[k]) {
                Some(i) => {
                    trans_text.push(i as u64);
                },
                None => {
                    proof {
                        assert(!self.sigma_map@.contains(text@[k as int]));
                        assert(self.rejects(text@));
                    }
                    return Err(MatchError::InvalidInput);
                },
            }
            k += 1;
        }
        proof {
            assert forall|i: int, k3: int|
                #![trigger trans_text@[i], self.trans_pattern@[k3]]
                0 <= i < n && 0 <= k3 < m && text@[i] == p[k3] implies trans_text@[i]
                == self.trans_pattern@[k3] by {
                let c = text@[i];
                let i1 = trans_text@[i] as int;
                let i2 = self.trans_pattern@[k3] as int;
                assert(is_first_index(self.sigma_map@, c, i1));
                assert(is_first_index(self.sigma_map@, c, i2));
                if i1 < i2 {
                    assert(self.sigma_map@[i1] == c);
                }
                if i2 < i1 {
                    assert(self.sigma_map@[i2] == c);
                }
            }
            assert forall|i: int| 0 <= i < n implies self.sigma_map@.contains(
                #[trigger] text@[i],
            ) by {
                assert(self.sigma_map@[trans_text@[i] as int] == text@[i]);
            }
        }
        let v = rolling_scan(
            text,
            self.pattern.as_slice(),
            &trans_text,
            &self.trans_pattern,
            self.d_base,
            self.q_prime,
        );
        Ok(v)
    }
}

/// Rabin-Karp over the raw symbol codes, with an explicit base and
/// modulus; every hash hit is confirmed symbol by symbol before it is
/// reported.
pub fn rabin_karp(text: &[char], pattern: &[char], d_base: u32, q_prime: u32) -> (r: Result<
    Vec<usize>,
    MatchError,
>)
    requires
        q_prime >= 1,
    ensures
        match r {
            Ok(v) => 1 <= pattern@.len() <= text@.len() && is_match_result(text@, pattern@, v@),
            Err(e) => e == MatchError::InvalidInput && (pattern@.len() == 0 || pattern@.len()
                > text@.len()),
        },
{
    let n = text.len();
    let m = pattern.len();
    if m == 0 || m > n {
        return Err(MatchError::InvalidInput);
    }
    let mut tt: Vec<u64> = Vec::new();
    let mut k: usize = 0;
    while k < n
        invariant
            n == text@.len(),
            0 <= k <= n,
            tt@.len() == k,
            forall|j: int| 0 <= j < k ==> #[trigger] tt@[j] == text@[j] as u64,
        decreases n - k,
    {
        tt.push(text[k] as u64);
        k += 1;
    }
    let mut tp: Vec<u64> = Vec::new();
    let mut k2: usize = 0;
    while k2 < m
        invariant
            m == pattern@.len(),
            0 <= k2 <= m,
            tp@.len() == k2,
            forall|j: int| 0 <= j < k2 ==> #[trigger] tp@[j] == pattern@[j] as u64,
        decreases m - k2,
    {
        tp.push(pattern[k2] as u64);
        k2 += 1;
    }
    Ok(rolling_scan(text, pattern, &tt, &tp, d_base as u64, q_prime as u64))
}

} // verus!
