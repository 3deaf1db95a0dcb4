//! Lehmer-code (factorial number system) decoding of TSP routes.
use vstd::prelude::*;
use vstd::string::*;
use vstd::arithmetic::div_mod::*;
use vstd::arithmetic::mul::*;

verus! {

/// `n!`
pub open spec fn fact(n: nat) -> nat
    decreases n,
{
    if n == 0 {
        1
    } else {
        n * fact((n - 1) as nat)
    }
}

/// Number of cities that get permuted for a tour of `n` cities (`n - 1`, never below 0).
pub open spec fn perm_len(n: nat) -> nat {
    if n == 0 {
        0
    } else {
        (n - 1) as nat
    }
}

/// Number of distinct routes for `n` cities: `(n - 1)!`.
pub open spec fn route_count(n: nat) -> nat {
    fact(perm_len(n))
}

/// The sequence `lo, lo + 1, ..., hi - 1` (empty when `hi <= lo`).
pub open spec fn range_seq(lo: nat, hi: nat) -> Seq<usize> {
    Seq::new(if hi > lo { (hi - lo) as nat } else { 0 }, |i: int| (lo + i) as usize)
}

/// Factoradic decoding: take `steps` digits of `rem` (most significant first),
/// each digit picking (and removing) one of the still available cities.
/// Should a digit point past the available cities, they are all appended in order.
pub open spec fn decode_digits(avail: Seq<usize>, rem: nat, steps: nat) -> Seq<usize>
    decreases steps,
{
    if steps == 0 {
        Seq::empty()
    } else {
        let f = fact((steps - 1) as nat);
        let d = rem / f;
        if d < avail.len() {
            seq![avail[d as int]] + decode_digits(avail.remove(d as int), rem % f, (steps - 1) as nat)
        } else {
            avail
        }
    }
}

/// The permutation of `1..n` that `index` names (taken modulo the route count).
pub open spec fn decode_spec(n: nat, index: nat) -> Seq<usize> {
    decode_digits(range_seq(1, n), index % route_count(n), perm_len(n))
}

/// Position of the first occurrence of `x` in `s`, or -1.
pub open spec fn position_of(s: Seq<usize>, x: usize) -> int
    decreases s.len(),
{
    if s.len() == 0 {
        -1
    } else if s[0] == x {
        0
    } else {
        let p = position_of(s.drop_first(), x);
        if p < 0 {
            -1
        } else {
            p + 1
        }
    }
}

/// Factoradic encoding: each of the first `steps` entries of `perm` that is still
/// available contributes its position among the available cities times the
/// factorial weight of its step; entries that are not available contribute nothing.
pub open spec fn encode_digits(avail: Seq<usize>, perm: Seq<usize>, steps: nat) -> nat
    decreases perm.len(),
{
    if steps == 0 || perm.len() == 0 {
        0
    } else {
        let p = position_of(avail, perm[0]);
        if p >= 0 {
            (p as nat) * fact((steps - 1) as nat) + encode_digits(
                avail.remove(p),
                perm.drop_first(),
                (steps - 1) as nat,
            )
        } else {
            encode_digits(avail, perm.drop_first(), (steps - 1) as nat)
        }
    }
}

/// The index that `encode` gives for `perm` with `n` cities.
pub open spec fn encode_spec(n: nat, perm: Seq<usize>) -> nat {
    encode_digits(range_seq(1, n), perm, perm_len(n))
}

/// `q` is the least exponent with `2^q >= x`.
pub open spec fn is_ceil_log2(q: nat, x: nat) -> bool {
    &&& vstd::arithmetic::power2::pow2(q) >= x
    &&& (q == 0 || vstd::arithmetic::power2::pow2((q - 1) as nat) < x)
}

/// Qubits needed to index `total` routes: at least one, else `ceil(log2(total))`.
pub open spec fn qubits_spec(q: nat, total: nat) -> bool {
    if total <= 1 {
        q == 1
    } else {
        is_ceil_log2(q, total)
    }
}

/// Factorials are positive.
pub proof fn lemma_fact_positive(n: nat)
    ensures
        fact(n) >= 1,
    decreases n,
{
    if n > 0 {
        lemma_fact_positive((n - 1) as nat);
        lemma_mul_increases(n as int, fact((n - 1) as nat) as int);
    }
}

/// Factorials grow with their argument.
pub proof fn lemma_fact_monotone(a: nat, b: nat)
    requires
        a <= b,
    ensures
        fact(a) <= fact(b),
    decreases b,
{
    if a < b {
        lemma_fact_monotone(a, (b - 1) as nat);
        lemma_fact_positive((b - 1) as nat);
        lemma_mul_increases(b as int, fact((b - 1) as nat) as int);
    }
}

/// `p` lists exactly the elements of `s`, each once (`s` itself has no duplicates).
pub open spec fn is_perm_of(p: Seq<usize>, s: Seq<usize>) -> bool {
    &&& p.len() == s.len()
    &&& p.no_duplicates()
    &&& forall|i: int| 0 <= i < p.len() ==> s.contains(#[trigger] p[i])
}

/// `p` is a permutation of the cities `1..n`.
pub open spec fn is_city_perm(p: Seq<usize>, n: nat) -> bool {
    &&& p.len() == perm_len(n)
    &&& p.no_duplicates()
    &&& forall|i: int| 0 <= i < p.len() ==> 1 <= #[trigger] p[i] < n
}

proof fn lemma_position_of(s: Seq<usize>, x: usize)
    ensures
        position_of(s, x) >= 0 ==> {
            &&& position_of(s, x) < s.len()
            &&& s[position_of(s, x)] == x
            &&& forall|j: int| 0 <= j < position_of(s, x) ==> s[j] != x
        },
        position_of(s, x) < 0 ==> position_of(s, x) == -1 && !s.contains(x),
    decreases s.len(),
{
    if s.len() > 0 && s[0] != x {
        lemma_position_of(s.drop_first(), x);
        if position_of(s, x) >= 0 {
            assert forall|j: int| 0 <= j < position_of(s, x) implies s[j] != x by {
                if j > 0 {
                    assert(s[j] == s.drop_first()[j - 1]);
                }
            }
        } else {
            assert forall|j: int| 0 <= j < s.len() implies s[j] != x by {
                if j > 0 {
                    assert(s[j] == s.drop_first()[j - 1]);
                }
            }
        }
    }
}

proof fn lemma_position_of_unique(s: Seq<usize>, j: int)
    requires
        s.no_duplicates(),
        0 <= j < s.len(),
    ensures
        position_of(s, s[j]) == j,
{
    lemma_position_of(s, s[j]);
}

pub(crate) proof fn lemma_range_seq(lo: nat, hi: nat)
    requires
        hi <= usize::MAX + 1,
    ensures
        range_seq(lo, hi).no_duplicates(),
        forall|i: int| 0 <= i < range_seq(lo, hi).len() ==> range_seq(lo, hi)[i] == lo + i,
        forall|x: usize| range_seq(lo, hi).contains(x) <==> lo <= x < hi,
{
    let s = range_seq(lo, hi);
    assert forall|x: usize| lo <= x < hi implies s.contains(x) by {
        assert(s[x - lo] == x);
    }
}

proof fn lemma_digit_in_range(rem: nat, steps: nat)
    requires
        steps > 0,
        rem < fact(steps),
    ensures
        fact((steps - 1) as nat) > 0,
        0 <= rem / fact((steps - 1) as nat) < steps,
        rem % fact((steps - 1) as nat) < fact((steps - 1) as nat),
{
    let f = fact((steps - 1) as nat);
    lemma_fact_positive((steps - 1) as nat);
    lemma_fundamental_div_mod(rem as int, f as int);
    lemma_mod_bound(rem as int, f as int);
    let d = rem / f;
    if d >= steps {
        lemma_mul_inequality(steps as int, d as int, f as int);
        lemma_mul_is_commutative(steps as int, f as int);
        lemma_mul_is_commutative(d as int, f as int);
    }
}

proof fn lemma_remove_keeps_perm(avail: Seq<usize>, d: int)
    requires
        avail.no_duplicates(),
        0 <= d < avail.len(),
    ensures
        avail.remove(d).no_duplicates(),
        forall|x: usize| avail.remove(d).contains(x) <==> (avail.contains(x) && x != avail[d]),
{
    let r = avail.remove(d);
    assert forall|i: int, j: int| 0 <= i < r.len() && 0 <= j < r.len() && i != j implies r[i] != r[j] by {
        let ii = if i < d { i } else { i + 1 };
        let jj = if j < d { j } else { j + 1 };
        assert(r[i] == avail[ii] && r[j] == avail[jj]);
    }
    assert forall|x: usize| avail.contains(x) && x != avail[d] implies r.contains(x) by {
        let i = choose|i: int| 0 <= i < avail.len() && avail[i] == x;
        if i < d {
            assert(r[i] == x);
        } else {
            assert(r[i - 1] == x);
        }
    }
    assert forall|x: usize| r.contains(x) implies avail.contains(x) && x != avail[d] by {
        let i = choose|i: int| 0 <= i < r.len() && r[i] == x;
        if i < d {
            assert(avail[i] == x);
        } else {
            assert(avail[i + 1] == x);
        }
    }
}

/// Decoding a valid remainder picks every available city exactly once.
proof fn lemma_decode_digits_perm(avail: Seq<usize>, rem: nat, steps: nat)
    requires
        avail.no_duplicates(),
        avail.len() == steps,
        rem < fact(steps),
    ensures
        is_perm_of(decode_digits(avail, rem, steps), avail),
        forall|x: usize| decode_digits(avail, rem, steps).contains(x) <==> avail.contains(x),
    decreases steps,
{
    if steps > 0 {
        let f = fact((steps - 1) as nat);
        lemma_digit_in_range(rem, steps);
        let d = rem / f;
        let rest = avail.remove(d as int);
        lemma_remove_keeps_perm(avail, d as int);
        lemma_decode_digits_perm(rest, rem % f, (steps - 1) as nat);
        let tail = decode_digits(rest, rem % f, (steps - 1) as nat);
        let out = decode_digits(avail, rem, steps);
        assert(out == seq![avail[d as int]] + tail);
        assert forall|i: int| 0 <= i < out.len() implies avail.contains(#[trigger] out[i]) by {
            if i > 0 {
                assert(out[i] == tail[i - 1]);
                assert(tail.contains(tail[i - 1]));
            }
        }
        assert forall|i: int, j: int| 0 <= i < out.len() && 0 <= j < out.len() && i != j implies out[i] != out[j] by {
            if i > 0 {
                assert(out[i] == tail[i - 1]);
                assert(tail.contains(tail[i - 1]));
            }
            if j > 0 {
                assert(out[j] == tail[j - 1]);
                assert(tail.contains(tail[j - 1]));
            }
        }
        assert forall|x: usize| out.contains(x) <==> avail.contains(x) by {
            if avail.contains(x) && x != avail[d as int] {
                assert(tail.contains(x));
                let i = choose|i: int| 0 <= i < tail.len() && tail[i] == x;
                assert(out[i + 1] == x);
            }
            if out.contains(x) {
                let i = choose|i: int| 0 <= i < out.len() && out[i] == x;
                assert(avail.contains(out[i]));
            }
            if x == avail[d as int] {
                assert(out[0] == x);
            }
        }
    } else {
        assert(decode_digits(avail, rem, steps) =~= avail);
    }
}

/// Encoding the decoded permutation gives back the remainder.
proof fn lemma_encode_decode_digits(avail: Seq<usize>, rem: nat, steps: nat)
    requires
        avail.no_duplicates(),
        avail.len() == steps,
        rem < fact(steps),
    ensures
        encode_digits(avail, decode_digits(avail, rem, steps), steps) == rem,
    decreases steps,
{
    if steps > 0 {
        let f = fact((steps - 1) as nat);
        lemma_digit_in_range(rem, steps);
        let d = rem / f;
        let rest = avail.remove(d as int);
        lemma_remove_keeps_perm(avail, d as int);
        lemma_encode_decode_digits(rest, rem % f, (steps - 1) as nat);
        let out = decode_digits(avail, rem, steps);
        let tail = decode_digits(rest, rem % f, (steps - 1) as nat);
        assert(out.drop_first() =~= tail);
        lemma_position_of_unique(avail, d as int);
        lemma_fundamental_div_mod(rem as int, f as int);
        lemma_mul_is_commutative(d as int, f as int);
    }
}

/// Encodings are below `fact(avail.len())` while at least `steps` cities are available.
proof fn lemma_encode_digits_bound(avail: Seq<usize>, perm: Seq<usize>, steps: nat)
    requires
        avail.len() >= steps,
    ensures
        encode_digits(avail, perm, steps) < fact(avail.len()),
    decreases perm.len(),
{
    lemma_fact_positive(avail.len());
    if steps > 0 && perm.len() > 0 {
        let p = position_of(avail, perm[0]);
        lemma_position_of(avail, perm[0]);
        if p >= 0 {
            let a = avail.len();
            let rest = avail.remove(p);
            lemma_encode_digits_bound(rest, perm.drop_first(), (steps - 1) as nat);
            let fs = fact((steps - 1) as nat);
            let fa = fact((a - 1) as nat);
            lemma_fact_monotone((steps - 1) as nat, (a - 1) as nat);
            let r = encode_digits(rest, perm.drop_first(), (steps - 1) as nat);
            assert(p * fs <= (a - 1) * fa) by (nonlinear_arith)
                requires
                    0 <= p <= a - 1,
                    0 <= fs <= fa,
            ;
            assert((a - 1) * fa + fa == a * fa) by (nonlinear_arith);
            assert(fact(a) == a * fa);
        } else {
            lemma_encode_digits_bound(avail, perm.drop_first(), (steps - 1) as nat);
        }
    }
}

/// Decoding the encoding of a permutation of the available cities gives it back.
proof fn lemma_decode_encode_digits(avail: Seq<usize>, perm: Seq<usize>, steps: nat)
    requires
        avail.no_duplicates(),
        avail.len() == steps,
        is_perm_of(perm, avail),
    ensures
        encode_digits(avail, perm, steps) < fact(steps),
        decode_digits(avail, encode_digits(avail, perm, steps), steps) == perm,
    decreases steps,
{
    lemma_encode_digits_bound(avail, perm, steps);
    if steps > 0 {
        let c = perm[0];
        assert(avail.contains(c));
        lemma_position_of(avail, c);
        let p = position_of(avail, c);
        let rest = avail.remove(p);
        lemma_remove_keeps_perm(avail, p);
        let tail = perm.drop_first();
        assert forall|i: int| 0 <= i < tail.len() implies rest.contains(#[trigger] tail[i]) by {
            assert(tail[i] == perm[i + 1]);
            assert(avail.contains(perm[i + 1]));
            assert(perm[i + 1] != perm[0]);
        }
        assert(is_perm_of(tail, rest));
        lemma_decode_encode_digits(rest, tail, (steps - 1) as nat);
        let f = fact((steps - 1) as nat);
        let r = encode_digits(rest, tail, (steps - 1) as nat);
        let e = encode_digits(avail, perm, steps);
        assert(e == p * f + r);
        lemma_fact_positive((steps - 1) as nat);
        lemma_fundamental_div_mod_converse(e as int, f as int, p, r as int);
        assert(decode_digits(avail, e, steps) =~= perm);
    } else {
        assert(perm =~= Seq::<usize>::empty());
    }
}

/// Every index decodes to a permutation of the cities `1..n`.
pub proof fn lemma_decode_is_permutation(n: usize, index: nat)
    ensures
        is_city_perm(decode_spec(n as nat, index), n as nat),
{
    let avail = range_seq(1, n as nat);
    lemma_range_seq(1, n as nat);
    lemma_fact_positive(perm_len(n as nat));
    lemma_decode_digits_perm(avail, index % route_count(n as nat), perm_len(n as nat));
    let s = decode_spec(n as nat, index);
    assert forall|i: int| 0 <= i < s.len() implies 1 <= #[trigger] s[i] < n by {
        assert(avail.contains(s[i]));
    }
}

/// Encoding a decoded index gives the index back, modulo the route count.
pub proof fn lemma_encode_decode_roundtrip(n: usize, index: nat)
    ensures
        encode_spec(n as nat, decode_spec(n as nat, index)) == index % route_count(n as nat),
{
    lemma_range_seq(1, n as nat);
    lemma_fact_positive(perm_len(n as nat));
    lemma_encode_decode_digits(range_seq(1, n as nat), index % route_count(n as nat), perm_len(n as nat));
}

/// Every permutation of the cities `1..n` has an index below the route count,
/// and decoding that index gives the permutation back.
pub proof fn lemma_decode_encode_roundtrip(n: usize, perm: Seq<usize>)
    requires
        is_city_perm(perm, n as nat),
    ensures
        encode_spec(n as nat, perm) < route_count(n as nat),
        decode_spec(n as nat, encode_spec(n as nat, perm)) == perm,
{
    let avail = range_seq(1, n as nat);
    lemma_range_seq(1, n as nat);
    assert forall|i: int| 0 <= i < perm.len() implies avail.contains(#[trigger] perm[i]) by {}
    lemma_decode_encode_digits(avail, perm, perm_len(n as nat));
    let e = encode_spec(n as nat, perm);
    lemma_small_mod(e, route_count(n as nat));
}

/// `a` comes before `b` in lexicographic order: at the first position where
/// they differ, `a` holds the smaller city.
pub open spec fn lex_less(a: Seq<usize>, b: Seq<usize>) -> bool {
    exists|k: int|
        0 <= k < a.len() && k < b.len() && #[trigger] a[k] < b[k] && forall|i: int| 0 <= i < k ==> a[i] == b[i]
}

/// The entries of `s` increase strictly.
pub open spec fn strictly_increasing(s: Seq<usize>) -> bool {
    forall|i: int, j: int| 0 <= i < j < s.len() ==> s[i] < s[j]
}

proof fn lemma_decode_digits_lex(avail: Seq<usize>, r1: nat, r2: nat, steps: nat)
    requires
        strictly_increasing(avail),
        avail.len() == steps,
        r1 < r2 < fact(steps),
    ensures
        lex_less(decode_digits(avail, r1, steps), decode_digits(avail, r2, steps)),
    decreases steps,
{
    if steps == 0 {
        assert(fact(0) == 1);
    } else {
        let f = fact((steps - 1) as nat);
        lemma_digit_in_range(r1, steps);
        lemma_digit_in_range(r2, steps);
        let d1 = r1 / f;
        let d2 = r2 / f;
        lemma_div_is_ordered(r1 as int, r2 as int, f as int);
        let out1 = decode_digits(avail, r1, steps);
        let out2 = decode_digits(avail, r2, steps);
        if d1 < d2 {
            assert(out1[0] == avail[d1 as int] && out2[0] == avail[d2 as int]);
            assert(out1[0] < out2[0]);
        } else {
            let rest = avail.remove(d1 as int);
            assert(strictly_increasing(rest)) by {
                assert forall|i: int, j: int| 0 <= i < j < rest.len() implies rest[i] < rest[j] by {
                    let ii = if i < d1 { i } else { i + 1 };
                    let jj = if j < d1 { j } else { j + 1 };
                    assert(rest[i] == avail[ii] && rest[j] == avail[jj]);
                }
            }
            lemma_fundamental_div_mod(r1 as int, f as int);
            lemma_fundamental_div_mod(r2 as int, f as int);
            let m1 = r1 % f;
            let m2 = r2 % f;
            assert(m1 < m2);
            lemma_decode_digits_lex(rest, m1, m2, (steps - 1) as nat);
            let t1 = decode_digits(rest, m1, (steps - 1) as nat);
            let t2 = decode_digits(rest, m2, (steps - 1) as nat);
            let k = choose|k: int|
                0 <= k < t1.len() && k < t2.len() && #[trigger] t1[k] < t2[k] && forall|i: int| 0 <= i < k ==> t1[i] == t2[i];
            assert(out1 == seq![avail[d1 as int]] + t1);
            assert(out2 == seq![avail[d1 as int]] + t2);
            assert(out1[k + 1] == t1[k] && out2[k + 1] == t2[k]);
            assert forall|i: int| 0 <= i < k + 1 implies out1[i] == out2[i] by {
                if i > 0 {
                    assert(out1[i] == t1[i - 1] && out2[i] == t2[i - 1]);
                }
            }
        }
    }
}

/// Index order is lexicographic order: a smaller index below the route count
/// decodes to a lexicographically smaller permutation.
pub proof fn lemma_decode_monotone(n: usize, i: nat, j: nat)
    requires
        i < j < route_count(n as nat),
    ensures
        lex_less(decode_spec(n as nat, i), decode_spec(n as nat, j)),
{
    let avail = range_seq(1, n as nat);
    lemma_range_seq(1, n as nat);
    lemma_small_mod(i, route_count(n as nat));
    lemma_small_mod(j, route_count(n as nat));
    lemma_decode_digits_lex(avail, i, j, perm_len(n as nat));
}

/// Indices wrap around: `index` names the same permutation as `index` modulo
/// the route count.
pub proof fn lemma_decode_wraps(n: usize, index: nat)
    ensures
        decode_spec(n as nat, index) == decode_spec(n as nat, index % route_count(n as nat)),
{
    lemma_fact_positive(perm_len(n as nat));
    lemma_mod_twice(index as int, route_count(n as nat) as int);
}

proof fn lemma_decode_digits_zero(avail: Seq<usize>, steps: nat)
    requires
        avail.len() == steps,
    ensures
        decode_digits(avail, 0, steps) == avail,
    decreases steps,
{
    if steps > 0 {
        let f = fact((steps - 1) as nat);
        lemma_fact_positive((steps - 1) as nat);
        assert(0nat / f == 0);
        assert(0nat % f == 0);
        lemma_decode_digits_zero(avail.remove(0), (steps - 1) as nat);
        assert(seq![avail[0]] + avail.remove(0) =~= avail);
    }
}

proof fn lemma_decode_digits_last(avail: Seq<usize>, steps: nat)
    requires
        avail.len() == steps,
    ensures
        decode_digits(avail, (fact(steps) - 1) as nat, steps) == avail.reverse(),
    decreases steps,
{
    lemma_fact_positive(steps);
    if steps > 0 {
        let f = fact((steps - 1) as nat);
        lemma_fact_positive((steps - 1) as nat);
        let r = (fact(steps) - 1) as nat;
        assert(r == (steps - 1) * f + (f - 1)) by (nonlinear_arith)
            requires
                r == fact(steps) - 1,
                fact(steps) == steps * f,
                steps >= 1,
        ;
        lemma_fundamental_div_mod_converse(r as int, f as int, (steps - 1) as int, (f - 1) as int);
        assert(r / f == steps - 1);
        assert(r % f == f - 1);
        let rest = avail.remove((steps - 1) as int);
        assert(rest =~= avail.drop_last());
        lemma_decode_digits_last(rest, (steps - 1) as nat);
        assert(seq![avail[steps - 1]] + rest.reverse() =~= avail.reverse());
    }
}

/// The first index names the cities in increasing order, `[1, 2, ..., n - 1]`,
/// and the last names them in decreasing order, `[n - 1, ..., 2, 1]`.
pub proof fn lemma_decode_endpoints(n: usize)
    ensures
        decode_spec(n as nat, 0) == range_seq(1, n as nat),
        decode_spec(n as nat, (route_count(n as nat) - 1) as nat) == range_seq(1, n as nat).reverse(),
{
    let rc = route_count(n as nat);
    lemma_fact_positive(perm_len(n as nat));
    lemma_small_mod(0, rc);
    lemma_small_mod((rc - 1) as nat, rc);
    lemma_decode_digits_zero(range_seq(1, n as nat), perm_len(n as nat));
    lemma_decode_digits_last(range_seq(1, n as nat), perm_len(n as nat));
}

/// The factorials satisfy `0! = 1` and `n! = n * (n - 1)!`, and `n!` is the
/// number of routes of `n + 1` cities.
pub proof fn lemma_fact_counts_routes(n: nat)
    ensures
        fact(0) == 1,
        n >= 1 ==> fact(n) == n * fact((n - 1) as nat),
        fact(n) == route_count(n + 1),
{
}

/// Distinct indices below the route count decode to distinct permutations.
pub proof fn lemma_decode_injective(n: usize, a: nat, b: nat)
    requires
        a < route_count(n as nat),
        b < route_count(n as nat),
        decode_spec(n as nat, a) == decode_spec(n as nat, b),
    ensures
        a == b,
{
    lemma_encode_decode_roundtrip(n, a);
    lemma_encode_decode_roundtrip(n, b);
    lemma_small_mod(a, route_count(n as nat));
    lemma_small_mod(b, route_count(n as nat));
}

proof fn lemma_fact_grows(n: nat)
    requires
        n >= 3,
    ensures
        fact(n) >= 2 * n,
    decreases n,
{
    if n > 3 {
        lemma_fact_grows((n - 1) as nat);
        let f = fact((n - 1) as nat);
        assert(n * f >= 2 * n) by (nonlinear_arith)
            requires
                f >= 2 * (n - 1),
                n > 3,
        ;
    } else {
        assert(fact(3) == 6) by {
            reveal_with_fuel(fact, 4);
        }
    }
}

/// Decodes integer route indices into permutations of the cities `1..n`.
///
/// Index `i` in `0..(n-1)!` is written in the factorial number system; its
/// digits, most significant first, pick the next city among those not yet used.
#[derive(Debug)]
pub struct LehmerDecoder {
    n: usize,
    k: usize,
    factorials: Vec<usize>,
    total_permutations: usize,
    required_qubits: usize,
}

impl View for LehmerDecoder {
    type V = nat;

    /// The number of cities the decoder works on.
    closed spec fn view(&self) -> nat {
        self.n as nat
    }
}

impl Clone for LehmerDecoder {
    fn clone(&self) -> (c: Self)
        ensures
            c@ == self@,
    {
        proof {
            use_type_invariant(self);
        }
        LehmerDecoder {
            n: self.n,
            k: self.k,
            factorials: crate::tour::copy_vec(&self.factorials),
            total_permutations: self.total_permutations,
            required_qubits: self.required_qubits,
        }
    }
}

impl LehmerDecoder {
    #[verifier::type_invariant]
    spec fn wf(self) -> bool {
        &&& self.k == perm_len(self.n as nat)
        &&& self.factorials@.len() == self.k + 1
        &&& forall|j: int| 0 <= j <= self.k ==> self.factorials@[j] == fact(j as nat)
        &&& self.total_permutations == fact(self.k as nat)
        &&& qubits_spec(self.required_qubits as nat, self.total_permutations as nat)
    }

    /// Create a decoder for `n` cities. `(n - 1)!` must fit in a `usize`.
    pub fn new(n: usize) -> (d: Self)
        requires
            route_count(n as nat) <= usize::MAX,
        ensures
            d@ == n,
    {
        let k = n.saturating_sub(1);
        let mut factorials: Vec<usize> = Vec::new();
        factorials.push(1);
        let mut i: usize = 1;
        while i <= k
            invariant
                1 <= i <= k + 1,
                k == perm_len(n as nat),
                fact(k as nat) <= usize::MAX,
                factorials@.len() == i,
                forall|j: int| 0 <= j < i ==> factorials@[j] == fact(j as nat),
            decreases k + 1 - i,
        {
            proof {
                lemma_fact_monotone(i as nat, k as nat);
            }
            let last = factorials[i - 1];
            assert(last * i == fact(i as nat)) by {
                lemma_mul_is_commutative(last as int, i as int);
            }
            factorials.push(last * i);
            i = i + 1;
        }
        let total_permutations = if k == 0 {
            1
        } else {
            factorials[k]
        };
        let required_qubits = if total_permutations <= 1 {
            1
        } else {
            ceil_log2(total_permutations)
        };
        Self { n, k, factorials, total_permutations, required_qubits }
    }

    /// Decode an integer index to a permutation of `{1, ..., n-1}`.
    /// The index is taken modulo `(n-1)!`.
    pub fn decode(&self, index: usize) -> (perm: Vec<usize>)
        ensures
            perm@ == decode_spec(self@, index as nat),
            is_city_perm(perm@, self@),
    {
        proof {
            use_type_invariant(self);
            lemma_fact_positive(self.k as nat);
            lemma_decode_is_permutation(self.n, index as nat);
        }
        let ghost target = decode_spec(self@, index as nat);
        let index = if self.total_permutations > 0 {
            index % self.total_permutations
        } else {
            0
        };
        let mut available: Vec<usize> = Vec::new();
        let mut c: usize = 1;
        while c < self.n
            invariant
                1 <= c,
                c <= self.n || c == 1,
                available@ == range_seq(1, c as nat),
            decreases self.n - c,
        {
            assert(range_seq(1, c as nat).push(c) =~= range_seq(1, (c + 1) as nat));
            available.push(c);
            c = c + 1;
        }
        assert(available@ =~= range_seq(1, self.n as nat));
        let mut result: Vec<usize> = Vec::with_capacity(self.k);
        let mut remaining = index;
        let mut i = self.k;
        assert(result@ + decode_digits(available@, remaining as nat, i as nat) =~= target);
        while i > 0
            invariant_except_break
                i <= self.k,
                self.factorials@.len() == self.k + 1,
                forall|j: int| 0 <= j <= self.k ==> self.factorials@[j] == fact(j as nat),
                result@ + decode_digits(available@, remaining as nat, i as nat) == target,
            ensures
                result@ == target,
            decreases i,
        {
            i = i - 1;
            let fact = self.factorials[i];
            proof {
                lemma_fact_positive(i as nat);
            }
            let digit = remaining / fact;
            let ghost old_rem = remaining;
            remaining = remaining % fact;
            if digit < available.len() {
                let ghost old_avail = available@;
                let ghost old_result = result@;
                let city = available.remove(digit);
                result.push(city);
                assert(result@ + decode_digits(available@, remaining as nat, i as nat) =~= old_result
                    + decode_digits(old_avail, old_rem as nat, (i + 1) as nat));
            } else {
                let ghost old_result = result@;
                let ghost old_avail = available@;
                assert(decode_digits(old_avail, old_rem as nat, (i + 1) as nat) == old_avail);
                result.append(&mut available);
                assert(result@ =~= old_result + old_avail);
                break;
            }
        }
        proof {
            if i == 0 {
                assert(result@ =~= target);
            }
        }
        result
    }

    /// Encode a permutation back to its integer index. Entries that are not
    /// among the still unused cities `1..n` are skipped; at most `n - 1`
    /// entries are read.
    pub fn encode(&self, permutation: &[usize]) -> (index: usize)
        ensures
            index == encode_spec(self@, permutation@),
            index < route_count(self@),
    {
        proof {
            use_type_invariant(self);
        }
        let mut available: Vec<usize> = Vec::new();
        let mut c: usize = 1;
        while c < self.n
            invariant
                1 <= c,
                c <= self.n || c == 1,
                available@ == range_seq(1, c as nat),
            decreases self.n - c,
        {
            assert(range_seq(1, c as nat).push(c) =~= range_seq(1, (c + 1) as nat));
            available.push(c);
            c = c + 1;
        }
        assert(available@ =~= range_seq(1, self.n as nat));
        let ghost target = encode_spec(self@, permutation@);
        proof {
            lemma_encode_digits_bound(available@, permutation@, self.k as nat);
            assert(permutation@.skip(0) =~= permutation@);
        }
        let mut index: usize = 0;
        let mut i: usize = 0;
        while i < permutation.len()
            invariant_except_break
                i <= permutation.len(),
                i <= self.k,
                available@.len() >= self.k - i,
                self.factorials@.len() == self.k + 1,
                forall|j: int| 0 <= j <= self.k ==> self.factorials@[j] == fact(j as nat),
                fact(self.k as nat) <= usize::MAX,
                target < fact(self.k as nat),
                index + encode_digits(available@, permutation@.skip(i as int), (self.k - i) as nat)
                    == target,
            ensures
                index == target,
            decreases permutation.len() - i,
        {
            if i >= self.k {
                break;
            }
            let city = permutation[i];
            let ghost tail = permutation@.skip(i as int);
            assert(tail.drop_first() =~= permutation@.skip(i + 1));
            assert(tail[0] == city);
            proof {
                lemma_position_of(available@, city);
            }
            let pos = find_position(&available, city);
            match pos {
                Some(pos) => {
                    let w = self.factorials[self.k - 1 - i];
                    let ghost rest = encode_digits(
                        available@.remove(pos as int),
                        permutation@.skip(i + 1),
                        (self.k - i - 1) as nat,
                    );
                    assert(pos * w + rest == encode_digits(available@, tail, (self.k - i) as nat));
                    assert(pos * w <= target);
                    index = index + pos * w;
                    available.remove(pos);
                },
                None => {},
            }
            i = i + 1;
        }
        proof {
            if i == permutation.len() && i < self.k {
                assert(permutation@.skip(i as int) =~= Seq::<usize>::empty());
            }
        }
        index
    }

    /// Decode to a full route that starts at city 0.
    pub fn decode_full_route(&self, index: usize) -> (route: Vec<usize>)
        ensures
            route@ == seq![0usize] + decode_spec(self@, index as nat),
            self@ >= 1 ==> crate::tour::is_tour(route@, self@),
    {
        proof {
            if self.n >= 1 {
                crate::tour::lemma_full_route_is_tour(self.n, index as nat);
            }
        }
        let mut route: Vec<usize> = Vec::new();
        route.push(0);
        let mut tail = self.decode(index);
        route.append(&mut tail);
        route
    }

    /// Total number of permutations, `(n-1)!`.
    pub fn total_permutations(&self) -> (t: usize)
        ensures
            t == route_count(self@),
    {
        proof {
            use_type_invariant(self);
        }
        self.total_permutations
    }

    /// Qubits needed to index every route: `ceil(log2((n-1)!))`, at least one.
    pub fn required_qubits(&self) -> (q: usize)
        ensures
            qubits_spec(q as nat, route_count(self@)),
    {
        proof {
            use_type_invariant(self);
        }
        self.required_qubits
    }

    /// Number of cities.
    pub fn n(&self) -> (n: usize)
        ensures
            n == self@,
    {
        self.n
    }

    /// Number of permuted cities, `n - 1` (0 when `n` is 0).
    pub fn k(&self) -> (k: usize)
        ensures
            k == perm_len(self@),
    {
        proof {
            use_type_invariant(self);
        }
        self.k
    }

    /// The factorials `0!, 1!, ..., k!`.
    pub fn factorials(&self) -> (f: Vec<usize>)
        ensures
            f@.len() == perm_len(self@) + 1,
            forall|j: int| 0 <= j < f@.len() ==> f@[j] == fact(j as nat),
    {
        proof {
            use_type_invariant(self);
        }
        let mut f: Vec<usize> = Vec::new();
        let mut j: usize = 0;
        while j < self.factorials.len()
            invariant
                j <= self.factorials@.len(),
                f@ == self.factorials@.subrange(0, j as int),
            decreases self.factorials@.len() - j,
        {
            f.push(self.factorials[j]);
            j = j + 1;
            assert(f@ =~= self.factorials@.subrange(0, j as int));
        }
        assert(f@ =~= self.factorials@);
        f
    }
}

/// Position of the first `x` in `v`.
fn find_position(v: &Vec<usize>, x: usize) -> (p: Option<usize>)
    ensures
        match p {
            Some(p) => p as int == position_of(v@, x),
            None => position_of(v@, x) < 0,
        },
{
    proof {
        lemma_position_of(v@, x);
    }
    let mut j: usize = 0;
    while j < v.len()
        invariant
            j <= v@.len(),
            forall|t: int| 0 <= t < j ==> v@[t] != x,
        decreases v@.len() - j,
    {
        if v[j] == x {
            proof {
                lemma_position_of(v@, x);
                assert(v@[j as int] == x);
            }
            return Some(j);
        }
        j = j + 1;
    }
    None
}

/// `ceil(log2(total))` for `total >= 2`.
fn ceil_log2(total: usize) -> (q: usize)
    requires
        total >= 2,
    ensures
        is_ceil_log2(q as nat, total as nat),
{
    let mut q: usize = 0;
    let mut p: u128 = 1;
    proof {
        vstd::arithmetic::power2::lemma2_to64();
    }
    while p < total as u128
        invariant
            q <= 64,
            p >= 1,
            p == vstd::arithmetic::power2::pow2(q as nat),
            q == 0 || vstd::arithmetic::power2::pow2((q - 1) as nat) < total,
            total >= 2,
        decreases 64 - q,
    {
        proof {
            vstd::arithmetic::power2::lemma_pow2_unfold((q + 1) as nat);
            vstd::arithmetic::power2::lemma_pow2_strictly_increases(q as nat, (q + 1) as nat);
            if q == 64 {
                vstd::arithmetic::power2::lemma2_to64_rest();
            }
        }
        p = p * 2;
        q = q + 1;
    }
    q
}

/// Whether `(n - 1)!`, the number of routes through `n` cities, fits in a `usize`.
pub fn route_count_fits(n: usize) -> (fits: bool)
    ensures
        fits == (route_count(n as nat) <= usize::MAX),
{
    let k = n.saturating_sub(1);
    let mut f: usize = 1;
    let mut i: usize = 1;
    while i <= k
        invariant
            1 <= i <= k + 1,
            k == perm_len(n as nat),
            k < usize::MAX,
            f == fact((i - 1) as nat),
        decreases k + 1 - i,
    {
        match f.checked_mul(i) {
            Some(v) => {
                proof {
                    lemma_mul_is_commutative(f as int, i as int);
                }
                f = v;
            },
            None => {
                proof {
                    lemma_mul_is_commutative(f as int, i as int);
                    lemma_fact_monotone(i as nat, k as nat);
                }
                return false;
            },
        }
        i = i + 1;
    }
    true
}

/// `n!`. It must fit in a `usize`.
pub fn factorial(n: usize) -> (f: usize)
    requires
        fact(n as nat) <= usize::MAX,
    ensures
        f == fact(n as nat),
{
    let mut f: usize = 1;
    let mut i: usize = 1;
    proof {
        if n >= 3 {
            lemma_fact_grows(n as nat);
        }
    }
    while i <= n
        invariant
            1 <= i <= n + 1,
            n < usize::MAX,
            f == fact((i - 1) as nat),
            fact(n as nat) <= usize::MAX,
        decreases n + 1 - i,
    {
        proof {
            lemma_fact_monotone(i as nat, n as nat);
            lemma_mul_is_commutative(f as int, i as int);
        }
        f = f * i;
        i = i + 1;
    }
    f
}

/// The first `steps` factorial-number-system digits of `rem`, most significant
/// first: the digit for weight `(steps-1)!` is not reduced, the rest are.
pub open spec fn factoradic(rem: nat, steps: nat) -> Seq<nat>
    decreases steps,
{
    if steps == 0 {
        Seq::empty()
    } else {
        let f = fact((steps - 1) as nat);
        seq![rem / f] + factoradic(rem % f, (steps - 1) as nat)
    }
}

/// The `k` factorial-number-system digits of `index` (weights `(k-1)!, ..., 0!`).
/// `k!` must fit in a `usize`.
pub fn factoradic_digits(index: usize, k: usize) -> (digits: Vec<usize>)
    requires
        fact(k as nat) <= usize::MAX,
    ensures
        digits@.len() == k,
        forall|j: int| 0 <= j < k ==> digits@[j] == factoradic(index as nat, k as nat)[j],
{
    let mut factorials: Vec<usize> = Vec::new();
    let mut i: usize = 0;
    proof {
        if k >= 3 {
            lemma_fact_grows(k as nat);
        }
    }
    while i <= k
        invariant
            i <= k + 1,
            k < usize::MAX,
            factorials@.len() == i,
            forall|j: int| 0 <= j < i ==> factorials@[j] == fact(j as nat),
            fact(k as nat) <= usize::MAX,
        decreases k + 1 - i,
    {
        proof {
            lemma_fact_monotone(i as nat, k as nat);
        }
        factorials.push(factorial(i));
        i = i + 1;
    }
    let mut remaining = index;
    let mut digits: Vec<usize> = Vec::new();
    let mut i = k;
    let ghost target = factoradic(index as nat, k as nat);
    proof {
        lemma_factoradic_len(index as nat, k as nat);
    }
    while i > 0
        invariant
            i <= k,
            factorials@.len() == k + 1,
            forall|j: int| 0 <= j <= k ==> factorials@[j] == fact(j as nat),
            target.len() == k,
            digits@.len() == k - i,
            forall|j: int| 0 <= j < k - i ==> digits@[j] == target[j],
            forall|j: int| 0 <= j < i ==> factoradic(remaining as nat, i as nat)[j] == target[j + k - i],
            factoradic(remaining as nat, i as nat).len() == i,
        decreases i,
    {
        i = i - 1;
        let fact = if i == 0 {
            1
        } else {
            factorials[i]
        };
        proof {
            lemma_fact_positive(i as nat);
            lemma_factoradic_len(remaining as nat % fact as nat, i as nat);
        }
        let ghost old_rem = remaining;
        let ghost before = factoradic(old_rem as nat, (i + 1) as nat);
        assert(before[0] == old_rem / fact);
        digits.push(remaining / fact);
        remaining = remaining % fact;
        assert forall|j: int| 0 <= j < i implies factoradic(remaining as nat, i as nat)[j] == target[j + k - i] by {
            assert(factoradic(remaining as nat, i as nat)[j] == before[j + 1]);
        }
    }
    digits
}

proof fn lemma_factoradic_len(rem: nat, steps: nat)
    ensures
        factoradic(rem, steps).len() == steps,
    decreases steps,
{
    if steps > 0 {
        lemma_fact_positive((steps - 1) as nat);
        lemma_factoradic_len(rem % fact((steps - 1) as nat), (steps - 1) as nat);
    }
}

/// The decimal digit `d` (below 10) as a character.
pub open spec fn digit_char(d: nat) -> char {
    if d == 0 {
        '0'
    } else if d == 1 {
        '1'
    } else if d == 2 {
        '2'
    } else if d == 3 {
        '3'
    } else if d == 4 {
        '4'
    } else if d == 5 {
        '5'
    } else if d == 6 {
        '6'
    } else if d == 7 {
        '7'
    } else if d == 8 {
        '8'
    } else {
        '9'
    }
}

/// `x` written in decimal, without leading zeros.
pub open spec fn decimal_text(x: nat) -> Seq<char>
    decreases x,
{
    if x < 10 {
        seq![digit_char(x)]
    } else {
        decimal_text(x / 10).push(digit_char(x % 10))
    }
}

/// The entries of `v` in decimal, separated by `", "`.
pub open spec fn joined_text(v: Seq<usize>) -> Seq<char>
    decreases v.len(),
{
    if v.len() == 0 {
        Seq::empty()
    } else if v.len() == 1 {
        decimal_text(v[0] as nat)
    } else {
        joined_text(v.drop_last()) + seq![',', ' '] + decimal_text(v.last() as nat)
    }
}

/// A list of integers as debug text: `[`, the entries in decimal separated by `", "`, then `]`.
pub open spec fn debug_list_text(v: Seq<usize>) -> Seq<char> {
    seq!['['] + joined_text(v) + seq![']']
}

/// Append the decimal digit `d`.
fn push_digit(s: &mut String, d: usize)
    requires
        d < 10,
    ensures
        final(s)@ == old(s)@.push(digit_char(d as nat)),
{
    match d {
        0 => {
            proof {
                reveal_strlit("0");
            }
            s.append("0");
        },
        1 => {
            proof {
                reveal_strlit("1");
            }
            s.append("1");
        },
        2 => {
            proof {
                reveal_strlit("2");
            }
            s.append("2");
        },
        3 => {
            proof {
                reveal_strlit("3");
            }
            s.append("3");
        },
        4 => {
            proof {
                reveal_strlit("4");
            }
            s.append("4");
        },
        5 => {
            proof {
                reveal_strlit("5");
            }
            s.append("5");
        },
        6 => {
            proof {
                reveal_strlit("6");
            }
            s.append("6");
        },
        7 => {
            proof {
                reveal_strlit("7");
            }
            s.append("7");
        },
        8 => {
            proof {
                reveal_strlit("8");
            }
            s.append("8");
        },
        _ => {
            proof {
                reveal_strlit("9");
            }
            s.append("9");
        },
    }
}

/// Append `x` in decimal.
fn push_decimal(s: &mut String, x: usize)
    ensures
        final(s)@ == old(s)@ + decimal_text(x as nat),
    decreases x,
{
    let ghost start = s@;
    if x >= 10 {
        push_decimal(s, x / 10);
    }
    push_digit(s, x % 10);
    assert(s@ =~= start + decimal_text(x as nat));
}

/// The debug text of a list of integers, such as `[1, 1, 0]`.
pub fn debug_list(v: &Vec<usize>) -> (s: String)
    ensures
        s@ == debug_list_text(v@),
{
    let mut s = String::new();
    proof {
        reveal_strlit("[");
        reveal_strlit(", ");
        reveal_strlit("]");
    }
    s.append("[");
    assert(v@.take(0) =~= Seq::<usize>::empty());
    let mut t: usize = 0;
    while t < v.len()
        invariant
            t <= v@.len(),
            s@ == seq!['['] + joined_text(v@.take(t as int)),
            ", "@ == seq![',', ' '],
        decreases v@.len() - t,
    {
        let ghost before = v@.take(t as int);
        assert(v@.take(t + 1).drop_last() =~= before);
        assert(v@.take(t + 1).last() == v@[t as int]);
        if t > 0 {
            s.append(", ");
        } else {
            assert(before =~= Seq::<usize>::empty());
        }
        push_decimal(&mut s, v[t]);
        t = t + 1;
        assert(s@ =~= seq!['['] + joined_text(v@.take(t as int)));
    }
    assert(v@.take(v@.len() as int) =~= v@);
    s.append("]");
    assert(s@ =~= debug_list_text(v@));
    s
}

/// The factorial-number-system digits of `index` over `k` digits, as the
/// debug text of the digit list (for example `[1, 1, 0]`).
pub fn decoder_digits(index: usize, k: usize) -> (s: String)
    requires
        fact(k as nat) <= usize::MAX,
    ensures
        s@ == debug_list_text(factoradic(index as nat, k as nat).map_values(|d: nat| d as usize)),
{
    let digits = factoradic_digits(index, k);
    proof {
        lemma_factoradic_len(index as nat, k as nat);
        assert(digits@ =~= factoradic(index as nat, k as nat).map_values(|d: nat| d as usize));
    }
    debug_list(&digits)
}

} // verus!
