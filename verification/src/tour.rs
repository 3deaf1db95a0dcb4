//! Route structure: tour validity, merging of partial routes, 2-opt moves.
use vstd::prelude::*;
use crate::lehmer::{range_seq, lemma_range_seq, decode_spec, is_city_perm, lemma_decode_is_permutation};

verus! {

broadcast use vstd::std_specs::hash::group_hash_axioms;

/// `route` visits every city `0..n` exactly once.
pub open spec fn is_tour(route: Seq<usize>, n: nat) -> bool {
    &&& route.len() == n
    &&& route.no_duplicates()
    &&& forall|i: int| 0 <= i < route.len() ==> #[trigger] route[i] < n
}

/// The first occurrence of every element of `s`, in order.
pub open spec fn first_occurrences(s: Seq<usize>) -> Seq<usize>
    decreases s.len(),
{
    if s.len() == 0 {
        Seq::empty()
    } else {
        let p = first_occurrences(s.drop_last());
        if p.contains(s.last()) {
            p
        } else {
            p.push(s.last())
        }
    }
}

/// Flatten a list of routes.
pub open spec fn flatten(routes: Seq<Seq<usize>>) -> Seq<usize>
    decreases routes.len(),
{
    if routes.len() == 0 {
        Seq::empty()
    } else {
        flatten(routes.drop_last()) + routes.last()
    }
}

/// The routes of length `len`, in their given order.
pub open spec fn with_length(routes: Seq<Seq<usize>>, len: nat) -> Seq<Seq<usize>> {
    routes.filter(|r: Seq<usize>| r.len() == len)
}

/// The routes grouped by length for the lengths `hi, hi - 1, ...` (`count` groups);
/// each group keeps the given order of its routes.
pub open spec fn length_groups(routes: Seq<Seq<usize>>, hi: nat, count: nat) -> Seq<Seq<usize>>
    decreases count,
{
    if count == 0 {
        Seq::empty()
    } else {
        with_length(routes, hi) + length_groups(routes, (hi - 1) as nat, (count - 1) as nat)
    }
}

/// The longest length among `routes` (0 when there are none).
pub open spec fn max_length(routes: Seq<Seq<usize>>) -> nat
    decreases routes.len(),
{
    if routes.len() == 0 {
        0
    } else {
        let m = max_length(routes.drop_last());
        if routes.last().len() > m {
            routes.last().len()
        } else {
            m
        }
    }
}

/// `routes` sorted by decreasing length; routes of equal length keep their
/// given order (a stable sort).
pub open spec fn longest_first(routes: Seq<Seq<usize>>) -> Seq<Seq<usize>> {
    length_groups(routes, max_length(routes), max_length(routes) + 1)
}

/// The cities of the routes, longest route first, each city kept at its first occurrence.
pub open spec fn merged_cities(routes: Seq<Seq<usize>>) -> Seq<usize> {
    first_occurrences(flatten(longest_first(routes)))
}

/// The value of each route.
pub open spec fn route_views(routes: Seq<Vec<usize>>) -> Seq<Seq<usize>> {
    routes.map_values(|r: Vec<usize>| r@)
}

/// The cities `0..n` that do not occur in `s`, ascending.
pub open spec fn missing_from(s: Seq<usize>, n: nat) -> Seq<usize>
    decreases n,
{
    if n == 0 {
        Seq::empty()
    } else {
        let rest = missing_from(s, (n - 1) as nat);
        if s.contains((n - 1) as usize) {
            rest
        } else {
            rest.push((n - 1) as usize)
        }
    }
}

/// The cities at the positions listed in `local_route`.
pub open spec fn map_route(local_route: Seq<usize>, cities: Seq<usize>) -> Seq<usize> {
    local_route.map_values(|i: usize| cities[i as int])
}

/// `route` with the segment `i..=j` reversed.
pub open spec fn reverse_segment(route: Seq<usize>, i: int, j: int) -> Seq<usize> {
    route.subrange(0, i) + route.subrange(i, j + 1).reverse() + route.subrange(j + 1, route.len() as int)
}

/// The first occurrences hold each element of `s` once.
pub proof fn lemma_first_occurrences(s: Seq<usize>)
    ensures
        first_occurrences(s).no_duplicates(),
        forall|x: usize| first_occurrences(s).contains(x) <==> s.contains(x),
    decreases s.len(),
{
    if s.len() > 0 {
        let d = s.drop_last();
        lemma_first_occurrences(d);
        assert forall|x: usize| s.contains(x) <==> (d.contains(x) || x == s.last()) by {
            if s.contains(x) {
                let i = choose|i: int| 0 <= i < s.len() && s[i] == x;
                if i < s.len() - 1 {
                    assert(d[i] == x);
                }
            }
            if d.contains(x) {
                let i = choose|i: int| 0 <= i < d.len() && d[i] == x;
                assert(s[i] == x);
            }
        }
        let p = first_occurrences(d);
        if !p.contains(s.last()) {
            assert forall|x: usize| p.push(s.last()).contains(x) <==> (p.contains(x) || x == s.last()) by {
                if p.push(s.last()).contains(x) {
                    let i = choose|i: int| 0 <= i < p.len() + 1 && p.push(s.last())[i] == x;
                    if i < p.len() {
                        assert(p[i] == x);
                    }
                }
                if p.contains(x) {
                    let i = choose|i: int| 0 <= i < p.len() && p[i] == x;
                    assert(p.push(s.last())[i] == x);
                }
                if x == s.last() {
                    assert(p.push(s.last())[p.len() as int] == x);
                }
            }
        }
    }
}

pub(crate) proof fn lemma_flatten_push(routes: Seq<Seq<usize>>, r: Seq<usize>)
    ensures
        flatten(routes.push(r)) == flatten(routes) + r,
{
    assert(routes.push(r).drop_last() =~= routes);
}

proof fn lemma_flatten_add(a: Seq<Seq<usize>>, b: Seq<Seq<usize>>)
    ensures
        flatten(a + b) == flatten(a) + flatten(b),
    decreases b.len(),
{
    if b.len() == 0 {
        assert(a + b =~= a);
        assert(flatten(a) + flatten(b) =~= flatten(a));
    } else {
        lemma_flatten_add(a, b.drop_last());
        assert(a + b =~= (a + b.drop_last()).push(b.last()));
        lemma_flatten_push(a + b.drop_last(), b.last());
        assert(b =~= b.drop_last().push(b.last()));
        lemma_flatten_push(b.drop_last(), b.last());
        assert(flatten(a + b) =~= flatten(a) + flatten(b));
    }
}

proof fn lemma_length_groups_step(routes: Seq<Seq<usize>>, hi: nat, count: nat)
    requires
        count <= hi,
    ensures
        length_groups(routes, hi, count + 1) == length_groups(routes, hi, count) + with_length(
            routes,
            (hi - count) as nat,
        ),
    decreases count,
{
    if count > 0 {
        lemma_length_groups_step(routes, (hi - 1) as nat, (count - 1) as nat);
        assert(length_groups(routes, hi, count + 1) =~= length_groups(routes, hi, count) + with_length(
            routes,
            (hi - count) as nat,
        ));
    } else {
        assert(length_groups(routes, (hi - 1) as nat, 0) =~= Seq::<Seq<usize>>::empty());
        assert(length_groups(routes, hi, 1) =~= with_length(routes, hi));
        assert(length_groups(routes, hi, 0) =~= Seq::<Seq<usize>>::empty());
    }
}

proof fn lemma_max_length_take(routes: Seq<Seq<usize>>, i: int)
    requires
        0 <= i < routes.len(),
    ensures
        max_length(routes.take(i + 1)) == if routes[i].len() > max_length(routes.take(i)) {
            routes[i].len()
        } else {
            max_length(routes.take(i))
        },
{
    assert(routes.take(i + 1).drop_last() =~= routes.take(i));
}

proof fn lemma_flatten_contains(rs: Seq<Seq<usize>>, x: usize)
    ensures
        flatten(rs).contains(x) <==> exists|i: int| 0 <= i < rs.len() && #[trigger] rs[i].contains(x),
    decreases rs.len(),
{
    if rs.len() > 0 {
        let d = rs.drop_last();
        lemma_flatten_contains(d, x);
        let f = flatten(rs);
        let fd = flatten(d);
        assert(f == fd + rs.last());
        if f.contains(x) {
            let k = choose|k: int| 0 <= k < f.len() && f[k] == x;
            if k < fd.len() {
                assert(fd[k] == x);
                let i = choose|i: int| 0 <= i < d.len() && #[trigger] d[i].contains(x);
                assert(rs[i] == d[i]);
            } else {
                assert(rs.last()[k - fd.len()] == x);
                assert(rs[rs.len() - 1].contains(x));
            }
        }
        if exists|i: int| 0 <= i < rs.len() && #[trigger] rs[i].contains(x) {
            let i = choose|i: int| 0 <= i < rs.len() && #[trigger] rs[i].contains(x);
            if i < rs.len() - 1 {
                assert(d[i] == rs[i]);
                assert(fd.contains(x));
                let k = choose|k: int| 0 <= k < fd.len() && fd[k] == x;
                assert(f[k] == x);
            } else {
                let k = choose|k: int| 0 <= k < rs.last().len() && rs.last()[k] == x;
                assert(f[fd.len() + k] == x);
            }
        }
    }
}

proof fn lemma_max_length_bound(routes: Seq<Seq<usize>>, i: int)
    requires
        0 <= i < routes.len(),
    ensures
        routes[i].len() <= max_length(routes),
    decreases routes.len(),
{
    if i < routes.len() - 1 {
        lemma_max_length_bound(routes.drop_last(), i);
        assert(routes.drop_last()[i] == routes[i]);
    }
}

proof fn lemma_length_groups_contains(routes: Seq<Seq<usize>>, hi: nat, count: nat, r: Seq<usize>)
    requires
        count <= hi + 1,
    ensures
        length_groups(routes, hi, count).contains(r) <==> (routes.contains(r) && hi + 1 - count <= r.len()
            <= hi),
    decreases count,
{
    broadcast use vstd::seq_lib::group_filter_ensures;

    if count > 0 {
        lemma_length_groups_contains(routes, (hi - 1) as nat, (count - 1) as nat, r);
        let w = with_length(routes, hi);
        let rest = length_groups(routes, (hi - 1) as nat, (count - 1) as nat);
        let g = length_groups(routes, hi, count);
        assert(g == w + rest);
        if g.contains(r) {
            let k = choose|k: int| 0 <= k < g.len() && g[k] == r;
            if k < w.len() {
                assert(w[k] == r);
                assert(w.contains(r));
                routes.lemma_filter_contains_rev(|x: Seq<usize>| x.len() == hi, r);
            } else {
                assert(rest[k - w.len()] == r);
            }
        }
        if routes.contains(r) && hi + 1 - count <= r.len() <= hi {
            let k = choose|k: int| 0 <= k < routes.len() && routes[k] == r;
            if r.len() == hi {
                routes.lemma_filter_contains(|x: Seq<usize>| x.len() == hi, k);
                let j = choose|j: int| 0 <= j < w.len() && w[j] == r;
                assert(g[j] == r);
            } else {
                assert(rest.contains(r));
                let j = choose|j: int| 0 <= j < rest.len() && rest[j] == r;
                assert(g[w.len() + j] == r);
            }
        }
    }
}

proof fn lemma_flatten_groups_contains(views: Seq<Seq<usize>>, max_len: nat)
    requires
        max_len == max_length(views),
    ensures
        forall|x: usize| flatten(length_groups(views, max_len, max_len + 1)).contains(x) <==> flatten(
            views,
        ).contains(x),
{
    let g = length_groups(views, max_len, max_len + 1);
    assert forall|x: usize| flatten(g).contains(x) <==> flatten(views).contains(x) by {
        lemma_flatten_contains(g, x);
        lemma_flatten_contains(views, x);
        if flatten(g).contains(x) {
            let i = choose|i: int| 0 <= i < g.len() && #[trigger] g[i].contains(x);
            assert(g.contains(g[i]));
            lemma_length_groups_contains(views, max_len, max_len + 1, g[i]);
            let k = choose|k: int| 0 <= k < views.len() && views[k] == g[i];
            assert(views[k].contains(x));
        }
        if flatten(views).contains(x) {
            let i = choose|i: int| 0 <= i < views.len() && #[trigger] views[i].contains(x);
            lemma_max_length_bound(views, i);
            assert(views.contains(views[i]));
            lemma_length_groups_contains(views, max_len, max_len + 1, views[i]);
            let k = choose|k: int| 0 <= k < g.len() && g[k] == views[i];
            assert(g[k].contains(x));
        }
    }
}

proof fn lemma_missing_from(s: Seq<usize>, n: nat)
    requires
        n <= usize::MAX + 1,
    ensures
        missing_from(s, n).no_duplicates(),
        forall|x: usize| #[trigger] missing_from(s, n).contains(x) <==> (x < n && !s.contains(x)),
    decreases n,
{
    if n > 0 {
        let rest = missing_from(s, (n - 1) as nat);
        lemma_missing_from(s, (n - 1) as nat);
        let c = (n - 1) as usize;
        if !s.contains(c) {
            let m = rest.push(c);
            assert forall|x: usize| m.contains(x) <==> (rest.contains(x) || x == c) by {
                if m.contains(x) {
                    let i = choose|i: int| 0 <= i < m.len() && m[i] == x;
                    if i < rest.len() {
                        assert(rest[i] == x);
                    }
                }
                if rest.contains(x) {
                    let i = choose|i: int| 0 <= i < rest.len() && rest[i] == x;
                    assert(m[i] == x);
                }
                if x == c {
                    assert(m[rest.len() as int] == x);
                }
            }
            assert forall|i: int, j: int| 0 <= i < m.len() && 0 <= j < m.len() && i != j implies m[i] != m[j] by {
                if i < rest.len() && j < rest.len() {
                } else if i < rest.len() {
                    assert(rest.contains(m[i]));
                } else {
                    assert(rest.contains(m[j]));
                }
            }
        }
    }
}

/// The merged cities followed by the missing ones form a tour, provided every
/// merged city is one of `0..n` and none repeats.
pub proof fn lemma_merged_plus_missing_is_tour(s: Seq<usize>, n: usize)
    requires
        s.no_duplicates(),
        forall|i: int| 0 <= i < s.len() ==> #[trigger] s[i] < n,
    ensures
        is_tour(s + missing_from(s, n as nat), n as nat),
{
    let m = missing_from(s, n as nat);
    lemma_missing_from(s, n as nat);
    let t = s + m;
    assert forall|i: int, j: int| 0 <= i < t.len() && 0 <= j < t.len() && i != j implies t[i] != t[j] by {
        if i < s.len() && j >= s.len() {
            assert(m.contains(t[j]));
            assert(s.contains(t[i]));
        } else if j < s.len() && i >= s.len() {
            assert(m.contains(t[i]));
            assert(s.contains(t[j]));
        }
    }
    assert forall|i: int| 0 <= i < t.len() implies #[trigger] t[i] < n by {
        if i >= s.len() {
            assert(t[i] == m[i - s.len()]);
            assert(m.contains(t[i]));
        } else {
            assert(t[i] == s[i]);
        }
    }
    let r = range_seq(0, n as nat);
    lemma_range_seq(0, n as nat);
    assert(t.to_set() =~= r.to_set()) by {
        assert forall|x: usize| t.contains(x) <==> r.contains(x) by {
            if t.contains(x) {
                let i = choose|i: int| 0 <= i < t.len() && t[i] == x;
                assert(t[i] < n);
            }
            if r.contains(x) {
                if s.contains(x) {
                    let i = choose|i: int| 0 <= i < s.len() && s[i] == x;
                    assert(t[i] == x);
                } else {
                    assert(m.contains(x));
                    let i = choose|i: int| 0 <= i < m.len() && m[i] == x;
                    assert(t[s.len() + i] == x);
                }
            }
        }
    }
    t.unique_seq_to_set();
    r.unique_seq_to_set();
}

proof fn lemma_reverse_segment_index(route: Seq<usize>, i: int, j: int, t: int)
    requires
        0 <= i <= j < route.len(),
        0 <= t < route.len(),
    ensures
        reverse_segment(route, i, j).len() == route.len(),
        reverse_segment(route, i, j)[t] == route[if i <= t <= j { i + j - t } else { t }],
{
    let a = route.subrange(0, i);
    let b = route.subrange(i, j + 1).reverse();
    let c = route.subrange(j + 1, route.len() as int);
    let r = reverse_segment(route, i, j);
    assert(r == a + b + c);
    if t < i {
        assert(r[t] == a[t]);
    } else if t <= j {
        assert(r[t] == b[t - i]);
        assert(b[t - i] == route.subrange(i, j + 1)[j - t]);
    } else {
        assert(r[t] == c[t - j - 1]);
    }
}

/// A 2-opt move turns a tour into a tour over the same cities.
pub proof fn lemma_two_opt_move_keeps_tour(route: Seq<usize>, n: nat, i: int, j: int)
    requires
        is_tour(route, n),
        0 <= i <= j < route.len(),
    ensures
        is_tour(reverse_segment(route, i, j), n),
{
    let r = reverse_segment(route, i, j);
    assert forall|t: int| 0 <= t < r.len() implies #[trigger] r[t] < n by {
        lemma_reverse_segment_index(route, i, j, t);
    }
    assert forall|a: int, b: int| 0 <= a < r.len() && 0 <= b < r.len() && a != b implies r[a] != r[b] by {
        lemma_reverse_segment_index(route, i, j, a);
        lemma_reverse_segment_index(route, i, j, b);
    }
    lemma_reverse_segment_index(route, i, j, 0);
}

/// A tour over the positions of `cities` (all distinct) visits every city once.
pub proof fn lemma_map_route_permutes(local_route: Seq<usize>, cities: Seq<usize>)
    requires
        cities.len() <= usize::MAX,
        is_tour(local_route, cities.len()),
        cities.no_duplicates(),
    ensures
        map_route(local_route, cities).len() == cities.len(),
        map_route(local_route, cities).no_duplicates(),
        forall|x: usize| map_route(local_route, cities).contains(x) <==> cities.contains(x),
{
    let g = map_route(local_route, cities);
    assert forall|x: usize| g.contains(x) <==> cities.contains(x) by {
        if g.contains(x) {
            let i = choose|i: int| 0 <= i < g.len() && g[i] == x;
            assert(local_route[i] < cities.len());
        }
        if cities.contains(x) {
            let k = choose|k: int| 0 <= k < cities.len() && cities[k] == x;
            lemma_tour_covers(local_route, cities.len() as usize, k as usize);
            let i = choose|i: int| 0 <= i < local_route.len() && local_route[i] == k;
            assert(g[i] == x);
        }
    }
}

/// Every city `0..n` occurs in a tour over `n` cities.
pub proof fn lemma_tour_covers(route: Seq<usize>, n: usize, c: usize)
    requires
        is_tour(route, n as nat),
        c < n,
    ensures
        route.contains(c),
{
    let r = range_seq(0, n as nat);
    lemma_range_seq(0, n as nat);
    route.unique_seq_to_set();
    r.unique_seq_to_set();
    assert(route.to_set().subset_of(r.to_set())) by {
        assert forall|x: usize| route.to_set().contains(x) implies r.to_set().contains(x) by {
            let i = choose|i: int| 0 <= i < route.len() && route[i] == x;
            assert(route[i] < n);
        }
    }
    vstd::set_lib::lemma_subset_equality(route.to_set(), r.to_set());
    assert(r[c as int] == c);
    assert(r.to_set().contains(c));
    assert(route.to_set().contains(c));
}

/// A decoded route with city 0 in front is a tour over all `n >= 1` cities.
pub proof fn lemma_full_route_is_tour(n: usize, index: nat)
    requires
        n >= 1,
    ensures
        is_tour(seq![0usize] + decode_spec(n as nat, index), n as nat),
{
    lemma_decode_is_permutation(n, index);
    let p = decode_spec(n as nat, index);
    let r = seq![0usize] + p;
    assert forall|i: int| 0 <= i < r.len() implies #[trigger] r[i] < n by {
        if i > 0 {
            assert(r[i] == p[i - 1]);
        }
    }
    assert forall|a: int, b: int| 0 <= a < r.len() && 0 <= b < r.len() && a != b implies r[a] != r[b] by {
        if a > 0 {
            assert(r[a] == p[a - 1]);
        }
        if b > 0 {
            assert(r[b] == p[b - 1]);
        }
    }
}

/// Adding an element to the end of a sequence adds it to its set.
pub proof fn lemma_push_to_set(s: Seq<usize>, x: usize)
    ensures
        s.push(x).to_set() == s.to_set().insert(x),
{
    let q = s.push(x);
    assert forall|y: usize| q.contains(y) <==> (s.contains(y) || y == x) by {
        if q.contains(y) {
            let i = choose|i: int| 0 <= i < q.len() && q[i] == y;
            if i < s.len() {
                assert(s[i] == y);
            }
        }
        if s.contains(y) {
            let i = choose|i: int| 0 <= i < s.len() && s[i] == y;
            assert(q[i] == y);
        }
        if y == x {
            assert(q[s.len() as int] == y);
        }
    }
    assert(q.to_set() =~= s.to_set().insert(x));
}

/// The next step of combining leaf routes into a tour.
pub enum CombineStep {
    /// There are no leaf routes: a nearest-neighbour tour is built instead.
    NearestNeighbour,
    /// The merged routes already hold `n` cities: they are the tour.
    Complete(Vec<usize>),
    /// The merged routes, and the cities still to insert into them, ascending.
    Insert(Vec<usize>, Vec<usize>),
}

/// Checks and merges routes over the cities `0..n`.
pub struct TourCombiner {
    n: usize,
}

impl View for TourCombiner {
    type V = nat;

    /// The number of cities.
    closed spec fn view(&self) -> nat {
        self.n as nat
    }
}

impl TourCombiner {
    /// A combiner for the cities `0..n`.
    pub fn new(n: usize) -> (c: Self)
        ensures
            c@ == n,
    {
        TourCombiner { n }
    }

    /// Number of cities.
    pub fn n(&self) -> (n: usize)
        ensures
            n == self@,
    {
        self.n
    }

    /// Merge the leaf routes (longest first, each city once) and decide what is
    /// left to do: nothing when they already hold `n` cities, else insert the
    /// missing ones; with no leaf routes at all, fall back to nearest neighbour.
    pub fn combine_step(&self, leaf_routes: &[Vec<usize>]) -> (step: CombineStep)
        ensures
            match step {
                CombineStep::NearestNeighbour => leaf_routes@.len() == 0,
                CombineStep::Complete(t) => {
                    &&& leaf_routes@.len() > 0
                    &&& t@ == merged_cities(route_views(leaf_routes@))
                    &&& t@.len() == self@
                },
                CombineStep::Insert(t, m) => {
                    &&& leaf_routes@.len() > 0
                    &&& t@ == merged_cities(route_views(leaf_routes@))
                    &&& t@.len() != self@
                    &&& m@ == missing_from(t@, self@)
                },
            },
    {
        if leaf_routes.len() == 0 {
            return CombineStep::NearestNeighbour;
        }
        let ordered = merge_leaf_routes(leaf_routes);
        if ordered.len() == self.n {
            return CombineStep::Complete(ordered);
        }
        let missing = missing_cities(&ordered, self.n);
        CombineStep::Insert(ordered, missing)
    }

    /// Whether `route` visits every city `0..n` exactly once
    /// (its sorted copy is `0, 1, ..., n-1`).
    pub fn validate(&self, route: &[usize]) -> (ok: bool)
        ensures
            ok == is_tour(route@, self@),
    {
        let n = self.n;
        if route.len() != n {
            return false;
        }
        let mut seen: Vec<bool> = vec![false; n];
        let mut i: usize = 0;
        while i < route.len()
            invariant
                i <= route@.len(),
                route@.len() == n,
                n == self@,
                seen@.len() == n,
                forall|c: int| 0 <= c < n ==> (seen@[c] <==> exists|j: int| 0 <= j < i && route@[j] == c),
                forall|j: int| 0 <= j < i ==> route@[j] < n,
                forall|a: int, b: int| 0 <= a < i && 0 <= b < i && a != b ==> route@[a] != route@[b],
            decreases route@.len() - i,
        {
            let c = route[i];
            if c >= n {
                assert(!is_tour(route@, self@)) by {
                    assert(!(route@[i as int] < n));
                }
                return false;
            }
            if seen[c] {
                assert(!is_tour(route@, self@)) by {
                    let j = choose|j: int| 0 <= j < i && route@[j] == c;
                    assert(route@[j] == route@[i as int]);
                }
                return false;
            }
            seen.set(c, true);
            i = i + 1;
            assert forall|x: int| 0 <= x < n implies (seen@[x] <==> exists|j: int|
                0 <= j < i && route@[j] == x) by {
                if x == c {
                    assert(route@[i - 1] == x);
                } else if seen@[x] {
                    let j = choose|j: int| 0 <= j < i - 1 && route@[j] == x;
                    assert(0 <= j < i && route@[j] == x);
                }
            }
        }
        true
    }
}

/// The route with the segment `i..=j` reversed (a 2-opt move).
pub fn two_opt_move(route: &Vec<usize>, i: usize, j: usize) -> (candidate: Vec<usize>)
    requires
        i <= j < route@.len(),
    ensures
        candidate@ == reverse_segment(route@, i as int, j as int),
{
    let len = route.len();
    let mut candidate: Vec<usize> = Vec::new();
    let mut t: usize = 0;
    while t < i
        invariant
            t <= i <= j < route@.len(),
            len == route@.len(),
            candidate@ == route@.subrange(0, t as int),
        decreases i - t,
    {
        candidate.push(route[t]);
        t = t + 1;
        assert(candidate@ =~= route@.subrange(0, t as int));
    }
    let mut t: usize = j + 1;
    while t > i
        invariant
            i <= t <= j + 1,
            j < route@.len(),
            candidate@ == route@.subrange(0, i as int) + route@.subrange(t as int, j + 1).reverse(),
        decreases t - i,
    {
        t = t - 1;
        candidate.push(route[t]);
        assert(route@.subrange(t as int, j + 1).reverse() =~= route@.subrange(t + 1, j + 1).reverse().push(
            route@[t as int],
        ));
        assert(candidate@ =~= route@.subrange(0, i as int) + route@.subrange(t as int, j + 1).reverse());
    }
    let mut t: usize = j + 1;
    while t < route.len()
        invariant
            i <= j < t <= route@.len(),
            candidate@ == route@.subrange(0, i as int) + route@.subrange(i as int, j + 1).reverse()
                + route@.subrange(j + 1, t as int),
        decreases route@.len() - t,
    {
        candidate.push(route[t]);
        t = t + 1;
        assert(candidate@ =~= route@.subrange(0, i as int) + route@.subrange(i as int, j + 1).reverse()
            + route@.subrange(j + 1, t as int));
    }
    candidate
}

/// The route followed by its first city again.
pub fn close_route(route: &Vec<usize>) -> (closed: Vec<usize>)
    requires
        route@.len() > 0,
    ensures
        closed@ == route@.push(route@[0]),
{
    let mut closed: Vec<usize> = Vec::new();
    let mut t: usize = 0;
    while t < route.len()
        invariant
            t <= route@.len(),
            closed@ == route@.subrange(0, t as int),
        decreases route@.len() - t,
    {
        closed.push(route[t]);
        t = t + 1;
        assert(closed@ =~= route@.subrange(0, t as int));
    }
    assert(closed@ =~= route@);
    closed.push(route[0]);
    closed
}

/// Map a route over local positions into the cities at those positions.
pub fn map_local_route(local_route: &Vec<usize>, cities: &Vec<usize>) -> (global: Vec<usize>)
    requires
        forall|i: int| 0 <= i < local_route@.len() ==> #[trigger] local_route@[i] < cities@.len(),
    ensures
        global@ == map_route(local_route@, cities@),
{
    let mut global: Vec<usize> = Vec::new();
    let mut t: usize = 0;
    while t < local_route.len()
        invariant
            t <= local_route@.len(),
            forall|i: int| 0 <= i < local_route@.len() ==> #[trigger] local_route@[i] < cities@.len(),
            global@.len() == t,
            forall|i: int| 0 <= i < t ==> #[trigger] global@[i] == cities@[local_route@[i] as int],
        decreases local_route@.len() - t,
    {
        global.push(cities[local_route[t]]);
        t = t + 1;
    }
    assert(global@ =~= map_route(local_route@, cities@));
    global
}

/// The cities of `leaf_routes`, longest route first (a stable sort by
/// decreasing length), each city kept at its first occurrence.
pub fn merge_leaf_routes(leaf_routes: &[Vec<usize>]) -> (ordered: Vec<usize>)
    ensures
        ordered@ == merged_cities(route_views(leaf_routes@)),
        ordered@.no_duplicates(),
        forall|x: usize| ordered@.contains(x) <==> flatten(route_views(leaf_routes@)).contains(x),
{
    let ghost views = route_views(leaf_routes@);
    let m = leaf_routes.len();
    let mut max_len: usize = 0;
    let mut r: usize = 0;
    while r < m
        invariant
            r <= m,
            m == leaf_routes@.len(),
            views == route_views(leaf_routes@),
            max_len == max_length(views.take(r as int)),
        decreases m - r,
    {
        proof {
            lemma_max_length_take(views, r as int);
        }
        if leaf_routes[r].len() > max_len {
            max_len = leaf_routes[r].len();
        }
        r = r + 1;
    }
    assert(views.take(m as int) =~= views);
    let mut ordered: Vec<usize> = Vec::new();
    let mut all_cities: std::collections::HashSet<usize> = std::collections::HashSet::new();
    let ghost mut processed: Seq<usize> = Seq::empty();
    let mut l: usize = max_len;
    let ghost mut done: nat = 0;
    assert(first_occurrences(processed) =~= ordered@);
    assert(length_groups(views, max_len as nat, 0) =~= Seq::<Seq<usize>>::empty());
    loop
        invariant_except_break
            l + done == max_len,
            m == leaf_routes@.len(),
            views == route_views(leaf_routes@),
            processed == flatten(length_groups(views, max_len as nat, done)),
            ordered@ == first_occurrences(processed),
            all_cities@ == processed.to_set(),
        ensures
            processed == flatten(length_groups(views, max_len as nat, (max_len + 1) as nat)),
            ordered@ == first_occurrences(processed),
        decreases l,
    {
        let ghost bucket_start = processed;
        let mut r: usize = 0;
        while r < m
            invariant
                r <= m,
                m == leaf_routes@.len(),
                views == route_views(leaf_routes@),
                processed == bucket_start + flatten(with_length(views.take(r as int), l as nat)),
                ordered@ == first_occurrences(processed),
                all_cities@ == processed.to_set(),
            decreases m - r,
        {
            let ghost before = processed;
            proof {
                assert(views.take(r + 1) =~= views.take(r as int).push(views[r as int]));
                views.take(r as int).lemma_filter_push(views[r as int], |x: Seq<usize>| x.len() == l as nat);
            }
            if leaf_routes[r].len() == l {
                let route = &leaf_routes[r];
                let mut t: usize = 0;
                while t < route.len()
                    invariant
                        t <= route@.len(),
                        processed == before + route@.take(t as int),
                        ordered@ == first_occurrences(processed),
                        all_cities@ == processed.to_set(),
                    decreases route@.len() - t,
                {
                    let c = route[t];
                    let ghost prev = processed;
                    proof {
                        processed = processed.push(c);
                        assert(processed.drop_last() =~= prev);
                        assert(processed =~= before + route@.take(t + 1));
                        lemma_first_occurrences(prev);
                        assert(processed.to_set() =~= prev.to_set().insert(c)) by {
                            assert forall|x: usize| processed.contains(x) <==> (prev.contains(x) || x == c) by {
                                if processed.contains(x) {
                                    let i = choose|i: int| 0 <= i < processed.len() && processed[i] == x;
                                    if i < prev.len() {
                                        assert(prev[i] == x);
                                    }
                                }
                                if prev.contains(x) {
                                    let i = choose|i: int| 0 <= i < prev.len() && prev[i] == x;
                                    assert(processed[i] == x);
                                }
                                if x == c {
                                    assert(processed[prev.len() as int] == x);
                                }
                            }
                        }
                    }
                    if all_cities.insert(c) {
                        ordered.push(c);
                    }
                    t = t + 1;
                }
                proof {
                    assert(route@.take(route@.len() as int) =~= route@);
                    lemma_flatten_push(with_length(views.take(r as int), l as nat), views[r as int]);
                    assert(processed =~= bucket_start + flatten(with_length(views.take(r + 1), l as nat)));
                }
            } else {
                proof {
                    assert(processed =~= bucket_start + flatten(with_length(views.take(r + 1), l as nat)));
                }
            }
            r = r + 1;
        }
        proof {
            assert(views.take(m as int) =~= views);
            lemma_length_groups_step(views, max_len as nat, done);
            lemma_flatten_add(length_groups(views, max_len as nat, done), with_length(views, l as nat));
            done = done + 1;
        }
        if l == 0 {
            break;
        }
        l = l - 1;
    }
    proof {
        lemma_first_occurrences(processed);
        lemma_flatten_groups_contains(views, max_len as nat);
    }
    ordered
}

/// The cities `0..n` that do not occur in `ordered`, ascending.
pub fn missing_cities(ordered: &Vec<usize>, n: usize) -> (missing: Vec<usize>)
    ensures
        missing@ == missing_from(ordered@, n as nat),
{
    let mut present: std::collections::HashSet<usize> = std::collections::HashSet::new();
    let mut t: usize = 0;
    while t < ordered.len()
        invariant
            t <= ordered@.len(),
            present@ == ordered@.take(t as int).to_set(),
        decreases ordered@.len() - t,
    {
        let ghost p = ordered@.take(t as int);
        present.insert(ordered[t]);
        t = t + 1;
        let ghost q = ordered@.take(t as int);
        assert(q =~= p.push(ordered@[t - 1]));
        assert(present@ =~= q.to_set()) by {
            assert forall|x: usize| q.contains(x) <==> (p.contains(x) || x == ordered@[t - 1]) by {
                if q.contains(x) {
                    let i = choose|i: int| 0 <= i < q.len() && q[i] == x;
                    if i < p.len() {
                        assert(p[i] == x);
                    }
                }
                if p.contains(x) {
                    let i = choose|i: int| 0 <= i < p.len() && p[i] == x;
                    assert(q[i] == x);
                }
                if x == ordered@[t - 1] {
                    assert(q[p.len() as int] == x);
                }
            }
        }
    }
    assert(ordered@.take(ordered@.len() as int) =~= ordered@);
    let mut missing: Vec<usize> = Vec::new();
    let mut c: usize = 0;
    while c < n
        invariant
            c <= n,
            present@ == ordered@.to_set(),
            missing@ == missing_from(ordered@, c as nat),
        decreases n - c,
    {
        if !present.contains(&c) {
            missing.push(c);
        }
        c = c + 1;
    }
    missing
}

/// A route grown one city at a time from a start city, as in nearest-neighbour
/// construction: the caller picks each next city among the unvisited ones.
pub struct TourBuilder {
    n: usize,
    route: Vec<usize>,
    visited: Vec<bool>,
}

impl TourBuilder {
    /// The route starts at the start city, then lists distinct cities of
    /// `0..n`, none of them the start; `visited` marks exactly those on the route.
    pub closed spec fn wf(self) -> bool {
        &&& self.visited@.len() == self.n
        &&& self.route@.len() >= 1
        &&& self.route@.drop_first().no_duplicates()
        &&& forall|i: int| 1 <= i < self.route@.len() ==> #[trigger] self.route@[i] < self.n
        &&& forall|c: int|
            0 <= c < self.n ==> (self.visited@[c] <==> self.route@.contains(c as usize))
        &&& forall|i: int| 1 <= i < self.route@.len() ==> #[trigger] self.route@[i] != self.route@[0]
    }

    /// Number of cities.
    pub closed spec fn spec_n(self) -> nat {
        self.n as nat
    }

    /// The route so far, starting with the start city.
    pub closed spec fn spec_route(self) -> Seq<usize> {
        self.route@
    }

    /// Start at `start`: the route is `[start]` and, when `start < n`, it counts as visited.
    pub fn new(n: usize, start: usize) -> (b: Self)
        ensures
            b.wf(),
            b.spec_n() == n,
            b.spec_route() == seq![start],
    {
        let mut visited: Vec<bool> = vec![false; n];
        if start < n {
            visited.set(start, true);
        }
        let mut route: Vec<usize> = Vec::new();
        route.push(start);
        proof {
            assert(route@.drop_first() =~= Seq::<usize>::empty());
            assert forall|c: int| 0 <= c < n implies (visited@[c] <==> route@.contains(c as usize)) by {
                if c == start {
                    assert(route@[0] == start);
                }
            }
        }
        TourBuilder { n, route, visited }
    }

    /// Whether city `c < n` is on the route.
    pub fn is_visited(&self, c: usize) -> (v: bool)
        requires
            self.wf(),
            c < self.spec_n(),
        ensures
            v == self.spec_route().contains(c),
    {
        self.visited[c]
    }

    /// The cities `0..n` not yet on the route, ascending.
    pub fn unvisited(&self) -> (u: Vec<usize>)
        requires
            self.wf(),
        ensures
            u@ == missing_from(self.spec_route(), self.spec_n()),
    {
        let mut u: Vec<usize> = Vec::new();
        let mut c: usize = 0;
        while c < self.n
            invariant
                c <= self.n,
                self.visited@.len() == self.n,
                forall|x: int| 0 <= x < self.n ==> (self.visited@[x] <==> self.route@.contains(x as usize)),
                u@ == missing_from(self.route@, c as nat),
            decreases self.n - c,
        {
            if !self.visited[c] {
                u.push(c);
            }
            c = c + 1;
        }
        u
    }

    /// Whether every city `0..n` is on the route.
    pub fn is_complete(&self) -> (done: bool)
        requires
            self.wf(),
        ensures
            done == (missing_from(self.spec_route(), self.spec_n()).len() == 0),
    {
        self.unvisited().len() == 0
    }

    /// Append the unvisited city `c`.
    pub fn visit(&mut self, c: usize)
        requires
            old(self).wf(),
            c < old(self).spec_n(),
            !old(self).spec_route().contains(c),
        ensures
            final(self).wf(),
            final(self).spec_n() == old(self).spec_n(),
            final(self).spec_route() == old(self).spec_route().push(c),
    {
        let ghost r0 = self.route@;
        self.visited.set(c, true);
        self.route.push(c);
        proof {
            let r = self.route@;
            assert(r.drop_first() =~= r0.drop_first().push(c));
            assert forall|i: int| 0 <= i < r0.len() implies r0[i] != c by {
                assert(r0.contains(r0[i]));
            }
            assert forall|x: int| 0 <= x < self.n implies (self.visited@[x] <==> r.contains(x as usize)) by {
                lemma_push_to_set(r0, c);
                assert(r.to_set().contains(x as usize) <==> r.contains(x as usize));
                assert(r0.to_set().contains(x as usize) <==> r0.contains(x as usize));
            }
            assert forall|i: int, j: int|
                0 <= i < r.drop_first().len() && 0 <= j < r.drop_first().len() && i != j implies
                r.drop_first()[i] != r.drop_first()[j] by {
                if i == r.drop_first().len() - 1 {
                    assert(r.drop_first()[j] == r0[j + 1]);
                } else if j == r.drop_first().len() - 1 {
                    assert(r.drop_first()[i] == r0[i + 1]);
                } else {
                    assert(r.drop_first()[i] == r0.drop_first()[i]);
                    assert(r.drop_first()[j] == r0.drop_first()[j]);
                }
            }
            assert(r[r.len() - 1] == c);
            assert(r0[0] == r[0]);
        }
    }

    /// The route built so far.
    pub fn route(&self) -> (r: Vec<usize>)
        requires
            self.wf(),
        ensures
            r@ == self.spec_route(),
            self.spec_route()[0] < self.spec_n() && missing_from(self.spec_route(), self.spec_n()).len()
                == 0 ==> is_tour(r@, self.spec_n()),
    {
        proof {
            let r = self.route@;
            let n = self.n;
            if r[0] < n && missing_from(r, n as nat).len() == 0 {
                lemma_missing_from(r, n as nat);
                assert(r.no_duplicates()) by {
                    assert forall|i: int, j: int| 0 <= i < r.len() && 0 <= j < r.len() && i != j implies r[i] != r[j] by {
                        if i > 0 && j > 0 {
                            assert(r[i] == r.drop_first()[i - 1]);
                            assert(r[j] == r.drop_first()[j - 1]);
                        }
                    }
                }
                assert forall|i: int| 0 <= i < r.len() implies #[trigger] r[i] < n by {}
                // every city 0..n is on the route, and the route has no repeats
                let full = range_seq(0, n as nat);
                lemma_range_seq(0, n as nat);
                assert(r.to_set() =~= full.to_set()) by {
                    assert forall|x: usize| r.contains(x) <==> full.contains(x) by {
                        if r.contains(x) {
                            let i = choose|i: int| 0 <= i < r.len() && r[i] == x;
                            assert(r[i] < n);
                        }
                        if full.contains(x) {
                            assert(!missing_from(r, n as nat).contains(x));
                        }
                    }
                }
                r.unique_seq_to_set();
                full.unique_seq_to_set();
            }
        }
        copy_vec(&self.route)
    }
}

/// A copy of `v`.
pub fn copy_vec(v: &Vec<usize>) -> (c: Vec<usize>)
    ensures
        c@ == v@,
{
    sub_vec(v, 0, v.len())
}

/// The entries `from..to` of `v`.
pub fn sub_vec(v: &Vec<usize>, from: usize, to: usize) -> (c: Vec<usize>)
    requires
        from <= to <= v@.len(),
    ensures
        c@ == v@.subrange(from as int, to as int),
{
    let mut c: Vec<usize> = Vec::new();
    let mut t: usize = from;
    while t < to
        invariant
            from <= t <= to <= v@.len(),
            c@ == v@.subrange(from as int, t as int),
        decreases to - t,
    {
        c.push(v[t]);
        t = t + 1;
        assert(c@ =~= v@.subrange(from as int, t as int));
    }
    c
}

} // verus!
