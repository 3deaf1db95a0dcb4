//! k-element subsets of a list, in lexicographic order of positions.
use vstd::prelude::*;
use crate::tour::copy_vec;

verus! {

/// All `k`-element sub-lists of `items` (keeping their order), those that
/// contain the first item first.
pub open spec fn combos(items: Seq<usize>, k: nat) -> Seq<Seq<usize>>
    decreases items.len(),
{
    if k == 0 {
        seq![Seq::<usize>::empty()]
    } else if items.len() == 0 {
        Seq::empty()
    } else {
        let rest = items.drop_first();
        combos(rest, (k - 1) as nat).map_values(|c: Seq<usize>| seq![items[0]] + c) + combos(rest, k)
    }
}

/// The binomial coefficient `n choose k`.
pub open spec fn binomial(n: nat, k: nat) -> nat
    decreases n,
{
    if k == 0 {
        1
    } else if n == 0 {
        0
    } else {
        binomial((n - 1) as nat, (k - 1) as nat) + binomial((n - 1) as nat, k)
    }
}

/// There are `len choose k` sub-lists, each of length `k`.
pub proof fn lemma_combos_count(items: Seq<usize>, k: nat)
    ensures
        combos(items, k).len() == binomial(items.len(), k),
        forall|i: int| 0 <= i < combos(items, k).len() ==> #[trigger] combos(items, k)[i].len() == k,
    decreases items.len(),
{
    if k > 0 && items.len() > 0 {
        let rest = items.drop_first();
        lemma_combos_count(rest, (k - 1) as nat);
        lemma_combos_count(rest, k);
        let a = combos(rest, (k - 1) as nat).map_values(|c: Seq<usize>| seq![items[0]] + c);
        let b = combos(rest, k);
        assert forall|i: int| 0 <= i < combos(items, k).len() implies #[trigger] combos(items, k)[i].len() == k by {
            if i < a.len() {
                assert(combos(items, k)[i] == a[i]);
                assert(combos(rest, (k - 1) as nat)[i].len() == k - 1);
            } else {
                assert(combos(items, k)[i] == b[i - a.len()]);
            }
        }
    }
}

/// `idx` lists positions below `len`, strictly increasing.
pub open spec fn is_position_list(idx: Seq<int>, len: nat) -> bool {
    &&& forall|i: int| 0 <= i < idx.len() ==> 0 <= #[trigger] idx[i] < len
    &&& forall|i: int, j: int| 0 <= i < j < idx.len() ==> idx[i] < idx[j]
}

/// The items at the positions `idx`, in that order.
pub open spec fn pick(items: Seq<usize>, idx: Seq<int>) -> Seq<usize> {
    idx.map_values(|p: int| items[p])
}

/// `c` is the list of the items at `k` increasing positions.
pub open spec fn is_pick(items: Seq<usize>, k: nat, c: Seq<usize>) -> bool {
    exists|idx: Seq<int>| is_position_list(idx, items.len()) && idx.len() == k && c == #[trigger] pick(items, idx)
}

proof fn lemma_pick_shift(items: Seq<usize>, idx: Seq<int>)
    requires
        items.len() > 0,
        forall|i: int| 0 <= i < idx.len() ==> 0 <= #[trigger] idx[i] < items.len() - 1,
    ensures
        pick(items, idx.map_values(|p: int| p + 1)) == pick(items.drop_first(), idx),
        pick(items, seq![0int] + idx.map_values(|p: int| p + 1)) == seq![items[0]] + pick(items.drop_first(), idx),
{
    assert(pick(items, idx.map_values(|p: int| p + 1)) =~= pick(items.drop_first(), idx));
    assert(pick(items, seq![0int] + idx.map_values(|p: int| p + 1)) =~= seq![items[0]] + pick(
        items.drop_first(),
        idx,
    ));
}

/// Every entry of `combos(items, k)` is the list of items at `k` increasing positions.
proof fn lemma_combos_are_picks(items: Seq<usize>, k: nat)
    ensures
        forall|t: int| 0 <= t < combos(items, k).len() ==> is_pick(items, k, #[trigger] combos(items, k)[t]),
    decreases items.len(),
{
    if k == 0 {
        let e = Seq::<int>::empty();
        assert(combos(items, k)[0] =~= pick(items, e));
        assert(is_position_list(e, items.len()));
        assert(combos(items, k).len() == 1);
    } else if items.len() > 0 {
        let rest = items.drop_first();
        lemma_combos_are_picks(rest, (k - 1) as nat);
        lemma_combos_are_picks(rest, k);
        let a = combos(rest, (k - 1) as nat).map_values(|c: Seq<usize>| seq![items[0]] + c);
        let b = combos(rest, k);
        assert forall|t: int| 0 <= t < combos(items, k).len() implies is_pick(items, k, #[trigger] combos(items, k)[t]) by {
            if t < a.len() {
                let c = combos(rest, (k - 1) as nat)[t];
                assert(is_pick(rest, (k - 1) as nat, c));
                let idx0 = choose|idx: Seq<int>|
                    is_position_list(idx, rest.len()) && idx.len() == k - 1 && c == #[trigger] pick(rest, idx);
                lemma_pick_shift(items, idx0);
                let idx = seq![0int] + idx0.map_values(|p: int| p + 1);
                assert(combos(items, k)[t] == a[t]);
                assert forall|i: int, j: int| 0 <= i < j < idx.len() implies idx[i] < idx[j] by {
                    if i > 0 {
                        assert(idx[i] == idx0[i - 1] + 1);
                    }
                    assert(idx[j] == idx0[j - 1] + 1);
                }
                assert forall|i: int| 0 <= i < idx.len() implies 0 <= #[trigger] idx[i] < items.len() by {
                    if i > 0 {
                        assert(idx[i] == idx0[i - 1] + 1);
                    }
                }
                assert(is_position_list(idx, items.len()));
                assert(combos(items, k)[t] == pick(items, idx));
            } else {
                let c = b[t - a.len()];
                assert(combos(items, k)[t] == c);
                assert(is_pick(rest, k, c));
                let idx0 = choose|idx: Seq<int>|
                    is_position_list(idx, rest.len()) && idx.len() == k && c == #[trigger] pick(rest, idx);
                lemma_pick_shift(items, idx0);
                let idx = idx0.map_values(|p: int| p + 1);
                assert(is_position_list(idx, items.len()));
                assert(combos(items, k)[t] == pick(items, idx));
            }
        }
    }
}

/// Every list of the items at `k` increasing positions occurs in `combos(items, k)`.
proof fn lemma_combos_complete(items: Seq<usize>, k: nat, idx: Seq<int>)
    requires
        is_position_list(idx, items.len()),
        idx.len() == k,
    ensures
        combos(items, k).contains(pick(items, idx)),
    decreases items.len(),
{
    if k == 0 {
        assert(pick(items, idx) =~= Seq::<usize>::empty());
        assert(combos(items, k)[0] == pick(items, idx));
    } else if items.len() == 0 {
        assert(idx[0] < items.len());
    } else {
        let rest = items.drop_first();
        let a = combos(rest, (k - 1) as nat).map_values(|c: Seq<usize>| seq![items[0]] + c);
        let b = combos(rest, k);
        if idx[0] == 0 {
            let idx0 = idx.drop_first().map_values(|p: int| p - 1);
            assert forall|i: int| 0 <= i < idx0.len() implies 0 <= #[trigger] idx0[i] < rest.len() by {
                assert(idx[0] < idx[i + 1]);
            }
            assert(is_position_list(idx0, rest.len()));
            lemma_combos_complete(rest, (k - 1) as nat, idx0);
            lemma_pick_shift(items, idx0);
            assert(seq![0int] + idx0.map_values(|p: int| p + 1) =~= idx);
            let ca = combos(rest, (k - 1) as nat);
            let t = choose|t: int| 0 <= t < ca.len() && ca[t] == pick(rest, idx0);
            assert(combos(items, k)[t] == a[t]);
        } else {
            let idx0 = idx.map_values(|p: int| p - 1);
            assert forall|i: int| 0 <= i < idx0.len() implies 0 <= #[trigger] idx0[i] < rest.len() by {
                if i > 0 {
                    assert(idx[0] < idx[i]);
                }
            }
            assert(is_position_list(idx0, rest.len()));
            lemma_combos_complete(rest, k, idx0);
            lemma_pick_shift(items, idx0);
            assert(idx0.map_values(|p: int| p + 1) =~= idx);
            let t = choose|t: int| 0 <= t < b.len() && b[t] == pick(rest, idx0);
            assert(combos(items, k)[a.len() + t] == b[t]);
        }
    }
}

/// For distinct items, no sub-list occurs twice.
proof fn lemma_combos_distinct(items: Seq<usize>, k: nat)
    requires
        items.no_duplicates(),
    ensures
        combos(items, k).no_duplicates(),
    decreases items.len(),
{
    if k > 0 && items.len() > 0 {
        let rest = items.drop_first();
        assert(rest.no_duplicates()) by {
            assert forall|i: int, j: int| 0 <= i < rest.len() && 0 <= j < rest.len() && i != j implies rest[i]
                != rest[j] by {
                assert(rest[i] == items[i + 1] && rest[j] == items[j + 1]);
            }
        }
        lemma_combos_distinct(rest, (k - 1) as nat);
        lemma_combos_distinct(rest, k);
        lemma_combos_are_picks(rest, k);
        let ca = combos(rest, (k - 1) as nat);
        let a = ca.map_values(|c: Seq<usize>| seq![items[0]] + c);
        let b = combos(rest, k);
        let all = combos(items, k);
        assert(all == a + b);
        assert forall|i: int, j: int| 0 <= i < all.len() && 0 <= j < all.len() && i != j implies all[i] != all[j] by {
            if i < a.len() && j < a.len() {
                if a[i] == a[j] {
                    assert(a[i].drop_first() =~= ca[i]);
                    assert(a[j].drop_first() =~= ca[j]);
                }
            } else if i >= a.len() && j >= a.len() {
            } else {
                let (x, y) = if i < a.len() { (i, j - a.len()) } else { (j, i - a.len()) };
                assert(is_pick(rest, k, b[y]));
                let idx = choose|idx: Seq<int>| is_position_list(idx, rest.len()) && idx.len() == k && b[y] == #[trigger] pick(rest, idx);
                assert(b[y][0] == rest[idx[0]]);
                assert(rest[idx[0]] == items[idx[0] + 1]);
                assert(a[x][0] == items[0]);
            }
        }
    }
}

/// The sub-lists of `items` with `k` entries are exactly the lists of the
/// items at `k` increasing positions: each entry is one of them, each of them
/// occurs, and for distinct items each occurs once.
pub proof fn lemma_combos_meaning(items: Seq<usize>, k: nat)
    ensures
        forall|t: int| 0 <= t < combos(items, k).len() ==> is_pick(items, k, #[trigger] combos(items, k)[t]),
        forall|idx: Seq<int>|
            is_position_list(idx, items.len()) && idx.len() == k ==> combos(items, k).contains(
                #[trigger] pick(items, idx),
            ),
        items.no_duplicates() ==> combos(items, k).no_duplicates(),
{
    lemma_combos_are_picks(items, k);
    assert forall|idx: Seq<int>| is_position_list(idx, items.len()) && idx.len() == k implies combos(
        items,
        k,
    ).contains(#[trigger] pick(items, idx)) by {
        lemma_combos_complete(items, k, idx);
    }
    if items.no_duplicates() {
        lemma_combos_distinct(items, k);
    }
}

/// All `k`-element sub-lists of `items`, in order.
pub fn combinations(items: &[usize], k: usize) -> (result: Vec<Vec<usize>>)
    ensures
        result@.map_values(|c: Vec<usize>| c@) == combos(items@, k as nat),
{
    assert(items@.skip(0) =~= items@);
    combinations_from(items, 0, k)
}

fn combinations_from(items: &[usize], start: usize, k: usize) -> (result: Vec<Vec<usize>>)
    requires
        start <= items@.len(),
    ensures
        result@.map_values(|c: Vec<usize>| c@) == combos(items@.skip(start as int), k as nat),
    decreases items@.len() - start, k,
{
    if k == 0 {
        let mut result: Vec<Vec<usize>> = Vec::new();
        result.push(Vec::new());
        assert(result@.map_values(|c: Vec<usize>| c@) =~= seq![Seq::<usize>::empty()]);
        return result;
    }
    if start >= items.len() {
        let result: Vec<Vec<usize>> = Vec::new();
        assert(items@.skip(start as int).len() == 0);
        assert(result@.map_values(|c: Vec<usize>| c@) =~= Seq::<Seq<usize>>::empty());
        return result;
    }
    let first = items[start];
    let ghost s = items@.skip(start as int);
    assert(s.drop_first() =~= items@.skip(start + 1));
    let with_first = combinations_from(items, start + 1, k - 1);
    let mut result: Vec<Vec<usize>> = Vec::new();
    let mut t: usize = 0;
    let ghost a = combos(s.drop_first(), (k - 1) as nat).map_values(|c: Seq<usize>| seq![s[0]] + c);
    while t < with_first.len()
        invariant
            t <= with_first@.len(),
            first == s[0],
            with_first@.map_values(|c: Vec<usize>| c@) == combos(s.drop_first(), (k - 1) as nat),
            a == combos(s.drop_first(), (k - 1) as nat).map_values(|c: Seq<usize>| seq![s[0]] + c),
            result@.map_values(|c: Vec<usize>| c@) == a.take(t as int),
        decreases with_first@.len() - t,
    {
        let mut combo: Vec<usize> = copy_vec(&with_first[t]);
        combo.insert(0, first);
        let ghost before = result@.map_values(|c: Vec<usize>| c@);
        result.push(combo);
        assert(with_first@.map_values(|c: Vec<usize>| c@)[t as int] == with_first@[t as int]@);
        assert(result@.map_values(|c: Vec<usize>| c@) =~= before.push(combo@));
        assert(combo@ =~= seq![s[0]] + with_first@[t as int]@);
        t = t + 1;
        assert(a.take(t as int) =~= a.take(t - 1).push(a[t - 1]));
    }
    assert(a.take(with_first@.len() as int) =~= a);
    let mut without_first = combinations_from(items, start + 1, k);
    let ghost left = result@;
    result.append(&mut without_first);
    assert(result@.map_values(|c: Vec<usize>| c@) =~= left.map_values(|c: Vec<usize>| c@) + combos(
        s.drop_first(),
        k as nat,
    ));
    result
}

} // verus!
