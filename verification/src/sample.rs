//! Choosing which route indices to score: all of them when there are few, else
//! a sample of distinct indices drawn at random until enough are held.
use vstd::prelude::*;
use crate::tour::lemma_push_to_set;

verus! {

broadcast use vstd::std_specs::hash::group_hash_axioms;

/// How many route indices to score out of `total`: `max_to_check` when given,
/// else `total`, but at most 10000.
pub open spec fn check_limit_spec(total: nat, max_to_check: Option<usize>) -> nat {
    match max_to_check {
        Some(m) => m as nat,
        None => if total < 10000 { total } else { 10000 },
    }
}

/// An explicit limit is used exactly as given, with no cap, so a limit of at
/// least `total` scores every route index; without one, the limit is `total`
/// capped at 10000.
pub proof fn lemma_check_limit(total: nat, given: usize)
    ensures
        check_limit_spec(total, Some(given)) == given,
        total <= given ==> total <= check_limit_spec(total, Some(given)),
        check_limit_spec(total, None) <= 10000,
        check_limit_spec(total, None) <= total,
        total <= 10000 ==> check_limit_spec(total, None) == total,
        total >= 10000 ==> check_limit_spec(total, None) == 10000,
{
}

/// How many route indices to score out of `total` (see `check_limit_spec`).
pub fn check_limit(total: usize, max_to_check: Option<usize>) -> (m: usize)
    ensures
        m == check_limit_spec(total as nat, max_to_check),
        max_to_check matches Some(given) ==> m == given,
        max_to_check is None ==> m <= 10000 && m <= total && (m == total || m == 10000),
{
    match max_to_check {
        Some(m) => m,
        None => if total < 10000 {
            total
        } else {
            10000
        },
    }
}

/// Whether every index is scored: the route count is within the limit.
pub fn scores_every_index(total: usize, max_to_check: Option<usize>) -> (all: bool)
    ensures
        all == (total <= check_limit_spec(total as nat, max_to_check)),
        max_to_check matches Some(given) ==> all == (total <= given),
        max_to_check is None ==> all == (total <= 10000),
{
    total <= check_limit(total, max_to_check)
}

/// The distinct indices drawn so far, in the order first drawn, and how many
/// are wanted.
pub struct IndexSample {
    seen: std::collections::HashSet<usize>,
    order: Vec<usize>,
    target: usize,
}

impl View for IndexSample {
    type V = (Seq<usize>, nat);

    /// The distinct indices in the order first drawn, and the number wanted.
    closed spec fn view(&self) -> (Seq<usize>, nat) {
        (self.order@, self.target as nat)
    }
}

impl IndexSample {
    /// The held indices are distinct and the lookup set holds exactly them.
    pub closed spec fn wf(self) -> bool {
        &&& self.order@.no_duplicates()
        &&& self.seen@ == self.order@.to_set()
    }

    /// An empty sample that wants `target` indices.
    pub fn new(target: usize) -> (s: Self)
        ensures
            s.wf(),
            s@.0 == Seq::<usize>::empty(),
            s@.1 == target,
    {
        let s = IndexSample { seen: std::collections::HashSet::new(), order: Vec::new(), target };
        proof {
            assert(s.order@.to_set() =~= Set::<usize>::empty());
        }
        s
    }

    /// Whether the sample holds as many indices as it wants.
    pub fn is_done(&self) -> (done: bool)
        ensures
            done == (self@.0.len() >= self@.1),
    {
        self.order.len() >= self.target
    }

    /// Record the drawn index `idx` (kept once, at its first drawing) and tell
    /// whether the sample now holds as many indices as it wants.
    pub fn record(&mut self, idx: usize) -> (done: bool)
        requires
            old(self).wf(),
        ensures
            final(self).wf(),
            final(self)@.0 == if old(self)@.0.contains(idx) {
                old(self)@.0
            } else {
                old(self)@.0.push(idx)
            },
            final(self)@.1 == old(self)@.1,
            done == (final(self)@.0.len() >= final(self)@.1),
    {
        proof {
            lemma_push_to_set(self.order@, idx);
        }
        if self.seen.contains(&idx) {
            return self.order.len() >= self.target;
        }
        let ghost before = self.order@;
        self.seen.insert(idx);
        self.order.push(idx);
        proof {
            assert forall|i: int, j: int| 0 <= i < j < self.order@.len() implies self.order@[i]
                != self.order@[j] by {
                if j == before.len() {
                    assert(before.contains(before[i]));
                }
            }
        }
        self.order.len() >= self.target
    }

    /// The distinct indices in the order first drawn.
    pub fn indices(&self) -> (v: Vec<usize>)
        ensures
            v@ == self@.0,
    {
        self.order.clone()
    }
}

} // verus!
