//! Counts of the DAG nodes by outcome, for the solver's statistics.
use vstd::prelude::*;

verus! {

/// How a node's subproblem was solved.
#[derive(Debug, Clone, Copy, PartialEq, Eq, Structural)]
pub enum NodeMethod {
    /// Exhaustive search over the Lehmer-decoded routes.
    LehmerExact,
    /// A node with at most two cities.
    Trivial,
    /// Any other method, a failure among them.
    Other,
}

/// Whether a node's subproblem was solved, and how.
#[derive(Debug, Clone, Copy, PartialEq, Eq, Structural)]
pub struct NodeOutcome {
    pub success: bool,
    pub method: NodeMethod,
}

/// The node counts reported in the statistics.
#[derive(Debug, Clone, Copy, PartialEq, Eq, Structural)]
pub struct NodeTally {
    pub total: usize,
    pub successful: usize,
    pub lehmer_exact: usize,
    pub trivial: usize,
    pub failed: usize,
}

/// Number of outcomes in `s` that succeeded.
pub open spec fn count_successful(s: Seq<NodeOutcome>) -> nat
    decreases s.len(),
{
    if s.len() == 0 {
        0
    } else {
        count_successful(s.drop_last()) + if s.last().success { 1nat } else { 0nat }
    }
}

/// Number of outcomes in `s` solved by `method`.
pub open spec fn count_method(s: Seq<NodeOutcome>, method: NodeMethod) -> nat
    decreases s.len(),
{
    if s.len() == 0 {
        0
    } else {
        count_method(s.drop_last(), method) + if s.last().method == method { 1nat } else { 0nat }
    }
}

proof fn lemma_counts_bounded(s: Seq<NodeOutcome>)
    ensures
        count_successful(s) <= s.len(),
        count_method(s, NodeMethod::LehmerExact) <= s.len(),
        count_method(s, NodeMethod::Trivial) <= s.len(),
    decreases s.len(),
{
    if s.len() > 0 {
        lemma_counts_bounded(s.drop_last());
    }
}

/// Count the nodes: all of them, the successful ones, those solved exactly over
/// Lehmer-decoded routes, the trivial ones, and the failed ones (all but the
/// successful).
pub fn tally(outcomes: &Vec<NodeOutcome>) -> (t: NodeTally)
    ensures
        t.total == outcomes@.len(),
        t.successful == count_successful(outcomes@),
        t.lehmer_exact == count_method(outcomes@, NodeMethod::LehmerExact),
        t.trivial == count_method(outcomes@, NodeMethod::Trivial),
        t.failed == outcomes@.len() - count_successful(outcomes@),
{
    let mut successful: usize = 0;
    let mut lehmer_exact: usize = 0;
    let mut trivial: usize = 0;
    let mut i: usize = 0;
    while i < outcomes.len()
        invariant
            i <= outcomes@.len(),
            successful == count_successful(outcomes@.take(i as int)),
            lehmer_exact == count_method(outcomes@.take(i as int), NodeMethod::LehmerExact),
            trivial == count_method(outcomes@.take(i as int), NodeMethod::Trivial),
        decreases outcomes@.len() - i,
    {
        let ghost p = outcomes@.take(i as int);
        proof {
            lemma_counts_bounded(p);
        }
        let o = outcomes[i];
        if o.success {
            successful = successful + 1;
        }
        match o.method {
            NodeMethod::LehmerExact => {
                lehmer_exact = lehmer_exact + 1;
            },
            NodeMethod::Trivial => {
                trivial = trivial + 1;
            },
            NodeMethod::Other => {},
        }
        i = i + 1;
        assert(outcomes@.take(i as int).drop_last() =~= p);
    }
    assert(outcomes@.take(i as int) =~= outcomes@);
    proof {
        lemma_counts_bounded(outcomes@);
    }
    NodeTally { total: outcomes.len(), successful, lehmer_exact, trivial, failed: outcomes.len() - successful }
}

} // verus!
