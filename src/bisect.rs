//! Narrowing a block range down to the exact blocks where a snapshot changed.
//!
//! The search itself fetches snapshots and forks, and so runs in the program
//! around this library; each of its decisions is `bisect_step`, and `found_blocks`
//! is what the whole search reports.
use vstd::prelude::*;
use crate::queries::{Delegator, Epoch, Indexer, Stake, delegators_view, stakes_view};

verus! {

/// What to do with a range whose end snapshots were compared.
#[derive(Debug, Clone, Copy, PartialEq, Eq, Structural)]
pub enum Step {
    /// Both ends are equal: nothing to report.
    Unchanged,
    /// The ends are adjacent and differ: the change is at this block.
    ChangeAt(u64),
    /// The ends differ far apart: search both halves around this block.
    Split(u64),
}

pub open spec fn midpoint(start: int, end: int) -> int {
    (start + end) / 2
}

pub open spec fn step_of(start: int, end: int, same: bool) -> Step {
    if same {
        Step::Unchanged
    } else if end == start + 1 {
        Step::ChangeAt(end as u64)
    } else {
        Step::Split(midpoint(start, end) as u64)
    }
}

/// The decision for the range `start..end` given whether its end snapshots
/// are equal.
pub fn bisect_step(start: u64, end: u64, same: bool) -> (r: Step)
    requires
        start < end,
    ensures
        r == step_of(start as int, end as int, same),
        r matches Step::Split(m) ==> start < m < end,
{
    if same {
        Step::Unchanged
    } else if end - start == 1 {
        Step::ChangeAt(end)
    } else {
        Step::Split(start + (end - start) / 2)
    }
}

/// The blocks that the search reports on `s..e` when the snapshot at block
/// `x` is `f(x)`.
pub open spec fn found_blocks<S>(f: spec_fn(int) -> S, s: int, e: int) -> Set<int>
    decreases e - s,
{
    if e <= s || f(s) == f(e) {
        Set::empty()
    } else if e == s + 1 {
        set![e]
    } else {
        found_blocks(f, s, midpoint(s, e)).union(found_blocks(f, midpoint(s, e), e))
    }
}

/// The blocks whose snapshot the search on `s..e` looks at.
pub open spec fn visited_blocks<S>(f: spec_fn(int) -> S, s: int, e: int) -> Set<int>
    decreases e - s,
{
    if e <= s + 1 || f(s) == f(e) {
        set![s, e]
    } else {
        visited_blocks(f, s, midpoint(s, e)).union(visited_blocks(f, midpoint(s, e), e))
    }
}

/// The blocks in `s+1..=e` whose snapshot differs from the one before.
pub open spec fn flips<S>(f: spec_fn(int) -> S, s: int, e: int) -> Set<int> {
    Set::new(|b: int| s < b <= e && f(b - 1) != f(b))
}

/// No flip lies in `x+1..=y`.
#[verifier::opaque]
pub open spec fn steady<S>(f: spec_fn(int) -> S, x: int, y: int) -> bool {
    forall|b: int| #![trigger f(b)] x < b <= y ==> f(b - 1) == f(b)
}

/// Within `s..=e`, two snapshots are equal exactly when no flip lies
/// between them: changes never cancel out.
pub open spec fn no_cancelling<S>(f: spec_fn(int) -> S, s: int, e: int) -> bool {
    forall|x: int, y: int|
        #![trigger steady(f, x, y)]
        s <= x <= y <= e ==> (f(x) == f(y) <==> steady(f, x, y))
}

/// The search visits the same blocks, and reports the same blocks, for any
/// two sources that agree on the range: the blocks it looks at depend on
/// the range's ends and the snapshots in it alone, never on the order in
/// which its branches run.
pub proof fn lemma_search_determined<S>(f: spec_fn(int) -> S, g: spec_fn(int) -> S, s: int, e: int)
    requires
        s <= e,
        forall|x: int| #![trigger f(x)] #![trigger g(x)] s <= x <= e ==> f(x) == g(x),
    ensures
        visited_blocks(f, s, e) == visited_blocks(g, s, e),
        found_blocks(f, s, e) == found_blocks(g, s, e),
        forall|x: int| #[trigger] visited_blocks(f, s, e).contains(x) ==> s <= x <= e,
    decreases e - s,
{
    assert(f(s) == g(s) && f(e) == g(e));
    if e <= s + 1 || f(s) == f(e) {
    } else {
        let m = midpoint(s, e);
        lemma_search_determined(f, g, s, m);
        lemma_search_determined(f, g, m, e);
    }
}

/// The blocks that the searches over consecutive boundaries look at, one
/// search per pair of neighbours (one per epoch).
pub open spec fn visited_over<S>(f: spec_fn(int) -> S, bounds: Seq<int>) -> Set<int>
    decreases bounds.len(),
{
    if bounds.len() < 2 {
        Set::empty()
    } else {
        visited_over(f, bounds.drop_last()).union(
            visited_blocks(f, bounds[bounds.len() - 2], bounds[bounds.len() - 1]),
        )
    }
}

/// The blocks that the searches over consecutive boundaries report.
pub open spec fn found_over<S>(f: spec_fn(int) -> S, bounds: Seq<int>) -> Set<int>
    decreases bounds.len(),
{
    if bounds.len() < 2 {
        Set::empty()
    } else {
        found_over(f, bounds.drop_last()).union(
            found_blocks(f, bounds[bounds.len() - 2], bounds[bounds.len() - 1]),
        )
    }
}

/// Over strictly increasing epoch starts, the whole run looks at, and
/// reports, the same blocks for any two sources that agree from the first
/// start to the last, whatever order its searches run in; and it looks only
/// at blocks within that span.
pub proof fn lemma_run_determined<S>(f: spec_fn(int) -> S, g: spec_fn(int) -> S, bounds: Seq<int>)
    requires
        bounds.len() >= 1,
        forall|i: int| 0 <= i < bounds.len() - 1 ==> #[trigger] bounds[i] < bounds[i + 1],
        forall|x: int|
            #![trigger f(x)]
            #![trigger g(x)]
            bounds[0] <= x <= bounds[bounds.len() - 1] ==> f(x) == g(x),
    ensures
        visited_over(f, bounds) == visited_over(g, bounds),
        found_over(f, bounds) == found_over(g, bounds),
        forall|x: int|
            #[trigger] visited_over(f, bounds).contains(x) ==> bounds[0] <= x <= bounds[bounds.len()
                - 1],
    decreases bounds.len(),
{
    if bounds.len() >= 2 {
        let n = bounds.len();
        let init = bounds.drop_last();
        assert forall|i: int| 0 <= i < n - 1 implies bounds[0] <= #[trigger] bounds[i] <= bounds[n - 1] by {
            lemma_increasing(bounds, 0, i);
            lemma_increasing(bounds, i, n - 1);
        };
        assert forall|i: int| 0 <= i < init.len() - 1 implies #[trigger] init[i] < init[i + 1] by {
            assert(bounds[i] < bounds[i + 1]);
        };
        lemma_run_determined(f, g, init);
        lemma_search_determined(f, g, bounds[n - 2], bounds[n - 1]);
    }
}

proof fn lemma_increasing(bounds: Seq<int>, i: int, j: int)
    requires
        0 <= i <= j < bounds.len(),
        forall|k: int| 0 <= k < bounds.len() - 1 ==> #[trigger] bounds[k] < bounds[k + 1],
    ensures
        bounds[i] <= bounds[j],
    decreases j - i,
{
    if i < j {
        lemma_increasing(bounds, i, j - 1);
        assert(bounds[j - 1] < bounds[j]);
    }
}

/// Where changes never cancel out, the search reports exactly the blocks at
/// which the snapshot changed.
pub proof fn lemma_found_exactly_flips<S>(f: spec_fn(int) -> S, s: int, e: int)
    requires
        s <= e,
        no_cancelling(f, s, e),
    ensures
        found_blocks(f, s, e) == flips(f, s, e),
    decreases e - s,
{
    if e == s {
        assert(flips(f, s, e) =~= Set::empty());
    } else if f(s) == f(e) {
        assert(steady(f, s, e));
        reveal(steady);
        assert(flips(f, s, e) =~= Set::empty());
    } else if e == s + 1 {
        assert(flips(f, s, e) =~= set![e]);
    } else {
        let m = midpoint(s, e);
        assert(no_cancelling(f, s, m));
        assert(no_cancelling(f, m, e));
        lemma_found_exactly_flips(f, s, m);
        lemma_found_exactly_flips(f, m, e);
        assert(flips(f, s, m).union(flips(f, m, e)) =~= flips(f, s, e));
    }
}

/// A single change at block `b` inside `s..=e` is reported at `b` and at no
/// other block.
pub proof fn lemma_single_change_found<S>(f: spec_fn(int) -> S, s: int, e: int, b: int)
    requires
        s < b <= e,
        forall|x: int| #![trigger f(x)] s <= x < b ==> f(x) == f(s),
        forall|x: int| #![trigger f(x)] b <= x <= e ==> f(x) == f(e),
        f(s) != f(e),
    ensures
        found_blocks(f, s, e) == set![b],
{
    assert forall|x: int, y: int| s <= x <= y <= e implies (f(x) == f(y) <==> #[trigger] steady(
        f,
        x,
        y,
    )) by {
        reveal(steady);
        if x < b && b <= y {
            assert(f(b - 1) == f(s) && f(b) == f(e));
            assert(f(x) == f(s) && f(y) == f(e));
        } else if y < b {
            assert(f(x) == f(s) && f(y) == f(s));
            assert forall|c: int| #![trigger f(c)] x < c <= y implies f(c - 1) == f(c) by {
                assert(f(c - 1) == f(s));
            };
        } else {
            assert(f(x) == f(e) && f(y) == f(e));
            assert forall|c: int| #![trigger f(c)] x < c <= y implies f(c - 1) == f(c) by {
                assert(f(c - 1) == f(e));
            };
        }
    };
    lemma_found_exactly_flips(f, s, e);
    assert forall|c: int| #[trigger] flips(f, s, e).contains(c) <==> c == b by {
        if s < c <= e && c != b {
            if c < b {
                assert(f(c - 1) == f(s) && f(c) == f(s));
            } else {
                assert(f(c - 1) == f(e) && f(c) == f(e));
            }
        }
        if c == b {
            assert(f(b - 1) == f(s));
        }
    };
    assert(flips(f, s, e) =~= set![b]);
}

/// Two changes, at `b1` and then at `b2`, that do not cancel out (the
/// snapshots before, between and after are pairwise different) are both
/// reported, and nothing else is.
pub proof fn lemma_two_changes_found<S>(f: spec_fn(int) -> S, s: int, e: int, b1: int, b2: int)
    requires
        s < b1 < b2 <= e,
        forall|x: int| #![trigger f(x)] s <= x < b1 ==> f(x) == f(s),
        forall|x: int| #![trigger f(x)] b1 <= x < b2 ==> f(x) == f(b1),
        forall|x: int| #![trigger f(x)] b2 <= x <= e ==> f(x) == f(e),
        f(s) != f(b1),
        f(b1) != f(e),
        f(s) != f(e),
    ensures
        found_blocks(f, s, e) == set![b1, b2],
{
    let seg = |x: int| if x < b1 { 0int } else if x < b2 { 1int } else { 2int };
    assert forall|x: int| s <= x <= e implies #[trigger] f(x) == (if seg(x) == 0 { f(s) } else if seg(
        x,
    ) == 1 { f(b1) } else { f(e) }) by {};
    assert forall|x: int, y: int| s <= x <= y <= e implies (f(x) == f(y) <==> #[trigger] steady(
        f,
        x,
        y,
    )) by {
        reveal(steady);
        if seg(x) == seg(y) {
            assert forall|c: int| #![trigger f(c)] x < c <= y implies f(c - 1) == f(c) by {
                assert(seg(c - 1) == seg(x) && seg(c) == seg(x));
            };
        } else {
            let c = if seg(x) == 0 { b1 } else { b2 };
            assert(x < c <= y);
            assert(f(c - 1) != f(c));
        }
    };
    lemma_found_exactly_flips(f, s, e);
    assert forall|c: int| #[trigger] flips(f, s, e).contains(c) <==> (c == b1 || c == b2) by {
        if s < c <= e {
            assert(f(c - 1) == f(c) <==> seg(c - 1) == seg(c));
        }
    };
    assert(flips(f, s, e) =~= set![b1, b2]);
}

fn same_indexer(a: &Indexer, b: &Indexer) -> (r: bool)
    ensures
        r == (a@ == b@),
{
    a.id == b.id && a.delegator_shares == b.delegator_shares && a.delegated_tokens
        == b.delegated_tokens && a.delegation_exchange_rate == b.delegation_exchange_rate
}

fn same_stake(a: &Stake, b: &Stake) -> (r: bool)
    ensures
        r == (a@ == b@),
{
    a.share_amount == b.share_amount && a.personal_exchange_rate == b.personal_exchange_rate
        && a.staked_tokens == b.staked_tokens && same_indexer(&a.indexer, &b.indexer) && a.id
        == b.id
}

fn same_delegator(a: &Delegator, b: &Delegator) -> (r: bool)
    ensures
        r == (a@ == b@),
{
    if a.id != b.id {
        return false;
    }
    if a.stakes.len() != b.stakes.len() {
        proof {
            assert(stakes_view(a.stakes@).len() != stakes_view(b.stakes@).len());
        }
        return false;
    }
    let mut i: usize = 0;
    while i < a.stakes.len()
        invariant
            i <= a.stakes.len(),
            a.stakes.len() == b.stakes.len(),
            a.id@ == b.id@,
            forall|x: int| 0 <= x < i ==> a.stakes@[x]@ == #[trigger] b.stakes@[x]@,
        decreases a.stakes.len() - i,
    {
        if !same_stake(&a.stakes[i], &b.stakes[i]) {
            proof {
                assert(stakes_view(a.stakes@)[i as int] != stakes_view(b.stakes@)[i as int]);
            }
            return false;
        }
        i = i + 1;
    }
    proof {
        assert(stakes_view(a.stakes@) =~= stakes_view(b.stakes@));
    }
    true
}

/// Whether two snapshots hold the same delegators, field by field, in the
/// same order.
pub fn same_state(a: &Vec<Delegator>, b: &Vec<Delegator>) -> (r: bool)
    ensures
        r == (delegators_view(a@) == delegators_view(b@)),
{
    if a.len() != b.len() {
        proof {
            assert(delegators_view(a@).len() != delegators_view(b@).len());
        }
        return false;
    }
    let mut i: usize = 0;
    while i < a.len()
        invariant
            i <= a.len(),
            a.len() == b.len(),
            forall|x: int| 0 <= x < i ==> a@[x]@ == #[trigger] b@[x]@,
        decreases a.len() - i,
    {
        if !same_delegator(&a[i], &b[i]) {
            proof {
                assert(delegators_view(a@)[i as int] != delegators_view(b@)[i as int]);
            }
            return false;
        }
        i = i + 1;
    }
    proof {
        assert(delegators_view(a@) =~= delegators_view(b@));
    }
    true
}

/// The ranges between consecutive epoch starts, in order: the search never
/// spans more than one epoch.
pub fn epoch_ranges(epochs: &Vec<Epoch>) -> (r: Vec<(u64, u64)>)
    ensures
        r@.len() == if epochs@.len() == 0 { 0 } else { epochs@.len() - 1 },
        forall|i: int|
            0 <= i < r@.len() ==> #[trigger] r@[i] == (
                epochs@[i].start_block,
                epochs@[i + 1].start_block,
            ),
{
    let mut r: Vec<(u64, u64)> = Vec::new();
    if epochs.len() == 0 {
        return r;
    }
    let mut i: usize = 1;
    while i < epochs.len()
        invariant
            1 <= i <= epochs.len(),
            r@.len() == i - 1,
            forall|x: int|
                0 <= x < r@.len() ==> #[trigger] r@[x] == (
                    epochs@[x].start_block,
                    epochs@[x + 1].start_block,
                ),
        decreases epochs.len() - i,
    {
        r.push((epochs[i - 1].start_block, epochs[i].start_block));
        i = i + 1;
    }
    r
}

} // verus!
