//! Reconciling two snapshots of delegators into dated burn and reward events.
use vstd::prelude::*;
use vstd::string::StringExecFns;
use crate::decimal::{Decimal, DecView, fits_i64, product_of, sub_ok, value_lt, nat_of};
use crate::grt::GRT;
use crate::queries::{
    Delegator, DelegatorView, Stake, StakeView, stakes_view, delegators_view, burned_of, delegator_wf, gains_of,
    stake_wf,
};

verus! {

/// How many entries of `s` equal `k`.
pub open spec fn count_key(s: Seq<Seq<char>>, k: Seq<char>) -> nat
    decreases s.len(),
{
    if s.len() == 0 {
        0
    } else {
        count_key(s.drop_last(), k) + if s.last() == k {
            1nat
        } else {
            0nat
        }
    }
}

pub open spec fn keys_view(v: Seq<String>) -> Seq<Seq<char>> {
    v.map_values(|s: String| s@)
}

/// Some key of one side matches two or more keys of the other side.
pub open spec fn has_duplicate_match(b: Seq<Seq<char>>, a: Seq<Seq<char>>) -> bool {
    (exists|i: int| 0 <= i < b.len() && count_key(a, #[trigger] b[i]) >= 2) || (exists|j: int|
        0 <= j < a.len() && count_key(b, #[trigger] a[j]) >= 2)
}

/// Some key of the earlier side is gone from the later one.
pub open spec fn has_removed(b: Seq<Seq<char>>, a: Seq<Seq<char>>) -> bool {
    exists|i: int| 0 <= i < b.len() && count_key(a, #[trigger] b[i]) == 0
}

/// The positions among the first `n` later keys that the earlier side lacks.
pub open spec fn added_positions(b: Seq<Seq<char>>, a: Seq<Seq<char>>, n: int) -> Seq<int>
    decreases n,
{
    if n <= 0 {
        Seq::empty()
    } else if count_key(b, a[n - 1]) == 0 {
        added_positions(b, a, n - 1).push(n - 1)
    } else {
        added_positions(b, a, n - 1)
    }
}

#[derive(Debug, Clone, Copy, PartialEq, Eq, Structural)]
pub enum DiffError {
    /// A key matched more than one entry of the other snapshot.
    DuplicateId,
    /// An entry disappeared; what that means is not decided.
    Removed,
    /// An amount's scale left the range of `i64`.
    ScaleOutOfRange,
}

/// The result of searching a key among keys.
#[derive(Debug, Clone, Copy, PartialEq, Eq, Structural)]
pub enum Lookup {
    Unique(usize),
    Missing,
    Several,
}

pub fn find_unique(keys: &Vec<String>, k: &String) -> (r: Lookup)
    ensures
        r == Lookup::Missing <==> count_key(keys_view(keys@), k@) == 0,
        r == Lookup::Several <==> count_key(keys_view(keys@), k@) >= 2,
        r matches Lookup::Unique(j) ==> j < keys.len() && keys@[j as int]@ == k@ && count_key(
            keys_view(keys@),
            k@,
        ) == 1,
{
    let mut found: Option<usize> = None;
    let mut i: usize = 0;
    while i < keys.len()
        invariant
            i <= keys.len(),
            count_key(keys_view(keys@).take(i as int), k@) <= 1,
            found is None <==> count_key(keys_view(keys@).take(i as int), k@) == 0,
            found matches Some(j) ==> j < i && keys@[j as int]@ == k@,
        decreases keys.len() - i,
    {
        proof {
            assert(keys_view(keys@).take(i + 1).drop_last() =~= keys_view(keys@).take(i as int));
        }
        if keys[i] == *k {
            if found.is_some() {
                proof {
                    let kv = keys_view(keys@);
                    assert(kv.take(i + 1).last() == kv[i as int]);
                    assert(count_key(kv.take(i + 1), k@) >= 2);
                    lemma_count_grows(kv, k@, i as int + 1, keys@.len() as int);
                    assert(kv.take(keys@.len() as int) =~= kv);
                }
                return Lookup::Several;
            }
            found = Some(i);
        }
        i = i + 1;
    }
    proof { assert(keys_view(keys@).take(keys@.len() as int) =~= keys_view(keys@)); }
    match found {
        Some(j) => Lookup::Unique(j),
        None => Lookup::Missing,
    }
}

/// Counting over a longer prefix never gives less.
pub proof fn lemma_count_grows(s: Seq<Seq<char>>, k: Seq<char>, m: int, n: int)
    requires
        0 <= m <= n <= s.len(),
    ensures
        count_key(s.take(m), k) <= count_key(s.take(n), k),
    decreases n - m,
{
    if m < n {
        lemma_count_grows(s, k, m, n - 1);
        assert(s.take(n).drop_last() =~= s.take(n - 1));
    }
    assert(s.take(s.len() as int) =~= s);
}


/// How the entries of two snapshots pair up by key: for each earlier entry,
/// the position of its later match, and the later entries that are new.
#[derive(Debug)]
pub struct Reconciliation {
    pub matched: Vec<usize>,
    pub added: Vec<usize>,
}

pub open spec fn reconcile_spec_ok(
    b: Seq<Seq<char>>,
    a: Seq<Seq<char>>,
    m: Seq<usize>,
    added: Seq<usize>,
) -> bool {
    &&& m.len() == b.len()
    &&& forall|i: int| 0 <= i < b.len() ==> (#[trigger] m[i]) < a.len() && a[m[i] as int] == b[i]
    &&& added.map_values(|j: usize| j as int) == added_positions(b, a, a.len() as int)
}

/// Pairs `before` with `after` by key. A key that matches several entries on
/// the other side is an error; an earlier key that the later side lacks is an
/// error too, reported only where no key is duplicated.
pub fn reconcile(before: &Vec<String>, after: &Vec<String>) -> (r: Result<Reconciliation, DiffError>)
    ensures
        r == Err::<Reconciliation, DiffError>(DiffError::DuplicateId) <==> has_duplicate_match(
            keys_view(before@),
            keys_view(after@),
        ),
        r == Err::<Reconciliation, DiffError>(DiffError::Removed) <==> !has_duplicate_match(
            keys_view(before@),
            keys_view(after@),
        ) && has_removed(keys_view(before@), keys_view(after@)),
        r != Err::<Reconciliation, DiffError>(DiffError::ScaleOutOfRange),
        r matches Ok(p) ==> reconcile_spec_ok(
            keys_view(before@),
            keys_view(after@),
            p.matched@,
            p.added@,
        ),
{
    let ghost b = keys_view(before@);
    let ghost a = keys_view(after@);
    let mut matched: Vec<usize> = Vec::new();
    let mut removed = false;
    let mut i: usize = 0;
    while i < before.len()
        invariant
            b == keys_view(before@),
            a == keys_view(after@),
            i <= before.len(),
            matched@.len() == i,
            forall|x: int| 0 <= x < i ==> count_key(a, #[trigger] b[x]) < 2,
            forall|x: int| 0 <= x < i ==> (#[trigger] matched@[x]) < a.len() ==> a[matched@[x] as int] == b[x],
            forall|x: int| 0 <= x < i && count_key(a, b[x]) == 1 ==> (#[trigger] matched@[x]) < a.len(),
            removed <==> exists|x: int| 0 <= x < i && count_key(a, #[trigger] b[x]) == 0,
        decreases before.len() - i,
    {
        match find_unique(after, &before[i]) {
            Lookup::Unique(j) => {
                matched.push(j);
            },
            Lookup::Missing => {
                removed = true;
                matched.push(after.len());
            },
            Lookup::Several => {
                proof { assert(count_key(a, b[i as int]) >= 2); }
                return Err(DiffError::DuplicateId);
            },
        }
        i = i + 1;
    }
    let mut added: Vec<usize> = Vec::new();
    let mut j: usize = 0;
    while j < after.len()
        invariant
            b == keys_view(before@),
            a == keys_view(after@),
            j <= after.len(),
            forall|x: int| 0 <= x < b.len() ==> count_key(a, #[trigger] b[x]) < 2,
            forall|y: int| 0 <= y < j ==> count_key(b, #[trigger] a[y]) < 2,
            added@.map_values(|p: usize| p as int) == added_positions(b, a, j as int),
        decreases after.len() - j,
    {
        match find_unique(before, &after[j]) {
            Lookup::Unique(_) => {},
            Lookup::Missing => {
                added.push(j);
            },
            Lookup::Several => {
                proof { assert(count_key(b, a[j as int]) >= 2); }
                return Err(DiffError::DuplicateId);
            },
        }
        proof {
            assert(added@.map_values(|p: usize| p as int) =~= added_positions(b, a, j + 1));
        }
        j = j + 1;
    }
    if removed {
        return Err(DiffError::Removed);
    }
    proof {
        assert forall|x: int| 0 <= x < b.len() implies (#[trigger] matched@[x]) < a.len() && a[matched@[x] as int] == b[x] by {
            assert(count_key(a, b[x]) != 0);
        };
    }
    Ok(Reconciliation { matched, added })
}


/// The mathematical value of an event: block, token amount, dollar value.
pub type EventView = (u64, DecView, DecView);

#[derive(Debug)]
pub struct BlockDiff {
    pub block: u64,
    pub amount: GRT,
    pub dollars: Decimal,
}

impl View for BlockDiff {
    type V = EventView;

    open spec fn view(&self) -> EventView {
        (self.block, self.amount.0@, self.dollars@)
    }
}

pub open spec fn events_view(v: Seq<BlockDiff>) -> Seq<EventView> {
    v.map_values(|e: BlockDiff| e@)
}

/// The events found so far; the order is that of discovery.
#[derive(Debug)]
pub struct Changes {
    pub rewards: Vec<BlockDiff>,
    pub burns: Vec<BlockDiff>,
}

impl Changes {
    pub fn new() -> (r: Changes)
        ensures
            r.rewards@.len() == 0,
            r.burns@.len() == 0,
    {
        Changes { rewards: Vec::new(), burns: Vec::new() }
    }
}

/// Amounts below one ten-thousandth of a token are noise.
pub open spec fn noise_floor() -> DecView {
    (1int, 4int)
}

/// The events that an amount at a block gives: none below the noise floor,
/// else one, valued at `rate` dollars per token.
pub open spec fn event_of(block: u64, amount: DecView, rate: DecView) -> Result<
    Seq<EventView>,
    DiffError,
> {
    if value_lt(amount, noise_floor()) {
        Ok(Seq::empty())
    } else if fits_i64(amount.1 + rate.1) {
        Ok(seq![(block, amount, product_of(amount, rate))])
    } else {
        Err(DiffError::ScaleOutOfRange)
    }
}

fn noise_floor_decimal() -> (r: Decimal)
    ensures
        r.wf(),
        r@ == noise_floor(),
{
    let digits = <String as StringExecFns>::from_str("1");
    proof {
        reveal_strlit("1");
        reveal_with_fuel(nat_of, 2);
    }
    Decimal { digits, scale: 4 }
}

/// Appends the event that `amount` gives at `block`, if it is above noise.
pub fn push_block_diff(
    collection: &mut Vec<BlockDiff>,
    block: u64,
    amount: GRT,
    exchange_rate: &Decimal,
) -> (r: Result<(), DiffError>)
    requires
        amount.wf(),
        exchange_rate.wf(),
    ensures
        match event_of(block, amount.0@, exchange_rate@) {
            Ok(evs) => r is Ok && events_view(final(collection)@) == events_view(old(collection)@)
                + evs,
            Err(e) => r == Err::<(), DiffError>(e) && final(collection)@ == old(collection)@,
        },
{
    let min = GRT(noise_floor_decimal());
    if amount.lt(&min) {
        proof { assert(events_view(collection@) =~= events_view(collection@) + Seq::empty()); }
        return Ok(());
    }
    match amount.mul(exchange_rate) {
        Some(dollars) => {
            let diff = BlockDiff { block, amount, dollars: dollars.0 };
            collection.push(diff);
            proof {
                assert(events_view(collection@) =~= events_view(old(collection)@) + seq![diff@]);
            }
            Ok(())
        },
        None => Err(DiffError::ScaleOutOfRange),
    }
}

/// What a stake's burn moved by, from `before` (or from nothing) to `after`.
pub open spec fn burn_delta(before: Option<StakeView>, after: StakeView) -> Option<DecView> {
    match before {
        None => burned_of(after),
        Some(b) => match (burned_of(after), burned_of(b)) {
            (Some(x), Some(y)) => if sub_ok(x, y) {
                Some(crate::decimal::difference_of(x, y))
            } else {
                None
            },
            _ => None,
        },
    }
}

/// What a stake's gains moved by, from `before` (or from nothing) to `after`.
pub open spec fn gain_delta(before: Option<StakeView>, after: StakeView) -> Option<DecView> {
    match before {
        None => gains_of(after),
        Some(b) => match (gains_of(after), gains_of(b)) {
            (Some(x), Some(y)) => if sub_ok(x, y) {
                Some(crate::decimal::difference_of(x, y))
            } else {
                None
            },
            _ => None,
        },
    }
}

/// The burn events and the reward events of one stake's change.
pub open spec fn delta_events(
    before: Option<StakeView>,
    after: StakeView,
    block: u64,
    rate: DecView,
) -> Result<(Seq<EventView>, Seq<EventView>), DiffError> {
    match (burn_delta(before, after), gain_delta(before, after)) {
        (Some(burn), Some(gain)) => match (event_of(block, burn, rate), event_of(block, gain, rate)) {
            (Ok(be), Ok(ge)) => Ok((be, ge)),
            _ => Err(DiffError::ScaleOutOfRange),
        },
        _ => Err(DiffError::ScaleOutOfRange),
    }
}

/// A change of one stake: its earlier state, if it had one, and its later state.
pub type DeltaView = (Option<StakeView>, StakeView);

/// The burn and reward events of a list of stake changes, in order.
pub open spec fn events_of(ds: Seq<DeltaView>, block: u64, rate: DecView) -> Result<
    (Seq<EventView>, Seq<EventView>),
    DiffError,
>
    decreases ds.len(),
{
    if ds.len() == 0 {
        Ok((Seq::empty(), Seq::empty()))
    } else {
        match events_of(ds.drop_last(), block, rate) {
            Err(e) => Err(e),
            Ok((bu, re)) => match delta_events(ds.last().0, ds.last().1, block, rate) {
                Err(e) => Err(e),
                Ok((b2, r2)) => Ok((bu + b2, re + r2)),
            },
        }
    }
}

/// Records the events of one stake's change (`before` is `None` for a new
/// stake). On an error some of its events may already stand in `changes`.
fn stake_change(
    before: Option<&Stake>,
    after: &Stake,
    block: u64,
    exchange_rate: &Decimal,
    changes: &mut Changes,
) -> (r: Result<(), DiffError>)
    requires
        stake_wf(after@),
        before matches Some(b) ==> stake_wf(b@),
        exchange_rate.wf(),
    ensures
        ({
            let bv = match before { Some(b) => Some(b@), None => None };
            match delta_events(bv, after@, block, exchange_rate@) {
                Ok((be, ge)) => r is Ok && events_view(final(changes).burns@) == events_view(
                    old(changes).burns@,
                ) + be && events_view(final(changes).rewards@) == events_view(
                    old(changes).rewards@,
                ) + ge,
                Err(e) => r == Err::<(), DiffError>(e),
            }
        }),
{
    let burn = match before {
        None => after.burned_grt(),
        Some(b) => match (after.burned_grt(), b.burned_grt()) {
            (Some(x), Some(y)) => x.sub(&y),
            _ => None,
        },
    };
    let gain = match before {
        None => after.gains(),
        Some(b) => match (after.gains(), b.gains()) {
            (Some(x), Some(y)) => x.sub(&y),
            _ => None,
        },
    };
    match (burn, gain) {
        (Some(burn), Some(gain)) => {
            push_block_diff(&mut changes.burns, block, burn, exchange_rate)?;
            push_block_diff(&mut changes.rewards, block, gain, exchange_rate)
        },
        _ => Err(DiffError::ScaleOutOfRange),
    }
}


pub open spec fn stake_ids(s: Seq<StakeView>) -> Seq<Seq<char>> {
    s.map_values(|x: StakeView| x.id)
}

pub open spec fn delegator_ids(s: Seq<DelegatorView>) -> Seq<Seq<char>> {
    s.map_values(|x: DelegatorView| x.id)
}

/// The position of key `k` in `a` (meaningful where `k` occurs once).
pub open spec fn partner(a: Seq<Seq<char>>, k: Seq<char>) -> int {
    choose|j: int| 0 <= j < a.len() && a[j] == k
}

/// The stake changes between two stake lists of one delegator: each earlier
/// stake with its later match, in order, then each new stake.
pub open spec fn stake_pairs(bs: Seq<StakeView>, as_: Seq<StakeView>) -> Result<
    Seq<DeltaView>,
    DiffError,
> {
    let b = stake_ids(bs);
    let a = stake_ids(as_);
    if has_duplicate_match(b, a) {
        Err(DiffError::DuplicateId)
    } else if has_removed(b, a) {
        Err(DiffError::Removed)
    } else {
        Ok(matched_stakes(bs, as_) + added_stakes(bs, as_))
    }
}

/// Each earlier stake with the later stake of the same id.
pub open spec fn matched_stakes(bs: Seq<StakeView>, as_: Seq<StakeView>) -> Seq<DeltaView> {
    Seq::new(bs.len(), |i: int| (Some(bs[i]), as_[partner(stake_ids(as_), bs[i].id)]))
}

/// Each later stake whose id the earlier list lacks.
pub open spec fn added_stakes(bs: Seq<StakeView>, as_: Seq<StakeView>) -> Seq<DeltaView> {
    added_positions(stake_ids(bs), stake_ids(as_), as_.len() as int).map_values(
        |p: int| (None::<StakeView>, as_[p]),
    )
}

/// The stake changes of the first `n` earlier delegators with their matches.
pub open spec fn matched_delegator_pairs(
    bd: Seq<DelegatorView>,
    ad: Seq<DelegatorView>,
    n: int,
) -> Result<Seq<DeltaView>, DiffError>
    decreases n,
{
    if n <= 0 {
        Ok(Seq::empty())
    } else {
        match matched_delegator_pairs(bd, ad, n - 1) {
            Err(e) => Err(e),
            Ok(s) => match stake_pairs(
                bd[n - 1].stakes,
                ad[partner(delegator_ids(ad), bd[n - 1].id)].stakes,
            ) {
                Err(e) => Err(e),
                Ok(t) => Ok(s + t),
            },
        }
    }
}

/// Every stake of the new delegators at positions `ps`, as new stakes.
pub open spec fn new_delegator_pairs(ad: Seq<DelegatorView>, ps: Seq<int>) -> Seq<DeltaView>
    decreases ps.len(),
{
    if ps.len() == 0 {
        Seq::empty()
    } else {
        new_delegator_pairs(ad, ps.drop_last()) + ad[ps.last()].stakes.map_values(
            |x: StakeView| (None::<StakeView>, x),
        )
    }
}

/// All stake changes between two delegator snapshots, or the error that
/// stops the reconciliation.
pub open spec fn delegator_pairs(bd: Seq<DelegatorView>, ad: Seq<DelegatorView>) -> Result<
    Seq<DeltaView>,
    DiffError,
> {
    let b = delegator_ids(bd);
    let a = delegator_ids(ad);
    if has_duplicate_match(b, a) {
        Err(DiffError::DuplicateId)
    } else if has_removed(b, a) {
        Err(DiffError::Removed)
    } else {
        match matched_delegator_pairs(bd, ad, bd.len() as int) {
            Err(e) => Err(e),
            Ok(s) => Ok(s + new_delegator_pairs(ad, added_positions(b, a, a.len() as int))),
        }
    }
}

/// The burn and reward events between two snapshots, or the error.
pub open spec fn diff_outcome(
    bd: Seq<DelegatorView>,
    ad: Seq<DelegatorView>,
    block: u64,
    rate: DecView,
) -> Result<(Seq<EventView>, Seq<EventView>), DiffError> {
    match delegator_pairs(bd, ad) {
        Err(e) => Err(e),
        Ok(ds) => events_of(ds, block, rate),
    }
}

/// A key that occurs once sits at one position only.
pub proof fn lemma_single_position(a: Seq<Seq<char>>, k: Seq<char>, j1: int, j2: int)
    requires
        count_key(a, k) == 1,
        0 <= j1 < a.len(),
        0 <= j2 < a.len(),
        a[j1] == k,
        a[j2] == k,
    ensures
        j1 == j2,
    decreases a.len(),
{
    let n = a.len() - 1;
    if j1 < n && j2 < n {
        if a[n] == k {
            lemma_count_positive(a.drop_last(), k, j1);
        } else {
            lemma_single_position(a.drop_last(), k, j1, j2);
        }
    } else if j1 < n || j2 < n {
        let j = if j1 < n { j1 } else { j2 };
        lemma_count_positive(a.drop_last(), k, j);
    }
}

pub proof fn lemma_count_positive(a: Seq<Seq<char>>, k: Seq<char>, j: int)
    requires
        0 <= j < a.len(),
        a[j] == k,
    ensures
        count_key(a, k) >= 1,
    decreases a.len(),
{
    if j < a.len() - 1 {
        lemma_count_positive(a.drop_last(), k, j);
    }
}

/// A stake change by positions: (delegator, stake) in the earlier snapshot,
/// if the stake was there, and (delegator, stake) in the later one.
struct StakeRef {
    before: Option<(usize, usize)>,
    after: (usize, usize),
}

spec fn ref_ok(bd: Seq<DelegatorView>, ad: Seq<DelegatorView>, r: StakeRef) -> bool {
    &&& r.after.0 < ad.len()
    &&& r.after.1 < ad[r.after.0 as int].stakes.len()
    &&& r.before matches Some(p) ==> p.0 < bd.len() && p.1 < bd[p.0 as int].stakes.len()
}

spec fn ref_view(bd: Seq<DelegatorView>, ad: Seq<DelegatorView>, r: StakeRef) -> DeltaView {
    (
        match r.before {
            Some(p) => Some(bd[p.0 as int].stakes[p.1 as int]),
            None => None,
        },
        ad[r.after.0 as int].stakes[r.after.1 as int],
    )
}

spec fn refs_view(bd: Seq<DelegatorView>, ad: Seq<DelegatorView>, rs: Seq<StakeRef>) -> Seq<DeltaView> {
    rs.map_values(|r: StakeRef| ref_view(bd, ad, r))
}

fn ids_of_stakes(v: &Vec<Stake>) -> (r: Vec<String>)
    ensures
        keys_view(r@) == stake_ids(stakes_view(v@)),
{
    let mut r: Vec<String> = Vec::new();
    let mut i: usize = 0;
    while i < v.len()
        invariant
            i <= v.len(),
            keys_view(r@) == stake_ids(stakes_view(v@)).take(i as int),
        decreases v.len() - i,
    {
        let id = v[i].id.clone();
        proof {
            assert(id@ == stakes_view(v@)[i as int].id);
        }
        let ghost prev = r@;
        r.push(id);
        proof {
            assert(keys_view(r@) =~= keys_view(prev).push(id@));
            assert(stake_ids(stakes_view(v@)).take(i + 1) =~= stake_ids(stakes_view(v@)).take(
                i as int,
            ).push(id@));
            assert(keys_view(r@) =~= stake_ids(stakes_view(v@)).take(i + 1));
        }
        i = i + 1;
    }
    proof {
        assert(stake_ids(stakes_view(v@)).take(i as int) =~= stake_ids(
            stakes_view(v@),
        ));
    }
    r
}

fn ids_of_delegators(v: &Vec<Delegator>) -> (r: Vec<String>)
    ensures
        keys_view(r@) == delegator_ids(delegators_view(v@)),
{
    let mut r: Vec<String> = Vec::new();
    let mut i: usize = 0;
    while i < v.len()
        invariant
            i <= v.len(),
            keys_view(r@) == delegator_ids(delegators_view(v@)).take(i as int),
        decreases v.len() - i,
    {
        let id = v[i].id.clone();
        proof {
            assert(id@ == delegators_view(v@)[i as int].id);
        }
        let ghost prev = r@;
        r.push(id);
        proof {
            assert(keys_view(r@) =~= keys_view(prev).push(id@));
            assert(delegator_ids(delegators_view(v@)).take(i + 1) =~= delegator_ids(
                delegators_view(v@),
            ).take(i as int).push(id@));
            assert(keys_view(r@) =~= delegator_ids(delegators_view(v@)).take(
                i + 1,
            ));
        }
        i = i + 1;
    }
    proof {
        assert(delegator_ids(delegators_view(v@)).take(i as int) =~= delegator_ids(
            delegators_view(v@),
        ));
    }
    r
}


spec fn refs_ok(bd: Seq<DelegatorView>, ad: Seq<DelegatorView>, rs: Seq<StakeRef>) -> bool {
    forall|x: int| 0 <= x < rs.len() ==> ref_ok(bd, ad, #[trigger] rs[x])
}

/// Where `k` occurs once in `a`, at `j`, `partner` names `j`.
proof fn lemma_partner(a: Seq<Seq<char>>, k: Seq<char>, j: int)
    requires
        count_key(a, k) == 1,
        0 <= j < a.len(),
        a[j] == k,
    ensures
        partner(a, k) == j,
{
    let p = partner(a, k);
    lemma_single_position(a, k, p, j);
}

/// Appends the stake changes between delegator `bi` before and `ai` after.
fn pair_delegator_stakes(
    before: &Vec<Delegator>,
    after: &Vec<Delegator>,
    bi: usize,
    ai: usize,
    out: &mut Vec<StakeRef>,
) -> (r: Result<(), DiffError>)
    requires
        bi < before.len(),
        ai < after.len(),
        delegators_view(before@)[bi as int].id == delegators_view(after@)[ai as int].id,
        refs_ok(delegators_view(before@), delegators_view(after@), old(out)@),
    ensures
        match stake_pairs(
            delegators_view(before@)[bi as int].stakes,
            delegators_view(after@)[ai as int].stakes,
        ) {
            Err(e) => r == Err::<(), DiffError>(e),
            Ok(t) => r is Ok && refs_ok(delegators_view(before@), delegators_view(after@), final(out)@)
                && refs_view(delegators_view(before@), delegators_view(after@), final(out)@)
                == refs_view(delegators_view(before@), delegators_view(after@), old(out)@) + t,
        },
{
    let ghost bd = delegators_view(before@);
    let ghost ad = delegators_view(after@);
    let ghost bs = bd[bi as int].stakes;
    let ghost as_ = ad[ai as int].stakes;
    let ghost base = refs_view(bd, ad, out@);
    let bk = ids_of_stakes(&before[bi].stakes);
    let ak = ids_of_stakes(&after[ai].stakes);
    let plan = reconcile(&bk, &ak)?;
    let ghost b = stake_ids(bs);
    let ghost a = stake_ids(as_);
    let mut i: usize = 0;
    while i < plan.matched.len()
        invariant
            bd == delegators_view(before@),
            ad == delegators_view(after@),
            bs == bd[bi as int].stakes,
            as_ == ad[ai as int].stakes,
            b == stake_ids(bs),
            a == stake_ids(as_),
            bi < before.len(),
            ai < after.len(),
            !has_duplicate_match(b, a),
            !has_removed(b, a),
            reconcile_spec_ok(b, a, plan.matched@, plan.added@),
            i <= plan.matched.len(),
            refs_ok(bd, ad, out@),
            refs_view(bd, ad, out@) == base + matched_stakes(bs, as_).take(i as int),
        decreases plan.matched.len() - i,
    {
        let j = plan.matched[i];
        let sref = StakeRef { before: Some((bi, i)), after: (ai, j) };
        proof {
            assert(count_key(a, b[i as int]) < 2);
            assert(count_key(a, b[i as int]) != 0);
            lemma_partner(a, b[i as int], j as int);
        }
        let ghost prev = out@;
        out.push(sref);
        proof {
            assert(refs_view(bd, ad, out@) =~= refs_view(bd, ad, prev).push(ref_view(bd, ad, sref)));
            assert(matched_stakes(bs, as_).take(i + 1) =~= matched_stakes(bs, as_).take(
                i as int,
            ).push(ref_view(bd, ad, sref)));
            assert(refs_view(bd, ad, out@) =~= base + matched_stakes(bs, as_).take(i + 1));
        }
        i = i + 1;
    }
    proof {
        assert(matched_stakes(bs, as_).take(i as int) =~= matched_stakes(bs, as_));
        assert(added_stakes(bs, as_).take(0) =~= Seq::<DeltaView>::empty());
    }
    let mut k: usize = 0;
    while k < plan.added.len()
        invariant
            bd == delegators_view(before@),
            ad == delegators_view(after@),
            bs == bd[bi as int].stakes,
            as_ == ad[ai as int].stakes,
            b == stake_ids(bs),
            a == stake_ids(as_),
            bi < before.len(),
            ai < after.len(),
            reconcile_spec_ok(b, a, plan.matched@, plan.added@),
            k <= plan.added.len(),
            refs_ok(bd, ad, out@),
            refs_view(bd, ad, out@) == base + matched_stakes(bs, as_) + added_stakes(bs, as_).take(
                k as int,
            ),
        decreases plan.added.len() - k,
    {
        let j = plan.added[k];
        let sref = StakeRef { before: None, after: (ai, j) };
        proof {
            lemma_added_positions_bounds(b, a, a.len() as int);
            assert(plan.added@.map_values(|p: usize| p as int)[k as int] == j as int);
        }
        let ghost prev = out@;
        out.push(sref);
        proof {
            assert(refs_view(bd, ad, out@) =~= refs_view(bd, ad, prev).push(ref_view(bd, ad, sref)));
            assert(added_stakes(bs, as_).take(k + 1) =~= added_stakes(bs, as_).take(k as int).push(
                ref_view(bd, ad, sref),
            ));
            assert(refs_view(bd, ad, out@) =~= base + matched_stakes(bs, as_) + added_stakes(
                bs,
                as_,
            ).take(k + 1));
        }
        k = k + 1;
    }
    proof {
        lemma_added_positions_bounds(b, a, a.len() as int);
        assert(added_stakes(bs, as_).take(k as int) =~= added_stakes(bs, as_));
        assert(base + matched_stakes(bs, as_) + added_stakes(bs, as_) =~= base + (matched_stakes(
            bs,
            as_,
        ) + added_stakes(bs, as_)));
    }
    Ok(())
}

proof fn lemma_added_positions_bounds(b: Seq<Seq<char>>, a: Seq<Seq<char>>, n: int)
    requires
        n <= a.len(),
    ensures
        added_positions(b, a, n).len() <= if n < 0 { 0 } else { n },
        forall|x: int|
            0 <= x < added_positions(b, a, n).len() ==> 0 <= #[trigger] added_positions(b, a, n)[x]
                < n,
    decreases n,
{
    if n > 0 {
        lemma_added_positions_bounds(b, a, n - 1);
    }
}


/// Once the matched delegators give an error, more of them keep it.
proof fn lemma_matched_error_stays(bd: Seq<DelegatorView>, ad: Seq<DelegatorView>, m: int, n: int)
    requires
        0 <= m <= n,
        matched_delegator_pairs(bd, ad, m) is Err,
    ensures
        matched_delegator_pairs(bd, ad, n) == matched_delegator_pairs(bd, ad, m),
    decreases n - m,
{
    if m < n {
        lemma_matched_error_stays(bd, ad, m, n - 1);
    }
}

/// All stake changes between two snapshots, by position.
fn pair_stakes(before: &Vec<Delegator>, after: &Vec<Delegator>) -> (r: Result<Vec<StakeRef>, DiffError>)
    ensures
        match delegator_pairs(delegators_view(before@), delegators_view(after@)) {
            Err(e) => r == Err::<Vec<StakeRef>, DiffError>(e),
            Ok(ds) => r matches Ok(rs) && refs_ok(delegators_view(before@), delegators_view(after@), rs@)
                && refs_view(delegators_view(before@), delegators_view(after@), rs@) == ds,
        },
{
    let ghost bd = delegators_view(before@);
    let ghost ad = delegators_view(after@);
    let bk = ids_of_delegators(before);
    let ak = ids_of_delegators(after);
    let plan = reconcile(&bk, &ak)?;
    let ghost b = delegator_ids(bd);
    let ghost a = delegator_ids(ad);
    let mut out: Vec<StakeRef> = Vec::new();
    proof {
        assert(refs_view(bd, ad, out@) =~= Seq::<DeltaView>::empty());
    }
    let mut i: usize = 0;
    while i < plan.matched.len()
        invariant
            bd == delegators_view(before@),
            ad == delegators_view(after@),
            b == delegator_ids(bd),
            a == delegator_ids(ad),
            !has_duplicate_match(b, a),
            !has_removed(b, a),
            reconcile_spec_ok(b, a, plan.matched@, plan.added@),
            i <= plan.matched.len(),
            refs_ok(bd, ad, out@),
            matched_delegator_pairs(bd, ad, i as int) == Ok::<Seq<DeltaView>, DiffError>(
                refs_view(bd, ad, out@),
            ),
        decreases plan.matched.len() - i,
    {
        let j = plan.matched[i];
        proof {
            assert(count_key(a, b[i as int]) < 2);
            assert(count_key(a, b[i as int]) != 0);
            lemma_partner(a, b[i as int], j as int);
            assert(bd[i as int].id == b[i as int]);
            assert(ad[j as int].id == a[j as int]);
        }
        match pair_delegator_stakes(before, after, i, j, &mut out) {
            Ok(()) => {},
            Err(e) => {
                proof { lemma_matched_error_stays(bd, ad, i + 1, bd.len() as int); }
                return Err(e);
            },
        }
        i = i + 1;
    }
    let ghost m = refs_view(bd, ad, out@);
    let ghost ps = added_positions(b, a, a.len() as int);
    proof {
        lemma_added_positions_bounds(b, a, a.len() as int);
        assert(ps.take(0) =~= Seq::<int>::empty());
        assert(m + new_delegator_pairs(ad, ps.take(0)) =~= m);
    }
    let mut k: usize = 0;
    while k < plan.added.len()
        invariant
            bd == delegators_view(before@),
            ad == delegators_view(after@),
            b == delegator_ids(bd),
            a == delegator_ids(ad),
            ps == added_positions(b, a, a.len() as int),
            plan.added@.map_values(|p: usize| p as int) == ps,
            forall|x: int| 0 <= x < ps.len() ==> 0 <= #[trigger] ps[x] < a.len(),
            k <= plan.added.len(),
            refs_ok(bd, ad, out@),
            refs_view(bd, ad, out@) == m + new_delegator_pairs(ad, ps.take(k as int)),
        decreases plan.added.len() - k,
    {
        let j = plan.added[k];
        proof {
            assert(plan.added@.map_values(|p: usize| p as int)[k as int] == j as int);
        }
        let ghost mid = refs_view(bd, ad, out@);
        let mut s: usize = 0;
        while s < after[j].stakes.len()
            invariant
                bd == delegators_view(before@),
                ad == delegators_view(after@),
                j < after.len(),
                s <= after@[j as int].stakes.len(),
                refs_ok(bd, ad, out@),
                refs_view(bd, ad, out@) == mid + ad[j as int].stakes.map_values(
                    |x: StakeView| (None::<StakeView>, x),
                ).take(s as int),
            decreases after@[j as int].stakes.len() - s,
        {
            let sref = StakeRef { before: None, after: (j, s) };
            let ghost prev = out@;
            out.push(sref);
            proof {
                assert(refs_view(bd, ad, out@) =~= refs_view(bd, ad, prev).push(
                    ref_view(bd, ad, sref),
                ));
                assert(ad[j as int].stakes.map_values(|x: StakeView| (None::<StakeView>, x)).take(
                    s + 1,
                ) =~= ad[j as int].stakes.map_values(|x: StakeView| (None::<StakeView>, x)).take(
                    s as int,
                ).push(ref_view(bd, ad, sref)));
            }
            s = s + 1;
        }
        proof {
            assert(ad[j as int].stakes.map_values(|x: StakeView| (None::<StakeView>, x)).take(
                s as int,
            ) =~= ad[j as int].stakes.map_values(|x: StakeView| (None::<StakeView>, x)));
            assert(ps.take(k + 1).drop_last() =~= ps.take(k as int));
            assert(refs_view(bd, ad, out@) =~= m + new_delegator_pairs(ad, ps.take(k + 1)));
        }
        k = k + 1;
    }
    proof {
        assert(ps.take(k as int) =~= ps);
    }
    Ok(out)
}

/// The events of the listed stake changes, appended to `found`.
fn record_changes(
    before: &Vec<Delegator>,
    after: &Vec<Delegator>,
    refs: &Vec<StakeRef>,
    block: u64,
    exchange_rate: &Decimal,
    found: &mut Changes,
) -> (r: Result<(), DiffError>)
    requires
        refs_ok(delegators_view(before@), delegators_view(after@), refs@),
        forall|x: int| 0 <= x < before@.len() ==> delegator_wf(#[trigger] delegators_view(before@)[x]),
        forall|x: int| 0 <= x < after@.len() ==> delegator_wf(#[trigger] delegators_view(after@)[x]),
        exchange_rate.wf(),
        old(found).burns@.len() == 0,
        old(found).rewards@.len() == 0,
    ensures
        match events_of(
            refs_view(delegators_view(before@), delegators_view(after@), refs@),
            block,
            exchange_rate@,
        ) {
            Err(e) => r == Err::<(), DiffError>(e),
            Ok((be, ge)) => r is Ok && events_view(final(found).burns@) == be && events_view(
                final(found).rewards@,
            ) == ge,
        },
{
    let ghost bd = delegators_view(before@);
    let ghost ad = delegators_view(after@);
    let ghost ds = refs_view(bd, ad, refs@);
    proof {
        assert(ds.take(0) =~= Seq::<DeltaView>::empty());
        assert(events_view(found.burns@) =~= Seq::<EventView>::empty());
        assert(events_view(found.rewards@) =~= Seq::<EventView>::empty());
    }
    let mut i: usize = 0;
    while i < refs.len()
        invariant
            bd == delegators_view(before@),
            ad == delegators_view(after@),
            ds == refs_view(bd, ad, refs@),
            refs_ok(bd, ad, refs@),
            forall|x: int| 0 <= x < before@.len() ==> delegator_wf(#[trigger] delegators_view(before@)[x]),
            forall|x: int| 0 <= x < after@.len() ==> delegator_wf(#[trigger] delegators_view(after@)[x]),
            exchange_rate.wf(),
            i <= refs.len(),
            events_of(ds.take(i as int), block, exchange_rate@) == Ok::<
                (Seq<EventView>, Seq<EventView>),
                DiffError,
            >((events_view(found.burns@), events_view(found.rewards@))),
        decreases refs.len() - i,
    {
        let sref = &refs[i];
        proof {
            assert(ref_ok(bd, ad, refs@[i as int]));
            assert(ds.take(i + 1).drop_last() =~= ds.take(i as int));
            assert(delegator_wf(ad[sref.after.0 as int]));
            assert(stake_wf(ad[sref.after.0 as int].stakes[sref.after.1 as int]));
        }
        let stake_after = &after[sref.after.0].stakes[sref.after.1];
        let result = match sref.before {
            Some((d, k)) => {
                proof {
                    assert(delegator_wf(bd[d as int]));
                    assert(stake_wf(bd[d as int].stakes[k as int]));
                }
                stake_change(Some(&before[d].stakes[k]), stake_after, block, exchange_rate, found)
            },
            None => stake_change(None, stake_after, block, exchange_rate, found),
        };
        match result {
            Ok(()) => {},
            Err(e) => {
                proof { lemma_events_error_stays(ds, block, exchange_rate@, i + 1, ds.len() as int); assert(ds.take(ds.len() as int) =~= ds); }
                return Err(e);
            },
        }
        i = i + 1;
    }
    proof {
        assert(ds.take(i as int) =~= ds);
    }
    Ok(())
}

proof fn lemma_events_error_stays(ds: Seq<DeltaView>, block: u64, rate: DecView, m: int, n: int)
    requires
        0 <= m <= n <= ds.len(),
        events_of(ds.take(m), block, rate) is Err,
    ensures
        events_of(ds.take(n), block, rate) == events_of(ds.take(m), block, rate),
    decreases n - m,
{
    if m < n {
        lemma_events_error_stays(ds, block, rate, m, n - 1);
        assert(ds.take(n).drop_last() =~= ds.take(n - 1));
    }
}

/// Reconciles two snapshots of the same delegators, taken at `block - 1` and
/// `block`, and appends the burn and reward events of every changed or new
/// stake to `changes`, valued at `exchange_rate`. On an error `changes` is
/// left as it was.
pub fn diff_delegators(
    before: &Vec<Delegator>,
    after: &Vec<Delegator>,
    block: u64,
    exchange_rate: &Decimal,
    changes: &mut Changes,
) -> (r: Result<(), DiffError>)
    requires
        forall|x: int| 0 <= x < before@.len() ==> delegator_wf(#[trigger] delegators_view(before@)[x]),
        forall|x: int| 0 <= x < after@.len() ==> delegator_wf(#[trigger] delegators_view(after@)[x]),
        exchange_rate.wf(),
    ensures
        match diff_outcome(delegators_view(before@), delegators_view(after@), block, exchange_rate@) {
            Err(e) => r == Err::<(), DiffError>(e) && final(changes).burns@ == old(changes).burns@
                && final(changes).rewards@ == old(changes).rewards@,
            Ok((be, ge)) => r is Ok && events_view(final(changes).burns@) == events_view(
                old(changes).burns@,
            ) + be && events_view(final(changes).rewards@) == events_view(old(changes).rewards@)
                + ge,
        },
{
    let refs = pair_stakes(before, after)?;
    let mut found = Changes::new();
    record_changes(before, after, &refs, block, exchange_rate, &mut found)?;
    let ghost old_burns = changes.burns@;
    let ghost old_rewards = changes.rewards@;
    let ghost new_burns = found.burns@;
    let ghost new_rewards = found.rewards@;
    changes.burns.append(&mut found.burns);
    changes.rewards.append(&mut found.rewards);
    proof {
        assert(events_view(changes.burns@) =~= events_view(old_burns) + events_view(new_burns));
        assert(events_view(changes.rewards@) =~= events_view(old_rewards) + events_view(
            new_rewards,
        ));
    }
    Ok(())
}

/// Reconciling one delegator whose only stake changed gives exactly that
/// stake's events: a burn event for `burned(after) - burned(before)` and a
/// reward event for `gains(after) - gains(before)`, each dropped when its
/// amount is below one ten-thousandth of a token.
pub proof fn lemma_matched_stake_events(
    id: Seq<char>,
    before: StakeView,
    after: StakeView,
    block: u64,
    rate: DecView,
)
    requires
        before.id == after.id,
    ensures
        diff_outcome(
            seq![DelegatorView { stakes: seq![before], id: id }],
            seq![DelegatorView { stakes: seq![after], id: id }],
            block,
            rate,
        ) == delta_events(Some(before), after, block, rate),
        burned_of(before) is Some && burned_of(after) is Some && gains_of(before) is Some
            && gains_of(after) is Some ==> delta_events(Some(before), after, block, rate) == Ok::<
            (Seq<EventView>, Seq<EventView>),
            DiffError,
        >(
            (
                event_of(
                    block,
                    crate::decimal::difference_of(burned_of(after)->Some_0, burned_of(before)->Some_0),
                    rate,
                )->Ok_0,
                event_of(
                    block,
                    crate::decimal::difference_of(gains_of(after)->Some_0, gains_of(before)->Some_0),
                    rate,
                )->Ok_0,
            ),
        ) || delta_events(Some(before), after, block, rate) == Err::<
            (Seq<EventView>, Seq<EventView>),
            DiffError,
        >(DiffError::ScaleOutOfRange),
{
    lemma_single_delegator_pairs(id, before, after);
    lemma_single_events(seq![(Some(before), after)], block, rate);
}

proof fn lemma_single_events(pairs: Seq<DeltaView>, block: u64, rate: DecView)
    requires
        pairs.len() == 1,
    ensures
        events_of(pairs, block, rate) == delta_events(pairs[0].0, pairs[0].1, block, rate),
{
    assert(pairs.drop_last() =~= Seq::<DeltaView>::empty());
    reveal_with_fuel(events_of, 2);
    match delta_events(pairs[0].0, pairs[0].1, block, rate) {
        Ok((be, ge)) => {
            assert(Seq::<EventView>::empty() + be =~= be);
            assert(Seq::<EventView>::empty() + ge =~= ge);
        },
        Err(_) => {},
    }
}

proof fn lemma_single_delegator_pairs(id: Seq<char>, before: StakeView, after: StakeView)
    requires
        before.id == after.id,
    ensures
        delegator_pairs(
            seq![DelegatorView { stakes: seq![before], id: id }],
            seq![DelegatorView { stakes: seq![after], id: id }],
        ) == Ok::<Seq<DeltaView>, DiffError>(seq![(Some(before), after)]),
{
    let bd = seq![DelegatorView { stakes: seq![before], id: id }];
    let ad = seq![DelegatorView { stakes: seq![after], id: id }];
    let pairs = seq![(Some(before), after)];
    assert(delegator_ids(bd) =~= seq![id]);
    assert(delegator_ids(ad) =~= seq![id]);
    lemma_single_key(delegator_ids(bd), delegator_ids(ad), id);
    lemma_single_stake_pairs(before, after);
    assert(partner(delegator_ids(ad), id) == 0) by {
        lemma_partner(delegator_ids(ad), id, 0);
    };
    assert(matched_delegator_pairs(bd, ad, 0) == Ok::<Seq<DeltaView>, DiffError>(Seq::empty()));
    assert(Seq::<DeltaView>::empty() + pairs =~= pairs);
    assert(matched_delegator_pairs(bd, ad, 1) == Ok::<Seq<DeltaView>, DiffError>(pairs));
    assert(new_delegator_pairs(ad, Seq::<int>::empty()) =~= Seq::<DeltaView>::empty());
    assert(pairs + Seq::<DeltaView>::empty() =~= pairs);
}

proof fn lemma_single_stake_pairs(before: StakeView, after: StakeView)
    requires
        before.id == after.id,
    ensures
        stake_pairs(seq![before], seq![after]) == Ok::<Seq<DeltaView>, DiffError>(
            seq![(Some(before), after)],
        ),
{
    let pairs = seq![(Some(before), after)];
    assert(stake_ids(seq![before]) =~= seq![after.id]);
    assert(stake_ids(seq![after]) =~= seq![after.id]);
    lemma_single_key(stake_ids(seq![before]), stake_ids(seq![after]), after.id);
    assert(partner(stake_ids(seq![after]), before.id) == 0) by {
        lemma_partner(stake_ids(seq![after]), before.id, 0);
    };
    assert(matched_stakes(seq![before], seq![after]) =~= pairs);
    assert(added_stakes(seq![before], seq![after]) =~= Seq::<DeltaView>::empty());
    assert(pairs + Seq::<DeltaView>::empty() =~= pairs);
}

/// One key on each side, the same: matched once, nothing removed or added.
proof fn lemma_single_key(b: Seq<Seq<char>>, a: Seq<Seq<char>>, k: Seq<char>)
    requires
        b == seq![k],
        a == seq![k],
    ensures
        count_key(a, k) == 1,
        count_key(b, k) == 1,
        !has_duplicate_match(b, a),
        !has_removed(b, a),
        added_positions(b, a, a.len() as int) == Seq::<int>::empty(),
{
    assert(a.drop_last() =~= Seq::<Seq<char>>::empty());
    assert(b.drop_last() =~= Seq::<Seq<char>>::empty());
    reveal_with_fuel(count_key, 2);
    assert(count_key(a, k) == 1);
    assert(count_key(b, k) == 1);
    assert(added_positions(b, a, 0) == Seq::<int>::empty());
}


/// No key occurs twice.
pub open spec fn unique_keys(s: Seq<Seq<char>>) -> bool {
    forall|i: int, j: int| 0 <= i < j < s.len() ==> s[i] != s[j]
}

/// Each change leaves its stake as it was, and the stake's burn and gains
/// can be computed.
pub open spec fn unchanged_deltas(ds: Seq<DeltaView>) -> bool {
    forall|i: int|
        0 <= i < ds.len() ==> (#[trigger] ds[i]).0 == Some(ds[i].1) && burned_of(ds[i].1) is Some
            && gains_of(ds[i].1) is Some
}

/// Every stake of a snapshot has a computable burn and gains.
pub open spec fn amounts_computable(v: Seq<DelegatorView>) -> bool {
    forall|x: int, y: int|
        0 <= x < v.len() && 0 <= y < v[x].stakes.len() ==> burned_of(#[trigger] v[x].stakes[y])
            is Some && gains_of(v[x].stakes[y]) is Some
}

/// A stake that did not change gives neither a burn nor a reward event.
pub proof fn lemma_unchanged_stake_quiet(s: StakeView, block: u64, rate: DecView)
    requires
        burned_of(s) is Some,
        gains_of(s) is Some,
    ensures
        delta_events(Some(s), s, block, rate) == Ok::<(Seq<EventView>, Seq<EventView>), DiffError>(
            (Seq::empty(), Seq::empty()),
        ),
{
    lemma_self_difference_quiet(burned_of(s)->Some_0);
    lemma_self_difference_quiet(gains_of(s)->Some_0);
}

/// `x - x` lies below the noise floor.
proof fn lemma_self_difference_quiet(x: DecView)
    ensures
        sub_ok(x, x),
        value_lt(crate::decimal::difference_of(x, x), noise_floor()),
{
    let d = crate::decimal::difference_of(x, x);
    assert(d.0 == 0 && d.1 == x.1);
    let m = crate::decimal::max(d.1, 4);
    crate::decimal::lemma_pow10_add((m - 4) as nat, 0);
    crate::decimal::lemma_pow10_add((m - d.1) as nat, 0);
    assert(crate::decimal::scaled_to(d, m) == 0);
}

/// A list of changes that each leave their stake as it was gives no events.
pub proof fn lemma_unchanged_deltas_quiet(ds: Seq<DeltaView>, block: u64, rate: DecView)
    requires
        unchanged_deltas(ds),
    ensures
        events_of(ds, block, rate) == Ok::<(Seq<EventView>, Seq<EventView>), DiffError>(
            (Seq::empty(), Seq::empty()),
        ),
    decreases ds.len(),
{
    if ds.len() > 0 {
        let init = ds.drop_last();
        assert forall|i: int| 0 <= i < init.len() implies (#[trigger] init[i]).0 == Some(init[i].1)
            && burned_of(init[i].1) is Some && gains_of(init[i].1) is Some by {
            assert(init[i] == ds[i]);
        };
        lemma_unchanged_deltas_quiet(init, block, rate);
        assert(ds.last() == ds[ds.len() - 1]);
        lemma_unchanged_stake_quiet(ds.last().1, block, rate);
        assert(Seq::<EventView>::empty() + Seq::<EventView>::empty() =~= Seq::<EventView>::empty());
    }
}

proof fn lemma_count_absent(a: Seq<Seq<char>>, k: Seq<char>)
    requires
        forall|i: int| 0 <= i < a.len() ==> a[i] != k,
    ensures
        count_key(a, k) == 0,
    decreases a.len(),
{
    if a.len() > 0 {
        lemma_count_absent(a.drop_last(), k);
    }
}

/// In a list without repeats, each key occurs once.
proof fn lemma_unique_count(a: Seq<Seq<char>>, j: int)
    requires
        unique_keys(a),
        0 <= j < a.len(),
    ensures
        count_key(a, a[j]) == 1,
    decreases a.len(),
{
    let n = a.len() - 1;
    let init = a.drop_last();
    if j == n {
        assert forall|i: int| 0 <= i < init.len() implies init[i] != a[j] by {
            assert(init[i] == a[i]);
        };
        lemma_count_absent(init, a[j]);
    } else {
        assert(init[j] == a[j]);
        lemma_unique_count(init, j);
    }
}

/// Comparing a list without repeats with itself: no duplicate match, no
/// removal, no addition, and each key's partner is its own position.
proof fn lemma_self_keys(a: Seq<Seq<char>>)
    requires
        unique_keys(a),
    ensures
        !has_duplicate_match(a, a),
        !has_removed(a, a),
        added_positions(a, a, a.len() as int) == Seq::<int>::empty(),
        forall|j: int| 0 <= j < a.len() ==> partner(a, #[trigger] a[j]) == j,
{
    assert forall|j: int| 0 <= j < a.len() implies count_key(a, #[trigger] a[j]) == 1 by {
        lemma_unique_count(a, j);
    };
    assert forall|j: int| 0 <= j < a.len() implies partner(a, #[trigger] a[j]) == j by {
        lemma_partner(a, a[j], j);
    };
    lemma_no_added(a, a.len() as int);
}

proof fn lemma_no_added(a: Seq<Seq<char>>, n: int)
    requires
        0 <= n <= a.len(),
        forall|j: int| 0 <= j < a.len() ==> count_key(a, #[trigger] a[j]) == 1,
    ensures
        added_positions(a, a, n) == Seq::<int>::empty(),
    decreases n,
{
    if n > 0 {
        lemma_no_added(a, n - 1);
    }
}

/// A stake list without repeated ids, compared with itself, pairs each
/// stake with itself.
proof fn lemma_self_stake_pairs(bs: Seq<StakeView>)
    requires
        unique_keys(stake_ids(bs)),
    ensures
        stake_pairs(bs, bs) == Ok::<Seq<DeltaView>, DiffError>(
            Seq::new(bs.len(), |i: int| (Some(bs[i]), bs[i])),
        ),
{
    let ids = stake_ids(bs);
    lemma_self_keys(ids);
    assert forall|i: int| 0 <= i < bs.len() implies partner(ids, bs[i].id) == i by {
        assert(ids[i] == bs[i].id);
    };
    assert(matched_stakes(bs, bs) =~= Seq::new(bs.len(), |i: int| (Some(bs[i]), bs[i])));
    assert(added_stakes(bs, bs) =~= Seq::<DeltaView>::empty());
    assert(matched_stakes(bs, bs) + added_stakes(bs, bs) =~= matched_stakes(bs, bs));
}

/// Where each earlier delegator's partner in `ad` is itself, the matched
/// pairs leave every stake as it was.
proof fn lemma_self_matched_pairs(v: Seq<DelegatorView>, ad: Seq<DelegatorView>, n: int)
    requires
        0 <= n <= v.len(),
        v.len() <= ad.len(),
        forall|k: int| 0 <= k < v.len() ==> partner(delegator_ids(ad), #[trigger] v[k].id) == k,
        forall|k: int| 0 <= k < v.len() ==> #[trigger] ad[k] == v[k],
        forall|x: int| 0 <= x < v.len() ==> unique_keys(stake_ids(#[trigger] v[x].stakes)),
        amounts_computable(v),
    ensures
        matched_delegator_pairs(v, ad, n) is Ok,
        unchanged_deltas(matched_delegator_pairs(v, ad, n)->Ok_0),
    decreases n,
{
    if n > 0 {
        lemma_self_matched_pairs(v, ad, n - 1);
        assert(partner(delegator_ids(ad), v[n - 1].id) == n - 1);
        assert(ad[n - 1] == v[n - 1]);
        let bs = v[n - 1].stakes;
        lemma_self_stake_pairs(bs);
        let s = matched_delegator_pairs(v, ad, n - 1)->Ok_0;
        let t = Seq::new(bs.len(), |i: int| (Some(bs[i]), bs[i]));
        let st = s + t;
        assert forall|i: int| 0 <= i < st.len() implies (#[trigger] st[i]).0 == Some(st[i].1)
            && burned_of(st[i].1) is Some && gains_of(st[i].1) is Some by {
            if i < s.len() {
                assert(st[i] == s[i]);
            } else {
                assert(st[i] == t[i - s.len()]);
                assert(burned_of(v[n - 1].stakes[i - s.len()]) is Some);
            }
        };
    }
}

/// Reconciling a snapshot with itself records nothing, where ids do not
/// repeat and every stake's burn and gains can be computed.
pub proof fn lemma_identical_snapshots_quiet(v: Seq<DelegatorView>, block: u64, rate: DecView)
    requires
        unique_keys(delegator_ids(v)),
        forall|x: int| 0 <= x < v.len() ==> unique_keys(stake_ids(#[trigger] v[x].stakes)),
        amounts_computable(v),
    ensures
        diff_outcome(v, v, block, rate) == Ok::<(Seq<EventView>, Seq<EventView>), DiffError>(
            (Seq::empty(), Seq::empty()),
        ),
{
    let ids = delegator_ids(v);
    lemma_self_keys(ids);
    assert forall|k: int| 0 <= k < v.len() implies partner(ids, #[trigger] v[k].id) == k by {
        assert(ids[k] == v[k].id);
    };
    lemma_self_matched_pairs(v, v, v.len() as int);
    let s = matched_delegator_pairs(v, v, v.len() as int)->Ok_0;
    assert(new_delegator_pairs(v, Seq::<int>::empty()) =~= Seq::<DeltaView>::empty());
    assert(s + Seq::<DeltaView>::empty() =~= s);
    lemma_unchanged_deltas_quiet(s, block, rate);
}


/// Changes that leave their stakes as they were add no events in front of
/// others.
proof fn lemma_quiet_prefix(s: Seq<DeltaView>, t: Seq<DeltaView>, block: u64, rate: DecView)
    requires
        unchanged_deltas(s),
    ensures
        events_of(s + t, block, rate) == events_of(t, block, rate),
    decreases t.len(),
{
    if t.len() == 0 {
        assert(s + t =~= s);
        lemma_unchanged_deltas_quiet(s, block, rate);
    } else {
        lemma_quiet_prefix(s, t.drop_last(), block, rate);
        assert((s + t).drop_last() =~= s + t.drop_last());
        assert((s + t).last() == t.last());
    }
}

proof fn lemma_count_push(a: Seq<Seq<char>>, x: Seq<char>, k: Seq<char>)
    ensures
        count_key(a.push(x), k) == count_key(a, k) + if x == k {
            1nat
        } else {
            0nat
        },
{
    assert(a.push(x).drop_last() =~= a);
}

/// Reconciling a snapshot with the same snapshot and one more delegator
/// gives exactly the events of the new delegator's stakes, each counted
/// from nothing, where ids do not repeat and the earlier stakes' burn and
/// gains can be computed.
pub proof fn lemma_appended_delegator_events(
    v: Seq<DelegatorView>,
    d: DelegatorView,
    block: u64,
    rate: DecView,
)
    requires
        unique_keys(delegator_ids(v)),
        forall|i: int| 0 <= i < v.len() ==> (#[trigger] v[i]).id != d.id,
        forall|x: int| 0 <= x < v.len() ==> unique_keys(stake_ids(#[trigger] v[x].stakes)),
        amounts_computable(v),
    ensures
        diff_outcome(v, v.push(d), block, rate) == events_of(
            d.stakes.map_values(|x: StakeView| (None::<StakeView>, x)),
            block,
            rate,
        ),
{
    let w = v.push(d);
    let b = delegator_ids(v);
    let a = delegator_ids(w);
    assert(a =~= b.push(d.id));
    assert forall|i: int, j: int| 0 <= i < j < a.len() implies a[i] != a[j] by {
        if j == b.len() {
            assert(a[i] == v[i].id);
        } else {
            assert(a[i] == b[i] && a[j] == b[j]);
        }
    };
    lemma_self_keys(a);
    lemma_self_keys(b);
    assert forall|i: int| 0 <= i < b.len() implies count_key(b, #[trigger] b[i]) == 1 by {
        lemma_unique_count(b, i);
    };
    assert forall|i: int| 0 <= i < b.len() implies count_key(a, #[trigger] b[i]) == 1 by {
        lemma_unique_count(b, i);
        lemma_count_push(b, d.id, b[i]);
        assert(b[i] == v[i].id);
    };
    assert forall|i: int| 0 <= i < b.len() implies b[i] != d.id by {
        assert(b[i] == v[i].id);
    };
    lemma_count_absent(b, d.id);
    assert(!has_duplicate_match(b, a)) by {
        assert forall|j: int| 0 <= j < a.len() implies count_key(b, #[trigger] a[j]) < 2 by {
            if j < b.len() {
                assert(a[j] == b[j]);
            } else {
                assert(a[j] == d.id);
            }
        };
    };
    assert(!has_removed(b, a));
    assert forall|k: int| 0 <= k < v.len() implies partner(a, #[trigger] v[k].id) == k by {
        assert(a[k] == v[k].id);
    };
    assert forall|k: int| 0 <= k < v.len() implies #[trigger] w[k] == v[k] by {};
    lemma_self_matched_pairs(v, w, v.len() as int);
    assert forall|j: int| 0 <= j < b.len() implies count_key(b, #[trigger] a[j]) == 1 by {
        assert(a[j] == b[j]);
    };
    lemma_no_added_prefix(b, a, b.len() as int);
    assert(a[b.len() as int] == d.id);
    assert(added_positions(b, a, a.len() as int) == seq![b.len() as int]) by {
        assert(Seq::<int>::empty().push(b.len() as int) =~= seq![b.len() as int]);
    };
    let ps = seq![b.len() as int];
    assert(ps.drop_last() =~= Seq::<int>::empty());
    let t = d.stakes.map_values(|x: StakeView| (None::<StakeView>, x));
    assert(new_delegator_pairs(w, Seq::<int>::empty()) =~= Seq::<DeltaView>::empty());
    assert(new_delegator_pairs(w, ps) =~= t);
    let s = matched_delegator_pairs(v, w, v.len() as int)->Ok_0;
    lemma_quiet_prefix(s, t, block, rate);
}

proof fn lemma_no_added_prefix(b: Seq<Seq<char>>, a: Seq<Seq<char>>, n: int)
    requires
        0 <= n <= a.len(),
        forall|j: int| 0 <= j < n ==> count_key(b, #[trigger] a[j]) == 1,
    ensures
        added_positions(b, a, n) == Seq::<int>::empty(),
    decreases n,
{
    if n > 0 {
        lemma_no_added_prefix(b, a, n - 1);
    }
}

} // verus!
