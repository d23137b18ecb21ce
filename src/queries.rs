//! The data that the upstream source serves: epochs, delegators, their stakes
//! and indexers, and an exchange-rate pair; and the query texts that ask for them.
use vstd::prelude::*;
use crate::decimal::{
    Decimal, DecView, decimal_value, difference_of, div_ok, is_decimal_text, mul_ok, product_of,
    quotient_of, short_text, sub_ok,
};
use crate::grt::{GRT, tokens_of_wei};
use crate::decimal::{
    exact_difference, exact_quotient, lemma_same_value_at, lemma_scaled_up, max, pow10, same_value,
    scaled_to,
};
use vstd::string::StringExecFns;

verus! {

/// The share of a deposit that stays staked: 0.995 as mantissa and scale.
pub open spec fn kept_share() -> DecView {
    (995int, 3int)
}

#[derive(Debug, Clone, Copy, PartialEq, Eq, Structural)]
pub struct Epoch {
    pub start_block: u64,
    pub id: u32,
}

#[derive(Debug)]
pub struct EpochData {
    pub epoches: Vec<Epoch>,
}

#[derive(Debug)]
pub struct Pair {
    pub token0_price: String,
}

impl Pair {
    /// The price of a token in dollars, read from its decimal text.
    pub fn exchange_rate(&self) -> (r: Option<Decimal>)
        ensures
            r is Some ==> r->Some_0.wf(),
            is_decimal_text(self.token0_price@) ==> r is Some && r->Some_0@ == decimal_value(
                self.token0_price@,
            ),
    {
        crate::decimal::parse_decimal(self.token0_price.as_str())
    }
}

/// The text fields of an indexer: id, delegator shares, delegated tokens,
/// delegation exchange rate.
pub type IndexerView = (Seq<char>, Seq<char>, Seq<char>, Seq<char>);

#[derive(Debug)]
pub struct Indexer {
    pub id: String,
    pub delegator_shares: String,
    pub delegated_tokens: String,
    pub delegation_exchange_rate: String,
}

impl View for Indexer {
    type V = IndexerView;

    open spec fn view(&self) -> IndexerView {
        (self.id@, self.delegator_shares@, self.delegated_tokens@, self.delegation_exchange_rate@)
    }
}

pub struct StakeView {
    pub share_amount: Seq<char>,
    pub personal_exchange_rate: Seq<char>,
    pub staked_tokens: Seq<char>,
    pub indexer: IndexerView,
    pub id: Seq<char>,
}

#[derive(Debug)]
pub struct Stake {
    pub share_amount: String,
    pub personal_exchange_rate: String,
    pub staked_tokens: String,
    pub indexer: Indexer,
    pub id: String,
}

impl View for Stake {
    type V = StakeView;

    open spec fn view(&self) -> StakeView {
        StakeView {
            share_amount: self.share_amount@,
            personal_exchange_rate: self.personal_exchange_rate@,
            staked_tokens: self.staked_tokens@,
            indexer: self.indexer@,
            id: self.id@,
        }
    }
}

pub struct DelegatorView {
    pub stakes: Seq<StakeView>,
    pub id: Seq<char>,
}

#[derive(Debug)]
pub struct Delegator {
    pub stakes: Vec<Stake>,
    pub id: String,
}

impl View for Delegator {
    type V = DelegatorView;

    open spec fn view(&self) -> DelegatorView {
        DelegatorView { stakes: stakes_view(self.stakes@), id: self.id@ }
    }
}

pub open spec fn stakes_view(v: Seq<Stake>) -> Seq<StakeView> {
    v.map_values(|s: Stake| s@)
}

pub open spec fn delegators_view(v: Seq<Delegator>) -> Seq<DelegatorView> {
    v.map_values(|d: Delegator| d@)
}

/// The amounts that a stake's derived quantities are read from are decimal text.
pub open spec fn stake_wf(s: StakeView) -> bool {
    is_decimal_text(s.staked_tokens) && is_decimal_text(s.share_amount) && is_decimal_text(
        s.indexer.3,
    )
}

pub open spec fn delegator_wf(d: DelegatorView) -> bool {
    forall|i: int| 0 <= i < d.stakes.len() ==> stake_wf(#[trigger] d.stakes[i])
}

pub open spec fn staked_of(s: StakeView) -> Option<DecView> {
    tokens_of_wei(decimal_value(s.staked_tokens))
}

/// What was deposited, `staked / 0.995`, less what stayed staked.
pub open spec fn burned_of(s: StakeView) -> Option<DecView> {
    match staked_of(s) {
        Some(staked) => if div_ok(staked, kept_share(), 3) && sub_ok(
            quotient_of(staked, kept_share()),
            staked,
        ) {
            Some(difference_of(quotient_of(staked, kept_share()), staked))
        } else {
            None
        },
        None => None,
    }
}

pub open spec fn current_value_of(s: StakeView) -> Option<DecView> {
    let rate = decimal_value(s.indexer.3);
    match tokens_of_wei(decimal_value(s.share_amount)) {
        Some(shares) => if mul_ok(shares, rate) {
            Some(product_of(shares, rate))
        } else {
            None
        },
        None => None,
    }
}

pub open spec fn gains_of(s: StakeView) -> Option<DecView> {
    match (current_value_of(s), staked_of(s)) {
        (Some(v), Some(staked)) => if sub_ok(v, staked) {
            Some(difference_of(v, staked))
        } else {
            None
        },
        _ => None,
    }
}

impl Stake {
    /// Whether the amounts read from this stake are decimal text.
    pub fn is_well_formed(&self) -> (r: bool)
        ensures
            r == stake_wf(self@),
    {
        crate::decimal::is_decimal(self.staked_tokens.as_str()) && crate::decimal::is_decimal(
            self.share_amount.as_str(),
        ) && crate::decimal::is_decimal(self.indexer.delegation_exchange_rate.as_str())
    }

    /// `None` only where a scale would leave `i64` (see `div_ok`).
    pub fn staked_grt(&self) -> (r: Option<GRT>)
        requires
            is_decimal_text(self.staked_tokens@),
        ensures
            r is Some <==> staked_of(self@) is Some,
            r is Some ==> r->Some_0.wf() && r->Some_0.0@ == staked_of(self@)->Some_0,
            short_text(self.staked_tokens@) ==> r is Some && 0 <= r->Some_0.0@.1
                < self.staked_tokens@.len() + 120,
    {
        GRT::from_wei_text(self.staked_tokens.as_str())
    }

    /// `None` only where a scale would leave `i64`. Where `staked / 0.995`
    /// is exact, `burned * 0.995 == staked * 0.005`.
    pub fn burned_grt(&self) -> (r: Option<GRT>)
        requires
            is_decimal_text(self.staked_tokens@),
        ensures
            r is Some <==> burned_of(self@) is Some,
            r is Some ==> r->Some_0.wf() && r->Some_0.0@ == burned_of(self@)->Some_0,
            short_text(self.staked_tokens@) ==> r is Some && -3 <= r->Some_0.0@.1
                < self.staked_tokens@.len() + 224,
            r is Some && exact_quotient(staked_of(self@)->Some_0, kept_share()) ==> same_value(
                (r->Some_0.0@.0 * 995, r->Some_0.0@.1 + 3),
                (staked_of(self@)->Some_0.0 * 5, staked_of(self@)->Some_0.1 + 3),
            ),
    {
        let staked = match self.staked_grt() {
            Some(g) => g,
            None => { return None; },
        };
        let non_burned = kept_share_decimal();
        match staked.div(&non_burned) {
            Some(total) => {
                let r = total.sub(&staked);
                proof {
                    if r is Some && exact_quotient(staked.0@, kept_share()) {
                        lemma_burn_relation(staked.0@, total.0@, r->Some_0.0@);
                    }
                }
                r
            },
            None => None,
        }
    }

    /// `None` only where a scale would leave `i64`.
    pub fn current_value(&self) -> (r: Option<GRT>)
        requires
            is_decimal_text(self.share_amount@),
            is_decimal_text(self.indexer.delegation_exchange_rate@),
        ensures
            r is Some <==> current_value_of(self@) is Some,
            r is Some ==> r->Some_0.wf() && r->Some_0.0@ == current_value_of(self@)->Some_0,
            short_text(self.share_amount@) && short_text(self.indexer.delegation_exchange_rate@)
                ==> r is Some && 0 <= r->Some_0.0@.1 < self.share_amount@.len()
                + self.indexer.delegation_exchange_rate@.len() + 120,
    {
        let exchange_rate = match crate::decimal::parse_decimal(
            self.indexer.delegation_exchange_rate.as_str(),
        ) {
            Some(d) => d,
            None => { return None; },
        };
        proof {
            crate::decimal::lemma_decimal_scale(self.indexer.delegation_exchange_rate@);
        }
        let share_amount = match GRT::from_wei_text(self.share_amount.as_str()) {
            Some(g) => g,
            None => { return None; },
        };
        share_amount.mul(&exchange_rate)
    }

    /// `None` only where a scale would leave `i64`.
    pub fn gains(&self) -> (r: Option<GRT>)
        requires
            stake_wf(self@),
        ensures
            r is Some <==> gains_of(self@) is Some,
            r is Some ==> r->Some_0.wf() && r->Some_0.0@ == gains_of(self@)->Some_0,
            short_text(self.staked_tokens@) && short_text(self.share_amount@) && short_text(
                self.indexer.delegation_exchange_rate@,
            ) ==> r is Some,
    {
        match (self.current_value(), self.staked_grt()) {
            (Some(value), Some(staked)) => value.sub(&staked),
            _ => None,
        }
    }
}

/// From `total * 0.995 == staked` and `burned == total - staked`, as
/// values: `burned * 0.995 == staked * 0.005`.
proof fn lemma_burn_relation(s: DecView, t: DecView, r: DecView)
    requires
        same_value((t.0 * 995, t.1 + 3), s),
        same_value(r, exact_difference(t, s)),
    ensures
        same_value((r.0 * 995, r.1 + 3), (s.0 * 5, s.1 + 3)),
{
    let l = max(max(r.1, t.1), s.1);
    let k = l + 3;
    let m = max(t.1, s.1);
    reveal_with_fuel(pow10, 4);
    assert(pow10(3) == 1000);
    let tl = scaled_to(t, l);
    let sl = scaled_to(s, l);
    let rl = scaled_to(r, l);
    // The exact quotient, at scale k.
    lemma_same_value_at((t.0 * 995, t.1 + 3), s, k);
    assert(scaled_to((t.0 * 995, t.1 + 3), k) == 995 * tl) by {
        let p = pow10((l - t.1) as nat);
        assert((k - (t.1 + 3)) as nat == (l - t.1) as nat);
        assert((t.0 * 995) * p == 995 * (t.0 * p)) by (nonlinear_arith);
    };
    lemma_scaled_up(s, l, 3);
    assert(995 * tl == sl * 1000);
    // The exact difference, at scale l.
    lemma_scaled_up(t, m, (l - m) as nat);
    lemma_scaled_up(s, m, (l - m) as nat);
    lemma_same_value_at(r, exact_difference(t, s), l);
    assert(scaled_to(exact_difference(t, s), l) == tl - sl) by {
        let p = pow10((l - m) as nat);
        let a = scaled_to(t, m);
        let b = scaled_to(s, m);
        assert((a - b) * p == a * p - b * p) by (nonlinear_arith);
    };
    assert(rl == tl - sl);
    // The claim, at scale k.
    assert(scaled_to((r.0 * 995, r.1 + 3), k) == 995 * rl) by {
        let p = pow10((l - r.1) as nat);
        assert((k - (r.1 + 3)) as nat == (l - r.1) as nat);
        assert((r.0 * 995) * p == 995 * (r.0 * p)) by (nonlinear_arith);
    };
    assert(scaled_to((s.0 * 5, s.1 + 3), k) == 5 * sl) by {
        let p = pow10((l - s.1) as nat);
        assert((k - (s.1 + 3)) as nat == (l - s.1) as nat);
        assert((s.0 * 5) * p == 5 * (s.0 * p)) by (nonlinear_arith);
    };
    lemma_same_value_at((r.0 * 995, r.1 + 3), (s.0 * 5, s.1 + 3), k);
}

/// 0.995, with the mantissa and scale that parsing "0.995" gives.
fn kept_share_decimal() -> (r: Decimal)
    ensures
        r.wf(),
        r@ == kept_share(),
        r.digits@.len() == 3,
{
    let digits = <String as StringExecFns>::from_str("995");
    proof {
        reveal_strlit("995");
        reveal_with_fuel(crate::decimal::nat_of, 4);
    }
    Decimal { digits, scale: 3 }
}

/// Whether every stake of every delegator in a snapshot is well formed.
pub fn snapshot_well_formed(v: &Vec<Delegator>) -> (r: bool)
    ensures
        r == forall|x: int| 0 <= x < v@.len() ==> delegator_wf(#[trigger] delegators_view(v@)[x]),
{
    let mut i: usize = 0;
    while i < v.len()
        invariant
            i <= v.len(),
            forall|x: int| 0 <= x < i ==> delegator_wf(#[trigger] delegators_view(v@)[x]),
        decreases v.len() - i,
    {
        let stakes = &v[i].stakes;
        let mut k: usize = 0;
        while k < stakes.len()
            invariant
                i < v.len(),
                stakes == &v@[i as int].stakes,
                k <= stakes.len(),
                forall|y: int| 0 <= y < k ==> stake_wf(#[trigger] stakes_view(stakes@)[y]),
            decreases stakes.len() - k,
        {
            if !stakes[k].is_well_formed() {
                proof {
                    assert(!stake_wf(delegators_view(v@)[i as int].stakes[k as int]));
                }
                return false;
            }
            k = k + 1;
        }
        proof {
            assert(delegator_wf(delegators_view(v@)[i as int]));
        }
        i = i + 1;
    }
    true
}

/// The decimal digits of `n`, without sign or padding.
pub open spec fn nat_text(n: nat) -> Seq<char>
    decreases n,
{
    if n < 10 {
        seq![((n + 48) as u8) as char]
    } else {
        nat_text(n / 10).push((((n % 10) + 48) as u8) as char)
    }
}

/// The one-character text of a decimal digit.
fn digit_text(d: u64) -> (r: &'static str)
    requires
        d < 10,
    ensures
        r@ == seq![((d + 48) as u8) as char],
{
    proof {
        reveal_strlit("0");
        reveal_strlit("1");
        reveal_strlit("2");
        reveal_strlit("3");
        reveal_strlit("4");
        reveal_strlit("5");
        reveal_strlit("6");
        reveal_strlit("7");
        reveal_strlit("8");
        reveal_strlit("9");
    }
    match d {
        0 => "0",
        1 => "1",
        2 => "2",
        3 => "3",
        4 => "4",
        5 => "5",
        6 => "6",
        7 => "7",
        8 => "8",
        _ => "9",
    }
}

/// Appends the decimal digits of `n` to `out`.
fn push_digits(n: u64, out: &mut String)
    ensures
        final(out)@ == old(out)@ + nat_text(n as nat),
    decreases n,
{
    if n >= 10 {
        push_digits(n / 10, out);
    }
    out.append(digit_text(n % 10));
    proof {
        if n >= 10 {
            assert(nat_text(n as nat) == nat_text((n / 10) as nat).push((((n % 10) + 48) as u8) as char));
        }
    }
}

/// The decimal digits of `n`.
fn u64_text(n: u64) -> (r: String)
    ensures
        r@ == nat_text(n as nat),
{
    let mut out = String::new();
    push_digits(n, &mut out);
    proof {
        assert(out@ =~= nat_text(n as nat));
    }
    out
}

/// The epochs, ordered by id.
pub open spec fn sorted_by_id(s: Seq<Epoch>) -> bool {
    forall|i: int, j: int| 0 <= i < j < s.len() ==> s[i].id <= s[j].id
}

/// Whether an epoch has id `k`.
pub open spec fn id_is(k: u32) -> spec_fn(Epoch) -> bool {
    |e: Epoch| e.id == k
}

/// For every id, the epochs with that id come in the same order in both.
pub open spec fn same_order_per_id(s: Seq<Epoch>, t: Seq<Epoch>) -> bool {
    forall|k: u32| #[trigger] s.filter(id_is(k)) == t.filter(id_is(k))
}

/// Puts fetched epochs in the order of their ids; among equal ids the
/// earlier one stays first.
pub fn epochs(fetched: Vec<Epoch>) -> (r: Vec<Epoch>)
    ensures
        sorted_by_id(r@),
        r@.to_multiset() == fetched@.to_multiset(),
        same_order_per_id(r@, fetched@),
{
    broadcast use vstd::seq_lib::group_to_multiset_ensures;

    let mut r: Vec<Epoch> = Vec::new();
    let mut i: usize = 0;
    proof {
        assert forall|k: u32| #[trigger] r@.filter(id_is(k)) == fetched@.take(0).filter(id_is(k)) by {
            assert(r@ =~= fetched@.take(0));
        };
    }
    while i < fetched.len()
        invariant
            i <= fetched.len(),
            sorted_by_id(r@),
            same_order_per_id(r@, fetched@.take(i as int)),
            r@.to_multiset() == fetched@.take(i as int).to_multiset(),
        decreases fetched.len() - i,
    {
        let e = fetched[i];
        let mut p: usize = 0;
        while p < r.len() && r[p].id <= e.id
            invariant
                p <= r.len(),
                forall|x: int| 0 <= x < p ==> r@[x].id <= e.id,
            decreases r.len() - p,
        {
            p = p + 1;
        }
        let ghost prev = r@;
        proof {
            assert(fetched@.take(i + 1) =~= fetched@.take(i as int).push(e));
        }
        r.insert(p, e);
        proof {
            vstd::seq_lib::to_multiset_insert(prev, p as int, e);
            vstd::seq_lib::to_multiset_build(fetched@.take(i as int), e);
            let head = prev.take(p as int);
            let tail = prev.skip(p as int);
            assert(prev =~= head + tail);
            assert(r@ =~= head + seq![e] + tail);
            assert forall|k: u32| #[trigger] r@.filter(id_is(k)) == fetched@.take(i + 1).filter(
                id_is(k),
            ) by {
                let f = id_is(k);
                Seq::filter_distributes_over_add(head + seq![e], tail, f);
                Seq::filter_distributes_over_add(head, seq![e], f);
                Seq::filter_distributes_over_add(head, tail, f);
                Seq::<Epoch>::empty().lemma_filter_push(e, f);
                assert(Seq::<Epoch>::empty().push(e) =~= seq![e]);
                assert(Seq::<Epoch>::empty().filter(f) =~= Seq::<Epoch>::empty()) by {
                    reveal(Seq::filter);
                };
                fetched@.take(i as int).lemma_filter_push(e, f);
                if k == e.id {
                    assert forall|x: int| 0 <= x < tail.len() implies !f(#[trigger] tail[x]) by {
                        assert(tail[x] == prev[p + x]);
                        assert(prev[p as int].id > e.id);
                        if x > 0 {
                            assert(prev[p as int].id <= prev[p + x].id);
                        }
                    };
                    assert(tail.all(|y: Epoch| !f(y)));
                    tail.lemma_all_neg_filter_empty(f);
                    assert(tail.filter(f) =~= Seq::<Epoch>::empty());
                    assert(head.filter(f) + seq![e] + tail.filter(f) =~= (head.filter(f)
                        + tail.filter(f)).push(e));
                } else {
                    assert(head.filter(f) + Seq::<Epoch>::empty() =~= head.filter(f));
                }
            };
            assert forall|x: int, y: int| 0 <= x < y < r@.len() implies r@[x].id <= r@[y].id by {
                if y < p {
                } else if y == p {
                } else if x < p {
                    assert(r@[y] == prev[y - 1]);
                    if p < prev.len() {
                        assert(prev[p as int].id > e.id);
                    }
                } else if x == p {
                    assert(prev[p as int].id > e.id);
                    assert(r@[y] == prev[y - 1]);
                } else {
                    assert(r@[y] == prev[y - 1]);
                    assert(r@[x] == prev[x - 1]);
                }
            };
        }
        i = i + 1;
    }
    proof {
        assert(fetched@.take(i as int) =~= fetched@);
    }
    r
}

/// The query for every epoch known so far.
pub open spec fn epochs_query_text() -> Seq<char> {
    "{\n            epoches(first: 1000) {\n                startBlock\n                id\n            }\n        }"@
}

pub fn epochs_query() -> (r: String)
    ensures
        r@ == epochs_query_text(),
{
    <String as StringExecFns>::from_str("{\n            epoches(first: 1000) {\n                startBlock\n                id\n            }\n        }")
}

/// Ids as a bracketed list of quoted strings, separated by ", ".
pub open spec fn quoted_list(ids: Seq<Seq<char>>) -> Seq<char> {
    "["@ + quoted_items(ids) + "]"@
}

pub open spec fn quoted_items(ids: Seq<Seq<char>>) -> Seq<char>
    decreases ids.len(),
{
    if ids.len() == 0 {
        Seq::empty()
    } else if ids.len() == 1 {
        "\""@ + ids[0] + "\""@
    } else {
        quoted_items(ids.drop_last()) + ", "@ + "\""@ + ids.last() + "\""@
    }
}

pub open spec fn delegators_query_text(ids: Seq<Seq<char>>, block_number: u64) -> Seq<char> {
    "{\n            delegators(where: {id_in: "@ + quoted_list(ids) + "}, block: { number: "@ + nat_text(
        block_number as nat,
    ) + " }) {\n                id\n                stakes {\n                    id\n                    shareAmount\n                    stakedTokens\n                    personalExchangeRate\n                    indexer {\n                        id\n                        delegatorShares\n                        delegatedTokens\n                        delegationExchangeRate\n                    }\n                }\n                totalRealizedRewards\n            }\n        }"@
}

/// The query for the given delegators' state at a block.
pub fn delegators(ids: &Vec<String>, block_number: u64) -> (r: String)
    ensures
        r@ == delegators_query_text(ids@.map_values(|s: String| s@), block_number),
{
    let ghost v = ids@.map_values(|s: String| s@);
    let mut list = <String as StringExecFns>::from_str("[");
    let mut i: usize = 0;
    while i < ids.len()
        invariant
            i <= ids.len(),
            v == ids@.map_values(|s: String| s@),
            list@ == "["@ + quoted_items(v.take(i as int)),
        decreases ids.len() - i,
    {
        if i > 0 {
            list.append(", ");
        }
        list.append("\"");
        list.append(ids[i].as_str());
        list.append("\"");
        proof {
            assert(v.take(i + 1).drop_last() =~= v.take(i as int));
            if i == 0 {
                assert(list@ =~= "["@ + quoted_items(v.take(i + 1)));
            } else {
                assert(list@ =~= "["@ + quoted_items(v.take(i + 1)));
            }
        }
        i = i + 1;
    }
    list.append("]");
    proof {
        assert(v.take(i as int) =~= v);
        assert(list@ =~= quoted_list(v));
    }
    let mut text = <String as StringExecFns>::from_str("{\n            delegators(where: {id_in: ");
    text.append(list.as_str());
    text.append("}, block: { number: ");
    let number = u64_text(block_number);
    text.append(number.as_str());
    text.append(" }) {\n                id\n                stakes {\n                    id\n                    shareAmount\n                    stakedTokens\n                    personalExchangeRate\n                    indexer {\n                        id\n                        delegatorShares\n                        delegatedTokens\n                        delegationExchangeRate\n                    }\n                }\n                totalRealizedRewards\n            }\n        }");
    proof {
        assert(text@ =~= delegators_query_text(v, block_number));
    }
    text
}

pub open spec fn pair_query_text(block_number: u64) -> Seq<char> {
    "{\n            pair(id: \"0xdfa42ba0130425b21a1568507b084cc246fb0c8f\", block: { number: "@ + nat_text(block_number as nat) + " }) {\n                token0Price\n            }\n        }"@
}

/// The query for the exchange-rate pair at a block.
pub fn pair(block_number: u64) -> (r: String)
    ensures
        r@ == pair_query_text(block_number),
{
    let mut text = <String as StringExecFns>::from_str("{\n            pair(id: \"0xdfa42ba0130425b21a1568507b084cc246fb0c8f\", block: { number: ");
    let number = u64_text(block_number);
    text.append(number.as_str());
    text.append(" }) {\n                token0Price\n            }\n        }");
    proof {
        assert(text@ =~= pair_query_text(block_number));
    }
    text
}

/// Something that knows how to produce a value on request.
pub trait TaskSource {
    type Output;

    fn execute(&self) -> Self::Output;
}

/// The exchange-rate pair at a block; what it produces is the query for it.
#[derive(Debug, Clone, Copy)]
pub struct PairsTask {
    pub block_number: u64,
}

impl PairsTask {
    pub fn create(block_number: u64) -> (r: PairsTask)
        ensures
            r.block_number == block_number,
    {
        PairsTask { block_number }
    }
}

impl TaskSource for PairsTask {
    type Output = String;

    fn execute(&self) -> String {
        pair(self.block_number)
    }
}

} // verus!
