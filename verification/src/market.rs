//! The market coordinator: agent registration, the per-step order flow
//! (solicit, admit, reserve, insert), the three matching phases, and the
//! settlement of transactions against accounts and the house account.

use vstd::prelude::*;
use crate::account::Account;
use crate::agent::{Agent, AgentId};
use crate::amount::Amount;
use crate::book::{
    fallback_val, has_limit_id, has_market_id, limit_size_sum, market_size_sum, notional_sum, transactions_wf,
    tx_loss_sum, tx_size_sum, OrderBook, Transaction, MAX_FALLBACK_PRICE,
};
use crate::orders::flat::{Order, OrderData, MAX_ORDER_PRICE, MAX_ORDER_SIZE};
use crate::orders::limit::LimitOrder;
use crate::sums::{
    lemma_sum_by_bound, lemma_sum_by_concat, lemma_sum_by_congruence, lemma_sum_by_le,
    lemma_sum_by_nonneg,
    lemma_sum_by_pointwise, lemma_sum_by_push, lemma_sum_by_split, lemma_sum_by_update, sum_by,
};
use vstd::arithmetic::div_mod::{
    lemma_div_is_ordered, lemma_div_multiples_vanish, lemma_div_pos_is_pos,
};

verus! {

/// The mid value of one transaction: the mean of what the bidder paid and
/// what the asker received.
pub open spec fn tx_mid(t: Transaction) -> int {
    (t.ask_gain.as_int + t.bid_loss.as_int) / 2
}

/// The sum of mid values over a list of transactions.
pub open spec fn tx_mid_sum(s: Seq<Transaction>) -> int {
    sum_by(s, |t: Transaction| tx_mid(t))
}

/// The transactions admit a market price: non-negative money on both
/// sides and sums that stay within the machine's range.
pub open spec fn price_ok(s: Seq<Transaction>) -> bool {
    &&& forall|i: int|
        0 <= i < s.len() ==> 0 <= (#[trigger] s[i]).ask_gain.as_int && 0 <= s[i].bid_loss.as_int
            && s[i].ask_gain.as_int + s[i].bid_loss.as_int <= i64::MAX
    &&& tx_mid_sum(s) <= i64::MAX
}

/// The market price a list of transactions yields: the mean of the mid
/// values, or nothing when the list is empty.
pub open spec fn spec_market_price(s: Seq<Transaction>) -> Option<Amount> {
    if s.len() == 0 {
        Option::None
    } else {
        Option::Some(Amount { as_int: (tx_mid_sum(s) / s.len() as int) as i64 })
    }
}

/// Mid values of well-ranged transactions are non-negative.
proof fn lemma_tx_mid_nonneg(s: Seq<Transaction>)
    requires
        forall|i: int|
            0 <= i < s.len() ==> 0 <= (#[trigger] s[i]).ask_gain.as_int && 0
                <= s[i].bid_loss.as_int,
    ensures
        forall|i: int| 0 <= i < s.len() ==> 0 <= tx_mid(#[trigger] s[i]),
        tx_mid_sum(s) >= 0,
{
    let f = |t: Transaction| tx_mid(t);
    assert forall|i: int| 0 <= i < s.len() implies 0 <= tx_mid(#[trigger] s[i]) by {
        lemma_div_pos_is_pos(s[i].ask_gain.as_int + s[i].bid_loss.as_int, 2);
    }
    assert forall|i: int| 0 <= i < s.len() implies f(#[trigger] s[i]) >= 0 by {
        assert(0 <= tx_mid(s[i]));
    }
    lemma_sum_by_nonneg(s, f);
}

/// A prefix of non-negative mid values sums to no more than the whole.
proof fn lemma_tx_mid_prefix(s: Seq<Transaction>, i: int)
    requires
        0 <= i <= s.len(),
        forall|k: int|
            0 <= k < s.len() ==> 0 <= (#[trigger] s[k]).ask_gain.as_int && 0
                <= s[k].bid_loss.as_int,
    ensures
        tx_mid_sum(s.subrange(0, i)) <= tx_mid_sum(s),
{
    lemma_sum_by_split(s, i, |t: Transaction| tx_mid(t));
    let suffix = s.subrange(i, s.len() as int);
    assert forall|k: int|
        0 <= k < suffix.len() implies 0 <= (#[trigger] suffix[k]).ask_gain.as_int && 0
        <= suffix[k].bid_loss.as_int by {
        assert(suffix[k] == s[i + k]);
    }
    lemma_tx_mid_nonneg(suffix);
}

/// When every mid value lies in `[0, b]`, so does the mean.
pub proof fn lemma_market_price_bound(s: Seq<Transaction>, b: int)
    requires
        s.len() > 0,
        b >= 0,
        forall|i: int| 0 <= i < s.len() ==> 0 <= #[trigger] tx_mid(s[i]) <= b,
    ensures
        0 <= tx_mid_sum(s) / s.len() as int <= b,
{
    let f = |t: Transaction| tx_mid(t);
    assert forall|i: int| 0 <= i < s.len() implies f(#[trigger] s[i]) >= 0 by {
        assert(0 <= tx_mid(s[i]));
    }
    assert forall|i: int| 0 <= i < s.len() implies f(#[trigger] s[i]) <= b by {
        assert(tx_mid(s[i]) <= b);
    }
    lemma_sum_by_nonneg(s, f);
    lemma_sum_by_bound(s, f, b);
    let n = s.len() as int;
    lemma_div_pos_is_pos(tx_mid_sum(s), n);
    lemma_div_is_ordered(tx_mid_sum(s), n * b, n);
    lemma_div_multiples_vanish(b, n);
}

/// The mean mid value of a list of transactions, or nothing for an empty
/// list: the step's derived market price.
pub fn market_price_of(transactions: &Vec<Transaction>) -> (r: Option<Amount>)
    requires
        price_ok(transactions@),
    ensures
        r == spec_market_price(transactions@),
{
    proof {
        lemma_tx_mid_nonneg(transactions@);
    }
    let mut sum: i64 = 0;
    let mut i: usize = 0;
    while i < transactions.len()
        invariant
            price_ok(transactions@),
            i <= transactions@.len(),
            sum == tx_mid_sum(transactions@.subrange(0, i as int)),
            sum >= 0,
        decreases transactions@.len() - i,
    {
        let t = transactions[i];
        let ghost pre = transactions@.subrange(0, i as int);
        proof {
            assert(transactions@.subrange(0, i as int + 1) =~= pre.push(transactions@[i as int]));
            lemma_sum_by_push(pre, transactions@[i as int], |t: Transaction| tx_mid(t));
            lemma_tx_mid_nonneg(transactions@);
            lemma_tx_mid_prefix(transactions@, i as int + 1);
        }
        let mid = (t.ask_gain.as_int + t.bid_loss.as_int) / 2;
        sum = sum + mid;
        i = i + 1;
    }
    proof {
        assert(transactions@.subrange(0, transactions@.len() as int) =~= transactions@);
    }
    if transactions.len() == 0 {
        Option::None
    } else {
        proof {
            lemma_div_pos_is_pos(sum as int, transactions@.len() as int);
            lemma_div_is_ordered(sum as int, sum as int, transactions@.len() as int);
            assert(sum as int / transactions@.len() as int <= sum as int) by {
                vstd::arithmetic::div_mod::lemma_div_nonincreasing(
                    sum as int,
                    transactions@.len() as int,
                );
            }
        }
        let q = (sum as i128) / (transactions.len() as i128);
        Option::Some(Amount { as_int: q as i64 })
    }
}

/// What one step records: its number, the transactions it produced, the
/// orders rejected at reservation, and the residue left in the book.
#[derive(Clone, Debug)]
pub struct History {
    pub step: u64,
    pub transactions: Vec<Transaction>,
    pub rejected_orders: Vec<Order>,
    pub unfulfilled_orders: Vec<Order>,
}

impl History {
    /// The market price this step's transactions imply.
    pub fn market_price(&self) -> (r: Option<Amount>)
        requires
            price_ok(self.transactions@),
        ensures
            r == spec_market_price(self.transactions@),
    {
        market_price_of(&self.transactions)
    }

    /// Whether the transactions admit a market price within the machine's
    /// range; `market_price` may be called exactly when they do.
    pub fn price_computable(&self) -> (r: bool)
        ensures
            r == price_ok(self.transactions@),
    {
        let mut sum: i64 = 0;
        let mut i: usize = 0;
        while i < self.transactions.len()
            invariant
                i <= self.transactions@.len(),
                forall|k: int|
                    0 <= k < i ==> 0 <= (#[trigger] self.transactions@[k]).ask_gain.as_int && 0
                        <= self.transactions@[k].bid_loss.as_int
                        && self.transactions@[k].ask_gain.as_int
                        + self.transactions@[k].bid_loss.as_int <= i64::MAX,
                sum == tx_mid_sum(self.transactions@.subrange(0, i as int)),
                sum >= 0,
            decreases self.transactions@.len() - i,
        {
            let t = self.transactions[i];
            if t.ask_gain.as_int < 0 || t.bid_loss.as_int < 0 || (t.bid_loss.as_int > 0
                && t.ask_gain.as_int > i64::MAX - t.bid_loss.as_int) {
                return false;
            }
            let ghost pre = self.transactions@.subrange(0, i as int);
            proof {
                assert(self.transactions@.subrange(0, i as int + 1) =~= pre.push(
                    self.transactions@[i as int],
                ));
                lemma_sum_by_push(pre, self.transactions@[i as int], |t: Transaction| tx_mid(t));
                lemma_div_pos_is_pos(t.ask_gain.as_int + t.bid_loss.as_int, 2);
            }
            let mid = (t.ask_gain.as_int + t.bid_loss.as_int) / 2;
            if mid > i64::MAX - sum {
                proof {
                    let s = self.transactions@;
                    if price_ok(s) {
                        lemma_tx_mid_prefix(s, i as int + 1);
                    }
                }
                return false;
            }
            sum = sum + mid;
            i = i + 1;
        }
        proof {
            assert(self.transactions@.subrange(0, self.transactions@.len() as int)
                =~= self.transactions@);
        }
        true
    }

    /// Forgets the step's lists; the step number keeps running.
    pub fn clear(&mut self)
        ensures
            final(self).step == old(self).step,
            final(self).transactions@.len() == 0,
            final(self).rejected_orders@.len() == 0,
            final(self).unfulfilled_orders@.len() == 0,
    {
        self.transactions = Vec::new();
        self.rejected_orders = Vec::new();
        self.unfulfilled_orders = Vec::new();
    }

    /// Advances the step counter.
    pub fn inc_step(&mut self)
        requires
            old(self).step < u64::MAX,
        ensures
            final(self).step == old(self).step + 1,
            final(self).transactions == old(self).transactions,
            final(self).rejected_orders == old(self).rejected_orders,
            final(self).unfulfilled_orders == old(self).unfulfilled_orders,
    {
        self.step = self.step + 1;
    }

    /// Whether the step produced no transactions at all.
    pub fn no_transactions(&self) -> (r: bool)
        ensures
            r == (self.transactions@.len() == 0),
    {
        self.transactions.len() == 0
    }
}

impl Default for History {
    fn default() -> (r: Self)
        ensures
            r.step == 0,
            r.transactions@.len() == 0,
            r.rejected_orders@.len() == 0,
            r.unfulfilled_orders@.len() == 0,
    {
        History {
            step: 0,
            transactions: Vec::new(),
            rejected_orders: Vec::new(),
            unfulfilled_orders: Vec::new(),
        }
    }
}

/// What a market is about: a display name and the commodity it trades.
pub struct MarketInfo<CommodityType> {
    pub name: String,
    pub commodity: CommodityType,
}

} // verus!

verus! {

/// One entry of the owner map: which agent submitted which order.
#[derive(Copy, Clone, Debug, PartialEq, Eq)]
pub struct OwnerEntry {
    pub order_id: u64,
    pub agent_id: u64,
}

/// Some entry of the owner map carries the given order id.
pub open spec fn map_has(m: Seq<OwnerEntry>, oid: u64) -> bool {
    exists|i: int| 0 <= i < m.len() && m[i].order_id == oid
}

/// The owner map pairs the given order id with the given agent id.
pub open spec fn map_pair(m: Seq<OwnerEntry>, oid: u64, agent: u64) -> bool {
    exists|i: int| 0 <= i < m.len() && m[i].order_id == oid && m[i].agent_id == agent
}

/// Total cash over a list of accounts.
pub open spec fn acc_money_sum(s: Seq<Account>) -> int {
    sum_by(s, |a: Account| a.money.as_int as int)
}

/// Total inventory over a list of accounts.
pub open spec fn acc_comm_sum(s: Seq<Account>) -> int {
    sum_by(s, |a: Account| a.commodity as int)
}

/// The market coordinator.  Orders are owned by the book, accounts by the
/// coordinator, and the owner map from order id to agent id is the sole
/// bridge between them.
pub struct Market<CommodityType> {
    /// What this market trades.
    pub info: MarketInfo<CommodityType>,
    /// The previous step's record, consumed for the fallback price.
    pub history: History,
    /// Per-agent balances, indexed by the agent id.
    pub accounts: Vec<Account>,
    /// The order book the coordinator drives.
    pub book: OrderBook,
    /// The house account that accrues every transaction's difference.
    pub market_account: Account,
    /// The bridge from order id to agent id, rebuilt each step.
    pub order_map: Vec<OwnerEntry>,
}

impl<CommodityType> Market<CommodityType> {
    /// The order book.
    pub open spec fn spec_book(&self) -> OrderBook {
        self.book
    }

    /// The owner map as a sequence of entries.
    pub open spec fn owners(&self) -> Seq<OwnerEntry> {
        self.order_map@
    }

    /// The house account.
    pub open spec fn house(&self) -> Account {
        self.market_account
    }

    /// The coordinator's invariant: a well-formed book whose every
    /// resident order is owned by a registered agent.
    pub open spec fn inv(&self) -> bool {
        &&& self.spec_book().wf()
        &&& forall|k: int|
            0 <= k < self.owners().len() ==> ((#[trigger] self.owners()[k]).agent_id as int)
                < self.accounts@.len()
        &&& forall|oid: u64|
            #[trigger] has_limit_id(self.spec_book().bids(), oid) ==> map_has(self.owners(), oid)
        &&& forall|oid: u64|
            #[trigger] has_limit_id(self.spec_book().asks(), oid) ==> map_has(self.owners(), oid)
        &&& forall|oid: u64|
            #[trigger] has_market_id(self.spec_book().mbids(), oid) ==> map_has(self.owners(), oid)
        &&& forall|oid: u64|
            #[trigger] has_market_id(self.spec_book().masks(), oid) ==> map_has(self.owners(), oid)
    }

    /// The most money one matching pass can move: the limit notionals can
    /// be consumed at most once per phase, and the market-versus-market
    /// phase is capped by the fallback price times the reserved ask sizes.
    pub open spec fn settle_money_cap(&self) -> int {
        3 * (notional_sum(self.spec_book().bids()) + notional_sum(self.spec_book().asks())) + 3
            * MAX_FALLBACK_PRICE as int * (market_size_sum(self.spec_book().masks())
            + limit_size_sum(self.spec_book().asks()))
    }

    /// The most commodity one matching pass can move: every match consumes
    /// ask-side size, either a market ask's or a limit ask's.
    pub open spec fn settle_size_cap(&self) -> int {
        market_size_sum(self.spec_book().masks()) + limit_size_sum(self.spec_book().asks())
    }

    /// Every account, and the house, can absorb a full matching pass
    /// without leaving the machine's integer range.
    pub open spec fn settle_headroom(&self) -> bool {
        &&& forall|j: int|
            0 <= j < self.accounts@.len() ==> {
                let a = #[trigger] self.accounts@[j];
                &&& a.money.as_int + 2 * self.settle_money_cap() <= i64::MAX
                &&& a.money.as_int - 2 * self.settle_money_cap() >= i64::MIN
                &&& a.commodity + self.settle_size_cap() <= i64::MAX
                &&& a.commodity - self.settle_size_cap() >= i64::MIN
            }
        &&& self.market_account.money.as_int + self.settle_money_cap() <= i64::MAX
    }

    /// A fresh market with no agents, no orders and an empty history.
    pub fn new(info: MarketInfo<CommodityType>) -> (r: Market<CommodityType>)
        ensures
            r.inv(),
            r.accounts@.len() == 0,
            r.owners().len() == 0,
            r.spec_book().bids().len() == 0,
            r.spec_book().asks().len() == 0,
            r.spec_book().mbids().len() == 0,
            r.spec_book().masks().len() == 0,
            r.house().money.as_int == 0,
            r.house().commodity == 0,
            r.history.step == 0,
            r.history.transactions@.len() == 0,
            r.info == info,
    {
        Market {
            info,
            history: History::default(),
            accounts: Vec::new(),
            book: OrderBook::empty(),
            market_account: Account::default(),
            order_map: Vec::new(),
        }
    }

    /// Registers an agent-to-be with the given starting balances; the new
    /// agent id indexes the accounts table.
    pub fn register_with_acc(&mut self, account: Account) -> (r: AgentId)
        ensures
            r.0 == old(self).accounts@.len(),
            final(self).accounts@ == old(self).accounts@.push(account),
            final(self).spec_book() == old(self).spec_book(),
            final(self).owners() == old(self).owners(),
            final(self).house() == old(self).house(),
            final(self).history == old(self).history,
            final(self).info == old(self).info,
            old(self).inv() ==> final(self).inv(),
    {
        let id = AgentId::new(self.accounts.len() as u64);
        self.accounts.push(account);
        proof {
            if old(self).inv() {
                assert forall|k: int|
                    0 <= k < self.owners().len() implies ((#[trigger] self.owners()[k]).agent_id
                    as int) < self.accounts@.len() by {
                    assert((old(self).owners()[k].agent_id as int) < old(self).accounts@.len());
                }
            }
        }
        id
    }

    /// Registers with the standard starting account.
    pub fn register_with_starting_acc(&mut self) -> (r: AgentId)
        ensures
            r.0 == old(self).accounts@.len(),
            final(self).accounts@ == old(self).accounts@.push(Account::spec_starting_account()),
            final(self).spec_book() == old(self).spec_book(),
            final(self).owners() == old(self).owners(),
            final(self).house() == old(self).house(),
            final(self).history == old(self).history,
            final(self).info == old(self).info,
            old(self).inv() ==> final(self).inv(),
    {
        self.register_with_acc(Account::starting_account())
    }

    /// Registers with an empty account.
    pub fn register_with_default_acc(&mut self) -> (r: AgentId)
        ensures
            r.0 == old(self).accounts@.len(),
            final(self).accounts@ == old(self).accounts@.push(Account::spec_empty_account()),
            final(self).spec_book() == old(self).spec_book(),
            final(self).owners() == old(self).owners(),
            final(self).house() == old(self).house(),
            final(self).history == old(self).history,
            final(self).info == old(self).info,
            old(self).inv() ==> final(self).inv(),
    {
        self.register_with_acc(Account::default())
    }

    /// Registers an agent: assigns it the next id, gives it the standard
    /// starting account, and runs its one-time setup.
    pub fn register_agent<A: Agent<CommodityType = CommodityType>>(&mut self, agent: &mut A) -> (r:
        AgentId)
        ensures
            r.0 == old(self).accounts@.len(),
            final(self).accounts@ == old(self).accounts@.push(Account::spec_starting_account()),
            final(self).spec_book() == old(self).spec_book(),
            final(self).owners() == old(self).owners(),
            final(self).house() == old(self).house(),
            final(self).history == old(self).history,
            final(self).info == old(self).info,
            old(self).inv() ==> final(self).inv(),
    {
        let id = self.register_with_starting_acc();
        agent.setup(id, &self.info);
        id
    }

    /// The owner of a limit order, if the order is known to the map.
    pub fn owner(&self, order: &LimitOrder) -> (r: Option<AgentId>)
        ensures
            match r {
                Option::Some(a) => map_pair(self.owners(), order.spec_data().id, a.0),
                Option::None => !map_has(self.owners(), order.spec_data().id),
            },
    {
        let order_id = order.to_order().id;
        match map_find(&self.order_map, order_id) {
            Option::Some(a) => Option::Some(AgentId::new(a)),
            Option::None => Option::None,
        }
    }

    /// A copy of the given agent's account, if the agent is registered.
    pub fn account(&self, agent_id: AgentId) -> (r: Option<Account>)
        ensures
            r == (if agent_id.0 < self.accounts@.len() {
                Option::Some(self.accounts@[agent_id.0 as int])
            } else {
                Option::<Account>::None
            }),
    {
        if agent_id.0 < self.accounts.len() as u64 {
            Option::Some(self.accounts[agent_id.0 as usize])
        } else {
            Option::None
        }
    }

    /// Releases every reservation, leaving balances untouched.
    pub fn clear_reservations(&mut self)
        ensures
            final(self).accounts@.len() == old(self).accounts@.len(),
            forall|j: int|
                0 <= j < old(self).accounts@.len() ==> #[trigger] final(self).accounts@[j]
                    == (Account {
                    reserved_money: Amount { as_int: 0 },
                    reserved_commodity: 0,
                    ..old(self).accounts@[j]
                }),
            final(self).spec_book() == old(self).spec_book(),
            final(self).owners() == old(self).owners(),
            final(self).house() == old(self).house(),
            final(self).history == old(self).history,
            final(self).info == old(self).info,
            old(self).inv() ==> final(self).inv(),
    {
        let n = self.accounts.len();
        let mut j: usize = 0;
        while j < n
            invariant
                n == self.accounts@.len(),
                n == old(self).accounts@.len(),
                j <= n,
                forall|k: int|
                    0 <= k < j ==> #[trigger] self.accounts@[k] == (Account {
                        reserved_money: Amount { as_int: 0 },
                        reserved_commodity: 0,
                        ..old(self).accounts@[k]
                    }),
                forall|k: int|
                    j <= k < n ==> #[trigger] self.accounts@[k] == old(self).accounts@[k],
                self.book == old(self).book,
                self.order_map == old(self).order_map,
                self.market_account == old(self).market_account,
                self.history == old(self).history,
                self.info == old(self).info,
            decreases n - j,
        {
            let mut acc = self.accounts[j];
            acc.reserved_money = Amount { as_int: 0 };
            acc.reserved_commodity = 0;
            self.accounts[j] = acc;
            j = j + 1;
        }
        proof {
            if old(self).inv() {
                assert(self.spec_book() == old(self).spec_book());
                assert(self.owners() == old(self).owners());
                assert(self.accounts@.len() == old(self).accounts@.len());
            }
        }
    }

    /// Clears the per-step state: the owner map, every reservation, and
    /// all residual orders in the book.
    pub fn clear_orders(&mut self)
        ensures
            final(self).inv(),
            final(self).accounts@.len() == old(self).accounts@.len(),
            forall|j: int|
                0 <= j < old(self).accounts@.len() ==> #[trigger] final(self).accounts@[j]
                    == (Account {
                    reserved_money: Amount { as_int: 0 },
                    reserved_commodity: 0,
                    ..old(self).accounts@[j]
                }),
            final(self).spec_book().bids().len() == 0,
            final(self).spec_book().asks().len() == 0,
            final(self).spec_book().mbids().len() == 0,
            final(self).spec_book().masks().len() == 0,
            final(self).spec_book().next_id() == old(self).spec_book().next_id(),
            final(self).spec_book().now() == old(self).spec_book().now(),
            final(self).owners().len() == 0,
            final(self).house() == old(self).house(),
            final(self).history == old(self).history,
            final(self).info == old(self).info,
    {
        self.order_map.clear();
        self.clear_reservations();
        self.book.clear_orders();
    }
}

/// The first agent the owner map pairs with the given order id.
pub open spec fn map_first(m: Seq<OwnerEntry>, oid: u64) -> Option<u64>
    decreases m.len(),
{
    if m.len() == 0 {
        Option::None
    } else if m[0].order_id == oid {
        Option::Some(m[0].agent_id)
    } else {
        map_first(m.drop_first(), oid)
    }
}

/// The first match lies past any prefix without a match.
proof fn lemma_map_first_skip(m: Seq<OwnerEntry>, oid: u64, i: int)
    requires
        0 <= i <= m.len(),
        forall|k: int| 0 <= k < i ==> (#[trigger] m[k]).order_id != oid,
    ensures
        map_first(m, oid) == map_first(m.skip(i), oid),
    decreases i,
{
    if i > 0 {
        assert(m[0].order_id != oid);
        assert(m.drop_first() =~= m.skip(1));
        assert forall|k: int| 0 <= k < i - 1 implies (#[trigger] m.skip(1)[k]).order_id != oid by {
            assert(m[k + 1].order_id != oid);
        }
        lemma_map_first_skip(m.skip(1), oid, i - 1);
        assert(m.skip(1).skip(i - 1) =~= m.skip(i));
    } else {
        assert(m.skip(0) =~= m);
    }
}

/// A found first match is the first match.
proof fn lemma_map_first_found(m: Seq<OwnerEntry>, oid: u64, i: int)
    requires
        0 <= i < m.len(),
        forall|k: int| 0 <= k < i ==> (#[trigger] m[k]).order_id != oid,
        m[i].order_id == oid,
    ensures
        map_first(m, oid) == Option::Some(m[i].agent_id),
{
    lemma_map_first_skip(m, oid, i);
    assert(m.skip(i)[0] == m[i]);
}

/// The map holds the id exactly when a first match exists.
pub proof fn lemma_map_first_has(m: Seq<OwnerEntry>, oid: u64)
    ensures
        map_has(m, oid) <==> map_first(m, oid) is Some,
        map_first(m, oid) is Some ==> map_pair(m, oid, map_first(m, oid)->Some_0),
    decreases m.len(),
{
    if m.len() > 0 {
        assert(m.drop_first() =~= m.skip(1));
        lemma_map_first_has(m.skip(1), oid);
        if m[0].order_id != oid {
            if map_has(m, oid) {
                let k = choose|k: int| 0 <= k < m.len() && m[k].order_id == oid;
                assert(m.skip(1)[k - 1].order_id == oid);
            }
            if map_has(m.skip(1), oid) {
                let k = choose|k: int| 0 <= k < m.skip(1).len() && m.skip(1)[k].order_id == oid;
                assert(m[k + 1].order_id == oid);
            }
            if map_first(m.skip(1), oid) is Some {
                let a = map_first(m.skip(1), oid)->Some_0;
                let k = choose|k: int|
                    0 <= k < m.skip(1).len() && m.skip(1)[k].order_id == oid && m.skip(
                        1,
                    )[k].agent_id == a;
                assert(m[k + 1].order_id == oid && m[k + 1].agent_id == a);
            }
        }
    }
}

/// Finds the first agent paired with the given order id.
fn map_find(m: &Vec<OwnerEntry>, oid: u64) -> (r: Option<u64>)
    ensures
        r == map_first(m@, oid),
        match r {
            Option::Some(a) => map_pair(m@, oid, a),
            Option::None => !map_has(m@, oid),
        },
{
    let mut i: usize = 0;
    while i < m.len()
        invariant
            i <= m@.len(),
            forall|k: int| 0 <= k < i ==> (#[trigger] m@[k]).order_id != oid,
        decreases m@.len() - i,
    {
        let entry = m[i];
        if entry.order_id == oid {
            proof {
                lemma_map_first_found(m@, oid, i as int);
                lemma_map_first_has(m@, oid);
            }
            return Option::Some(entry.agent_id);
        }
        i = i + 1;
    }
    proof {
        lemma_map_first_skip(m@, oid, m@.len() as int);
        assert(m@.skip(m@.len() as int) =~= Seq::<OwnerEntry>::empty());
        lemma_map_first_has(m@, oid);
    }
    Option::None
}

} // verus!

verus! {

/// Total house difference over a list of transactions.
pub open spec fn tx_diff_sum(s: Seq<Transaction>) -> int {
    sum_by(s, |t: Transaction| t.diff.as_int as int)
}

/// The accounts after settling one transaction: the first-mapped bidder
/// pays and takes delivery, the first-mapped asker delivers and is paid,
/// and no other account moves.
pub open spec fn spec_settle(accounts: Seq<Account>, m: Seq<OwnerEntry>, t: Transaction) -> Seq<
    Account,
> {
    let bi = map_first(m, t.bid_id)->Some_0 as int;
    let ai = map_first(m, t.ask_id)->Some_0 as int;
    let b0 = accounts[bi];
    let s1 = accounts.update(
        bi,
        Account {
            commodity: (b0.commodity + t.size) as i64,
            money: Amount { as_int: (b0.money.as_int - t.bid_loss.as_int) as i64 },
            ..b0
        },
    );
    let a1 = s1[ai];
    s1.update(
        ai,
        Account {
            commodity: (a1.commodity - t.size) as i64,
            money: Amount { as_int: (a1.money.as_int + t.ask_gain.as_int) as i64 },
            ..a1
        },
    )
}

/// The accounts after settling a list of transactions, in order.
pub open spec fn spec_settle_list(
    accounts: Seq<Account>,
    m: Seq<OwnerEntry>,
    txs: Seq<Transaction>,
) -> Seq<Account>
    decreases txs.len(),
{
    if txs.len() == 0 {
        accounts
    } else {
        spec_settle(spec_settle_list(accounts, m, txs.drop_last()), m, txs.last())
    }
}

/// House differences are non-negative and no more than the bidders' money.
proof fn lemma_tx_diff_bounds(s: Seq<Transaction>)
    requires
        transactions_wf(s),
    ensures
        0 <= tx_diff_sum(s) <= tx_loss_sum(s),
{
    let f = |t: Transaction| t.diff.as_int as int;
    let g = |t: Transaction| t.bid_loss.as_int as int;
    assert forall|i: int| 0 <= i < s.len() implies 0 <= f(#[trigger] s[i]) && f(s[i]) <= g(
        s[i],
    ) by {
        assert(s[i].wf());
    }
    lemma_sum_by_nonneg(s, f);
    lemma_sum_by_le(s, f, g);
}

/// Settling a concatenation settles the first part, then the second.
proof fn lemma_settle_list_append(
    accounts: Seq<Account>,
    m: Seq<OwnerEntry>,
    a: Seq<Transaction>,
    b: Seq<Transaction>,
)
    ensures
        spec_settle_list(accounts, m, a + b) == spec_settle_list(
            spec_settle_list(accounts, m, a),
            m,
            b,
        ),
    decreases b.len(),
{
    if b.len() == 0 {
        assert(a + b =~= a);
    } else {
        lemma_settle_list_append(accounts, m, a, b.drop_last());
        assert((a + b).drop_last() =~= a + b.drop_last());
        assert((a + b).last() == b.last());
    }
}

/// Prefix bounds for the money and commodity a transaction list moves.
proof fn lemma_tx_prefix_bounds(s: Seq<Transaction>, i: int)
    requires
        transactions_wf(s),
        0 <= i <= s.len(),
    ensures
        0 <= tx_loss_sum(s.subrange(0, i)) <= tx_loss_sum(s),
        0 <= tx_size_sum(s.subrange(0, i)) <= tx_size_sum(s),
{
    let f = |t: Transaction| t.bid_loss.as_int as int;
    let g = |t: Transaction| t.size as int;
    lemma_sum_by_split(s, i, f);
    lemma_sum_by_split(s, i, g);
    let pre = s.subrange(0, i);
    let suf = s.subrange(i, s.len() as int);
    assert forall|k: int| 0 <= k < pre.len() implies f(#[trigger] pre[k]) >= 0 && g(pre[k])
        >= 0 by {
        assert(pre[k] == s[k]);
        assert(s[k].wf());
    }
    assert forall|k: int| 0 <= k < suf.len() implies f(#[trigger] suf[k]) >= 0 && g(suf[k])
        >= 0 by {
        assert(suf[k] == s[i + k]);
        assert(s[i + k].wf());
    }
    lemma_sum_by_nonneg(pre, f);
    lemma_sum_by_nonneg(pre, g);
    lemma_sum_by_nonneg(suf, f);
    lemma_sum_by_nonneg(suf, g);
}

impl<CommodityType> Market<CommodityType> {
    /// Settles one transaction: the bidder pays and takes delivery, the
    /// asker delivers and is paid, and the difference accrues to the house.
    /// The sum of all money, house included, and the sum of all commodity
    /// are left exactly as they were.
    pub fn fulfill_transaction(&mut self, trns: &Transaction)
        requires
            trns.wf(),
            map_has(old(self).owners(), trns.bid_id),
            map_has(old(self).owners(), trns.ask_id),
            forall|k: int|
                0 <= k < old(self).owners().len() ==> ((#[trigger] old(self).owners()[k]).agent_id
                    as int) < old(self).accounts@.len(),
            forall|j: int|
                0 <= j < old(self).accounts@.len() ==> {
                    let a = #[trigger] old(self).accounts@[j];
                    &&& a.money.as_int - trns.bid_loss.as_int >= i64::MIN
                    &&& a.money.as_int + trns.ask_gain.as_int <= i64::MAX
                    &&& a.commodity + trns.size <= i64::MAX
                    &&& a.commodity - trns.size >= i64::MIN
                },
            old(self).market_account.money.as_int + trns.diff.as_int <= i64::MAX,
        ensures
            final(self).book == old(self).book,
            final(self).order_map == old(self).order_map,
            final(self).history == old(self).history,
            final(self).info == old(self).info,
            final(self).accounts@.len() == old(self).accounts@.len(),
            final(self).market_account == (Account {
                money: Amount {
                    as_int: (old(self).market_account.money.as_int + trns.diff.as_int) as i64,
                },
                ..old(self).market_account
            }),
            acc_money_sum(final(self).accounts@) + final(self).market_account.money.as_int
                == acc_money_sum(old(self).accounts@) + old(self).market_account.money.as_int,
            acc_comm_sum(final(self).accounts@) == acc_comm_sum(old(self).accounts@),
            final(self).accounts@ == spec_settle(old(self).accounts@, old(self).owners(), *trns),
            forall|j: int|
                0 <= j < old(self).accounts@.len() ==> {
                    let a0 = #[trigger] old(self).accounts@[j];
                    let a1 = final(self).accounts@[j];
                    &&& a1.reserved_money == a0.reserved_money
                    &&& a1.reserved_commodity == a0.reserved_commodity
                    &&& a1.dept == a0.dept
                    &&& a0.money.as_int - trns.bid_loss.as_int <= a1.money.as_int <= a0.money.as_int
                        + trns.ask_gain.as_int
                    &&& a0.commodity - trns.size <= a1.commodity <= a0.commodity + trns.size
                },
    {
        let ghost s0 = self.accounts@;
        let bidder_id: u64;
        match map_find(&self.order_map, trns.bid_id) {
            Option::Some(a) => {
                bidder_id = a;
            },
            Option::None => {
                proof {
                    assert(false);
                }
                bidder_id = 0;
            },
        }
        let asker_id: u64;
        match map_find(&self.order_map, trns.ask_id) {
            Option::Some(a) => {
                asker_id = a;
            },
            Option::None => {
                proof {
                    assert(false);
                }
                asker_id = 0;
            },
        }
        proof {
            let i = choose|i: int|
                0 <= i < self.owners().len() && self.owners()[i].order_id == trns.bid_id
                    && self.owners()[i].agent_id == bidder_id;
            assert((self.owners()[i].agent_id as int) < self.accounts@.len());
            let k = choose|k: int|
                0 <= k < self.owners().len() && self.owners()[k].order_id == trns.ask_id
                    && self.owners()[k].agent_id == asker_id;
            assert((self.owners()[k].agent_id as int) < self.accounts@.len());
        }
        let n = self.accounts.len();
        proof {
            assert((bidder_id as int) < (n as int));
            assert((asker_id as int) < (n as int));
        }
        let bi = bidder_id as usize;
        let ai = asker_id as usize;
        self.market_account.money = Amount {
            as_int: self.market_account.money.as_int + trns.diff.as_int,
        };
        let mut bacc = self.accounts[bi];
        bacc.commodity = bacc.commodity + trns.size;
        bacc.money = Amount { as_int: bacc.money.as_int - trns.bid_loss.as_int };
        self.accounts[bi] = bacc;
        let ghost s1 = self.accounts@;
        let mut aacc = self.accounts[ai];
        proof {
            if ai == bi {
                assert(s1[ai as int] == bacc);
            } else {
                assert(s1[ai as int] == s0[ai as int]);
            }
        }
        aacc.commodity = aacc.commodity - trns.size;
        aacc.money = Amount { as_int: aacc.money.as_int + trns.ask_gain.as_int };
        self.accounts[ai] = aacc;
        proof {
            let fm = |a: Account| a.money.as_int as int;
            let fc = |a: Account| a.commodity as int;
            lemma_sum_by_update(s0, bi as int, s1[bi as int], fm);
            lemma_sum_by_update(s0, bi as int, s1[bi as int], fc);
            lemma_sum_by_update(s1, ai as int, self.accounts@[ai as int], fm);
            lemma_sum_by_update(s1, ai as int, self.accounts@[ai as int], fc);
            assert(self.accounts@ =~= s1.update(ai as int, self.accounts@[ai as int]));
            assert(self.accounts@ =~= spec_settle(s0, old(self).owners(), *trns)) by {
                assert(map_first(old(self).owners(), trns.bid_id) == Option::Some(bidder_id));
                assert(map_first(old(self).owners(), trns.ask_id) == Option::Some(asker_id));
                assert(bi as int == map_first(old(self).owners(), trns.bid_id)->Some_0 as int);
                assert(ai as int == map_first(old(self).owners(), trns.ask_id)->Some_0 as int);
                let b0 = s0[bi as int];
                assert(b0.money.as_int - trns.bid_loss.as_int >= i64::MIN && b0.money.as_int
                    - trns.bid_loss.as_int <= i64::MAX);
                assert(b0.commodity + trns.size <= i64::MAX && b0.commodity + trns.size
                    >= i64::MIN);
                let sp1 = s0.update(
                    bi as int,
                    Account {
                        commodity: (b0.commodity + trns.size) as i64,
                        money: Amount { as_int: (b0.money.as_int - trns.bid_loss.as_int) as i64 },
                        ..b0
                    },
                );
                assert(s1 =~= sp1);
                let a1 = sp1[ai as int];
                assert(a1.money.as_int + trns.ask_gain.as_int <= i64::MAX && a1.money.as_int
                    + trns.ask_gain.as_int >= i64::MIN);
                assert(a1.commodity - trns.size >= i64::MIN && a1.commodity - trns.size
                    <= i64::MAX);
                assert(self.accounts@ =~= sp1.update(
                    ai as int,
                    Account {
                        commodity: (a1.commodity - trns.size) as i64,
                        money: Amount { as_int: (a1.money.as_int + trns.ask_gain.as_int) as i64 },
                        ..a1
                    },
                ));
            }
            assert forall|j: int| 0 <= j < s0.len() implies {
                let a0 = #[trigger] s0[j];
                let a1 = self.accounts@[j];
                &&& a1.reserved_money == a0.reserved_money
                &&& a1.reserved_commodity == a0.reserved_commodity
                &&& a1.dept == a0.dept
                &&& a0.money.as_int - trns.bid_loss.as_int <= a1.money.as_int <= a0.money.as_int
                    + trns.ask_gain.as_int
                &&& a0.commodity - trns.size <= a1.commodity <= a0.commodity + trns.size
            } by {
                if j == ai as int {
                } else if j == bi as int {
                } else {
                    assert(self.accounts@[j] == s0[j]);
                }
            }
        }
    }

    /// Settles a list of transactions in order, preserving the global
    /// money and commodity totals.
    pub fn fulfill_transactions(&mut self, txs: &Vec<Transaction>)
        requires
            transactions_wf(txs@),
            forall|i: int|
                0 <= i < txs@.len() ==> map_has(old(self).owners(), (#[trigger] txs@[i]).bid_id)
                    && map_has(old(self).owners(), txs@[i].ask_id),
            forall|k: int|
                0 <= k < old(self).owners().len() ==> ((#[trigger] old(self).owners()[k]).agent_id
                    as int) < old(self).accounts@.len(),
            forall|j: int|
                0 <= j < old(self).accounts@.len() ==> {
                    let a = #[trigger] old(self).accounts@[j];
                    &&& a.money.as_int - 2 * tx_loss_sum(txs@) >= i64::MIN
                    &&& a.money.as_int + 2 * tx_loss_sum(txs@) <= i64::MAX
                    &&& a.commodity + tx_size_sum(txs@) <= i64::MAX
                    &&& a.commodity - tx_size_sum(txs@) >= i64::MIN
                },
            old(self).market_account.money.as_int + tx_loss_sum(txs@) <= i64::MAX,
        ensures
            final(self).book == old(self).book,
            final(self).order_map == old(self).order_map,
            final(self).history == old(self).history,
            final(self).info == old(self).info,
            final(self).accounts@.len() == old(self).accounts@.len(),
            acc_money_sum(final(self).accounts@) + final(self).market_account.money.as_int
                == acc_money_sum(old(self).accounts@) + old(self).market_account.money.as_int,
            acc_comm_sum(final(self).accounts@) == acc_comm_sum(old(self).accounts@),
            final(self).accounts@ == spec_settle_list(
                old(self).accounts@,
                old(self).owners(),
                txs@,
            ),
            final(self).market_account.money.as_int == old(self).market_account.money.as_int
                + tx_diff_sum(txs@),
            final(self).market_account.commodity == old(self).market_account.commodity,
            final(self).market_account.reserved_money == old(self).market_account.reserved_money,
            final(self).market_account.reserved_commodity == old(
                self,
            ).market_account.reserved_commodity,
            final(self).market_account.dept == old(self).market_account.dept,
            old(self).market_account.money.as_int <= final(self).market_account.money.as_int <= old(
                self,
            ).market_account.money.as_int + tx_loss_sum(txs@),
            forall|j: int|
                0 <= j < old(self).accounts@.len() ==> {
                    let a0 = #[trigger] old(self).accounts@[j];
                    let a1 = final(self).accounts@[j];
                    &&& a1.reserved_money == a0.reserved_money
                    &&& a1.reserved_commodity == a0.reserved_commodity
                    &&& a1.dept == a0.dept
                    &&& a0.money.as_int - 2 * tx_loss_sum(txs@) <= a1.money.as_int
                        <= a0.money.as_int + 2 * tx_loss_sum(txs@)
                    &&& a0.commodity - tx_size_sum(txs@) <= a1.commodity <= a0.commodity
                        + tx_size_sum(txs@)
                },
    {
        let ghost s0 = self.accounts@;
        let ghost h0 = self.market_account;
        let n = txs.len();
        let mut i: usize = 0;
        while i < n
            invariant
                n == txs@.len(),
                i <= n,
                transactions_wf(txs@),
                forall|k: int|
                    0 <= k < txs@.len() ==> map_has(self.owners(), (#[trigger] txs@[k]).bid_id)
                        && map_has(self.owners(), txs@[k].ask_id),
                forall|k: int|
                    0 <= k < self.owners().len() ==> ((#[trigger] self.owners()[k]).agent_id
                        as int) < self.accounts@.len(),
                self.book == old(self).book,
                self.order_map == old(self).order_map,
                self.history == old(self).history,
                self.info == old(self).info,
                self.accounts@.len() == s0.len(),
                s0 == old(self).accounts@,
                h0 == old(self).market_account,
                acc_money_sum(self.accounts@) + self.market_account.money.as_int == acc_money_sum(
                    s0,
                ) + h0.money.as_int,
                acc_comm_sum(self.accounts@) == acc_comm_sum(s0),
                self.accounts@ == spec_settle_list(
                    s0,
                    old(self).owners(),
                    txs@.subrange(0, i as int),
                ),
                self.market_account.money.as_int == h0.money.as_int + tx_diff_sum(
                    txs@.subrange(0, i as int),
                ),
                self.market_account.commodity == h0.commodity,
                self.market_account.reserved_money == h0.reserved_money,
                self.market_account.reserved_commodity == h0.reserved_commodity,
                self.market_account.dept == h0.dept,
                h0.money.as_int <= self.market_account.money.as_int <= h0.money.as_int
                    + tx_loss_sum(txs@.subrange(0, i as int)),
                forall|j: int|
                    0 <= j < s0.len() ==> {
                        let a0 = #[trigger] s0[j];
                        let a1 = self.accounts@[j];
                        &&& a1.reserved_money == a0.reserved_money
                        &&& a1.reserved_commodity == a0.reserved_commodity
                        &&& a1.dept == a0.dept
                        &&& a0.money.as_int - 2 * tx_loss_sum(txs@.subrange(0, i as int))
                            <= a1.money.as_int <= a0.money.as_int + 2 * tx_loss_sum(
                            txs@.subrange(0, i as int),
                        )
                        &&& a0.commodity - tx_size_sum(txs@.subrange(0, i as int)) <= a1.commodity
                            <= a0.commodity + tx_size_sum(txs@.subrange(0, i as int))
                    },
                forall|j: int|
                    0 <= j < old(self).accounts@.len() ==> {
                        let a = #[trigger] old(self).accounts@[j];
                        &&& a.money.as_int - 2 * tx_loss_sum(txs@) >= i64::MIN
                        &&& a.money.as_int + 2 * tx_loss_sum(txs@) <= i64::MAX
                        &&& a.commodity + tx_size_sum(txs@) <= i64::MAX
                        &&& a.commodity - tx_size_sum(txs@) >= i64::MIN
                    },
                old(self).market_account.money.as_int + tx_loss_sum(txs@) <= i64::MAX,
            decreases n - i,
        {
            let t = txs[i];
            let ghost pre = txs@.subrange(0, i as int);
            proof {
                assert(txs@[i as int].wf());
                lemma_tx_prefix_bounds(txs@, i as int);
                lemma_tx_prefix_bounds(txs@, i as int + 1);
                assert(txs@.subrange(0, i as int + 1) =~= pre.push(txs@[i as int]));
                lemma_sum_by_push(pre, txs@[i as int], |t: Transaction| t.bid_loss.as_int as int);
                lemma_sum_by_push(pre, txs@[i as int], |t: Transaction| t.size as int);
                lemma_sum_by_push(pre, txs@[i as int], |t: Transaction| t.diff.as_int as int);
                lemma_tx_diff_bounds(pre.push(txs@[i as int]));
                assert(pre.push(txs@[i as int]).drop_last() =~= pre);
                assert(pre.push(txs@[i as int]).last() == txs@[i as int]);
                assert forall|j: int| 0 <= j < self.accounts@.len() implies {
                    let a = #[trigger] self.accounts@[j];
                    &&& a.money.as_int - t.bid_loss.as_int >= i64::MIN
                    &&& a.money.as_int + t.ask_gain.as_int <= i64::MAX
                    &&& a.commodity + t.size <= i64::MAX
                    &&& a.commodity - t.size >= i64::MIN
                } by {
                    let a0 = s0[j];
                    assert(old(self).accounts@[j] == a0);
                    assert(t.ask_gain.as_int <= t.bid_loss.as_int);
                }
            }
            self.fulfill_transaction(&t);
            i = i + 1;
        }
        proof {
            assert(txs@.subrange(0, n as int) =~= txs@);
            lemma_tx_prefix_bounds(txs@, n as int);
            lemma_tx_diff_bounds(txs@);
        }
    }
}

} // verus!

verus! {

/// Products of non-negative factors grow with either factor.
proof fn lemma_mul_mono_both(a: int, b: int, c: int, d: int)
    requires
        0 <= a <= c,
        0 <= b <= d,
    ensures
        0 <= a * b <= c * d,
{
    assert(0 <= a * b <= c * d) by (nonlinear_arith)
        requires
            0 <= a <= c,
            0 <= b <= d,
    ;
}

impl<CommodityType> Market<CommodityType> {
    /// Runs the three matching phases on the book as submitted, settling
    /// each phase's transactions before the next phase runs: first market
    /// orders against the limit side, then the remaining market pairs at
    /// this step's derived price (or, failing that, the previous step's),
    /// then limit against limit.  Returns all transactions in that order.  The sum of
    /// account money plus the house's, and the sum of commodity, are left
    /// exactly as they were, and afterwards no remaining limit bid's price
    /// reaches any remaining limit ask's.
    pub fn process_submitted_orders(&mut self, prev_market_price: Option<Amount>) -> (r: Vec<
        Transaction,
    >)
        requires
            old(self).inv(),
            old(self).settle_headroom(),
            old(self).settle_money_cap() <= i64::MAX,
            match prev_market_price {
                Option::Some(p) => 0 <= p.as_int <= MAX_FALLBACK_PRICE,
                Option::None => true,
            },
        ensures
            final(self).inv(),
            final(self).order_map == old(self).order_map,
            final(self).history == old(self).history,
            final(self).info == old(self).info,
            final(self).accounts@.len() == old(self).accounts@.len(),
            acc_money_sum(final(self).accounts@) + final(self).house().money.as_int
                == acc_money_sum(old(self).accounts@) + old(self).house().money.as_int,
            acc_comm_sum(final(self).accounts@) == acc_comm_sum(old(self).accounts@),
            old(self).house().money.as_int <= final(self).house().money.as_int,
            final(self).house().money.as_int == old(self).house().money.as_int + tx_diff_sum(r@),
            final(self).house().commodity == old(self).house().commodity,
            final(self).house().reserved_money == old(self).house().reserved_money,
            final(self).house().reserved_commodity == old(self).house().reserved_commodity,
            final(self).house().dept == old(self).house().dept,
            final(self).accounts@ == spec_settle_list(
                old(self).accounts@,
                old(self).owners(),
                r@,
            ),
            market_size_sum(final(self).spec_book().masks()) + limit_size_sum(
                final(self).spec_book().asks(),
            ) + tx_size_sum(r@) == market_size_sum(old(self).spec_book().masks())
                + limit_size_sum(old(self).spec_book().asks()),
            market_size_sum(final(self).spec_book().mbids()) + limit_size_sum(
                final(self).spec_book().bids(),
            ) + tx_size_sum(r@) == market_size_sum(old(self).spec_book().mbids())
                + limit_size_sum(old(self).spec_book().bids()),
            final(self).spec_book().masks().len() == 0 || final(self).spec_book().bids().len()
                == 0,
            final(self).spec_book().mbids().len() == 0 || final(self).spec_book().asks().len()
                == 0,
            prev_market_price is Some ==> final(self).spec_book().mbids().len() == 0
                || final(self).spec_book().masks().len() == 0,
            !crate::book::limit_cross(
                final(self).spec_book().bids(),
                final(self).spec_book().asks(),
            ),
            transactions_wf(r@),
            forall|i: int| 0 <= i < r@.len() ==> (#[trigger] r@[i]).diff.as_int >= 0,
            forall|i: int|
                0 <= i < r@.len() ==> map_has(old(self).owners(), (#[trigger] r@[i]).bid_id)
                    && map_has(old(self).owners(), r@[i].ask_id),
            forall|j: int|
                0 <= j < old(self).accounts@.len() ==> {
                    let a0 = #[trigger] old(self).accounts@[j];
                    let a1 = final(self).accounts@[j];
                    &&& a1.reserved_money == a0.reserved_money
                    &&& a1.reserved_commodity == a0.reserved_commodity
                    &&& a1.dept == a0.dept
                },
            final(self).spec_book().next_id() == old(self).spec_book().next_id(),
            final(self).spec_book().now() == old(self).spec_book().now(),
            forall|oid: u64|
                #[trigger] has_limit_id(final(self).spec_book().bids(), oid) ==> has_limit_id(
                    old(self).spec_book().bids(),
                    oid,
                ),
            forall|oid: u64|
                #[trigger] has_limit_id(final(self).spec_book().asks(), oid) ==> has_limit_id(
                    old(self).spec_book().asks(),
                    oid,
                ),
            forall|oid: u64|
                #[trigger] has_market_id(final(self).spec_book().mbids(), oid) ==> has_market_id(
                    old(self).spec_book().mbids(),
                    oid,
                ),
            forall|oid: u64|
                #[trigger] has_market_id(final(self).spec_book().masks(), oid) ==> has_market_id(
                    old(self).spec_book().masks(),
                    oid,
                ),
            ({
                let a1 = crate::book::spec_match_market_limit(
                    old(self).spec_book().masks(),
                    old(self).spec_book().bids(),
                    true,
                );
                let a2 = crate::book::spec_match_market_limit(
                    old(self).spec_book().mbids(),
                    old(self).spec_book().asks(),
                    false,
                );
                let current = spec_market_price(a1.transactions + a2.transactions);
                let carried = if current is Some {
                    current
                } else {
                    prev_market_price
                };
                let fb_txs = match carried {
                    Option::Some(p) => crate::book::spec_match_fallback(
                        a2.market_orders,
                        a1.market_orders,
                        p,
                    ).transactions,
                    Option::None => Seq::<Transaction>::empty(),
                };
                r@ == a1.transactions + a2.transactions + fb_txs
                    + crate::book::spec_match_limit_list(a1.limit_orders, a2.limit_orders)
            }),
    {
        let ghost book0 = self.book;
        let ghost accts0 = self.accounts@;
        let ghost h0 = self.market_account;
        let ghost cap = self.settle_money_cap();
        let ghost scap = self.settle_size_cap();
        let ghost t0 = notional_sum(book0.bids()) + notional_sum(book0.asks());
        let ghost s0 = market_size_sum(book0.masks()) + limit_size_sum(book0.asks());
        proof {
            crate::book::lemma_notional_sum_nonneg(book0.bids());
            crate::book::lemma_notional_sum_nonneg(book0.asks());
            crate::book::lemma_market_size_sum_nonneg(book0.masks());
            crate::book::lemma_limit_size_sum_nonneg(book0.asks());
            lemma_mul_mono_both(0, 0, 3 * MAX_FALLBACK_PRICE as int, s0);
            assert(cap == 3 * t0 + 3 * MAX_FALLBACK_PRICE as int * s0);
            assert(MAX_FALLBACK_PRICE as int * s0 >= 0) by (nonlinear_arith)
                requires
                    s0 >= 0,
            ;
            assert(3 * MAX_FALLBACK_PRICE as int * s0 == 3 * (MAX_FALLBACK_PRICE as int * s0))
                by (nonlinear_arith);
            assert(cap >= 3 * t0);
            assert(3 * MAX_FALLBACK_PRICE as int * s0 >= 0) by (nonlinear_arith)
                requires
                    s0 >= 0,
            ;
        }
        let txs1 = self.book.match_all_market(Option::None);
        let ghost book1 = self.book;
        proof {
            crate::book::lemma_notional_sum_nonneg(book1.bids());
            crate::book::lemma_notional_sum_nonneg(book1.asks());
            crate::book::lemma_market_size_sum_nonneg(book1.masks());
            crate::book::lemma_limit_size_sum_nonneg(book1.asks());
            crate::book::lemma_tx_sums_nonneg(txs1@);
            assert(fallback_val(Option::<Amount>::None) * market_size_sum(book0.masks()) == 0)
                by (nonlinear_arith);
            assert(tx_loss_sum(txs1@) <= t0);
            assert(tx_size_sum(txs1@) + market_size_sum(book1.masks()) + limit_size_sum(
                book1.asks(),
            ) == s0);
            // every id of txs1 is owned
            assert forall|i: int|
                0 <= i < txs1@.len() implies map_has(self.owners(), (#[trigger] txs1@[i]).bid_id)
                && map_has(self.owners(), txs1@[i].ask_id) by {
                assert(has_limit_id(book0.bids(), txs1@[i].bid_id) || has_market_id(
                    book0.mbids(),
                    txs1@[i].bid_id,
                ));
                assert(has_limit_id(book0.asks(), txs1@[i].ask_id) || has_market_id(
                    book0.masks(),
                    txs1@[i].ask_id,
                ));
            }
            // headroom for the first settlement
            assert forall|j: int| 0 <= j < self.accounts@.len() implies {
                let a = #[trigger] self.accounts@[j];
                &&& a.money.as_int - 2 * tx_loss_sum(txs1@) >= i64::MIN
                &&& a.money.as_int + 2 * tx_loss_sum(txs1@) <= i64::MAX
                &&& a.commodity + tx_size_sum(txs1@) <= i64::MAX
                &&& a.commodity - tx_size_sum(txs1@) >= i64::MIN
            } by {
                assert(accts0[j] == self.accounts@[j]);
                assert(tx_loss_sum(txs1@) <= cap);
                assert(tx_size_sum(txs1@) <= scap);
            }
        }
        self.fulfill_transactions(&txs1);
        let ghost acctsA = self.accounts@;
        let ghost hA = self.market_account;
        proof {
            // the first pass trades market orders at limit prices, so the
            // mid of each transaction is exactly the money that moved
            assert forall|i: int| 0 <= i < txs1@.len() implies 0 <= (
            #[trigger] txs1@[i]).ask_gain.as_int && 0 <= txs1@[i].bid_loss.as_int
                && txs1@[i].ask_gain.as_int + txs1@[i].bid_loss.as_int <= i64::MAX && tx_mid(
                txs1@[i],
            ) == txs1@[i].bid_loss.as_int && tx_mid(txs1@[i]) <= MAX_ORDER_PRICE as int
                * MAX_ORDER_SIZE as int by {
                assert(txs1@[i].wf());
                assert(txs1@[i].ask_gain == txs1@[i].bid_loss);
                let l = txs1@[i].bid_loss.as_int as int;
                assert(l + l == 2 * l);
                lemma_div_multiples_vanish(l, 2);
            }
            lemma_sum_by_congruence(
                txs1@,
                |t: Transaction| tx_mid(t),
                |t: Transaction| t.bid_loss.as_int as int,
            );
            assert(price_ok(txs1@));
        }
        let current_price = market_price_of(&txs1);
        proof {
            if txs1@.len() > 0 {
                lemma_market_price_bound(txs1@, MAX_ORDER_PRICE as int * MAX_ORDER_SIZE as int);
            }
        }
        let fallback = match current_price {
            Option::Some(p) => Option::Some(p),
            Option::None => prev_market_price,
        };
        proof {
            assert(match fallback {
                Option::Some(p) => 0 <= p.as_int <= MAX_FALLBACK_PRICE,
                Option::None => true,
            });
        }
        let txs2 = self.book.match_all_market(fallback);
        let ghost book2 = self.book;
        proof {
            crate::book::lemma_notional_sum_nonneg(book2.bids());
            crate::book::lemma_notional_sum_nonneg(book2.asks());
            crate::book::lemma_market_size_sum_nonneg(book2.masks());
            crate::book::lemma_limit_size_sum_nonneg(book2.asks());
            crate::book::lemma_tx_sums_nonneg(txs2@);
            lemma_mul_mono_both(
                fallback_val(fallback),
                market_size_sum(book1.masks()),
                MAX_FALLBACK_PRICE as int,
                s0,
            );
            assert(tx_loss_sum(txs2@) <= t0 + MAX_FALLBACK_PRICE as int * s0);
            assert(tx_size_sum(txs2@) + market_size_sum(book2.masks()) + limit_size_sum(
                book2.asks(),
            ) == market_size_sum(book1.masks()) + limit_size_sum(book1.asks()));
            // ids of txs2 come from the book before this pass, so they too
            // are owned
            assert forall|i: int|
                0 <= i < txs2@.len() implies map_has(self.owners(), (#[trigger] txs2@[i]).bid_id)
                && map_has(self.owners(), txs2@[i].ask_id) by {
                assert(has_limit_id(book1.bids(), txs2@[i].bid_id) || has_market_id(
                    book1.mbids(),
                    txs2@[i].bid_id,
                ));
                assert(has_limit_id(book1.asks(), txs2@[i].ask_id) || has_market_id(
                    book1.masks(),
                    txs2@[i].ask_id,
                ));
            }
            assert forall|j: int| 0 <= j < self.accounts@.len() implies {
                let a = #[trigger] self.accounts@[j];
                &&& a.money.as_int - 2 * tx_loss_sum(txs2@) >= i64::MIN
                &&& a.money.as_int + 2 * tx_loss_sum(txs2@) <= i64::MAX
                &&& a.commodity + tx_size_sum(txs2@) <= i64::MAX
                &&& a.commodity - tx_size_sum(txs2@) >= i64::MIN
            } by {
                assert(accts0[j].money.as_int - 2 * cap >= i64::MIN);
                assert(tx_loss_sum(txs1@) + tx_loss_sum(txs2@) <= cap);
                assert(tx_size_sum(txs1@) + tx_size_sum(txs2@) <= scap);
            }
            assert(self.market_account.money.as_int + tx_loss_sum(txs2@) <= i64::MAX);
        }
        self.fulfill_transactions(&txs2);
        let ghost acctsB = self.accounts@;
        let ghost hB = self.market_account;
        let txs3 = self.book.match_all_limit();
        let ghost book3 = self.book;
        proof {
            crate::book::lemma_notional_sum_nonneg(book3.bids());
            crate::book::lemma_notional_sum_nonneg(book3.asks());
            crate::book::lemma_limit_size_sum_nonneg(book3.asks());
            crate::book::lemma_tx_sums_nonneg(txs3@);
            assert(tx_loss_sum(txs3@) <= notional_sum(book2.bids()));
            assert(tx_size_sum(txs3@) <= limit_size_sum(book2.asks()));
            assert forall|i: int|
                0 <= i < txs3@.len() implies map_has(self.owners(), (#[trigger] txs3@[i]).bid_id)
                && map_has(self.owners(), txs3@[i].ask_id) by {
                assert(has_limit_id(book2.bids(), txs3@[i].bid_id));
                assert(has_limit_id(book2.asks(), txs3@[i].ask_id));
            }
            assert forall|j: int| 0 <= j < self.accounts@.len() implies {
                let a = #[trigger] self.accounts@[j];
                &&& a.money.as_int - 2 * tx_loss_sum(txs3@) >= i64::MIN
                &&& a.money.as_int + 2 * tx_loss_sum(txs3@) <= i64::MAX
                &&& a.commodity + tx_size_sum(txs3@) <= i64::MAX
                &&& a.commodity - tx_size_sum(txs3@) >= i64::MIN
            } by {
                assert(accts0[j].money.as_int - 2 * cap >= i64::MIN);
                assert(tx_loss_sum(txs1@) + tx_loss_sum(txs2@) + tx_loss_sum(txs3@) <= cap);
                assert(tx_size_sum(txs1@) + tx_size_sum(txs2@) + tx_size_sum(txs3@) <= scap);
            }
            assert(self.market_account.money.as_int + tx_loss_sum(txs3@) <= i64::MAX);
        }
        self.fulfill_transactions(&txs3);
        proof {
            // every id still resident in the book was resident at entry
            assert forall|oid: u64| #[trigger] has_limit_id(self.book.bids(), oid) implies map_has(
                self.owners(),
                oid,
            ) by {
                assert(has_limit_id(book2.bids(), oid));
                assert(has_limit_id(book1.bids(), oid));
                assert(has_limit_id(book0.bids(), oid));
            }
            assert forall|oid: u64| #[trigger] has_limit_id(self.book.asks(), oid) implies map_has(
                self.owners(),
                oid,
            ) by {
                assert(has_limit_id(book2.asks(), oid));
                assert(has_limit_id(book1.asks(), oid));
                assert(has_limit_id(book0.asks(), oid));
            }
            assert forall|oid: u64|
                #[trigger] has_market_id(self.book.mbids(), oid) implies map_has(
                self.owners(),
                oid,
            ) by {
                assert(has_market_id(book2.mbids(), oid));
                assert(has_market_id(book1.mbids(), oid));
                assert(has_market_id(book0.mbids(), oid));
            }
            assert forall|oid: u64|
                #[trigger] has_market_id(self.book.masks(), oid) implies map_has(
                self.owners(),
                oid,
            ) by {
                assert(has_market_id(book2.masks(), oid));
                assert(has_market_id(book1.masks(), oid));
                assert(has_market_id(book0.masks(), oid));
            }
        }
        let ghost t1v = txs1@;
        let ghost t2v = txs2@;
        let ghost t3v = txs3@;
        let ghost owners0 = old(self).owners();
        let mut transactions = txs1;
        let mut rest2 = txs2;
        let mut rest3 = txs3;
        transactions.append(&mut rest2);
        transactions.append(&mut rest3);
        proof {
            assert(transactions@ == (t1v + t2v) + t3v);
            // the three lists are exactly the phase folds of the entry book
            let a1 = crate::book::spec_match_market_limit(book0.masks(), book0.bids(), true);
            let a2 = crate::book::spec_match_market_limit(book0.mbids(), book0.asks(), false);
            assert(t1v == a1.transactions + a2.transactions);
            assert(book1.masks() == a1.market_orders && book1.bids() == a1.limit_orders);
            assert(book1.mbids() == a2.market_orders && book1.asks() == a2.limit_orders);
            let a1b = crate::book::spec_match_market_limit(book1.masks(), book1.bids(), true);
            let a2b = crate::book::spec_match_market_limit(book1.mbids(), book1.asks(), false);
            assert(book1.masks().len() == 0 || book1.bids().len() == 0);
            assert(book1.mbids().len() == 0 || book1.asks().len() == 0);
            assert(a1b.transactions =~= Seq::<Transaction>::empty() && a1b.market_orders
                == book1.masks() && a1b.limit_orders == book1.bids());
            assert(a2b.transactions =~= Seq::<Transaction>::empty() && a2b.market_orders
                == book1.mbids() && a2b.limit_orders == book1.asks());
            let current = spec_market_price(a1.transactions + a2.transactions);
            let carried = if current is Some {
                current
            } else {
                prev_market_price
            };
            assert(fallback == carried);
            let fb_txs = match carried {
                Option::Some(p) => crate::book::spec_match_fallback(
                    a2.market_orders,
                    a1.market_orders,
                    p,
                ).transactions,
                Option::None => Seq::<Transaction>::empty(),
            };
            match carried {
                Option::Some(p) => {
                    assert(t2v =~= fb_txs) by {
                        assert(t2v == a1b.transactions + a2b.transactions
                            + crate::book::spec_match_fallback(
                            a2b.market_orders,
                            a1b.market_orders,
                            p,
                        ).transactions);
                    }
                },
                Option::None => {
                    assert(t2v =~= fb_txs) by {
                        assert(t2v == a1b.transactions + a2b.transactions);
                    }
                },
            }
            assert(t3v == crate::book::spec_match_limit_list(book2.bids(), book2.asks()));
            assert(book2.bids() == book1.bids() && book2.asks() == book1.asks());
            assert(transactions@ =~= a1.transactions + a2.transactions + fb_txs
                + crate::book::spec_match_limit_list(a1.limit_orders, a2.limit_orders));
            // the three settlements compose into one fold over the whole list
            lemma_settle_list_append(accts0, owners0, t1v, t2v);
            lemma_settle_list_append(accts0, owners0, t1v + t2v, t3v);
            // money, size and difference sums likewise split at the seams
            lemma_sum_by_concat(t1v, t2v, |t: Transaction| t.diff.as_int as int);
            lemma_sum_by_concat(t1v + t2v, t3v, |t: Transaction| t.diff.as_int as int);
            lemma_sum_by_concat(t1v, t2v, |t: Transaction| t.size as int);
            lemma_sum_by_concat(t1v + t2v, t3v, |t: Transaction| t.size as int);
            // a side that one pass emptied stays empty through the limit pass
            crate::book::lemma_limit_size_sum_nonneg(book3.bids());
            crate::book::lemma_limit_size_sum_nonneg(book3.asks());
            crate::book::lemma_tx_sums_nonneg(t3v);
            if book2.bids().len() == 0 {
                assert(limit_size_sum(book2.bids()) == 0);
                crate::book::lemma_limit_empty_of_zero(book3.bids());
            }
            if book2.asks().len() == 0 {
                assert(limit_size_sum(book2.asks()) == 0);
                crate::book::lemma_limit_empty_of_zero(book3.asks());
            }
        }
        proof {
            assert forall|i: int| 0 <= i < transactions@.len() implies (
            #[trigger] transactions@[i]).wf() && transactions@[i].diff.as_int >= 0 && map_has(
                old(self).owners(),
                transactions@[i].bid_id,
            ) && map_has(old(self).owners(), transactions@[i].ask_id) by {
                if i < txs1@.len() {
                    assert(transactions@[i] == txs1@[i]);
                } else if i < txs1@.len() + txs2@.len() {
                    assert(transactions@[i] == txs2@[i - txs1@.len()]);
                } else {
                    assert(transactions@[i] == txs3@[i - txs1@.len() - txs2@.len()]);
                }
            }
        }
        transactions
    }
}

} // verus!

verus! {

/// The non-negative part of an integer.
pub open spec fn int_pos(x: int) -> int {
    if x >= 0 {
        x
    } else {
        0
    }
}

/// Total positive cash over a list of accounts.
pub open spec fn acc_money_pos_sum(s: Seq<Account>) -> int {
    sum_by(s, |a: Account| int_pos(a.money.as_int as int))
}

/// Total positive inventory over a list of accounts.
pub open spec fn acc_comm_pos_sum(s: Seq<Account>) -> int {
    sum_by(s, |a: Account| int_pos(a.commodity as int))
}

/// Total reserved cash over a list of accounts.
pub open spec fn acc_res_money_sum(s: Seq<Account>) -> int {
    sum_by(s, |a: Account| a.reserved_money.as_int as int)
}

/// Total reserved inventory over a list of accounts.
pub open spec fn acc_res_comm_sum(s: Seq<Account>) -> int {
    sum_by(s, |a: Account| a.reserved_commodity as int)
}

/// How many of the first `i` intents pass admission.
pub open spec fn admitted_before(s: Seq<OrderData>, i: int) -> int
    decreases i,
{
    if i <= 0 {
        0
    } else {
        admitted_before(s, i - 1) + if crate::orders::flat::data_admissible(s[i - 1]) {
            1int
        } else {
            0int
        }
    }
}

impl<CommodityType> Market<CommodityType> {
    /// Every order currently resident in the book.
    pub fn all_orders(&self) -> (r: Vec<Order>)
        ensures
            r@ == crate::book::limit_orders_on(
                self.spec_book().asks(),
                crate::orders::flat::OrderSide::Ask,
            ) + crate::book::limit_orders_on(
                self.spec_book().bids(),
                crate::orders::flat::OrderSide::Bid,
            ) + crate::book::market_orders_on(
                self.spec_book().masks(),
                crate::orders::flat::OrderSide::Ask,
            ) + crate::book::market_orders_on(
                self.spec_book().mbids(),
                crate::orders::flat::OrderSide::Bid,
            ),
    {
        self.book.all_orders()
    }

    /// Stamps a batch of intents for one submitter: each admissible intent
    /// becomes an order with the next id, each inadmissible one is
    /// silently dropped, and an unknown submitter yields no orders (ids
    /// are still consumed).
    pub fn create_orders(&mut self, submitter: &AgentId, submissions: &Vec<OrderData>) -> (r: Vec<
        Option<Order>,
    >)
        requires
            old(self).spec_book().next_id() + submissions@.len() <= u64::MAX,
        ensures
            r@.len() == submissions@.len(),
            final(self).spec_book().bids() == old(self).spec_book().bids(),
            final(self).spec_book().asks() == old(self).spec_book().asks(),
            final(self).spec_book().mbids() == old(self).spec_book().mbids(),
            final(self).spec_book().masks() == old(self).spec_book().masks(),
            final(self).spec_book().now() == old(self).spec_book().now(),
            final(self).spec_book().next_id() == old(self).spec_book().next_id() + admitted_before(
                submissions@,
                submissions@.len() as int,
            ),
            final(self).accounts == old(self).accounts,
            final(self).order_map == old(self).order_map,
            final(self).market_account == old(self).market_account,
            final(self).history == old(self).history,
            final(self).info == old(self).info,
            forall|i: int|
                0 <= i < submissions@.len() ==> #[trigger] r@[i] == (if crate::orders::flat::data_admissible(
                    submissions@[i],
                ) {
                    if submitter.0 < old(self).accounts@.len() {
                        Option::Some(
                            Order {
                                timestamp: old(self).spec_book().now(),
                                id: (old(self).spec_book().next_id() + admitted_before(
                                    submissions@,
                                    i,
                                )) as u64,
                                side: submissions@[i].side,
                                price: submissions@[i].price,
                                size: submissions@[i].size,
                            },
                        )
                    } else {
                        Option::<Order>::None
                    }
                } else {
                    Option::<Order>::None
                }),
    {
        let ghost id0 = self.spec_book().next_id();
        let has_account = submitter.0 < self.accounts.len() as u64;
        let mut r: Vec<Option<Order>> = Vec::new();
        let n = submissions.len();
        let mut i: usize = 0;
        while i < n
            invariant
                n == submissions@.len(),
                i <= n,
                r@.len() == i,
                id0 + submissions@.len() <= u64::MAX,
                has_account == (submitter.0 < old(self).accounts@.len()),
                0 <= admitted_before(submissions@, i as int) <= i,
                self.spec_book().next_id() == id0 + admitted_before(submissions@, i as int),
                self.spec_book().bids() == old(self).spec_book().bids(),
                self.spec_book().asks() == old(self).spec_book().asks(),
                self.spec_book().mbids() == old(self).spec_book().mbids(),
                self.spec_book().masks() == old(self).spec_book().masks(),
                self.spec_book().now() == old(self).spec_book().now(),
                self.accounts == old(self).accounts,
                self.order_map == old(self).order_map,
                self.market_account == old(self).market_account,
                self.history == old(self).history,
                self.info == old(self).info,
                id0 == old(self).spec_book().next_id(),
                forall|k: int|
                    0 <= k < i ==> #[trigger] r@[k] == (if crate::orders::flat::data_admissible(
                        submissions@[k],
                    ) {
                        if submitter.0 < old(self).accounts@.len() {
                            Option::Some(
                                Order {
                                    timestamp: old(self).spec_book().now(),
                                    id: (id0 + admitted_before(submissions@, k)) as u64,
                                    side: submissions@[k].side,
                                    price: submissions@[k].price,
                                    size: submissions@[k].size,
                                },
                            )
                        } else {
                            Option::<Order>::None
                        }
                    } else {
                        Option::<Order>::None
                    }),
            decreases n - i,
        {
            let d = submissions[i];
            proof {
                lemma_admitted_before_bounds(submissions@, i as int + 1);
            }
            let made = self.book.new_order_checked(d);
            match made {
                Option::Some(order) => {
                    if has_account {
                        r.push(Option::Some(order));
                    } else {
                        r.push(Option::None);
                    }
                },
                Option::None => {
                    r.push(Option::None);
                },
            }
            i = i + 1;
        }
        r
    }
}

/// Admission counts are monotone and bounded by the prefix length.
proof fn lemma_admitted_before_bounds(s: Seq<OrderData>, i: int)
    requires
        0 <= i <= s.len(),
    ensures
        0 <= admitted_before(s, i) <= i,
        i > 0 ==> admitted_before(s, i - 1) <= admitted_before(s, i) <= admitted_before(s, i - 1)
            + 1,
    decreases i,
{
    if i > 0 {
        lemma_admitted_before_bounds(s, i - 1);
    }
}

} // verus!

verus! {

impl<CommodityType> Market<CommodityType> {
    /// Tries to reserve the submitter's balances for one admitted order
    /// and, on success, records its owner and files it into the book,
    /// returning `None`; a failed reservation returns the order back
    /// untouched.
    pub fn submit_order(&mut self, submitter: &AgentId, order: Order) -> (r: Option<Order>)
        requires
            old(self).inv(),
            order.wf(),
            submitter.0 < old(self).accounts@.len(),
            0 <= old(self).accounts@[submitter.0 as int].reserved_money.as_int,
            0 <= old(self).accounts@[submitter.0 as int].reserved_commodity,
        ensures
            final(self).inv(),
            final(self).history == old(self).history,
            final(self).info == old(self).info,
            final(self).market_account == old(self).market_account,
            final(self).accounts@.len() == old(self).accounts@.len(),
            final(self).spec_book().next_id() == old(self).spec_book().next_id(),
            final(self).spec_book().now() == old(self).spec_book().now(),
            forall|j: int|
                0 <= j < old(self).accounts@.len() ==> {
                    let a0 = #[trigger] old(self).accounts@[j];
                    let a1 = final(self).accounts@[j];
                    &&& a1.money == a0.money
                    &&& a1.commodity == a0.commodity
                    &&& a1.dept == a0.dept
                    &&& (j != submitter.0 as int ==> a1 == a0)
                },
            ({
                let a0 = old(self).accounts@[submitter.0 as int];
                let a1 = final(self).accounts@[submitter.0 as int];
                let reserved = match (order.price, order.side) {
                    (Option::Some(p), crate::orders::flat::OrderSide::Bid) => p.as_int * order.size
                        + a0.reserved_money.as_int <= a0.money.as_int,
                    (Option::None, crate::orders::flat::OrderSide::Bid) => true,
                    (_, crate::orders::flat::OrderSide::Ask) => order.size + a0.reserved_commodity
                        <= a0.commodity,
                };
                if reserved {
                    &&& r is None
                    &&& final(self).owners() == old(self).owners().push(
                        OwnerEntry { order_id: order.id, agent_id: submitter.0 },
                    )
                    &&& (match (order.price, order.side) {
                        (Option::Some(p), crate::orders::flat::OrderSide::Bid) => {
                            &&& a1.reserved_money.as_int == a0.reserved_money.as_int + p.as_int
                                * order.size
                            &&& a1.reserved_commodity == a0.reserved_commodity
                            &&& has_limit_id(final(self).spec_book().bids(), order.id)
                            &&& forall|oid: u64|
                                has_limit_id(final(self).spec_book().bids(), oid) <==> (
                                has_limit_id(old(self).spec_book().bids(), oid) || oid
                                    == order.id)
                            &&& notional_sum(final(self).spec_book().bids()) == notional_sum(
                                old(self).spec_book().bids(),
                            ) + p.as_int * order.size
                            &&& final(self).spec_book().asks() == old(self).spec_book().asks()
                            &&& final(self).spec_book().mbids() == old(self).spec_book().mbids()
                            &&& final(self).spec_book().masks() == old(self).spec_book().masks()
                        },
                        (Option::None, crate::orders::flat::OrderSide::Bid) => {
                            &&& a1 == a0
                            &&& has_market_id(final(self).spec_book().mbids(), order.id)
                            &&& forall|oid: u64|
                                has_market_id(final(self).spec_book().mbids(), oid) <==> (
                                has_market_id(old(self).spec_book().mbids(), oid) || oid
                                    == order.id)
                            &&& final(self).spec_book().bids() == old(self).spec_book().bids()
                            &&& final(self).spec_book().asks() == old(self).spec_book().asks()
                            &&& final(self).spec_book().masks() == old(self).spec_book().masks()
                            &&& market_size_sum(final(self).spec_book().mbids())
                                == market_size_sum(old(self).spec_book().mbids()) + order.size
                        },
                        (Option::Some(_), crate::orders::flat::OrderSide::Ask) => {
                            &&& a1.reserved_commodity == a0.reserved_commodity + order.size
                            &&& a1.reserved_money == a0.reserved_money
                            &&& has_limit_id(final(self).spec_book().asks(), order.id)
                            &&& forall|oid: u64|
                                has_limit_id(final(self).spec_book().asks(), oid) <==> (
                                has_limit_id(old(self).spec_book().asks(), oid) || oid
                                    == order.id)
                            &&& notional_sum(final(self).spec_book().asks()) == notional_sum(
                                old(self).spec_book().asks(),
                            ) + order.price->Some_0.as_int * order.size
                            &&& limit_size_sum(final(self).spec_book().asks()) == limit_size_sum(
                                old(self).spec_book().asks(),
                            ) + order.size
                            &&& final(self).spec_book().bids() == old(self).spec_book().bids()
                            &&& final(self).spec_book().mbids() == old(self).spec_book().mbids()
                            &&& final(self).spec_book().masks() == old(self).spec_book().masks()
                        },
                        (Option::None, crate::orders::flat::OrderSide::Ask) => {
                            &&& a1.reserved_commodity == a0.reserved_commodity + order.size
                            &&& a1.reserved_money == a0.reserved_money
                            &&& has_market_id(final(self).spec_book().masks(), order.id)
                            &&& forall|oid: u64|
                                has_market_id(final(self).spec_book().masks(), oid) <==> (
                                has_market_id(old(self).spec_book().masks(), oid) || oid
                                    == order.id)
                            &&& market_size_sum(final(self).spec_book().masks())
                                == market_size_sum(old(self).spec_book().masks()) + order.size
                            &&& final(self).spec_book().bids() == old(self).spec_book().bids()
                            &&& final(self).spec_book().asks() == old(self).spec_book().asks()
                            &&& final(self).spec_book().mbids() == old(self).spec_book().mbids()
                        },
                    })
                } else {
                    &&& r == Option::Some(order)
                    &&& *final(self) == *old(self)
                }
            }),
    {
        let ghost pre = *self;
        let n = self.accounts.len();
        proof {
            assert((submitter.0 as int) < (n as int));
        }
        let ji = submitter.0 as usize;
        proof {
            assert(ji as int == submitter.0 as int);
        }
        let mut acc = self.accounts[ji];
        proof {
            assert(acc == old(self).accounts@[submitter.0 as int]);
        }
        let reserved = acc.reserve_order(order);
        if reserved {
            self.accounts[ji] = acc;
            self.order_map.push(OwnerEntry { order_id: order.id, agent_id: submitter.0 });
            self.book.add_order(order);
            proof {
                assert forall|oid: u64|
                    map_has(pre.owners(), oid) || oid == order.id implies map_has(
                    self.owners(),
                    oid,
                ) by {
                    if oid == order.id {
                        assert(self.owners()[self.owners().len() - 1].order_id == oid);
                    } else {
                        let k = choose|k: int|
                            0 <= k < pre.owners().len() && pre.owners()[k].order_id == oid;
                        assert(self.owners()[k].order_id == oid);
                    }
                }
                assert forall|k: int|
                    0 <= k < self.owners().len() implies ((#[trigger] self.owners()[k]).agent_id
                    as int) < self.accounts@.len() by {
                    if k < pre.owners().len() {
                        assert((pre.owners()[k].agent_id as int) < pre.accounts@.len());
                    }
                }
                assert forall|oid: u64|
                    #[trigger] has_limit_id(self.book.bids(), oid) implies map_has(
                    self.owners(),
                    oid,
                ) by {
                    if oid == order.id {
                        assert(self.owners()[self.owners().len() - 1].order_id == oid);
                    } else {
                        assert(has_limit_id(pre.spec_book().bids(), oid));
                        assert(map_has(pre.owners(), oid));
                        let k = choose|k: int|
                            0 <= k < pre.owners().len() && pre.owners()[k].order_id == oid;
                        assert(self.owners()[k].order_id == oid);
                    }
                }
                assert forall|oid: u64|
                    #[trigger] has_limit_id(self.book.asks(), oid) implies map_has(
                    self.owners(),
                    oid,
                ) by {
                    if oid == order.id {
                        assert(self.owners()[self.owners().len() - 1].order_id == oid);
                    } else {
                        assert(has_limit_id(pre.spec_book().asks(), oid));
                        assert(map_has(pre.owners(), oid));
                        let k = choose|k: int|
                            0 <= k < pre.owners().len() && pre.owners()[k].order_id == oid;
                        assert(self.owners()[k].order_id == oid);
                    }
                }
                assert forall|oid: u64|
                    #[trigger] has_market_id(self.book.mbids(), oid) implies map_has(
                    self.owners(),
                    oid,
                ) by {
                    if oid == order.id {
                        assert(self.owners()[self.owners().len() - 1].order_id == oid);
                    } else {
                        assert(has_market_id(pre.spec_book().mbids(), oid));
                        assert(map_has(pre.owners(), oid));
                        let k = choose|k: int|
                            0 <= k < pre.owners().len() && pre.owners()[k].order_id == oid;
                        assert(self.owners()[k].order_id == oid);
                    }
                }
                assert forall|oid: u64|
                    #[trigger] has_market_id(self.book.masks(), oid) implies map_has(
                    self.owners(),
                    oid,
                ) by {
                    if oid == order.id {
                        assert(self.owners()[self.owners().len() - 1].order_id == oid);
                    } else {
                        assert(has_market_id(pre.spec_book().masks(), oid));
                        assert(map_has(pre.owners(), oid));
                        let k = choose|k: int|
                            0 <= k < pre.owners().len() && pre.owners()[k].order_id == oid;
                        assert(self.owners()[k].order_id == oid);
                    }
                }
            }
            Option::None
        } else {
            proof {
                assert(self.accounts@ =~= pre.accounts@);
            }
            Option::Some(order)
        }
    }
}

} // verus!

verus! {

impl<CommodityType> Market<CommodityType> {
    /// Solicits intents from each agent in turn, admits and reserves them,
    /// and files the accepted orders into the book; orders whose
    /// reservation fails (or that exceed the book's caps) are returned as
    /// rejected.  Balances are never touched, only reservations, and every
    /// reservation stays covered by the balance it earmarks, so the book's
    /// new bid notional is covered by the agents' cash and its new ask
    /// sizes by their inventory.
    #[verifier::rlimit(60)]
    pub fn agents_submit_orders<A: Agent<CommodityType = CommodityType>>(
        &mut self,
        agents: &mut Vec<(AgentId, A)>,
        history: &History,
    ) -> (r: Vec<Order>)
        requires
            old(self).inv(),
            crate::book::ids_below_next(old(self).spec_book()),
            forall|j: int|
                0 <= j < old(self).accounts@.len() ==> (#[trigger] old(
                    self,
                ).accounts@[j]).reserved_money.as_int == 0 && old(
                    self,
                ).accounts@[j].reserved_commodity == 0,
        ensures
            final(self).inv(),
            crate::book::ids_below_next(final(self).spec_book()),
            final(self).history == old(self).history,
            final(self).info == old(self).info,
            final(self).market_account == old(self).market_account,
            final(self).accounts@.len() == old(self).accounts@.len(),
            final(self).spec_book().now() == old(self).spec_book().now(),
            old(self).spec_book().next_id() <= final(self).spec_book().next_id(),
            old(agents)@.len() == 0 ==> *final(self) == *old(self) && r@.len() == 0,
            forall|i: int|
                0 <= i < r@.len() ==> {
                    let o = #[trigger] r@[i];
                    &&& crate::orders::flat::data_admissible(
                        OrderData { side: o.side, price: o.price, size: o.size },
                    )
                    &&& o.timestamp == old(self).spec_book().now()
                    &&& old(self).spec_book().next_id() <= o.id < final(self).spec_book().next_id()
                    &&& !has_limit_id(final(self).spec_book().bids(), o.id)
                    &&& !has_limit_id(final(self).spec_book().asks(), o.id)
                    &&& !has_market_id(final(self).spec_book().mbids(), o.id)
                    &&& !has_market_id(final(self).spec_book().masks(), o.id)
                },
            forall|j: int|
                0 <= j < old(self).accounts@.len() ==> {
                    let a0 = #[trigger] old(self).accounts@[j];
                    let a1 = final(self).accounts@[j];
                    &&& a1.money == a0.money
                    &&& a1.commodity == a0.commodity
                    &&& a1.dept == a0.dept
                    &&& 0 <= a1.reserved_money.as_int <= int_pos(a1.money.as_int as int)
                    &&& 0 <= a1.reserved_commodity <= int_pos(a1.commodity as int)
                },
            notional_sum(final(self).spec_book().bids()) <= notional_sum(
                old(self).spec_book().bids(),
            ) + acc_money_pos_sum(old(self).accounts@),
            market_size_sum(final(self).spec_book().masks()) + limit_size_sum(
                final(self).spec_book().asks(),
            ) <= market_size_sum(old(self).spec_book().masks()) + limit_size_sum(
                old(self).spec_book().asks(),
            ) + acc_comm_pos_sum(old(self).accounts@),
    {
        let ghost accts0 = self.accounts@;
        let ghost id0 = self.spec_book().next_id();
        let ghost nb0 = notional_sum(self.spec_book().bids());
        let ghost ms0 = market_size_sum(self.spec_book().masks()) + limit_size_sum(
            self.spec_book().asks(),
        );
        proof {
            let fr = |a: Account| a.reserved_money.as_int as int;
            let fc = |a: Account| a.reserved_commodity as int;
            assert forall|j: int| 0 <= j < accts0.len() implies fr(#[trigger] accts0[j]) == 0 && fc(
                accts0[j],
            ) == 0 by {
                assert(old(self).accounts@[j].reserved_money.as_int == 0);
            }
            lemma_sum_by_bound(accts0, fr, 0);
            lemma_sum_by_nonneg(accts0, fr);
            lemma_sum_by_bound(accts0, fc, 0);
            lemma_sum_by_nonneg(accts0, fc);
        }
        let mut rejected: Vec<Order> = Vec::new();
        let nag = agents.len();
        let mut ai: usize = 0;
        while ai < nag
            invariant
                nag == agents@.len(),
                nag == old(agents)@.len(),
                ai <= nag,
                nag == 0 ==> *self == *old(self) && rejected@.len() == 0,
                self.inv(),
                self.history == old(self).history,
                self.info == old(self).info,
                self.market_account == old(self).market_account,
                self.accounts@.len() == accts0.len(),
                accts0 == old(self).accounts@,
                nb0 == notional_sum(old(self).spec_book().bids()),
                ms0 == market_size_sum(old(self).spec_book().masks()) + limit_size_sum(
                    old(self).spec_book().asks(),
                ),
                self.spec_book().now() == old(self).spec_book().now(),
                ({
                    let book = self.spec_book();
                    &&& crate::book::ids_below_next(book)
                    &&& id0 <= book.next_id()
                    &&& id0 == old(self).spec_book().next_id()
                }),
                forall|i: int|
                    0 <= i < rejected@.len() ==> {
                        let o = #[trigger] rejected@[i];
                        &&& crate::orders::flat::data_admissible(
                            OrderData { side: o.side, price: o.price, size: o.size },
                        )
                        &&& o.timestamp == old(self).spec_book().now()
                        &&& id0 <= o.id < self.spec_book().next_id()
                        &&& !has_limit_id(self.spec_book().bids(), o.id)
                        &&& !has_limit_id(self.spec_book().asks(), o.id)
                        &&& !has_market_id(self.spec_book().mbids(), o.id)
                        &&& !has_market_id(self.spec_book().masks(), o.id)
                    },
                forall|j: int|
                    0 <= j < accts0.len() ==> {
                        let a0 = #[trigger] accts0[j];
                        let a1 = self.accounts@[j];
                        &&& a1.money == a0.money
                        &&& a1.commodity == a0.commodity
                        &&& a1.dept == a0.dept
                        &&& 0 <= a1.reserved_money.as_int <= int_pos(a1.money.as_int as int)
                        &&& 0 <= a1.reserved_commodity <= int_pos(a1.commodity as int)
                    },
                notional_sum(self.spec_book().bids()) <= nb0 + acc_res_money_sum(self.accounts@),
                market_size_sum(self.spec_book().masks()) + limit_size_sum(self.spec_book().asks())
                    <= ms0 + acc_res_comm_sum(self.accounts@),
            decreases nag - ai,
        {
            let aid = agents[ai].0;
            let acct_opt = self.account(aid);
            match acct_opt {
                Option::None => {},
                Option::Some(account_copy) => {
                    let agent_ref = vstd::std_specs::vec::vec_index_mut(agents, ai);
                    let data = agent_ref.1.produce_orders(&account_copy, &self.info, history);
                    let nd = data.len();
                    let mut di: usize = 0;
                    while di < nd
                        invariant
                            nd == data@.len(),
                            di <= nd,
                            self.inv(),
                            (aid.0 as int) < self.accounts@.len(),
                            self.history == old(self).history,
                            self.info == old(self).info,
                            self.market_account == old(self).market_account,
                            self.accounts@.len() == accts0.len(),
                            self.spec_book().now() == old(self).spec_book().now(),
                        ({
                            let book = self.spec_book();
                            &&& crate::book::ids_below_next(book)
                            &&& id0 <= book.next_id()
                            &&& id0 == old(self).spec_book().next_id()
                        }),
                        forall|i: int|
                            0 <= i < rejected@.len() ==> {
                                let o = #[trigger] rejected@[i];
                                &&& crate::orders::flat::data_admissible(
                                    OrderData { side: o.side, price: o.price, size: o.size },
                                )
                                &&& o.timestamp == old(self).spec_book().now()
                                &&& id0 <= o.id < self.spec_book().next_id()
                                &&& !has_limit_id(self.spec_book().bids(), o.id)
                                &&& !has_limit_id(self.spec_book().asks(), o.id)
                                &&& !has_market_id(self.spec_book().mbids(), o.id)
                                &&& !has_market_id(self.spec_book().masks(), o.id)
                            },
                            forall|j: int|
                                0 <= j < accts0.len() ==> {
                                    let a0 = #[trigger] accts0[j];
                                    let a1 = self.accounts@[j];
                                    &&& a1.money == a0.money
                                    &&& a1.commodity == a0.commodity
                                    &&& a1.dept == a0.dept
                                    &&& 0 <= a1.reserved_money.as_int <= int_pos(
                                        a1.money.as_int as int,
                                    )
                                    &&& 0 <= a1.reserved_commodity <= int_pos(a1.commodity as int)
                                },
                            notional_sum(self.spec_book().bids()) <= nb0 + acc_res_money_sum(
                                self.accounts@,
                            ),
                            market_size_sum(self.spec_book().masks()) + limit_size_sum(
                                self.spec_book().asks(),
                            ) <= ms0 + acc_res_comm_sum(self.accounts@),
                        decreases nd - di,
                    {
                        let d = data[di];
                        let ghost body_accts = self.accounts@;
                        if self.book.next_order_id() < u64::MAX {
                            let ghost pre_adm = *self;
                            let made = self.book.new_order_checked(d);
                            proof {
                                assert(pre_adm.inv());
                                assert(self.spec_book().bids() == pre_adm.spec_book().bids());
                                assert(self.spec_book().asks() == pre_adm.spec_book().asks());
                                assert(self.spec_book().mbids() == pre_adm.spec_book().mbids());
                                assert(self.spec_book().masks() == pre_adm.spec_book().masks());
                                assert(self.owners() == pre_adm.owners());
                                assert(self.accounts == pre_adm.accounts);
                                assert(crate::book::sorted_bids(self.spec_book().bids()));
                                assert(crate::book::sorted_asks(self.spec_book().asks()));
                                assert(crate::book::sorted_market(self.spec_book().mbids()));
                                assert(crate::book::sorted_market(self.spec_book().masks()));
                                assert(crate::book::limit_entries_wf(self.spec_book().bids()));
                                assert(crate::book::limit_entries_wf(self.spec_book().asks()));
                                assert(crate::book::market_entries_wf(self.spec_book().mbids()));
                                assert(crate::book::market_entries_wf(self.spec_book().masks()));
                                assert(self.spec_book().wf());
                                assert forall|oid: u64|
                                    #[trigger] has_limit_id(
                                    self.spec_book().bids(),
                                    oid,
                                ) implies map_has(self.owners(), oid) by {
                                    assert(has_limit_id(pre_adm.spec_book().bids(), oid));
                                }
                                assert forall|oid: u64|
                                    #[trigger] has_limit_id(
                                    self.spec_book().asks(),
                                    oid,
                                ) implies map_has(self.owners(), oid) by {
                                    assert(has_limit_id(pre_adm.spec_book().asks(), oid));
                                }
                                assert forall|oid: u64|
                                    #[trigger] has_market_id(
                                    self.spec_book().mbids(),
                                    oid,
                                ) implies map_has(self.owners(), oid) by {
                                    assert(has_market_id(pre_adm.spec_book().mbids(), oid));
                                }
                                assert forall|oid: u64|
                                    #[trigger] has_market_id(
                                    self.spec_book().masks(),
                                    oid,
                                ) implies map_has(self.owners(), oid) by {
                                    assert(has_market_id(pre_adm.spec_book().masks(), oid));
                                }
                                assert(self.inv());
                            }
                            match made {
                                Option::None => {
                                    proof {
                                        assert(self.accounts@ =~= body_accts);
                                    }
                                },
                                Option::Some(order) => {
                                    let price_in_cap = match order.price {
                                        Option::Some(p) => p.as_int <= MAX_ORDER_PRICE,
                                        Option::None => true,
                                    };
                                    if order.size <= MAX_ORDER_SIZE && price_in_cap {
                                        let ghost pre_accts = self.accounts@;
                                        let ghost pre_book = self.spec_book();
                                        proof {
                                            assert(pre_accts =~= body_accts);
                                            let ghost witness = accts0[aid.0 as int];
                                            assert(0 <= pre_accts[aid.0 as int].reserved_money.as_int
                                                && 0 <= pre_accts[aid.0 as int].reserved_commodity);
                                        }
                                        let submitted = self.submit_order(&aid, order);
                                        proof {
                                            let j = aid.0 as int;
                                            assert(self.accounts@ =~= pre_accts.update(
                                                j,
                                                self.accounts@[j],
                                            ));
                                            lemma_sum_by_update(
                                                pre_accts,
                                                j,
                                                self.accounts@[j],
                                                |a: Account| a.reserved_money.as_int as int,
                                            );
                                            lemma_sum_by_update(
                                                pre_accts,
                                                j,
                                                self.accounts@[j],
                                                |a: Account| a.reserved_commodity as int,
                                            );
                                            assert forall|k: int| 0 <= k < accts0.len() implies {
                                                let a0 = #[trigger] accts0[k];
                                                let a1 = self.accounts@[k];
                                                &&& a1.money == a0.money
                                                &&& a1.commodity == a0.commodity
                                                &&& a1.dept == a0.dept
                                                &&& 0 <= a1.reserved_money.as_int <= int_pos(
                                                    a1.money.as_int as int,
                                                )
                                                &&& 0 <= a1.reserved_commodity <= int_pos(
                                                    a1.commodity as int,
                                                )
                                            } by {
                                                let w0 = accts0[k];
                                                assert(pre_accts[k] == body_accts[k]);
                                                if k != j {
                                                    assert(self.accounts@[k] == pre_accts[k]);
                                                } else {
                                                    let p0 = pre_accts[j];
                                                    let p1 = self.accounts@[j];
                                                    assert(p1.money == p0.money
                                                        && p1.commodity == p0.commodity);
                                                }
                                            }
                                        }
                                        match submitted {
                                            Option::None => {},
                                            Option::Some(rej) => {
                                                rejected.push(rej);
                                            },
                                        }
                                    } else {
                                        rejected.push(order);
                                        proof {
                                            assert(self.accounts@ =~= body_accts);
                                        }
                                    }
                                },
                            }
                        } else {
                            proof {
                                assert(self.accounts@ =~= body_accts);
                            }
                        }
                        proof {
                            assert forall|k: int| 0 <= k < accts0.len() implies {
                                let a0 = #[trigger] accts0[k];
                                let a1 = self.accounts@[k];
                                &&& a1.money == a0.money
                                &&& a1.commodity == a0.commodity
                                &&& a1.dept == a0.dept
                                &&& 0 <= a1.reserved_money.as_int <= int_pos(
                                    a1.money.as_int as int,
                                )
                                &&& 0 <= a1.reserved_commodity <= int_pos(a1.commodity as int)
                            } by {
                                let w0 = accts0[k];
                                let wb = body_accts[k];
                                if self.accounts@ =~= body_accts {
                                    assert(self.accounts@[k] == body_accts[k]);
                                }
                            }
                        }
                        di = di + 1;
                    }
                },
            }
            ai = ai + 1;
        }
        proof {
            let fr = |a: Account| a.reserved_money.as_int as int;
            let gm = |a: Account| int_pos(a.money.as_int as int);
            assert forall|j: int| 0 <= j < self.accounts@.len() implies fr(
                #[trigger] self.accounts@[j],
            ) <= gm(self.accounts@[j]) by {
                assert(accts0[j] == old(self).accounts@[j]);
            }
            lemma_sum_by_le(self.accounts@, fr, gm);
            let fc = |a: Account| a.reserved_commodity as int;
            let gc = |a: Account| int_pos(a.commodity as int);
            assert forall|j: int| 0 <= j < self.accounts@.len() implies fc(
                #[trigger] self.accounts@[j],
            ) <= gc(self.accounts@[j]) by {
                assert(accts0[j] == old(self).accounts@[j]);
            }
            lemma_sum_by_le(self.accounts@, fc, gc);
            lemma_sum_by_pointwise(
                self.accounts@,
                old(self).accounts@,
                |a: Account| int_pos(a.money.as_int as int),
            );
            lemma_sum_by_pointwise(
                self.accounts@,
                old(self).accounts@,
                |a: Account| int_pos(a.commodity as int),
            );
        }
        rejected
    }

    /// Solicits, admits and reserves this step's orders, reading the
    /// previous step's history from the market itself.
    pub fn process_agent_actions<A: Agent<CommodityType = CommodityType>>(
        &mut self,
        agents: &mut Vec<(AgentId, A)>,
    ) -> (r: Vec<Order>)
        requires
            old(self).inv(),
            crate::book::ids_below_next(old(self).spec_book()),
            forall|j: int|
                0 <= j < old(self).accounts@.len() ==> (#[trigger] old(
                    self,
                ).accounts@[j]).reserved_money.as_int == 0 && old(
                    self,
                ).accounts@[j].reserved_commodity == 0,
        ensures
            final(self).inv(),
            crate::book::ids_below_next(final(self).spec_book()),
            final(self).history == old(self).history,
            final(self).info == old(self).info,
            final(self).market_account == old(self).market_account,
            final(self).accounts@.len() == old(self).accounts@.len(),
            final(self).spec_book().now() == old(self).spec_book().now(),
            old(self).spec_book().next_id() <= final(self).spec_book().next_id(),
            old(agents)@.len() == 0 ==> *final(self) == *old(self) && r@.len() == 0,
            forall|i: int|
                0 <= i < r@.len() ==> {
                    let o = #[trigger] r@[i];
                    &&& crate::orders::flat::data_admissible(
                        OrderData { side: o.side, price: o.price, size: o.size },
                    )
                    &&& o.timestamp == old(self).spec_book().now()
                    &&& old(self).spec_book().next_id() <= o.id < final(self).spec_book().next_id()
                    &&& !has_limit_id(final(self).spec_book().bids(), o.id)
                    &&& !has_limit_id(final(self).spec_book().asks(), o.id)
                    &&& !has_market_id(final(self).spec_book().mbids(), o.id)
                    &&& !has_market_id(final(self).spec_book().masks(), o.id)
                },
            forall|j: int|
                0 <= j < old(self).accounts@.len() ==> {
                    let a0 = #[trigger] old(self).accounts@[j];
                    let a1 = final(self).accounts@[j];
                    &&& a1.money == a0.money
                    &&& a1.commodity == a0.commodity
                    &&& a1.dept == a0.dept
                    &&& 0 <= a1.reserved_money.as_int <= int_pos(a1.money.as_int as int)
                    &&& 0 <= a1.reserved_commodity <= int_pos(a1.commodity as int)
                },
            notional_sum(final(self).spec_book().bids()) <= notional_sum(
                old(self).spec_book().bids(),
            ) + acc_money_pos_sum(old(self).accounts@),
            market_size_sum(final(self).spec_book().masks()) + limit_size_sum(
                final(self).spec_book().asks(),
            ) <= market_size_sum(old(self).spec_book().masks()) + limit_size_sum(
                old(self).spec_book().asks(),
            ) + acc_comm_pos_sum(old(self).accounts@),
    {
        let history_copy = self.history.clone();
        self.agents_submit_orders(agents, &history_copy)
    }
}

} // verus!

verus! {

/// The most money one whole step can move, judged from the accounts
/// alone: admitted limit bids are covered by cash, admitted asks by
/// inventory priced at the book's cap, and the fallback phase by the
/// fallback cap times the reserved inventory.
pub open spec fn step_money_cap(s: Seq<Account>) -> int {
    3 * acc_money_pos_sum(s) + 3 * MAX_ORDER_PRICE as int * acc_comm_pos_sum(s) + 3
        * MAX_FALLBACK_PRICE as int * acc_comm_pos_sum(s)
}

/// Every account, and the house, can absorb one whole step without
/// leaving the machine's integer range.
pub open spec fn step_headroom(s: Seq<Account>, house: Account) -> bool {
    &&& step_money_cap(s) <= i64::MAX
    &&& forall|j: int|
        0 <= j < s.len() ==> {
            let a = #[trigger] s[j];
            &&& a.money.as_int + 2 * step_money_cap(s) <= i64::MAX
            &&& a.money.as_int - 2 * step_money_cap(s) >= i64::MIN
            &&& a.commodity + acc_comm_pos_sum(s) <= i64::MAX
            &&& a.commodity - acc_comm_pos_sum(s) >= i64::MIN
        }
    &&& house.money.as_int + step_money_cap(s) <= i64::MAX
}

/// The coordinator's invariant depends only on the book, the owner map
/// and the accounts table; equal parts carry it over.
proof fn lemma_inv_parts<CommodityType>(m1: &Market<CommodityType>, m2: &Market<CommodityType>)
    requires
        m1.inv(),
        m2.spec_book() == m1.spec_book(),
        m2.owners() == m1.owners(),
        m2.accounts@ == m1.accounts@,
    ensures
        m2.inv(),
{
    assert forall|oid: u64| #[trigger] has_limit_id(m2.spec_book().bids(), oid) implies map_has(
        m2.owners(),
        oid,
    ) by {
        assert(has_limit_id(m1.spec_book().bids(), oid));
    }
    assert forall|oid: u64| #[trigger] has_limit_id(m2.spec_book().asks(), oid) implies map_has(
        m2.owners(),
        oid,
    ) by {
        assert(has_limit_id(m1.spec_book().asks(), oid));
    }
    assert forall|oid: u64| #[trigger] has_market_id(m2.spec_book().mbids(), oid) implies map_has(
        m2.owners(),
        oid,
    ) by {
        assert(has_market_id(m1.spec_book().mbids(), oid));
    }
    assert forall|oid: u64| #[trigger] has_market_id(m2.spec_book().masks(), oid) implies map_has(
        m2.owners(),
        oid,
    ) by {
        assert(has_market_id(m1.spec_book().masks(), oid));
    }
    assert forall|k: int|
        0 <= k < m2.owners().len() implies ((#[trigger] m2.owners()[k]).agent_id as int)
        < m2.accounts@.len() by {
        assert(((m1.owners()[k]).agent_id as int) < m1.accounts@.len());
    }
}

/// When the book's bid notional is covered by the accounts' cash and its
/// ask sizes by their inventory, the step-level headroom implies the
/// settlement headroom of the matching pass.
pub proof fn lemma_settle_headroom_from_cover<CommodityType>(m: &Market<CommodityType>, accts0: Seq<Account>)
    requires
        m.inv(),
        m.accounts@.len() == accts0.len(),
        forall|j: int|
            0 <= j < accts0.len() ==> (#[trigger] m.accounts@[j]).money == accts0[j].money
                && m.accounts@[j].commodity == accts0[j].commodity,
        notional_sum(m.spec_book().bids()) <= acc_money_pos_sum(accts0),
        market_size_sum(m.spec_book().masks()) + limit_size_sum(m.spec_book().asks())
            <= acc_comm_pos_sum(accts0),
        step_headroom(accts0, m.house()),
    ensures
        m.settle_headroom(),
        0 <= m.settle_money_cap() <= step_money_cap(accts0) <= i64::MAX,
{
    let b = m.spec_book();
    crate::book::lemma_notional_sum_nonneg(b.bids());
    crate::book::lemma_notional_sum_nonneg(b.asks());
    crate::book::lemma_market_size_sum_nonneg(b.masks());
    crate::book::lemma_limit_size_sum_nonneg(b.asks());
    crate::book::lemma_limit_size_sum_nonneg(b.bids());
    crate::book::lemma_notional_le_price_cap(b.asks());
    let capm = step_money_cap(accts0);
    let mpos = acc_money_pos_sum(accts0);
    let cpos = acc_comm_pos_sum(accts0);
    let fm = |a: Account| int_pos(a.money.as_int as int);
    let fc = |a: Account| int_pos(a.commodity as int);
    lemma_sum_by_nonneg(accts0, fm);
    lemma_sum_by_nonneg(accts0, fc);
    assert(notional_sum(b.bids()) <= mpos);
    assert(market_size_sum(b.masks()) + limit_size_sum(b.asks()) <= cpos);
    assert(notional_sum(b.asks()) <= MAX_ORDER_PRICE as int * limit_size_sum(b.asks()));
    assert(MAX_ORDER_PRICE as int * limit_size_sum(b.asks()) <= MAX_ORDER_PRICE as int * cpos)
        by (nonlinear_arith)
        requires
            limit_size_sum(b.asks()) <= cpos,
    ;
    assert(3 * MAX_FALLBACK_PRICE as int * (market_size_sum(b.masks()) + limit_size_sum(b.asks()))
        <= 3 * MAX_FALLBACK_PRICE as int * cpos) by (nonlinear_arith)
        requires
            0 <= market_size_sum(b.masks()) + limit_size_sum(b.asks()) <= cpos,
    ;
    assert(3 * MAX_ORDER_PRICE as int * cpos == 3 * (MAX_ORDER_PRICE as int * cpos))
        by (nonlinear_arith);
    assert(3 * MAX_FALLBACK_PRICE as int * cpos == 3 * (MAX_FALLBACK_PRICE as int * cpos))
        by (nonlinear_arith);
    assert(MAX_ORDER_PRICE as int * cpos >= 0) by (nonlinear_arith)
        requires
            cpos >= 0,
    ;
    assert(MAX_FALLBACK_PRICE as int * cpos >= 0) by (nonlinear_arith)
        requires
            cpos >= 0,
    ;
    assert(m.settle_money_cap() <= capm);
    assert(m.settle_size_cap() <= cpos);
    assert(m.settle_money_cap() >= 0) by {
        assert(3 * MAX_FALLBACK_PRICE as int * (market_size_sum(b.masks()) + limit_size_sum(
            b.asks(),
        )) >= 0) by (nonlinear_arith)
            requires
                market_size_sum(b.masks()) + limit_size_sum(b.asks()) >= 0,
        ;
    }
    assert(m.settle_size_cap() >= 0);
    assert(m.settle_headroom()) by {
        assert forall|j: int| 0 <= j < m.accounts@.len() implies {
            let a = #[trigger] m.accounts@[j];
            &&& a.money.as_int + 2 * m.settle_money_cap() <= i64::MAX
            &&& a.money.as_int - 2 * m.settle_money_cap() >= i64::MIN
            &&& a.commodity + m.settle_size_cap() <= i64::MAX
            &&& a.commodity - m.settle_size_cap() >= i64::MIN
        } by {
            assert(m.accounts@[j].money == accts0[j].money);
            assert(accts0[j].money == accts0[j].money);
        }
    }
}

impl<CommodityType> Market<CommodityType> {
    /// One atomic step of the simulation: clear the per-step state, solicit
    /// and admit this step's orders, run the three matching phases with the
    /// previous step's price as fallback, settle every transaction, and
    /// publish the step's history.  Returns the number of transactions.
    /// The sum of account money plus the house's, and the sum of
    /// commodity, are unchanged, and afterwards no remaining limit bid's
    /// price reaches any remaining limit ask's.
    pub fn step<A: Agent<CommodityType = CommodityType>>(
        &mut self,
        agents: &mut Vec<(AgentId, A)>,
    ) -> (r: usize)
        requires
            old(self).inv(),
            step_headroom(old(self).accounts@, old(self).house()),
            old(self).history.step < u64::MAX,
        ensures
            final(self).inv(),
            final(self).info == old(self).info,
            final(self).accounts@.len() == old(self).accounts@.len(),
            acc_money_sum(final(self).accounts@) + final(self).house().money.as_int
                == acc_money_sum(old(self).accounts@) + old(self).house().money.as_int,
            acc_comm_sum(final(self).accounts@) == acc_comm_sum(old(self).accounts@),
            old(self).house().money.as_int <= final(self).house().money.as_int,
            final(self).house().money.as_int == old(self).house().money.as_int + tx_diff_sum(
                final(self).history.transactions@,
            ),
            final(self).house().commodity == old(self).house().commodity,
            final(self).spec_book().masks().len() == 0 || final(self).spec_book().bids().len()
                == 0,
            final(self).spec_book().mbids().len() == 0 || final(self).spec_book().asks().len()
                == 0,
            !crate::book::limit_cross(
                final(self).spec_book().bids(),
                final(self).spec_book().asks(),
            ),
            transactions_wf(final(self).history.transactions@),
            forall|i: int|
                0 <= i < final(self).history.transactions@.len()
                    ==> (#[trigger] final(self).history.transactions@[i]).diff.as_int >= 0,
            r == final(self).history.transactions@.len(),
            final(self).history.step == old(self).history.step + 1,
            old(agents)@.len() == 0 ==> final(self).history.transactions@.len() == 0
                && final(self).history.rejected_orders@.len() == 0
                && final(self).history.unfulfilled_orders@.len() == 0
                && final(self).house() == old(self).house() && forall|j: int|
                0 <= j < old(self).accounts@.len() ==> #[trigger] final(self).accounts@[j]
                    == (Account {
                    reserved_money: Amount { as_int: 0 },
                    reserved_commodity: 0,
                    ..old(self).accounts@[j]
                }),
            forall|i: int|
                0 <= i < final(self).history.rejected_orders@.len() ==> {
                    let o = #[trigger] final(self).history.rejected_orders@[i];
                    &&& crate::orders::flat::data_admissible(
                        OrderData { side: o.side, price: o.price, size: o.size },
                    )
                    &&& old(self).spec_book().next_id() <= o.id < final(self).spec_book().next_id()
                    &&& !has_limit_id(final(self).spec_book().bids(), o.id)
                    &&& !has_limit_id(final(self).spec_book().asks(), o.id)
                    &&& !has_market_id(final(self).spec_book().mbids(), o.id)
                    &&& !has_market_id(final(self).spec_book().masks(), o.id)
                },
            final(self).history.unfulfilled_orders@ == crate::book::limit_orders_on(
                final(self).spec_book().asks(),
                crate::orders::flat::OrderSide::Ask,
            ) + crate::book::limit_orders_on(
                final(self).spec_book().bids(),
                crate::orders::flat::OrderSide::Bid,
            ) + crate::book::market_orders_on(
                final(self).spec_book().masks(),
                crate::orders::flat::OrderSide::Ask,
            ) + crate::book::market_orders_on(
                final(self).spec_book().mbids(),
                crate::orders::flat::OrderSide::Bid,
            ),
    {
        let ghost accts0 = self.accounts@;
        let ghost h0 = self.market_account;
        let ghost capm = step_money_cap(accts0);
        self.clear_orders();
        proof {
            lemma_sum_by_pointwise(
                self.accounts@,
                accts0,
                |a: Account| int_pos(a.money.as_int as int),
            );
            lemma_sum_by_pointwise(
                self.accounts@,
                accts0,
                |a: Account| int_pos(a.commodity as int),
            );
            lemma_sum_by_pointwise(self.accounts@, accts0, |a: Account| a.money.as_int as int);
            lemma_sum_by_pointwise(self.accounts@, accts0, |a: Account| a.commodity as int);
        }
        let ghost accts1 = self.accounts@;
        let rejected = self.process_agent_actions(agents);
        proof {
            lemma_sum_by_pointwise(
                self.accounts@,
                accts1,
                |a: Account| int_pos(a.money.as_int as int),
            );
            lemma_sum_by_pointwise(
                self.accounts@,
                accts1,
                |a: Account| int_pos(a.commodity as int),
            );
            lemma_sum_by_pointwise(self.accounts@, accts1, |a: Account| a.money.as_int as int);
            lemma_sum_by_pointwise(self.accounts@, accts1, |a: Account| a.commodity as int);
        }
        let prev_price = if self.history.price_computable() {
            self.history.market_price()
        } else {
            Option::None
        };
        let prev_price = match prev_price {
            Option::Some(p) => if 0 <= p.as_int && p.as_int <= MAX_FALLBACK_PRICE {
                Option::Some(p)
            } else {
                Option::None
            },
            Option::None => Option::None,
        };
        let ghost madm = *self;
        self.history.clear();
        self.history.rejected_orders = rejected;
        proof {
            lemma_inv_parts(&madm, self);
            assert forall|j: int|
                0 <= j < accts0.len() implies (#[trigger] self.accounts@[j]).money == accts0[j].money
                && self.accounts@[j].commodity == accts0[j].commodity by {
                assert(accts1[j].money == accts0[j].money);
                assert(accts1[j].commodity == accts0[j].commodity);
                assert(self.accounts@[j].money == accts1[j].money);
                assert(self.accounts@[j].commodity == accts1[j].commodity);
            }
            lemma_settle_headroom_from_cover(self, accts0);
        }
        let transactions = self.process_submitted_orders(prev_price);
        let ghost mdone = *self;
        self.history.transactions = transactions;
        self.history.unfulfilled_orders = self.book.all_orders();
        self.history.inc_step();
        proof {
            lemma_inv_parts(&mdone, self);
            lemma_sum_by_pointwise(accts1, accts0, |a: Account| a.money.as_int as int);
            lemma_sum_by_pointwise(accts1, accts0, |a: Account| a.commodity as int);
            if old(agents)@.len() == 0 {
                // without agents the admitted book is empty, so nothing
                // trades, nothing is rejected and nothing remains
                assert(madm.spec_book().bids().len() == 0);
                assert(madm.spec_book().asks().len() == 0);
                assert(madm.spec_book().mbids().len() == 0);
                assert(madm.spec_book().masks().len() == 0);
                crate::book::lemma_tx_sums_nonneg(transactions@);
                crate::book::lemma_market_size_sum_nonneg(mdone.spec_book().masks());
                crate::book::lemma_market_size_sum_nonneg(mdone.spec_book().mbids());
                crate::book::lemma_limit_size_sum_nonneg(mdone.spec_book().bids());
                crate::book::lemma_limit_size_sum_nonneg(mdone.spec_book().asks());
                assert(tx_size_sum(transactions@) == 0);
                if transactions@.len() > 0 {
                    crate::sums::lemma_sum_by_element_bound(
                        transactions@,
                        0,
                        |t: Transaction| t.size as int,
                    );
                    assert(transactions@[0].wf());
                    assert(false);
                }
                crate::book::lemma_limit_empty_of_zero(mdone.spec_book().bids());
                crate::book::lemma_limit_empty_of_zero(mdone.spec_book().asks());
                crate::book::lemma_market_empty_of_zero(mdone.spec_book().mbids());
                crate::book::lemma_market_empty_of_zero(mdone.spec_book().masks());
                assert(self.history.unfulfilled_orders@.len() == 0);
                assert(self.history.transactions@.len() == 0);
                assert(self.history.rejected_orders@.len() == 0);
                assert(self.market_account == h0);
                assert forall|j: int|
                    0 <= j < old(self).accounts@.len() implies #[trigger] self.accounts@[j]
                    == (Account {
                    reserved_money: Amount { as_int: 0 },
                    reserved_commodity: 0,
                    ..old(self).accounts@[j]
                }) by {
                    assert(self.accounts@ == crate::market::spec_settle_list(
                        madm.accounts@,
                        madm.owners(),
                        transactions@,
                    ));
                    assert(self.accounts@[j] == accts1[j]);
                }
            }
        }
        self.history.transactions.len()
    }
}

} // verus!

verus! {

impl<CommodityType> Market<CommodityType> {
    /// Decides a sufficient condition for `step_headroom`: when this
    /// returns true, one whole step fits the machine's integer range, so
    /// an unverified caller may test it before calling `step`.  A false
    /// answer may be conservative.
    pub fn check_step_headroom(&self) -> (r: bool)
        ensures
            r ==> step_headroom(self.accounts@, self.house()),
    {
        let limit: i64 = 0x1000_0000_0000_0000;
        let n = self.accounts.len();
        let mut mpos: i64 = 0;
        let mut cpos: i64 = 0;
        let mut j: usize = 0;
        while j < n
            invariant
                n == self.accounts@.len(),
                j <= n,
                limit == 0x1000_0000_0000_0000,
                mpos == acc_money_pos_sum(self.accounts@.subrange(0, j as int)),
                cpos == acc_comm_pos_sum(self.accounts@.subrange(0, j as int)),
                0 <= mpos < limit,
                0 <= cpos < limit,
            decreases n - j,
        {
            let a = self.accounts[j];
            let ghost pre = self.accounts@.subrange(0, j as int);
            proof {
                assert(self.accounts@.subrange(0, j as int + 1) =~= pre.push(
                    self.accounts@[j as int],
                ));
                lemma_sum_by_push(
                    pre,
                    self.accounts@[j as int],
                    |a: Account| int_pos(a.money.as_int as int),
                );
                lemma_sum_by_push(
                    pre,
                    self.accounts@[j as int],
                    |a: Account| int_pos(a.commodity as int),
                );
            }
            let m = if a.money.as_int > 0 {
                a.money.as_int
            } else {
                0
            };
            let c = if a.commodity > 0 {
                a.commodity
            } else {
                0
            };
            if m >= limit - mpos || c >= limit - cpos {
                return false;
            }
            mpos = mpos + m;
            cpos = cpos + c;
            j = j + 1;
        }
        proof {
            assert(self.accounts@.subrange(0, n as int) =~= self.accounts@);
        }
        proof {
            assert(3 * (MAX_ORDER_PRICE as int) * (cpos as int) < 0x1000_0000_0000_0000_0000_0000)
                by (nonlinear_arith)
                requires
                    0 <= cpos < 0x1000_0000_0000_0000,
            ;
            assert(0 <= 3 * (MAX_ORDER_PRICE as int) * (cpos as int)) by (nonlinear_arith)
                requires
                    0 <= cpos,
            ;
            assert(3 * (MAX_FALLBACK_PRICE as int) * (cpos as int)
                < 0x1_0000_0000_0000_0000_0000_0000_0000) by (nonlinear_arith)
                requires
                    0 <= cpos < 0x1000_0000_0000_0000,
            ;
            assert(0 <= 3 * (MAX_FALLBACK_PRICE as int) * (cpos as int)) by (nonlinear_arith)
                requires
                    0 <= cpos,
            ;
        }
        let capm: i128 = 3 * (mpos as i128) + 3 * (MAX_ORDER_PRICE as i128) * (cpos as i128) + 3
            * (MAX_FALLBACK_PRICE as i128) * (cpos as i128);
        proof {
            assert(capm == step_money_cap(self.accounts@));
        }
        if capm > (i64::MAX as i128) {
            return false;
        }
        if (self.market_account.money.as_int as i128) + capm > (i64::MAX as i128) {
            return false;
        }
        let mut j: usize = 0;
        while j < n
            invariant
                n == self.accounts@.len(),
                j <= n,
                capm == step_money_cap(self.accounts@),
                0 <= capm <= i64::MAX as i128,
                forall|k: int|
                    0 <= k < j ==> {
                        let a = #[trigger] self.accounts@[k];
                        &&& a.money.as_int + 2 * step_money_cap(self.accounts@) <= i64::MAX
                        &&& a.money.as_int - 2 * step_money_cap(self.accounts@) >= i64::MIN
                        &&& a.commodity + acc_comm_pos_sum(self.accounts@) <= i64::MAX
                        &&& a.commodity - acc_comm_pos_sum(self.accounts@) >= i64::MIN
                    },
                cpos == acc_comm_pos_sum(self.accounts@),
                0 <= cpos < 0x1000_0000_0000_0000,
            decreases n - j,
        {
            let a = self.accounts[j];
            if (a.money.as_int as i128) + 2 * capm > (i64::MAX as i128) {
                return false;
            }
            if (a.money.as_int as i128) - 2 * capm < (i64::MIN as i128) {
                return false;
            }
            if (a.commodity as i128) + (cpos as i128) > (i64::MAX as i128) {
                return false;
            }
            if (a.commodity as i128) - (cpos as i128) < (i64::MIN as i128) {
                return false;
            }
            j = j + 1;
        }
        true
    }
}

} // verus!
