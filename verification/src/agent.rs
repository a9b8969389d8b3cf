//! The agent contract: the one extension point of the simulation.
//!
//! A strategy receives a read-only snapshot of its own account, the market
//! description and the previous step's history, and answers with order
//! intents.  It must not reach back into the coordinator.

use vstd::prelude::*;
use crate::account::Account;
use crate::market::{History, MarketInfo};
use crate::orders::flat::OrderData;

verus! {

/// The coordinator's handle for a registered agent.
#[derive(Copy, Clone, Debug, Eq, Hash, PartialEq, PartialOrd, Ord)]
pub struct AgentId(pub u64);

impl AgentId {
    /// Wraps a raw id.
    pub fn new(id: u64) -> (r: Self)
        ensures
            r.0 == id,
    {
        AgentId(id)
    }
}

/// A trading strategy.  `setup` is called exactly once at registration;
/// `produce_orders` once per step, in registration order, and may return
/// an empty list.
pub trait Agent: Sized {
    /// The commodity marker the strategy trades in.
    type CommodityType;

    /// One-time initialisation with the assigned id.
    fn setup(&mut self, id: AgentId, info: &MarketInfo<Self::CommodityType>);

    /// Produces this step's order intents from the agent's own account
    /// snapshot, the market description and the previous step's history.
    fn produce_orders(
        &mut self,
        account: &Account,
        info: &MarketInfo<Self::CommodityType>,
        history: &History,
    ) -> Vec<OrderData>;
}

} // verus!
