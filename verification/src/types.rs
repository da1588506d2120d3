//! Plain data model: orders, nonce declarations, simulation outcomes and the
//! conflict classification of an ordered pair of orders.

use vstd::prelude::*;

verus! {

/// A 256-bit unsigned value (a coinbase profit), held as two 128-bit halves.
/// The conflict logic only ever compares profits for exact equality.
#[derive(Clone, Copy, Debug, PartialEq, Eq, Structural)]
pub struct U256 {
    pub hi: u128,
    pub lo: u128,
}

/// A 160-bit account address, held as a 32-bit high part and a 128-bit low part.
#[derive(Clone, Copy, Debug, PartialEq, Eq, Structural)]
pub struct Address {
    pub hi: u32,
    pub lo: u128,
}

/// Stable identifier of an order, unique for the lifetime of one analysis run.
#[derive(Clone, Copy, Debug, PartialEq, Eq, Structural)]
pub struct OrderId {
    pub value: u64,
}

/// An account-nonce precondition declared by an order. `optional` means the
/// order tolerates the nonce already being consumed by something else.
#[derive(Clone, Copy, Debug, PartialEq, Eq, Structural)]
pub struct Nonce {
    pub address: Address,
    pub optional: bool,
}

/// An order: an identifiable unit of execution together with the set of
/// account-nonce preconditions it depends on.
#[derive(Clone, Debug)]
pub struct Order {
    pub id: OrderId,
    pub nonces: Vec<Nonce>,
}

impl Order {
    pub fn id(&self) -> (r: OrderId)
        ensures
            r == self.id,
    {
        self.id
    }

    pub fn nonces(&self) -> (r: &Vec<Nonce>)
        ensures
            r@ == self.nonces@,
    {
        &self.nonces
    }
}

/// Outcome of committing one order against a state fork: either the order
/// executed, with its gas usage and the profit credited to the coinbase, or it
/// failed (reverted or was invalid) in that context. An infrastructure error
/// is not an outcome: it aborts the whole analysis at the driver.
#[derive(Clone, Copy, Debug, PartialEq, Eq, Structural)]
pub enum SimOutcome {
    Success { gas_used: u64, blob_gas_used: u64, coinbase_profit: U256 },
    Failed,
}

impl SimOutcome {
    /// The coinbase profit of a successful outcome.
    pub open spec fn profit(self) -> U256
        recommends
            self is Success,
    {
        match self {
            SimOutcome::Success { coinbase_profit, .. } => coinbase_profit,
            SimOutcome::Failed => U256 { hi: 0u128, lo: 0u128 },
        }
    }
}

/// The two outcomes observed when a pair is simulated in sequence on one
/// fresh fork: `first` from committing the first order starting from zero gas,
/// `second` from committing the second order with the gas counters left by the
/// first (zero if the first failed).
#[derive(Clone, Copy, Debug, PartialEq, Eq, Structural)]
pub struct PairSim {
    pub first: SimOutcome,
    pub second: SimOutcome,
}

/// Conflict generated by executing an order before another.
#[derive(Clone, Copy, Debug, PartialEq, Eq, Structural)]
pub enum Conflict {
    /// Second order's outcome is unaffected by the first order running first.
    NoConflict,
    /// Both orders have a non-optional dependency on this account's nonce;
    /// they are mutually exclusive without needing simulation.
    Nonce(Address),
    /// Executing the pair caused an order to fail that succeeds alone.
    Fatal,
    /// Second order still executed, but with a different coinbase profit than
    /// it yields running alone.
    DifferentProfit { profit_alone: U256, profit_with_conflict: U256 },
}

} // verus!
