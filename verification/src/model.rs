use vstd::prelude::*;
use crate::identity::Identity;

verus! {

/// The role a participant declared when registering. It is informational:
/// no operation is refused because of it.
#[derive(Clone, Copy, Debug, PartialEq, Eq, Structural)]
pub enum ParticipantType {
    Producer,
    Consumer,
    Prosumer,
}

/// A registered identity with its wallet.
#[derive(Clone, Copy, Debug, PartialEq, Eq)]
pub struct Participant {
    pub id: Identity,
    pub participant_type: ParticipantType,
    pub wallet_balance: u64,
}

/// A quantity of energy a producer offers at a fixed unit price.
/// `energy_amount` is what is still left of it.
#[derive(Clone, Copy, Debug, PartialEq, Eq)]
pub struct EnergyProduction {
    pub producer_id: Identity,
    pub energy_amount: u64,
    pub price: u64,
}

/// A quantity of energy a consumer wants at or below a unit price.
/// `energy_amount` is what is still wanted.
#[derive(Clone, Copy, Debug, PartialEq, Eq)]
pub struct EnergyDemand {
    pub consumer_id: Identity,
    pub energy_amount: u64,
    pub price_limit: u64,
}

/// A settled trade: `from` paid `amount * price` to `to`.
#[derive(Clone, Copy, Debug, PartialEq, Eq)]
pub struct Transaction {
    pub from: Identity,
    pub to: Identity,
    pub amount: u64,
    pub price: u64,
    pub timestamp: i64,
}

/// The whole market: who takes part, what is on offer, what is wanted and
/// what has been settled, each in the order in which it was entered.
#[derive(Clone, Debug, PartialEq, Eq)]
pub struct Ledger {
    pub participants: Vec<Participant>,
    pub productions: Vec<EnergyProduction>,
    pub demands: Vec<EnergyDemand>,
    pub transactions: Vec<Transaction>,
}

/// The mathematical content of a [`Ledger`]: four sequences.
pub struct LedgerState {
    pub participants: Seq<Participant>,
    pub productions: Seq<EnergyProduction>,
    pub demands: Seq<EnergyDemand>,
    pub transactions: Seq<Transaction>,
}

impl View for Ledger {
    type V = LedgerState;

    open spec fn view(&self) -> LedgerState {
        LedgerState {
            participants: self.participants@,
            productions: self.productions@,
            demands: self.demands@,
            transactions: self.transactions@,
        }
    }
}

/// The ledger with nothing in it.
pub open spec fn empty_state() -> LedgerState {
    LedgerState {
        participants: Seq::empty(),
        productions: Seq::empty(),
        demands: Seq::empty(),
        transactions: Seq::empty(),
    }
}

/// Why an operation was refused. A refused operation leaves the ledger as it was.
#[derive(Clone, Copy, Debug, PartialEq, Eq, Structural)]
pub enum MarketError {
    /// The identity named by the operation is not registered.
    UnknownParticipant,
    /// A withdrawal asked for more than the wallet holds.
    InsufficientFunds,
    /// A sum or product does not fit in 64 bits.
    ArithmeticOverflow,
    /// A clearing pair names a party that is not registered.
    InvalidAccountData,
    /// A pair cleared but the host could not tell the time.
    ClockUnavailable,
}

/// The closed set of operations the market accepts.
#[derive(Clone, Copy, Debug, PartialEq, Eq)]
pub enum EnergyMarketInstruction {
    InitializeLedger,
    RegisterParticipant { participant_type: ParticipantType },
    ReportProduction { energy_amount: u64, price: u64 },
    PostDemand { energy_amount: u64, price_limit: u64 },
    MatchTransactions,
    Deposit { amount: u64 },
    Withdraw { amount: u64 },
}

} // verus!
