pub mod book;
pub mod clock;
pub mod identity;
pub mod instruction;
pub mod laws;
pub mod matching;
pub mod model;
pub mod ordering;
pub mod registry;
pub mod second_pass;

pub use book::{post_energy_demand, prune_demands, prune_productions, report_energy_production};
pub use identity::Identity;
pub use instruction::process_instruction;
pub use matching::{
    attempt_trade, clear_book, match_transactions, match_transactions_at, record_clearing,
    record_with_reading, serve_demand, Clearing, Fill,
};
pub use ordering::{sorted_by_rank, Ranked};
pub use model::{
    EnergyDemand, EnergyMarketInstruction, EnergyProduction, Ledger, LedgerState, MarketError,
    Participant, ParticipantType, Transaction,
};
pub use registry::{deposit, find_participant, initialize_ledger, register_participant, withdraw};
