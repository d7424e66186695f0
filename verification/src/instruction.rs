use vstd::prelude::*;
use crate::book::{after_demand, after_production, post_energy_demand, report_energy_production};
use crate::identity::Identity;
use crate::matching::{match_transactions, settles};
use crate::model::{EnergyMarketInstruction, Ledger, LedgerState, MarketError, empty_state};
use crate::registry::{
    after_deposit, after_register, after_withdraw, deposit, initialize_ledger,
    register_participant, withdraw,
};

verus! {

/// The operation whose outcome is `expected` answered `res` and left `next`
/// where it had found `s`: the new ledger on success, the old one on refusal.
pub open spec fn comes_to(
    expected: Result<LedgerState, MarketError>,
    s: LedgerState,
    res: Result<(), MarketError>,
    next: LedgerState,
) -> bool {
    match expected {
        Ok(n) => res.is_ok() && next == n,
        Err(e) => res == Err::<(), MarketError>(e) && next == s,
    }
}

/// What `instruction`, sent by `caller`, does to the ledger `s`.
pub open spec fn applies(
    s: LedgerState,
    caller: Identity,
    instruction: EnergyMarketInstruction,
    res: Result<(), MarketError>,
    next: LedgerState,
) -> bool {
    match instruction {
        EnergyMarketInstruction::InitializeLedger => res.is_ok() && next == empty_state(),
        EnergyMarketInstruction::RegisterParticipant { participant_type } => res.is_ok() && next
            == after_register(s, caller, participant_type),
        EnergyMarketInstruction::ReportProduction { energy_amount, price } => comes_to(
            after_production(s, caller, energy_amount, price),
            s,
            res,
            next,
        ),
        EnergyMarketInstruction::PostDemand { energy_amount, price_limit } => comes_to(
            after_demand(s, caller, energy_amount, price_limit),
            s,
            res,
            next,
        ),
        EnergyMarketInstruction::MatchTransactions => settles(s, res, next),
        EnergyMarketInstruction::Deposit { amount } => comes_to(
            after_deposit(s, caller, amount),
            s,
            res,
            next,
        ),
        EnergyMarketInstruction::Withdraw { amount } => comes_to(
            after_withdraw(s, caller, amount),
            s,
            res,
            next,
        ),
    }
}

/// Applies one instruction, sent by `caller`, to the ledger. Either the
/// whole instruction takes effect, or the ledger stays as it was.
pub fn process_instruction(
    ledger: &mut Ledger,
    caller: &Identity,
    instruction: &EnergyMarketInstruction,
) -> (res: Result<(), MarketError>)
    ensures
        applies(old(ledger)@, *caller, *instruction, res, final(ledger)@),
{
    match *instruction {
        EnergyMarketInstruction::InitializeLedger => {
            *ledger = initialize_ledger();
            Ok(())
        },
        EnergyMarketInstruction::RegisterParticipant { participant_type } => {
            register_participant(ledger, *caller, participant_type);
            Ok(())
        },
        EnergyMarketInstruction::ReportProduction { energy_amount, price } => {
            report_energy_production(ledger, caller, energy_amount, price)
        },
        EnergyMarketInstruction::PostDemand { energy_amount, price_limit } => {
            post_energy_demand(ledger, caller, energy_amount, price_limit)
        },
        EnergyMarketInstruction::MatchTransactions => match_transactions(ledger),
        EnergyMarketInstruction::Deposit { amount } => deposit(ledger, caller, amount),
        EnergyMarketInstruction::Withdraw { amount } => withdraw(ledger, caller, amount),
    }
}

} // verus!
