use energy_market::{
    initialize_ledger, process_instruction, EnergyDemand, EnergyMarketInstruction,
    EnergyProduction, Identity, MarketError, Participant, ParticipantType, Transaction,
};

fn id(tag: u8) -> Identity {
    Identity::new([tag; 32])
}

#[test]
fn instructions_act_for_the_caller() {
    let mut ledger = initialize_ledger();
    let register =
        EnergyMarketInstruction::RegisterParticipant { participant_type: ParticipantType::Prosumer };
    assert_eq!(process_instruction(&mut ledger, &id(1), &register), Ok(()));
    assert_eq!(process_instruction(&mut ledger, &id(2), &register), Ok(()));
    assert_eq!(
        process_instruction(&mut ledger, &id(1), &EnergyMarketInstruction::Deposit { amount: 70 }),
        Ok(())
    );
    assert_eq!(
        process_instruction(&mut ledger, &id(1), &EnergyMarketInstruction::Withdraw { amount: 20 }),
        Ok(())
    );
    assert_eq!(
        process_instruction(
            &mut ledger,
            &id(2),
            &EnergyMarketInstruction::ReportProduction { energy_amount: 9, price: 2 }
        ),
        Ok(())
    );
    assert_eq!(
        process_instruction(
            &mut ledger,
            &id(1),
            &EnergyMarketInstruction::PostDemand { energy_amount: 90, price_limit: 2 }
        ),
        Ok(())
    );
    assert_eq!(
        ledger.participants,
        vec![
            Participant { id: id(1), participant_type: ParticipantType::Prosumer, wallet_balance: 50 },
            Participant { id: id(2), participant_type: ParticipantType::Prosumer, wallet_balance: 0 },
        ]
    );
    assert_eq!(
        ledger.productions,
        vec![EnergyProduction { producer_id: id(2), energy_amount: 9, price: 2 }]
    );
    assert_eq!(
        ledger.demands,
        vec![EnergyDemand { consumer_id: id(1), energy_amount: 90, price_limit: 2 }]
    );
    // 90 is more than the lot holds: the pass orders the book and clears nothing.
    assert_eq!(
        process_instruction(&mut ledger, &id(3), &EnergyMarketInstruction::MatchTransactions),
        Ok(())
    );
    assert!(ledger.transactions.is_empty());
    assert_eq!(ledger.demands.len(), 1);
}

#[test]
fn refused_instruction_leaves_the_ledger_as_it_was() {
    let mut ledger = initialize_ledger();
    let register =
        EnergyMarketInstruction::RegisterParticipant { participant_type: ParticipantType::Consumer };
    assert_eq!(process_instruction(&mut ledger, &id(1), &register), Ok(()));
    assert_eq!(
        process_instruction(
            &mut ledger,
            &id(1),
            &EnergyMarketInstruction::Deposit { amount: u64::MAX }
        ),
        Ok(())
    );
    let before = ledger.clone();
    let refused = [
        (id(1), EnergyMarketInstruction::Deposit { amount: 1 }, MarketError::ArithmeticOverflow),
        (id(2), EnergyMarketInstruction::Deposit { amount: 1 }, MarketError::UnknownParticipant),
        (id(2), EnergyMarketInstruction::Withdraw { amount: 1 }, MarketError::UnknownParticipant),
        (
            id(2),
            EnergyMarketInstruction::ReportProduction { energy_amount: 1, price: 1 },
            MarketError::UnknownParticipant,
        ),
        (
            id(2),
            EnergyMarketInstruction::PostDemand { energy_amount: 1, price_limit: 1 },
            MarketError::UnknownParticipant,
        ),
    ];
    for (caller, instruction, error) in refused {
        assert_eq!(process_instruction(&mut ledger, &caller, &instruction), Err(error));
        assert_eq!(ledger, before);
    }
    assert_eq!(
        process_instruction(&mut ledger, &id(1), &EnergyMarketInstruction::Withdraw { amount: 1 }),
        Ok(())
    );
    assert_eq!(
        process_instruction(
            &mut ledger,
            &id(1),
            &EnergyMarketInstruction::Withdraw { amount: u64::MAX }
        ),
        Err(MarketError::InsufficientFunds)
    );
    assert_eq!(ledger.participants[0].wallet_balance, u64::MAX - 1);
}

#[test]
fn initialize_replaces_whatever_was_there() {
    let mut ledger = initialize_ledger();
    ledger.participants.push(Participant {
        id: id(1),
        participant_type: ParticipantType::Producer,
        wallet_balance: 3,
    });
    ledger.productions.push(EnergyProduction { producer_id: id(1), energy_amount: 1, price: 1 });
    ledger.demands.push(EnergyDemand { consumer_id: id(1), energy_amount: 1, price_limit: 1 });
    ledger.transactions.push(Transaction {
        from: id(1),
        to: id(1),
        amount: 1,
        price: 1,
        timestamp: 1,
    });
    assert_eq!(
        process_instruction(&mut ledger, &id(9), &EnergyMarketInstruction::InitializeLedger),
        Ok(())
    );
    assert_eq!(ledger, initialize_ledger());
}

#[test]
fn match_instruction_is_all_or_nothing() {
    let mut ledger = initialize_ledger();
    let register =
        EnergyMarketInstruction::RegisterParticipant { participant_type: ParticipantType::Prosumer };
    assert_eq!(process_instruction(&mut ledger, &id(1), &register), Ok(()));
    assert_eq!(
        process_instruction(
            &mut ledger,
            &id(1),
            &EnergyMarketInstruction::ReportProduction { energy_amount: 2, price: 0 }
        ),
        Ok(())
    );
    assert_eq!(
        process_instruction(
            &mut ledger,
            &id(1),
            &EnergyMarketInstruction::PostDemand { energy_amount: 2, price_limit: 0 }
        ),
        Ok(())
    );
    let before = ledger.clone();
    match process_instruction(&mut ledger, &id(1), &EnergyMarketInstruction::MatchTransactions) {
        Ok(()) => {
            assert_eq!(ledger.transactions.len(), 1);
            assert!(ledger.productions.is_empty() && ledger.demands.is_empty());
            assert_eq!(ledger.participants, before.participants);
        }
        Err(e) => {
            assert_eq!(e, MarketError::ClockUnavailable);
            assert_eq!(ledger, before);
        }
    }
}
