use energy_market::{
    deposit, initialize_ledger, match_transactions, match_transactions_at, post_energy_demand,
    register_participant, report_energy_production, withdraw, EnergyDemand, EnergyProduction,
    Identity, Ledger, MarketError, ParticipantType, Transaction,
};

fn id(tag: u8) -> Identity {
    Identity::new([tag; 32])
}

fn market_with(consumer_funds: u64, demand_amount: u64) -> Ledger {
    let mut ledger = initialize_ledger();
    register_participant(&mut ledger, id(1), ParticipantType::Producer);
    register_participant(&mut ledger, id(2), ParticipantType::Consumer);
    assert_eq!(report_energy_production(&mut ledger, &id(1), 100, 5), Ok(()));
    assert_eq!(deposit(&mut ledger, &id(2), consumer_funds), Ok(()));
    assert_eq!(post_energy_demand(&mut ledger, &id(2), demand_amount, 10), Ok(()));
    ledger
}

#[test]
fn funded_demand_clears_against_cheaper_lot() {
    let mut ledger = market_with(1000, 50);
    assert_eq!(match_transactions_at(&mut ledger, 1_700_000_000), Ok(()));
    assert_eq!(
        ledger.transactions,
        vec![Transaction { from: id(2), to: id(1), amount: 50, price: 5, timestamp: 1_700_000_000 }]
    );
    assert_eq!(ledger.participants[0].wallet_balance, 250);
    assert_eq!(ledger.participants[1].wallet_balance, 750);
    assert_eq!(
        ledger.productions,
        vec![EnergyProduction { producer_id: id(1), energy_amount: 50, price: 5 }]
    );
    assert!(ledger.demands.is_empty());
}

#[test]
fn underfunded_demand_is_skipped() {
    let mut ledger = market_with(10, 50);
    let before = ledger.clone();
    assert_eq!(match_transactions_at(&mut ledger, 42), Ok(()));
    assert_eq!(ledger, before);
    assert!(ledger.transactions.is_empty());
    assert_eq!(ledger.participants[0].wallet_balance, 0);
    assert_eq!(ledger.participants[1].wallet_balance, 10);
    assert_eq!(ledger.productions[0].energy_amount, 100);
    assert_eq!(ledger.demands[0].energy_amount, 50);
}

#[test]
fn demand_larger_than_lot_is_not_split() {
    let mut ledger = market_with(1000, 120);
    let before = ledger.clone();
    assert_eq!(match_transactions_at(&mut ledger, 42), Ok(()));
    assert_eq!(ledger, before);
    assert_eq!(
        ledger.demands,
        vec![EnergyDemand { consumer_id: id(2), energy_amount: 120, price_limit: 10 }]
    );
}

#[test]
fn withdraw_beyond_balance_is_refused() {
    let mut ledger = initialize_ledger();
    register_participant(&mut ledger, id(7), ParticipantType::Prosumer);
    assert_eq!(deposit(&mut ledger, &id(7), 30), Ok(()));
    let before = ledger.clone();
    assert_eq!(withdraw(&mut ledger, &id(7), 31), Err(MarketError::InsufficientFunds));
    assert_eq!(ledger, before);
    assert_eq!(ledger.participants[0].wallet_balance, 30);
    assert_eq!(withdraw(&mut ledger, &id(7), 30), Ok(()));
    assert_eq!(ledger.participants[0].wallet_balance, 0);
}

#[test]
fn overflow_in_second_pair_undoes_the_first() {
    let mut ledger = initialize_ledger();
    register_participant(&mut ledger, id(1), ParticipantType::Producer);
    register_participant(&mut ledger, id(2), ParticipantType::Consumer);
    assert_eq!(deposit(&mut ledger, &id(2), u64::MAX), Ok(()));
    // Cheapest first: the small lot at 1, then the large lot at u64::MAX.
    assert_eq!(report_energy_production(&mut ledger, &id(1), 10, 1), Ok(()));
    assert_eq!(report_energy_production(&mut ledger, &id(1), 1000, u64::MAX), Ok(()));
    // Largest first: 10 clears against the first lot, then 2 meets the second.
    assert_eq!(post_energy_demand(&mut ledger, &id(2), 10, u64::MAX), Ok(()));
    assert_eq!(post_energy_demand(&mut ledger, &id(2), 2, u64::MAX), Ok(()));
    let before = ledger.clone();
    assert_eq!(match_transactions_at(&mut ledger, 5), Err(MarketError::ArithmeticOverflow));
    assert_eq!(ledger, before);
    assert_eq!(match_transactions(&mut ledger), Err(MarketError::ArithmeticOverflow));
    assert_eq!(ledger, before);
}
