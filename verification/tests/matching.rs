use energy_market::{
    attempt_trade, clear_book, match_transactions, match_transactions_at, prune_demands,
    prune_productions, record_clearing, record_with_reading, serve_demand, sorted_by_rank,
    Clearing, EnergyDemand, EnergyProduction, Fill, Identity, Ledger, MarketError, Participant,
    ParticipantType, Transaction,
};

fn id(tag: u8) -> Identity {
    Identity::new([tag; 32])
}

fn person(tag: u8, balance: u64) -> Participant {
    Participant { id: id(tag), participant_type: ParticipantType::Prosumer, wallet_balance: balance }
}

fn lot(tag: u8, amount: u64, price: u64) -> EnergyProduction {
    EnergyProduction { producer_id: id(tag), energy_amount: amount, price }
}

fn demand(tag: u8, amount: u64, limit: u64) -> EnergyDemand {
    EnergyDemand { consumer_id: id(tag), energy_amount: amount, price_limit: limit }
}

fn ledger(
    participants: Vec<Participant>,
    productions: Vec<EnergyProduction>,
    demands: Vec<EnergyDemand>,
) -> Ledger {
    Ledger { participants, productions, demands, transactions: vec![] }
}

fn total(ledger: &Ledger) -> u128 {
    ledger.participants.iter().map(|p| p.wallet_balance as u128).sum()
}

#[test]
fn lots_are_ordered_by_price_and_ties_keep_their_order() {
    let lots = vec![lot(1, 10, 7), lot(2, 20, 3), lot(3, 30, 7), lot(4, 40, 3), lot(5, 50, 1)];
    assert_eq!(
        sorted_by_rank(&lots),
        vec![lot(5, 50, 1), lot(2, 20, 3), lot(4, 40, 3), lot(1, 10, 7), lot(3, 30, 7)]
    );
    assert_eq!(sorted_by_rank(&Vec::<EnergyProduction>::new()), vec![]);
}

#[test]
fn demands_are_ordered_largest_first_and_ties_keep_their_order() {
    let demands =
        vec![demand(1, 5, 1), demand(2, 9, 1), demand(3, 5, 2), demand(4, 0, 1), demand(5, 9, 0)];
    assert_eq!(
        sorted_by_rank(&demands),
        vec![demand(2, 9, 1), demand(5, 9, 0), demand(1, 5, 1), demand(3, 5, 2), demand(4, 0, 1)]
    );
}

#[test]
fn pruning_keeps_what_is_left_in_order() {
    assert_eq!(
        prune_productions(&vec![lot(1, 0, 1), lot(2, 3, 1), lot(3, 0, 0), lot(4, 1, 9)]),
        vec![lot(2, 3, 1), lot(4, 1, 9)]
    );
    assert_eq!(
        prune_demands(&vec![demand(1, 2, 1), demand(2, 0, 1), demand(3, 1, 0)]),
        vec![demand(1, 2, 1), demand(3, 1, 0)]
    );
}

#[test]
fn pair_clears_only_when_covered_and_within_limit() {
    let mut ps = vec![person(1, 0), person(2, 100)];
    assert_eq!(attempt_trade(&mut ps, &demand(2, 11, 5), &lot(1, 10, 5)), Ok(false));
    assert_eq!(attempt_trade(&mut ps, &demand(2, 10, 4), &lot(1, 10, 5)), Ok(false));
    assert_eq!(ps, vec![person(1, 0), person(2, 100)]);
    assert_eq!(attempt_trade(&mut ps, &demand(2, 10, 5), &lot(1, 10, 5)), Ok(true));
    assert_eq!(ps, vec![person(1, 50), person(2, 50)]);
    assert_eq!(attempt_trade(&mut ps, &demand(2, 10, 5), &lot(1, 10, 5)), Ok(true));
    assert_eq!(ps, vec![person(1, 100), person(2, 0)]);
    assert_eq!(attempt_trade(&mut ps, &demand(2, 1, 5), &lot(1, 10, 1)), Ok(false));
    assert_eq!(ps, vec![person(1, 100), person(2, 0)]);
}

#[test]
fn overflowing_product_is_refused_before_parties_are_looked_up() {
    let mut ps = vec![person(1, 0)];
    assert_eq!(
        attempt_trade(&mut ps, &demand(9, 1 << 32, u64::MAX), &lot(8, u64::MAX, 1 << 32)),
        Err(MarketError::ArithmeticOverflow)
    );
    assert_eq!(
        attempt_trade(&mut ps, &demand(9, 1 << 32, u64::MAX), &lot(8, u64::MAX, (1 << 32) - 1)),
        Err(MarketError::InvalidAccountData)
    );
}

#[test]
fn missing_party_is_refused_even_when_funds_are_short() {
    let mut ps = vec![person(1, 0)];
    assert_eq!(
        attempt_trade(&mut ps, &demand(1, 1, 1), &lot(2, 1, 1)),
        Err(MarketError::InvalidAccountData)
    );
    assert_eq!(
        attempt_trade(&mut ps, &demand(2, 1, 1), &lot(1, 1, 1)),
        Err(MarketError::InvalidAccountData)
    );
    assert_eq!(attempt_trade(&mut ps, &demand(2, 2, 1), &lot(1, 1, 1)), Ok(false));
}

#[test]
fn credit_overflow_is_refused_and_nothing_is_debited() {
    let mut ps = vec![person(1, u64::MAX - 4), person(2, 100)];
    assert_eq!(
        attempt_trade(&mut ps, &demand(2, 5, 1), &lot(1, 5, 1)),
        Err(MarketError::ArithmeticOverflow)
    );
    assert_eq!(ps, vec![person(1, u64::MAX - 4), person(2, 100)]);
    assert_eq!(attempt_trade(&mut ps, &demand(2, 4, 1), &lot(1, 5, 1)), Ok(true));
    assert_eq!(ps, vec![person(1, u64::MAX), person(2, 96)]);
}

#[test]
fn buying_from_oneself_leaves_the_wallet_as_it_was() {
    let mut ps = vec![person(1, u64::MAX)];
    assert_eq!(attempt_trade(&mut ps, &demand(1, 3, 9), &lot(1, 3, 9)), Ok(true));
    assert_eq!(ps, vec![person(1, u64::MAX)]);
    let mut book = ledger(vec![person(1, 30)], vec![lot(1, 3, 9)], vec![demand(1, 3, 9)]);
    assert_eq!(match_transactions_at(&mut book, 1), Ok(()));
    assert_eq!(book.participants, vec![person(1, 30)]);
    assert_eq!(
        book.transactions,
        vec![Transaction { from: id(1), to: id(1), amount: 3, price: 9, timestamp: 1 }]
    );
    assert!(book.productions.is_empty() && book.demands.is_empty());
}

#[test]
fn demand_takes_the_first_lot_that_clears() {
    let mut ps = vec![person(1, 0), person(2, 0), person(3, 1000)];
    let mut lots = vec![lot(1, 5, 1), lot(2, 10, 2), lot(1, 50, 3)];
    assert_eq!(
        serve_demand(&mut ps, &mut lots, &demand(3, 8, 3)),
        Ok(Some(Fill { from: id(3), to: id(2), amount: 8, price: 2 }))
    );
    assert_eq!(lots, vec![lot(1, 5, 1), lot(2, 2, 2), lot(1, 50, 3)]);
    assert_eq!(ps, vec![person(1, 0), person(2, 16), person(3, 984)]);
    assert_eq!(serve_demand(&mut ps, &mut lots, &demand(3, 0, 3)), Ok(None));
    assert_eq!(serve_demand(&mut ps, &mut lots, &demand(3, 51, 3)), Ok(None));
    assert_eq!(serve_demand(&mut ps, &mut lots, &demand(3, 50, 2)), Ok(None));
    assert_eq!(lots, vec![lot(1, 5, 1), lot(2, 2, 2), lot(1, 50, 3)]);
    assert_eq!(ps, vec![person(1, 0), person(2, 16), person(3, 984)]);
}

#[test]
fn underfunded_pair_is_skipped_and_the_scan_goes_on() {
    // The first lot clears but costs 20 * 5 = 100 > 60; the second is not
    // dearer per unit, the demand clears against it only if it can pay.
    let mut ps = vec![person(1, 0), person(2, 0), person(3, 60)];
    let mut lots = vec![lot(1, 20, 5), lot(2, 20, 5)];
    assert_eq!(serve_demand(&mut ps, &mut lots, &demand(3, 20, 9)), Ok(None));
    let mut ps = vec![person(1, 0), person(3, 60)];
    let mut lots = vec![lot(9, 1, 0), lot(1, 20, 3)];
    assert_eq!(
        serve_demand(&mut ps, &mut lots, &demand(3, 20, 9)),
        Ok(Some(Fill { from: id(3), to: id(1), amount: 20, price: 3 }))
    );
    assert_eq!(ps, vec![person(1, 60), person(3, 0)]);
}

#[test]
fn pass_serves_large_demands_first_from_cheap_lots() {
    let mut book = ledger(
        vec![person(1, 0), person(2, 0), person(3, 1000), person(4, 1000)],
        vec![lot(1, 100, 4), lot(2, 100, 2)],
        vec![demand(3, 30, 5), demand(4, 80, 5), demand(3, 10, 1)],
    );
    assert_eq!(match_transactions_at(&mut book, -7), Ok(()));
    assert_eq!(
        book.transactions,
        vec![
            Transaction { from: id(4), to: id(2), amount: 80, price: 2, timestamp: -7 },
            Transaction { from: id(3), to: id(1), amount: 30, price: 4, timestamp: -7 },
        ]
    );
    assert_eq!(
        book.participants,
        vec![person(1, 120), person(2, 160), person(3, 880), person(4, 840)]
    );
    assert_eq!(book.productions, vec![lot(2, 20, 2), lot(1, 70, 4)]);
    assert_eq!(book.demands, vec![demand(3, 10, 1)]);
}

#[test]
fn pass_orders_the_book_even_when_nothing_clears() {
    let mut book = ledger(
        vec![person(1, 0)],
        vec![lot(1, 1, 9), lot(1, 0, 5), lot(1, 2, 3)],
        vec![demand(1, 0, 9), demand(1, 5, 1), demand(1, 7, 1)],
    );
    assert_eq!(match_transactions(&mut book), Ok(()));
    assert_eq!(book.productions, vec![lot(1, 2, 3), lot(1, 1, 9)]);
    assert_eq!(book.demands, vec![demand(1, 7, 1), demand(1, 5, 1)]);
    assert!(book.transactions.is_empty());
}

#[test]
fn pass_keeps_the_total_of_all_wallets() {
    let mut book = ledger(
        vec![person(1, 5), person(2, 70), person(3, 1000), person(4, 33)],
        vec![lot(1, 100, 4), lot(2, 100, 2), lot(3, 9, 1)],
        vec![demand(3, 30, 5), demand(4, 9, 5), demand(2, 10, 3), demand(1, 1, 1)],
    );
    let before = total(&book);
    assert_eq!(match_transactions_at(&mut book, 0), Ok(()));
    assert_eq!(book.transactions.len(), 3);
    assert_eq!(total(&book), before);
    assert_eq!(
        book.participants,
        vec![person(1, 5), person(2, 130), person(3, 949), person(4, 24)]
    );
    for tx in &book.transactions {
        assert!(tx.amount > 0);
    }
    for p in &book.productions {
        assert!(p.energy_amount > 0);
    }
    for d in &book.demands {
        assert!(d.energy_amount > 0);
    }
}

#[test]
fn second_pass_right_after_the_first_clears_nothing() {
    let mut book = ledger(
        vec![person(1, 0), person(2, 0), person(3, 1000), person(4, 10)],
        vec![lot(1, 100, 4), lot(2, 100, 2)],
        vec![demand(3, 30, 5), demand(4, 80, 5), demand(3, 10, 1)],
    );
    assert_eq!(match_transactions_at(&mut book, 1), Ok(()));
    assert_eq!(book.transactions.len(), 1);
    assert_eq!(book.demands, vec![demand(4, 80, 5), demand(3, 10, 1)]);
    let after_first = book.clone();
    assert_eq!(match_transactions_at(&mut book, 2), Ok(()));
    assert_eq!(book, after_first);
    assert_eq!(match_transactions(&mut book), Ok(()));
    assert_eq!(book, after_first);
}

#[test]
fn seller_with_an_open_demand_may_clear_in_a_second_pass() {
    // Party 1 wants 50 at 6 per unit but holds 250 of the 300 it costs. In
    // the first pass it sells 10 at 5 to party 2 and can pay in the second.
    let mut book = ledger(
        vec![person(1, 250), person(2, 1000), person(3, 0)],
        vec![lot(1, 10, 5), lot(3, 50, 6)],
        vec![demand(1, 50, 6), demand(2, 10, 5)],
    );
    assert_eq!(match_transactions_at(&mut book, 1), Ok(()));
    assert_eq!(
        book.transactions,
        vec![Transaction { from: id(2), to: id(1), amount: 10, price: 5, timestamp: 1 }]
    );
    assert_eq!(book.participants, vec![person(1, 300), person(2, 950), person(3, 0)]);
    assert_eq!(book.demands, vec![demand(1, 50, 6)]);
    assert_eq!(match_transactions_at(&mut book, 2), Ok(()));
    assert_eq!(book.transactions.len(), 2);
    assert_eq!(
        book.transactions[1],
        Transaction { from: id(1), to: id(3), amount: 50, price: 6, timestamp: 2 }
    );
    assert_eq!(book.participants, vec![person(1, 0), person(2, 950), person(3, 300)]);
    assert!(book.demands.is_empty() && book.productions.is_empty());
}

#[test]
fn lot_of_an_unregistered_producer_fails_the_pass() {
    let mut book = ledger(vec![person(2, 100)], vec![lot(1, 10, 1)], vec![demand(2, 10, 1)]);
    let before = book.clone();
    assert_eq!(match_transactions_at(&mut book, 0), Err(MarketError::InvalidAccountData));
    assert_eq!(book, before);
    assert_eq!(match_transactions(&mut book), Err(MarketError::InvalidAccountData));
    assert_eq!(book, before);
    assert_eq!(clear_book(&book), Err(MarketError::InvalidAccountData));
}

#[test]
fn credit_overflow_fails_the_pass() {
    let mut book =
        ledger(vec![person(1, u64::MAX), person(2, 100)], vec![lot(1, 10, 1)], vec![demand(2, 10, 1)]);
    let before = book.clone();
    assert_eq!(match_transactions_at(&mut book, 0), Err(MarketError::ArithmeticOverflow));
    assert_eq!(book, before);
}

#[test]
fn clearing_is_computed_without_touching_the_ledger() {
    let book = ledger(
        vec![person(1, 0), person(2, 100)],
        vec![lot(1, 10, 3), lot(1, 0, 1)],
        vec![demand(2, 4, 3)],
    );
    let before = book.clone();
    let clearing = clear_book(&book).unwrap();
    assert_eq!(book, before);
    assert_eq!(
        clearing,
        Clearing {
            participants: vec![person(1, 12), person(2, 88)],
            productions: vec![lot(1, 6, 3)],
            demands: vec![],
            fills: vec![Fill { from: id(2), to: id(1), amount: 4, price: 3 }],
        }
    );
    let mut book = book;
    record_clearing(&mut book, clearing, 99);
    assert_eq!(
        book.transactions,
        vec![Transaction { from: id(2), to: id(1), amount: 4, price: 3, timestamp: 99 }]
    );
    assert_eq!(book.participants, vec![person(1, 12), person(2, 88)]);
    assert_eq!(book.productions, vec![lot(1, 6, 3)]);
}

#[test]
fn recording_appends_behind_the_earlier_trades() {
    let earlier = Transaction { from: id(7), to: id(8), amount: 1, price: 1, timestamp: 5 };
    let mut book = ledger(vec![person(1, 0), person(2, 9)], vec![lot(1, 3, 3)], vec![demand(2, 3, 3)]);
    book.transactions.push(earlier);
    assert_eq!(match_transactions_at(&mut book, i64::MIN), Ok(()));
    assert_eq!(
        book.transactions,
        vec![
            earlier,
            Transaction { from: id(2), to: id(1), amount: 3, price: 3, timestamp: i64::MIN },
        ]
    );
}

#[test]
fn cleared_pair_without_a_clock_reading_is_refused() {
    let mut book = ledger(vec![person(1, 0), person(2, 9)], vec![lot(1, 3, 3)], vec![demand(2, 3, 3)]);
    let before = book.clone();
    let clearing = clear_book(&book).unwrap();
    assert_eq!(
        record_with_reading(&mut book, clearing.clone(), None),
        Err(MarketError::ClockUnavailable)
    );
    assert_eq!(book, before);
    assert_eq!(record_with_reading(&mut book, clearing, Some(12)), Ok(()));
    assert_eq!(book.transactions[0].timestamp, 12);
    assert_eq!(book.participants, vec![person(1, 9), person(2, 0)]);
}

#[test]
fn idle_pass_needs_no_clock_reading() {
    let mut book = ledger(vec![person(1, 0), person(2, 8)], vec![lot(1, 3, 3)], vec![demand(2, 3, 3)]);
    let before = book.clone();
    let clearing = clear_book(&book).unwrap();
    assert!(clearing.fills.is_empty());
    assert_eq!(record_with_reading(&mut book, clearing, None), Ok(()));
    assert_eq!(book, before);
}

#[test]
fn pass_with_host_clock_is_all_or_nothing() {
    let mut book = ledger(vec![person(1, 0), person(2, 9)], vec![lot(1, 3, 3)], vec![demand(2, 3, 3)]);
    let before = book.clone();
    match match_transactions(&mut book) {
        Ok(()) => {
            assert_eq!(book.transactions.len(), 1);
            let tx = book.transactions[0];
            assert_eq!((tx.from, tx.to, tx.amount, tx.price), (id(2), id(1), 3, 3));
            assert_eq!(book.participants, vec![person(1, 9), person(2, 0)]);
            assert!(book.productions.is_empty() && book.demands.is_empty());
        }
        Err(e) => {
            assert_eq!(e, MarketError::ClockUnavailable);
            assert_eq!(book, before);
        }
    }
}
