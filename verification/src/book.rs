use vstd::prelude::*;
use crate::identity::Identity;
use crate::model::{EnergyDemand, EnergyProduction, Ledger, LedgerState, MarketError};
use crate::ordering::Ranked;
use crate::registry::{find_participant, position_of};

verus! {

/// Lots are served cheapest first.
impl Ranked for EnergyProduction {
    open spec fn rank(&self) -> int {
        self.price as int
    }

    fn served_after(&self, other: &EnergyProduction) -> (later: bool) {
        self.price > other.price
    }
}

/// Demands are served largest first.
impl Ranked for EnergyDemand {
    open spec fn rank(&self) -> int {
        -(self.energy_amount as int)
    }

    fn served_after(&self, other: &EnergyDemand) -> (later: bool) {
        self.energy_amount < other.energy_amount
    }
}

/// A lot that still has energy to sell.
pub open spec fn lot_is_open(p: EnergyProduction) -> bool {
    p.energy_amount > 0
}

/// A demand that still wants energy.
pub open spec fn demand_is_open(d: EnergyDemand) -> bool {
    d.energy_amount > 0
}

/// The lots of `s` that still have energy to sell, in their order.
pub open spec fn open_lots(s: Seq<EnergyProduction>) -> Seq<EnergyProduction> {
    s.filter(|p: EnergyProduction| lot_is_open(p))
}

/// The demands of `s` that still want energy, in their order.
pub open spec fn open_demands(s: Seq<EnergyDemand>) -> Seq<EnergyDemand> {
    s.filter(|d: EnergyDemand| demand_is_open(d))
}

/// What the ledger holds once `producer` has offered `energy_amount` at `price`.
pub open spec fn after_production(
    s: LedgerState,
    producer: Identity,
    energy_amount: u64,
    price: u64,
) -> Result<LedgerState, MarketError> {
    if position_of(s.participants, producer).is_none() {
        Err(MarketError::UnknownParticipant)
    } else {
        Ok(
            LedgerState {
                participants: s.participants,
                productions: s.productions.push(
                    EnergyProduction { producer_id: producer, energy_amount, price },
                ),
                demands: s.demands,
                transactions: s.transactions,
            },
        )
    }
}

/// What the ledger holds once `consumer` has asked for `energy_amount` at up to `price_limit`.
pub open spec fn after_demand(
    s: LedgerState,
    consumer: Identity,
    energy_amount: u64,
    price_limit: u64,
) -> Result<LedgerState, MarketError> {
    if position_of(s.participants, consumer).is_none() {
        Err(MarketError::UnknownParticipant)
    } else {
        Ok(
            LedgerState {
                participants: s.participants,
                productions: s.productions,
                demands: s.demands.push(
                    EnergyDemand { consumer_id: consumer, energy_amount, price_limit },
                ),
                transactions: s.transactions,
            },
        )
    }
}

/// Puts a lot of `energy_amount` at `price` on the book for a registered
/// producer. Amount and price are taken as they are, zero included.
pub fn report_energy_production(
    ledger: &mut Ledger,
    producer: &Identity,
    energy_amount: u64,
    price: u64,
) -> (res: Result<(), MarketError>)
    ensures
        match after_production(old(ledger)@, *producer, energy_amount, price) {
            Ok(next) => res.is_ok() && final(ledger)@ == next,
            Err(e) => res == Err::<(), MarketError>(e) && final(ledger)@ == old(ledger)@,
        },
{
    if find_participant(&ledger.participants, producer).is_none() {
        return Err(MarketError::UnknownParticipant);
    }
    ledger.productions.push(EnergyProduction { producer_id: *producer, energy_amount, price });
    Ok(())
}

/// Puts a demand for `energy_amount` at up to `price_limit` on the book for a
/// registered consumer. Amount and limit are taken as they are, zero included.
pub fn post_energy_demand(
    ledger: &mut Ledger,
    consumer: &Identity,
    energy_amount: u64,
    price_limit: u64,
) -> (res: Result<(), MarketError>)
    ensures
        match after_demand(old(ledger)@, *consumer, energy_amount, price_limit) {
            Ok(next) => res.is_ok() && final(ledger)@ == next,
            Err(e) => res == Err::<(), MarketError>(e) && final(ledger)@ == old(ledger)@,
        },
{
    if find_participant(&ledger.participants, consumer).is_none() {
        return Err(MarketError::UnknownParticipant);
    }
    ledger.demands.push(EnergyDemand { consumer_id: *consumer, energy_amount, price_limit });
    Ok(())
}

/// Keeps the lots that still have energy to sell.
pub fn prune_productions(lots: &Vec<EnergyProduction>) -> (kept: Vec<EnergyProduction>)
    ensures
        kept@ == open_lots(lots@),
{
    let mut kept: Vec<EnergyProduction> = Vec::new();
    let mut i: usize = 0;
    let ghost pred = |p: EnergyProduction| lot_is_open(p);
    proof {
        reveal(Seq::filter);
    }
    while i < lots.len()
        invariant
            i <= lots.len(),
            pred == (|p: EnergyProduction| lot_is_open(p)),
            kept@ == lots@.take(i as int).filter(pred),
        decreases lots.len() - i,
    {
        proof {
            reveal(Seq::filter);
            assert(lots@.take(i + 1).drop_last() =~= lots@.take(i as int));
        }
        if lots[i].energy_amount > 0 {
            kept.push(lots[i]);
        }
        i += 1;
    }
    proof {
        assert(lots@.take(i as int) =~= lots@);
    }
    kept
}

/// Keeps the demands that still want energy.
pub fn prune_demands(demands: &Vec<EnergyDemand>) -> (kept: Vec<EnergyDemand>)
    ensures
        kept@ == open_demands(demands@),
{
    let mut kept: Vec<EnergyDemand> = Vec::new();
    let mut i: usize = 0;
    let ghost pred = |d: EnergyDemand| demand_is_open(d);
    proof {
        reveal(Seq::filter);
    }
    while i < demands.len()
        invariant
            i <= demands.len(),
            pred == (|d: EnergyDemand| demand_is_open(d)),
            kept@ == demands@.take(i as int).filter(pred),
        decreases demands.len() - i,
    {
        proof {
            reveal(Seq::filter);
            assert(demands@.take(i + 1).drop_last() =~= demands@.take(i as int));
        }
        if demands[i].energy_amount > 0 {
            kept.push(demands[i]);
        }
        i += 1;
    }
    proof {
        assert(demands@.take(i as int) =~= demands@);
    }
    kept
}

} // verus!
