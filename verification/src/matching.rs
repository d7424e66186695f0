use vstd::prelude::*;
use crate::book::{open_demands, open_lots, prune_demands, prune_productions};
use crate::clock::host_unix_timestamp;
use crate::identity::Identity;
use crate::laws::{pass_is_sound, recorded_pass_is_sound, settled_pass_is_sound};
use crate::model::{
    EnergyDemand, EnergyProduction, Ledger, LedgerState, MarketError, Participant, Transaction,
};
use crate::ordering::{sorted_by_rank, stable_sort};
use crate::registry::{find_participant, position_of, with_balance};

verus! {

/// A pair that cleared, before the time of clearing is put on it.
#[derive(Clone, Copy, Debug, PartialEq, Eq)]
pub struct Fill {
    pub from: Identity,
    pub to: Identity,
    pub amount: u64,
    pub price: u64,
}

/// The outcome of one clearing pass, not yet written to the ledger.
#[derive(Clone, Debug, PartialEq, Eq)]
pub struct Clearing {
    pub participants: Vec<Participant>,
    pub productions: Vec<EnergyProduction>,
    pub demands: Vec<EnergyDemand>,
    pub fills: Vec<Fill>,
}

/// The mathematical content of a [`Clearing`].
pub struct ClearingState {
    pub participants: Seq<Participant>,
    pub productions: Seq<EnergyProduction>,
    pub demands: Seq<EnergyDemand>,
    pub fills: Seq<Fill>,
}

impl View for Clearing {
    type V = ClearingState;

    open spec fn view(&self) -> ClearingState {
        ClearingState {
            participants: self.participants@,
            productions: self.productions@,
            demands: self.demands@,
            fills: self.fills@,
        }
    }
}

/// The lot covers the whole demand and asks no more than the demand allows.
pub open spec fn clears(d: EnergyDemand, p: EnergyProduction) -> bool {
    d.energy_amount <= p.energy_amount && d.price_limit >= p.price
}

/// What the whole of `d` costs when it is bought from `p`.
pub open spec fn cost_of(d: EnergyDemand, p: EnergyProduction) -> int {
    d.energy_amount * p.price
}

/// What comes of holding one demand against one lot.
pub enum Attempt {
    /// The pair does not clear, or the consumer cannot pay: nothing changes.
    Skip,
    /// The pass as a whole is refused.
    Fail(MarketError),
    /// The pair clears; these are the wallets afterwards.
    Trade(Seq<Participant>),
}

/// Holds demand `d`, which still wants energy, against lot `p`.
///
/// The product is checked first, then both parties are looked up, then the
/// consumer's funds; the consumer is debited before the producer is credited.
pub open spec fn attempt(ps: Seq<Participant>, d: EnergyDemand, p: EnergyProduction) -> Attempt {
    if !clears(d, p) {
        Attempt::Skip
    } else if cost_of(d, p) > u64::MAX {
        Attempt::Fail(MarketError::ArithmeticOverflow)
    } else {
        match (position_of(ps, d.consumer_id), position_of(ps, p.producer_id)) {
            (Some(c), Some(q)) => if ps[c].wallet_balance < cost_of(d, p) {
                Attempt::Skip
            } else {
                let debited = with_balance(ps, c, ps[c].wallet_balance - cost_of(d, p));
                if debited[q].wallet_balance + cost_of(d, p) > u64::MAX {
                    Attempt::Fail(MarketError::ArithmeticOverflow)
                } else {
                    Attempt::Trade(
                        with_balance(debited, q, debited[q].wallet_balance + cost_of(d, p)),
                    )
                }
            },
            _ => Attempt::Fail(MarketError::InvalidAccountData),
        }
    }
}

/// What serving one demand leaves behind.
pub struct Served {
    pub participants: Seq<Participant>,
    pub productions: Seq<EnergyProduction>,
    pub fill: Option<Fill>,
}

/// The lot `p` after the whole of `d` was taken from it.
pub open spec fn lot_after(p: EnergyProduction, d: EnergyDemand) -> EnergyProduction {
    EnergyProduction {
        producer_id: p.producer_id,
        energy_amount: (p.energy_amount - d.energy_amount) as u64,
        price: p.price,
    }
}

/// The record of `d` clearing against `p`.
pub open spec fn fill_of(d: EnergyDemand, p: EnergyProduction) -> Fill {
    Fill { from: d.consumer_id, to: p.producer_id, amount: d.energy_amount, price: p.price }
}

/// The demand `d` once it is satisfied.
pub open spec fn satisfied(d: EnergyDemand) -> EnergyDemand {
    EnergyDemand { consumer_id: d.consumer_id, energy_amount: 0, price_limit: d.price_limit }
}

/// Serves demand `d` from the lots at place `j` and after, in order: the
/// first lot that clears and that the consumer can pay for takes it all.
pub open spec fn serve(
    ps: Seq<Participant>,
    lots: Seq<EnergyProduction>,
    d: EnergyDemand,
    j: int,
) -> Result<Served, MarketError>
    decreases lots.len() - j,
{
    if j < 0 || j >= lots.len() || d.energy_amount == 0 {
        Ok(Served { participants: ps, productions: lots, fill: None })
    } else {
        match attempt(ps, d, lots[j]) {
            Attempt::Skip => serve(ps, lots, d, j + 1),
            Attempt::Fail(e) => Err(e),
            Attempt::Trade(paid) => Ok(
                Served {
                    participants: paid,
                    productions: lots.update(j, lot_after(lots[j], d)),
                    fill: Some(fill_of(d, lots[j])),
                },
            ),
        }
    }
}

/// Serves the demand at place `i` of `c`.
pub open spec fn step(c: ClearingState, i: int) -> Result<ClearingState, MarketError> {
    match serve(c.participants, c.productions, c.demands[i], 0) {
        Err(e) => Err(e),
        Ok(served) => Ok(
            ClearingState {
                participants: served.participants,
                productions: served.productions,
                demands: match served.fill {
                    Some(_) => c.demands.update(i, satisfied(c.demands[i])),
                    None => c.demands,
                },
                fills: match served.fill {
                    Some(f) => c.fills.push(f),
                    None => c.fills,
                },
            },
        ),
    }
}

/// Serves the demands at place `i` and after, in order.
pub open spec fn walk(c: ClearingState, i: int) -> Result<ClearingState, MarketError>
    decreases c.demands.len() - i,
{
    if i < 0 || i >= c.demands.len() {
        Ok(c)
    } else {
        match step(c, i) {
            Err(e) => Err(e),
            Ok(next) => if next.demands.len() == c.demands.len() {
                walk(next, i + 1)
            } else {
                Ok(next)
            },
        }
    }
}

/// The book as a pass finds it: lots cheapest first, demands largest first,
/// ties in the order of entry, and no pair cleared yet.
pub open spec fn opening(s: LedgerState) -> ClearingState {
    ClearingState {
        participants: s.participants,
        productions: stable_sort(s.productions),
        demands: stable_sort(s.demands),
        fills: Seq::empty(),
    }
}

/// One clearing pass over `s`: order the book, serve every demand, then drop
/// the lots and demands that have nothing left.
pub open spec fn cleared(s: LedgerState) -> Result<ClearingState, MarketError> {
    match walk(opening(s), 0) {
        Err(e) => Err(e),
        Ok(c) => Ok(
            ClearingState {
                participants: c.participants,
                productions: open_lots(c.productions),
                demands: open_demands(c.demands),
                fills: c.fills,
            },
        ),
    }
}

/// The trade that is logged for `f` when it clears at time `t`.
pub open spec fn stamped(f: Fill, t: i64) -> Transaction {
    Transaction { from: f.from, to: f.to, amount: f.amount, price: f.price, timestamp: t }
}

/// The trades that are logged for `fills` when they clear at time `t`.
pub open spec fn stamp_all(fills: Seq<Fill>, t: i64) -> Seq<Transaction> {
    Seq::new(fills.len(), |k: int| stamped(fills[k], t))
}

/// The ledger `s` once the outcome `c` of a pass at time `t` is written to it.
pub open spec fn recorded(s: LedgerState, c: ClearingState, t: i64) -> LedgerState {
    LedgerState {
        participants: c.participants,
        productions: c.productions,
        demands: c.demands,
        transactions: s.transactions + stamp_all(c.fills, t),
    }
}

/// One clearing pass over `s` at time `t`.
pub open spec fn settled_at(s: LedgerState, t: i64) -> Result<LedgerState, MarketError> {
    match cleared(s) {
        Err(e) => Err(e),
        Ok(c) => Ok(recorded(s, c, t)),
    }
}

/// Holds one demand that still wants energy against one lot and, where the
/// pair clears and the consumer can pay, moves the money.
pub fn attempt_trade(
    participants: &mut Vec<Participant>,
    d: &EnergyDemand,
    p: &EnergyProduction,
) -> (res: Result<bool, MarketError>)
    ensures
        match attempt(old(participants)@, *d, *p) {
            Attempt::Skip => res == Ok::<bool, MarketError>(false) && final(participants)@ == old(participants)@,
            Attempt::Fail(e) => res == Err::<bool, MarketError>(e) && final(participants)@ == old(participants)@,
            Attempt::Trade(paid) => res == Ok::<bool, MarketError>(true) && final(participants)@
                == paid,
        },
{
    if !(d.energy_amount <= p.energy_amount && d.price_limit >= p.price) {
        return Ok(false);
    }
    let cost = match d.energy_amount.checked_mul(p.price) {
        None => {
            return Err(MarketError::ArithmeticOverflow);
        },
        Some(cost) => cost,
    };
    let payer_at = find_participant(participants, &d.consumer_id);
    let payee_at = find_participant(participants, &p.producer_id);
    match (payer_at, payee_at) {
        (Some(c), Some(q)) => {
            let payer = participants[c];
            if payer.wallet_balance < cost {
                return Ok(false);
            }
            if c == q {
                proof {
                    let ps = participants@;
                    let debited = with_balance(ps, c as int, ps[c as int].wallet_balance - cost);
                    assert(with_balance(debited, q as int, debited[q as int].wallet_balance + cost)
                        =~= ps);
                }
                return Ok(true);
            }
            let payee = participants[q];
            let credited = match payee.wallet_balance.checked_add(cost) {
                None => {
                    return Err(MarketError::ArithmeticOverflow);
                },
                Some(credited) => credited,
            };
            participants.set(
                c,
                Participant {
                    id: payer.id,
                    participant_type: payer.participant_type,
                    wallet_balance: payer.wallet_balance - cost,
                },
            );
            participants.set(
                q,
                Participant {
                    id: payee.id,
                    participant_type: payee.participant_type,
                    wallet_balance: credited,
                },
            );
            Ok(true)
        },
        _ => Err(MarketError::InvalidAccountData),
    }
}

/// Serves one demand from the lots, in their order.
pub fn serve_demand(
    participants: &mut Vec<Participant>,
    lots: &mut Vec<EnergyProduction>,
    d: &EnergyDemand,
) -> (res: Result<Option<Fill>, MarketError>)
    ensures
        match serve(old(participants)@, old(lots)@, *d, 0) {
            Err(e) => res == Err::<Option<Fill>, MarketError>(e) && final(participants)@ == old(participants)@ && final(lots)@ == old(lots)@,
            Ok(served) => res == Ok::<Option<Fill>, MarketError>(served.fill) && final(participants)@ == served.participants && final(lots)@ == served.productions,
        },
{
    if d.energy_amount == 0 {
        return Ok(None);
    }
    let ghost ps0 = participants@;
    let ghost lots0 = lots@;
    let mut j: usize = 0;
    while j < lots.len()
        invariant
            j <= lots.len(),
            ps0 == old(participants)@,
            lots0 == old(lots)@,
            participants@ == ps0,
            lots@ == lots0,
            d.energy_amount != 0,
            serve(ps0, lots0, *d, j as int) == serve(ps0, lots0, *d, 0),
        decreases lots.len() - j,
    {
        let lot = lots[j];
        match attempt_trade(participants, d, &lot) {
            Err(e) => {
                return Err(e);
            },
            Ok(false) => {},
            Ok(true) => {
                lots.set(
                    j,
                    EnergyProduction {
                        producer_id: lot.producer_id,
                        energy_amount: lot.energy_amount - d.energy_amount,
                        price: lot.price,
                    },
                );
                return Ok(
                    Some(
                        Fill {
                            from: d.consumer_id,
                            to: lot.producer_id,
                            amount: d.energy_amount,
                            price: lot.price,
                        },
                    ),
                );
            },
        }
        j += 1;
    }
    Ok(None)
}

/// Copies the wallets, so that a pass can work without touching the ledger.
fn copy_of(participants: &Vec<Participant>) -> (copy: Vec<Participant>)
    ensures
        copy@ == participants@,
{
    let mut copy: Vec<Participant> = Vec::new();
    let mut i: usize = 0;
    while i < participants.len()
        invariant
            i <= participants.len(),
            copy@ == participants@.take(i as int),
        decreases participants.len() - i,
    {
        copy.push(participants[i]);
        assert(participants@.take(i + 1) =~= participants@.take(i as int).push(participants@[i as int]));
        i += 1;
    }
    assert(participants@.take(i as int) =~= participants@);
    copy
}

/// Runs one clearing pass over the book of `ledger` and returns its outcome.
/// The ledger itself is not changed.
pub fn clear_book(ledger: &Ledger) -> (res: Result<Clearing, MarketError>)
    ensures
        match cleared(ledger@) {
            Ok(c) => res.is_ok() && res.unwrap()@ == c,
            Err(e) => res.is_err() && res.unwrap_err() == e,
        },
{
    let mut participants = copy_of(&ledger.participants);
    let mut lots = sorted_by_rank(&ledger.productions);
    let mut demands = sorted_by_rank(&ledger.demands);
    let mut fills: Vec<Fill> = Vec::new();
    let ghost start = opening(ledger@);
    let mut i: usize = 0;
    while i < demands.len()
        invariant
            i <= demands.len(),
            start == opening(ledger@),
            walk(
                ClearingState {
                    participants: participants@,
                    productions: lots@,
                    demands: demands@,
                    fills: fills@,
                },
                i as int,
            ) == walk(start, 0),
        decreases demands.len() - i,
    {
        let d = demands[i];
        match serve_demand(&mut participants, &mut lots, &d) {
            Err(e) => {
                return Err(e);
            },
            Ok(None) => {},
            Ok(Some(fill)) => {
                demands.set(
                    i,
                    EnergyDemand {
                        consumer_id: d.consumer_id,
                        energy_amount: 0,
                        price_limit: d.price_limit,
                    },
                );
                fills.push(fill);
            },
        }
        i += 1;
    }
    let productions = prune_productions(&lots);
    let demands = prune_demands(&demands);
    Ok(Clearing { participants, productions, demands, fills })
}

/// Writes the outcome of a pass over `ledger` to it, every fill logged with
/// the time `timestamp`.
pub fn record_clearing(ledger: &mut Ledger, clearing: Clearing, timestamp: i64)
    ensures
        final(ledger)@ == recorded(old(ledger)@, clearing@, timestamp),
{
    let ghost before = ledger.transactions@;
    let mut k: usize = 0;
    while k < clearing.fills.len()
        invariant
            k <= clearing.fills.len(),
            ledger.transactions@ == before + stamp_all(clearing.fills@.take(k as int), timestamp),
        decreases clearing.fills.len() - k,
    {
        let f = clearing.fills[k];
        ledger.transactions.push(
            Transaction {
                from: f.from,
                to: f.to,
                amount: f.amount,
                price: f.price,
                timestamp,
            },
        );
        assert(before + stamp_all(clearing.fills@.take(k + 1), timestamp) =~= (before + stamp_all(
            clearing.fills@.take(k as int),
            timestamp,
        )).push(stamped(f, timestamp)));
        k += 1;
    }
    assert(clearing.fills@.take(k as int) =~= clearing.fills@);
    ledger.participants = clearing.participants;
    ledger.productions = clearing.productions;
    ledger.demands = clearing.demands;
}

/// Runs one clearing pass at the time `timestamp`. Either the whole pass is
/// written to the ledger, or the ledger stays as it was.
pub fn match_transactions_at(ledger: &mut Ledger, timestamp: i64) -> (res: Result<
    (),
    MarketError,
>)
    ensures
        match settled_at(old(ledger)@, timestamp) {
            Ok(next) => res.is_ok() && final(ledger)@ == next,
            Err(e) => res == Err::<(), MarketError>(e) && final(ledger)@ == old(ledger)@,
        },
        res.is_ok() ==> pass_is_sound(old(ledger)@, final(ledger)@),
{
    match clear_book(ledger) {
        Err(e) => Err(e),
        Ok(clearing) => {
            proof {
                recorded_pass_is_sound(ledger@, timestamp);
            }
            record_clearing(ledger, clearing, timestamp);
            Ok(())
        },
    }
}

/// What a pass that reads the time from the host may leave behind.
///
/// Where no pair clears the host is not asked, and the outcome is fixed by the
/// ledger alone. Where a pair clears, either the host told some time `t` and
/// the pass is written with it, or it told none and the pass is refused.
pub open spec fn settles(s: LedgerState, res: Result<(), MarketError>, next: LedgerState) -> bool {
    match cleared(s) {
        Err(e) => res == Err::<(), MarketError>(e) && next == s,
        Ok(c) => if c.fills.len() == 0 {
            res.is_ok() && next == recorded(s, c, 0)
        } else {
            match res {
                Ok(_) => exists|t: i64| next == #[trigger] recorded(s, c, t),
                Err(e) => e == MarketError::ClockUnavailable && next == s,
            }
        },
    }
}

/// Writes the outcome of a pass to the ledger, given what the host's clock
/// answered. The reading is only looked at where a pair cleared.
pub fn record_with_reading(ledger: &mut Ledger, clearing: Clearing, reading: Option<i64>) -> (res:
    Result<(), MarketError>)
    ensures
        match reading {
            Some(t) => res.is_ok() && final(ledger)@ == recorded(old(ledger)@, clearing@, t),
            None => if clearing@.fills.len() == 0 {
                res.is_ok() && final(ledger)@ == recorded(old(ledger)@, clearing@, 0)
            } else {
                res == Err::<(), MarketError>(MarketError::ClockUnavailable) && final(ledger)@
                    == old(ledger)@
            },
        },
{
    match reading {
        Some(t) => {
            record_clearing(ledger, clearing, t);
            Ok(())
        },
        None => {
            if clearing.fills.len() == 0 {
                record_clearing(ledger, clearing, 0);
                Ok(())
            } else {
                Err(MarketError::ClockUnavailable)
            }
        },
    }
}

/// Runs one clearing pass, at the time that the host's clock shows. The
/// clock is read once, and only if a pair cleared. Either the whole pass is
/// written to the ledger, or the ledger stays as it was.
pub fn match_transactions(ledger: &mut Ledger) -> (res: Result<(), MarketError>)
    ensures
        settles(old(ledger)@, res, final(ledger)@),
        res.is_ok() ==> pass_is_sound(old(ledger)@, final(ledger)@),
{
    let ghost before = ledger@;
    match clear_book(ledger) {
        Err(e) => Err(e),
        Ok(clearing) => {
            let reading = if clearing.fills.len() == 0 {
                None
            } else {
                match host_unix_timestamp() {
                    Ok(t) => Some(t),
                    Err(_) => None,
                }
            };
            let res = record_with_reading(ledger, clearing, reading);
            proof {
                if res.is_ok() {
                    settled_pass_is_sound(before, res, ledger@);
                }
            }
            res
        },
    }
}

} // verus!
