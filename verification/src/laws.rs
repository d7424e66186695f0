use vstd::prelude::*;
use crate::book::{demand_is_open, lot_is_open};
use crate::identity::Identity;
use crate::instruction::applies;
use crate::matching::{
    attempt, cleared, clears, cost_of, fill_of, lot_after, opening, recorded, satisfied, serve,
    settles, stamp_all, step, walk, Attempt, ClearingState, Fill, Served,
};
use crate::model::{
    EnergyDemand, EnergyMarketInstruction, EnergyProduction, LedgerState, MarketError,
    Participant, Transaction,
};
use crate::ordering::{sort_rearranges, stable_sort};
use crate::registry::{
    is_first_match, lemma_first_match_is_position, lemma_position_is_first_match, position_of,
    registered, with_balance,
};

verus! {

/// All the money in the wallets of `ps`.
pub open spec fn total_balance(ps: Seq<Participant>) -> int
    decreases ps.len(),
{
    if ps.len() == 0 {
        0
    } else {
        total_balance(ps.drop_last()) + ps.last().wallet_balance
    }
}

/// The same people stand in the same places of `a` and `b`; only wallets may differ.
pub open spec fn same_people(a: Seq<Participant>, b: Seq<Participant>) -> bool {
    &&& a.len() == b.len()
    &&& forall|k: int|
        0 <= k < a.len() ==> (#[trigger] a[k]).id == b[k].id && a[k].participant_type
            == b[k].participant_type
}

/// `f` records the whole of demand `d` clearing against lot `p`: the lot
/// covered the demand, and its price was within the demand's limit.
pub open spec fn fill_matches(f: Fill, d: EnergyDemand, p: EnergyProduction) -> bool {
    &&& f.from == d.consumer_id
    &&& f.to == p.producer_id
    &&& f.amount == d.energy_amount
    &&& f.price == p.price
    &&& 0 < f.amount <= p.energy_amount
    &&& f.price <= d.price_limit
    &&& f.amount * f.price <= u64::MAX
}

/// `f` records a demand of `demands` clearing against a lot of `lots`.
pub open spec fn fill_is_backed(
    f: Fill,
    demands: Seq<EnergyDemand>,
    lots: Seq<EnergyProduction>,
) -> bool {
    exists|i: int, j: int|
        0 <= i < demands.len() && 0 <= j < lots.len() && fill_matches(
            f,
            #[trigger] demands[i],
            #[trigger] lots[j],
        )
}

/// Changing one wallet changes the total by as much.
pub proof fn lemma_total_after_update(ps: Seq<Participant>, i: int, balance: int)
    requires
        0 <= i < ps.len(),
        0 <= balance <= u64::MAX,
    ensures
        total_balance(with_balance(ps, i, balance)) == total_balance(ps) - ps[i].wallet_balance
            + balance,
    decreases ps.len(),
{
    let next = with_balance(ps, i, balance);
    if i == ps.len() - 1 {
        assert(next.drop_last() =~= ps.drop_last());
    } else {
        lemma_total_after_update(ps.drop_last(), i, balance);
        assert(next.drop_last() =~= with_balance(ps.drop_last(), i, balance));
    }
}

/// Who is registered depends on the people alone, not on their wallets.
pub proof fn lemma_same_people_same_positions(a: Seq<Participant>, b: Seq<Participant>, id: Identity)
    requires
        same_people(a, b),
    ensures
        registered(a, id) == registered(b, id),
        position_of(a, id) == position_of(b, id),
{
    if registered(a, id) {
        let w = choose|i: int| 0 <= i < a.len() && (#[trigger] a[i]).id == id;
        assert(b[w].id == id);
    }
    if registered(b, id) {
        let w = choose|i: int| 0 <= i < b.len() && (#[trigger] b[i]).id == id;
        assert(a[w].id == id);
    }
    assert forall|i: int| is_first_match(a, id, i) == is_first_match(b, id, i) by {
        if is_first_match(a, id, i) {
            assert(b[i].id == id);
            assert forall|j: int| 0 <= j < i implies (#[trigger] b[j]).id != id by {
                assert(a[j].id != id);
            }
        }
        if is_first_match(b, id, i) {
            assert(a[i].id == id);
            assert forall|j: int| 0 <= j < i implies (#[trigger] a[j]).id != id by {
                assert(b[j].id != id);
            }
        }
    }
    if registered(a, id) {
        lemma_position_is_first_match(a, id);
        let i = position_of(a, id).unwrap();
        assert(is_first_match(b, id, i));
        lemma_first_match_is_position(b, id, i);
    }
}

/// What a cleared pair does to the wallets: the consumer pays exactly the
/// cost, the producer receives exactly the cost, nobody else is touched, and
/// nobody's wallet goes below zero. Where consumer and producer are one and
/// the same record, the two legs cancel.
pub proof fn trade_moves_exactly_the_cost(ps: Seq<Participant>, d: EnergyDemand, p: EnergyProduction)
    requires
        attempt(ps, d, p) is Trade,
    ensures
        clears(d, p),
        0 <= cost_of(d, p) <= u64::MAX,
        registered(ps, d.consumer_id),
        registered(ps, p.producer_id),
        ({
            let paid = attempt(ps, d, p)->Trade_0;
            let c = position_of(ps, d.consumer_id).unwrap();
            let q = position_of(ps, p.producer_id).unwrap();
            &&& is_first_match(ps, d.consumer_id, c)
            &&& is_first_match(ps, p.producer_id, q)
            &&& same_people(paid, ps)
            &&& ps[c].wallet_balance >= cost_of(d, p)
            &&& c != q ==> paid[c].wallet_balance == ps[c].wallet_balance - cost_of(d, p)
            &&& c != q ==> paid[q].wallet_balance == ps[q].wallet_balance + cost_of(d, p)
            &&& c == q ==> paid == ps
            &&& forall|k: int| 0 <= k < ps.len() && k != c && k != q ==> paid[k] == ps[k]
            &&& total_balance(paid) == total_balance(ps)
        }),
{
    let cost = cost_of(d, p);
    assert(0 <= cost) by (nonlinear_arith)
        requires
            cost == d.energy_amount * p.price,
    ;
    lemma_position_is_first_match(ps, d.consumer_id);
    lemma_position_is_first_match(ps, p.producer_id);
    let c = position_of(ps, d.consumer_id).unwrap();
    let q = position_of(ps, p.producer_id).unwrap();
    let debited = with_balance(ps, c, ps[c].wallet_balance - cost);
    let paid = with_balance(debited, q, debited[q].wallet_balance + cost);
    assert(attempt(ps, d, p) == Attempt::Trade(paid));
    lemma_total_after_update(ps, c, ps[c].wallet_balance - cost);
    lemma_total_after_update(debited, q, debited[q].wallet_balance + cost);
    if c == q {
        assert(paid =~= ps);
    }
}

/// What serving one demand does. Where nothing cleared, nothing changed.
/// Where something cleared, it was the whole of `d` against one lot `k`
/// that covered it at that moment and asked no more than `d` allows; that
/// lot lost exactly the amount, and no other lot changed.
pub proof fn lemma_serve_outcome(
    ps: Seq<Participant>,
    lots: Seq<EnergyProduction>,
    d: EnergyDemand,
    j: int,
)
    requires
        0 <= j,
        serve(ps, lots, d, j) is Ok,
    ensures
        ({
            let served = serve(ps, lots, d, j).unwrap();
            match served.fill {
                None => served.participants == ps && served.productions == lots,
                Some(f) => exists|k: int|
                    #![trigger lots[k]]
                    {
                        &&& j <= k < lots.len()
                        &&& d.energy_amount > 0
                        &&& attempt(ps, d, lots[k]) == Attempt::Trade(served.participants)
                        &&& served.productions == lots.update(k, lot_after(lots[k], d))
                        &&& f == fill_of(d, lots[k])
                        &&& forall|m: int| j <= m < k ==> attempt(ps, d, #[trigger] lots[m]) is Skip
                    },
            }
        }),
    decreases lots.len() - j,
{
    if j >= lots.len() || d.energy_amount == 0 {
    } else {
        match attempt(ps, d, lots[j]) {
            Attempt::Skip => {
                lemma_serve_outcome(ps, lots, d, j + 1);
                let served = serve(ps, lots, d, j).unwrap();
                if served.fill is Some {
                    let k = choose|k: int|
                        #![trigger lots[k]]
                        {
                            &&& j + 1 <= k < lots.len()
                            &&& d.energy_amount > 0
                            &&& attempt(ps, d, lots[k]) == Attempt::Trade(served.participants)
                            &&& served.productions == lots.update(k, lot_after(lots[k], d))
                            &&& served.fill.unwrap() == fill_of(d, lots[k])
                            &&& forall|m: int|
                                j + 1 <= m < k ==> attempt(ps, d, #[trigger] lots[m]) is Skip
                        };
                    assert(j <= k < lots.len() && lots[k] == lots[k]);
                }
            },
            Attempt::Fail(e) => {},
            Attempt::Trade(paid) => {
                assert(j <= j < lots.len() && lots[j] == lots[j]);
            },
        }
    }
}

/// A demand that is served clears whole against one lot as that lot stood
/// at the moment: the lot's price was within the demand's limit, the amount
/// was no more than the lot had left, and the lot is left with exactly that
/// much less.
pub proof fn fill_meets_the_clearing_condition_when_served(
    ps: Seq<Participant>,
    lots: Seq<EnergyProduction>,
    d: EnergyDemand,
)
    requires
        serve(ps, lots, d, 0) matches Ok(served) && served.fill is Some,
    ensures
        ({
            let served = serve(ps, lots, d, 0).unwrap();
            let f = served.fill.unwrap();
            exists|k: int|
                #![trigger lots[k]]
                {
                    &&& 0 <= k < lots.len()
                    &&& f == fill_of(d, lots[k])
                    &&& f.amount == d.energy_amount
                    &&& f.price <= d.price_limit
                    &&& 0 < f.amount <= lots[k].energy_amount
                    &&& served.productions.len() == lots.len()
                    &&& served.productions[k].energy_amount == lots[k].energy_amount - f.amount
                }
        }),
{
    lemma_serve_outcome(ps, lots, d, 0);
    let served = serve(ps, lots, d, 0).unwrap();
    let k = choose|k: int|
        #![trigger lots[k]]
        {
            &&& 0 <= k < lots.len()
            &&& d.energy_amount > 0
            &&& attempt(ps, d, lots[k]) == Attempt::Trade(served.participants)
            &&& served.productions == lots.update(k, lot_after(lots[k], d))
            &&& served.fill.unwrap() == fill_of(d, lots[k])
            &&& forall|m: int| 0 <= m < k ==> attempt(ps, d, #[trigger] lots[m]) is Skip
        };
    trade_moves_exactly_the_cost(ps, d, lots[k]);
    assert(0 <= k < lots.len() && lots[k] == lots[k]);
}

/// Between `c0` and `c` some pair cleared in which `id` was the seller.
pub open spec fn sold_since(c0: ClearingState, c: ClearingState, id: Identity) -> bool {
    exists|m: int| c0.fills.len() <= m < c.fills.len() && (#[trigger] c.fills[m]).to == id
}

/// How far a pass has come: `c` is what serving the first `i` demands of
/// `c0` has made of it.
pub open spec fn follows(c0: ClearingState, c: ClearingState, i: int) -> bool {
    &&& same_people(c.participants, c0.participants)
    &&& total_balance(c.participants) == total_balance(c0.participants)
    &&& forall|x: int|
        #![trigger c.participants[x]]
        0 <= x < c.participants.len() ==> c.participants[x].wallet_balance
            <= c0.participants[x].wallet_balance || sold_since(c0, c, c0.participants[x].id)
    &&& c.productions.len() == c0.productions.len()
    &&& forall|k: int|
        #![trigger c.productions[k]]
        0 <= k < c.productions.len() ==> {
            &&& c.productions[k].producer_id == c0.productions[k].producer_id
            &&& c.productions[k].price == c0.productions[k].price
            &&& c.productions[k].energy_amount <= c0.productions[k].energy_amount
        }
    &&& c.demands.len() == c0.demands.len()
    &&& forall|k: int| i <= k < c.demands.len() ==> #[trigger] c.demands[k] == c0.demands[k]
    &&& forall|k: int|
        0 <= k < i && k < c.demands.len() ==> #[trigger] c.demands[k] == c0.demands[k]
            || c.demands[k] == satisfied(c0.demands[k])
    &&& c0.fills.len() <= c.fills.len()
    &&& forall|k: int| 0 <= k < c0.fills.len() ==> #[trigger] c.fills[k] == c0.fills[k]
    &&& forall|k: int|
        #![trigger c.fills[k]]
        c0.fills.len() <= k < c.fills.len() ==> {
            &&& fill_is_backed(c.fills[k], c0.demands, c0.productions)
            &&& registered(c0.participants, c.fills[k].from)
            &&& registered(c0.participants, c.fills[k].to)
        }
}

/// Serving one more demand keeps the pass on its course.
pub proof fn lemma_step_follows(c0: ClearingState, c: ClearingState, i: int)
    requires
        follows(c0, c, i),
        0 <= i < c.demands.len(),
        step(c, i) is Ok,
    ensures
        follows(c0, step(c, i).unwrap(), i + 1),
{
    let d = c.demands[i];
    let next = step(c, i).unwrap();
    lemma_serve_outcome(c.participants, c.productions, d, 0);
    let served = serve(c.participants, c.productions, d, 0).unwrap();
    match served.fill {
        None => {
            assert(next.participants == c.participants);
            assert(next.productions == c.productions);
            assert(next.demands == c.demands);
            assert(next.fills == c.fills);
        },
        Some(f) => {
            let lots = c.productions;
            let k = choose|k: int|
                #![trigger lots[k]]
                {
                    &&& 0 <= k < lots.len()
                    &&& d.energy_amount > 0
                    &&& attempt(c.participants, d, lots[k]) == Attempt::Trade(served.participants)
                    &&& served.productions == lots.update(k, lot_after(lots[k], d))
                    &&& f == fill_of(d, lots[k])
                    &&& forall|m: int|
                        0 <= m < k ==> attempt(c.participants, d, #[trigger] lots[m]) is Skip
                };
            trade_moves_exactly_the_cost(c.participants, d, lots[k]);
            assert(same_people(next.participants, c0.participants)) by {
                assert forall|m: int| 0 <= m < next.participants.len() implies (
                #[trigger] next.participants[m]).id == c0.participants[m].id
                    && next.participants[m].participant_type
                    == c0.participants[m].participant_type by {
                    assert(c.participants[m].id == c0.participants[m].id);
                }
            }
            assert forall|m: int|
                #![trigger next.productions[m]]
                0 <= m < next.productions.len() implies {
                &&& next.productions[m].producer_id == c0.productions[m].producer_id
                &&& next.productions[m].price == c0.productions[m].price
                &&& next.productions[m].energy_amount <= c0.productions[m].energy_amount
            } by {
                assert(c.productions[m].energy_amount <= c0.productions[m].energy_amount);
            }
            let q = position_of(c.participants, lots[k].producer_id).unwrap();
            assert(next.fills[c.fills.len() as int] == f);
            assert forall|x: int|
                #![trigger next.participants[x]]
                0 <= x < next.participants.len() implies next.participants[x].wallet_balance
                <= c0.participants[x].wallet_balance || sold_since(
                c0,
                next,
                c0.participants[x].id,
            ) by {
                assert(c.participants[x].id == c0.participants[x].id);
                if x == q {
                    assert(next.fills[c.fills.len() as int].to == c0.participants[x].id);
                } else if sold_since(c0, c, c0.participants[x].id) {
                    let m = choose|m: int|
                        c0.fills.len() <= m < c.fills.len() && (#[trigger] c.fills[m]).to
                            == c0.participants[x].id;
                    assert(next.fills[m] == c.fills[m]);
                } else {
                    assert(c.participants[x].wallet_balance <= c0.participants[x].wallet_balance);
                }
            }
            assert(d == c0.demands[i]);
            assert(fill_matches(f, c0.demands[i], c0.productions[k])) by {
                assert(c.productions[k].energy_amount <= c0.productions[k].energy_amount);
            }
            lemma_same_people_same_positions(c.participants, c0.participants, f.from);
            lemma_same_people_same_positions(c.participants, c0.participants, f.to);
            assert forall|m: int|
                #![trigger next.fills[m]]
                c0.fills.len() <= m < next.fills.len() implies {
                &&& fill_is_backed(next.fills[m], c0.demands, c0.productions)
                &&& registered(c0.participants, next.fills[m].from)
                &&& registered(c0.participants, next.fills[m].to)
            } by {
                if m < c.fills.len() {
                    assert(next.fills[m] == c.fills[m]);
                }
            }
            assert forall|m: int| i + 1 <= m < next.demands.len() implies #[trigger] next.demands[m]
                == c0.demands[m] by {
                assert(c.demands[m] == c0.demands[m]);
            }
            assert forall|m: int| 0 <= m < i + 1 && m < next.demands.len() implies #[trigger] next.demands[m]
                == c0.demands[m] || next.demands[m] == satisfied(c0.demands[m]) by {
                if m < i {
                    assert(c.demands[m] == c0.demands[m] || c.demands[m] == satisfied(c0.demands[m]));
                }
            }
            assert forall|m: int| 0 <= m < c0.fills.len() implies #[trigger] next.fills[m]
                == c0.fills[m] by {
                assert(c.fills[m] == c0.fills[m]);
            }
        },
    }
}

/// A pass that ends well has stayed on its course to the end.
pub proof fn lemma_walk_follows(c0: ClearingState, c: ClearingState, i: int)
    requires
        follows(c0, c, i),
        0 <= i <= c.demands.len(),
        walk(c, i) is Ok,
    ensures
        follows(c0, walk(c, i).unwrap(), c0.demands.len() as int),
    decreases c.demands.len() - i,
{
    if i < c.demands.len() {
        lemma_step_follows(c0, c, i);
        lemma_walk_follows(c0, step(c, i).unwrap(), i + 1);
    }
}

/// A pass that ends well has served every demand of the ordered book in turn.
pub proof fn lemma_cleared_follows(s: LedgerState)
    requires
        cleared(s) is Ok,
    ensures
        walk(opening(s), 0) is Ok,
        follows(opening(s), walk(opening(s), 0).unwrap(), opening(s).demands.len() as int),
{
    let c0 = opening(s);
    assert(follows(c0, c0, 0));
    lemma_walk_follows(c0, c0, 0);
}

/// After a clearing pass no lot and no demand with nothing left stays on
/// the book.
pub proof fn cleared_book_has_no_spent_entries(s: LedgerState)
    requires
        cleared(s) is Ok,
    ensures
        forall|k: int|
            0 <= k < cleared(s).unwrap().productions.len() ==> (
            #[trigger] cleared(s).unwrap().productions[k]).energy_amount > 0,
        forall|k: int|
            0 <= k < cleared(s).unwrap().demands.len() ==> (
            #[trigger] cleared(s).unwrap().demands[k]).energy_amount > 0,
{
    let w = walk(opening(s), 0).unwrap();
    let c = cleared(s).unwrap();
    assert forall|k: int| 0 <= k < c.productions.len() implies (
    #[trigger] c.productions[k]).energy_amount > 0 by {
        w.productions.lemma_filter_pred(|p: EnergyProduction| lot_is_open(p), k);
    }
    assert forall|k: int| 0 <= k < c.demands.len() implies (#[trigger] c.demands[k]).energy_amount
        > 0 by {
        w.demands.lemma_filter_pred(|d: EnergyDemand| demand_is_open(d), k);
    }
}

/// Every pair that a pass clears is a demand of the book taken whole from
/// a lot of the book: the price is within the demand's limit, the amount
/// within what the lot had, the cost fits in 64 bits, and both parties are
/// registered.
pub proof fn every_fill_meets_the_clearing_condition(s: LedgerState)
    requires
        cleared(s) is Ok,
    ensures
        forall|k: int|
            #![trigger cleared(s).unwrap().fills[k]]
            0 <= k < cleared(s).unwrap().fills.len() ==> {
                &&& fill_is_backed(cleared(s).unwrap().fills[k], s.demands, s.productions)
                &&& registered(s.participants, cleared(s).unwrap().fills[k].from)
                &&& registered(s.participants, cleared(s).unwrap().fills[k].to)
            },
{
    lemma_cleared_follows(s);
    let c0 = opening(s);
    let c = cleared(s).unwrap();
    sort_rearranges(s.demands);
    sort_rearranges(s.productions);
    assert forall|k: int| #![trigger c.fills[k]] 0 <= k < c.fills.len() implies fill_is_backed(
        c.fills[k],
        s.demands,
        s.productions,
    ) by {
        let f = c.fills[k];
        assert(fill_is_backed(f, c0.demands, c0.productions));
        let (i, j) = choose|i: int, j: int|
            0 <= i < c0.demands.len() && 0 <= j < c0.productions.len() && fill_matches(
                f,
                #[trigger] c0.demands[i],
                #[trigger] c0.productions[j],
            );
        let d = c0.demands[i];
        let p = c0.productions[j];
        assert(stable_sort(s.demands).contains(d)) by {
            assert(stable_sort(s.demands)[i] == d);
        }
        assert(stable_sort(s.productions).contains(p)) by {
            assert(stable_sort(s.productions)[j] == p);
        }
        assert(s.demands.contains(d));
        assert(s.productions.contains(p));
        let i0 = choose|i0: int| 0 <= i0 < s.demands.len() && s.demands[i0] == c0.demands[i];
        let j0 = choose|j0: int|
            0 <= j0 < s.productions.len() && s.productions[j0] == c0.productions[j];
        assert(fill_matches(f, s.demands[i0], s.productions[j0]));
    }
}

/// A clearing pass moves money between wallets and makes none: the same
/// people stand in the same places afterwards, and their wallets hold as
/// much in all as before.
pub proof fn clearing_conserves_money(s: LedgerState)
    requires
        cleared(s) is Ok,
    ensures
        same_people(cleared(s).unwrap().participants, s.participants),
        total_balance(cleared(s).unwrap().participants) == total_balance(s.participants),
{
    lemma_cleared_follows(s);
}

/// No wallet is ever below zero.
pub proof fn balances_are_never_negative(s: LedgerState)
    ensures
        forall|k: int| 0 <= k < s.participants.len() ==> (#[trigger] s.participants[k]).wallet_balance >= 0,
        total_balance(s.participants) >= 0,
    decreases s.participants.len(),
{
    if s.participants.len() > 0 {
        balances_are_never_negative(
            LedgerState {
                participants: s.participants.drop_last(),
                productions: s.productions,
                demands: s.demands,
                transactions: s.transactions,
            },
        );
    }
}

/// When a demand clears against a lot of another party, the consumer's
/// wallet goes down by exactly amount times price and the producer's goes
/// up by exactly as much.
pub proof fn settlement_conserves_value(ps: Seq<Participant>, d: EnergyDemand, p: EnergyProduction)
    requires
        attempt(ps, d, p) is Trade,
        d.consumer_id != p.producer_id,
    ensures
        ({
            let paid = attempt(ps, d, p)->Trade_0;
            let f = fill_of(d, p);
            let c = position_of(ps, f.from).unwrap();
            let q = position_of(ps, f.to).unwrap();
            &&& paid[c].wallet_balance == ps[c].wallet_balance - f.amount * f.price
            &&& paid[q].wallet_balance == ps[q].wallet_balance + f.amount * f.price
        }),
{
    trade_moves_exactly_the_cost(ps, d, p);
}

/// The trade without its time.
pub open spec fn unstamped(tx: Transaction) -> Fill {
    Fill { from: tx.from, to: tx.to, amount: tx.amount, price: tx.price }
}

/// The book holds no lot and no demand with nothing left.
pub open spec fn book_has_no_spent_entries(s: LedgerState) -> bool {
    &&& forall|k: int|
        0 <= k < s.productions.len() ==> (#[trigger] s.productions[k]).energy_amount > 0
    &&& forall|k: int| 0 <= k < s.demands.len() ==> (#[trigger] s.demands[k]).energy_amount > 0
}

/// `log` begins with `earlier`: nothing that was logged is changed or dropped.
pub open spec fn log_extends(earlier: Seq<Transaction>, log: Seq<Transaction>) -> bool {
    &&& earlier.len() <= log.len()
    &&& forall|k: int| 0 <= k < earlier.len() ==> #[trigger] log[k] == earlier[k]
}

/// What every pass that goes through has done to the ledger: the book is
/// clean, the log has only grown, every new trade is a demand of the old
/// book taken whole from a lot of the old book within the demand's price
/// limit and between registered parties, and the wallets of the same
/// people hold as much in all as before.
pub open spec fn pass_is_sound(before: LedgerState, after: LedgerState) -> bool {
    &&& book_has_no_spent_entries(after)
    &&& log_extends(before.transactions, after.transactions)
    &&& forall|k: int|
        #![trigger after.transactions[k]]
        before.transactions.len() <= k < after.transactions.len() ==> {
            &&& fill_is_backed(unstamped(after.transactions[k]), before.demands, before.productions)
            &&& registered(before.participants, after.transactions[k].from)
            &&& registered(before.participants, after.transactions[k].to)
        }
    &&& same_people(after.participants, before.participants)
    &&& total_balance(after.participants) == total_balance(before.participants)
}

/// Whatever time a pass is written with, it is sound.
pub proof fn recorded_pass_is_sound(s: LedgerState, t: i64)
    requires
        cleared(s) is Ok,
    ensures
        pass_is_sound(s, recorded(s, cleared(s).unwrap(), t)),
{
    let c = cleared(s).unwrap();
    let after = recorded(s, c, t);
    cleared_book_has_no_spent_entries(s);
    every_fill_meets_the_clearing_condition(s);
    clearing_conserves_money(s);
    assert forall|k: int|
        #![trigger after.transactions[k]]
        s.transactions.len() <= k < after.transactions.len() implies {
        &&& fill_is_backed(unstamped(after.transactions[k]), s.demands, s.productions)
        &&& registered(s.participants, after.transactions[k].from)
        &&& registered(s.participants, after.transactions[k].to)
    } by {
        let m = k - s.transactions.len();
        assert(after.transactions[k] == stamp_all(c.fills, t)[m]);
        assert(unstamped(after.transactions[k]) == c.fills[m]);
    }
}

/// A pass that reads the time from the host is sound whenever it goes through.
pub proof fn settled_pass_is_sound(s: LedgerState, res: Result<(), MarketError>, next: LedgerState)
    requires
        settles(s, res, next),
        res is Ok,
    ensures
        pass_is_sound(s, next),
{
    let c = cleared(s).unwrap();
    if c.fills.len() == 0 {
        recorded_pass_is_sound(s, 0);
    } else {
        let t = choose|t: i64| next == #[trigger] recorded(s, c, t);
        recorded_pass_is_sound(s, t);
    }
}

/// An instruction that is refused leaves the ledger exactly as it was,
/// whatever the reason: an overflow, a shortage of funds, an unknown party.
pub proof fn refused_instruction_changes_nothing(
    s: LedgerState,
    caller: Identity,
    instruction: EnergyMarketInstruction,
    res: Result<(), MarketError>,
    next: LedgerState,
)
    requires
        applies(s, caller, instruction, res, next),
        res is Err,
    ensures
        next == s,
{
}

/// A deposit that would take a registered wallet past 64 bits is refused
/// as an overflow and changes nothing.
pub proof fn deposit_overflow_is_reported(
    s: LedgerState,
    caller: Identity,
    amount: u64,
    res: Result<(), MarketError>,
    next: LedgerState,
)
    requires
        applies(s, caller, EnergyMarketInstruction::Deposit { amount }, res, next),
        position_of(s.participants, caller) matches Some(i) && s.participants[i].wallet_balance
            + amount > u64::MAX,
    ensures
        res == Err::<(), MarketError>(MarketError::ArithmeticOverflow),
        next == s,
{
}

/// Apart from starting over, no instruction changes or drops a logged
/// trade, and none removes a participant or changes who they are.
pub proof fn history_is_kept(
    s: LedgerState,
    caller: Identity,
    instruction: EnergyMarketInstruction,
    res: Result<(), MarketError>,
    next: LedgerState,
)
    requires
        applies(s, caller, instruction, res, next),
        instruction !is InitializeLedger,
    ensures
        log_extends(s.transactions, next.transactions),
        s.participants.len() <= next.participants.len(),
        forall|k: int|
            0 <= k < s.participants.len() ==> (#[trigger] next.participants[k]).id
                == s.participants[k].id,
{
    match instruction {
        EnergyMarketInstruction::MatchTransactions => {
            if res is Ok {
                settled_pass_is_sound(s, res, next);
            }
        },
        EnergyMarketInstruction::Deposit { amount } => {
            lemma_position_is_first_match(s.participants, caller);
        },
        EnergyMarketInstruction::Withdraw { amount } => {
            lemma_position_is_first_match(s.participants, caller);
        },
        _ => {},
    }
}

/// Every lot and every demand belongs to a registered party.
pub open spec fn book_is_backed(
    ps: Seq<Participant>,
    lots: Seq<EnergyProduction>,
    demands: Seq<EnergyDemand>,
) -> bool {
    &&& forall|j: int| 0 <= j < lots.len() ==> registered(ps, (#[trigger] lots[j]).producer_id)
    &&& forall|k: int|
        0 <= k < demands.len() ==> registered(ps, (#[trigger] demands[k]).consumer_id)
}

/// Every lot and every demand of the ledger belongs to a registered party.
pub open spec fn ledger_is_backed(s: LedgerState) -> bool {
    book_is_backed(s.participants, s.productions, s.demands)
}

/// Serving a demand is refused only for an overflow or for a party that is
/// not registered, and never for the latter where all parties are.
pub proof fn lemma_serve_refusals(
    ps: Seq<Participant>,
    lots: Seq<EnergyProduction>,
    d: EnergyDemand,
    j: int,
)
    requires
        0 <= j,
    ensures
        serve(ps, lots, d, j) matches Err(e) ==> e == MarketError::ArithmeticOverflow || e
            == MarketError::InvalidAccountData,
        registered(ps, d.consumer_id) && (forall|m: int|
            j <= m < lots.len() ==> registered(ps, (#[trigger] lots[m]).producer_id)) ==> serve(
            ps,
            lots,
            d,
            j,
        ) != Err::<Served, MarketError>(MarketError::InvalidAccountData),
    decreases lots.len() - j,
{
    if j < lots.len() && d.energy_amount != 0 {
        lemma_serve_refusals(ps, lots, d, j + 1);
        if registered(ps, d.consumer_id) && (forall|m: int|
            j <= m < lots.len() ==> registered(ps, (#[trigger] lots[m]).producer_id)) {
            assert(registered(ps, lots[j].producer_id));
        }
    }
}

/// A pass is refused only for an overflow or for a party that is not
/// registered, and never for the latter where the book is backed.
pub proof fn lemma_walk_refusals(c: ClearingState, i: int)
    requires
        0 <= i,
    ensures
        walk(c, i) matches Err(e) ==> e == MarketError::ArithmeticOverflow || e
            == MarketError::InvalidAccountData,
        book_is_backed(c.participants, c.productions, c.demands) ==> walk(c, i) != Err::<
            ClearingState,
            MarketError,
        >(MarketError::InvalidAccountData),
    decreases c.demands.len() - i,
{
    if i < c.demands.len() {
        lemma_serve_refusals(c.participants, c.productions, c.demands[i], 0);
        if step(c, i) is Ok {
            let next = step(c, i).unwrap();
            assert(follows(c, c, i));
            lemma_step_follows(c, c, i);
            lemma_walk_refusals(next, i + 1);
            if book_is_backed(c.participants, c.productions, c.demands) {
                assert forall|j: int| 0 <= j < next.productions.len() implies registered(
                    next.participants,
                    (#[trigger] next.productions[j]).producer_id,
                ) by {
                    assert(registered(c.participants, c.productions[j].producer_id));
                    lemma_same_people_same_positions(
                        next.participants,
                        c.participants,
                        c.productions[j].producer_id,
                    );
                }
                assert forall|k: int| 0 <= k < next.demands.len() implies registered(
                    next.participants,
                    (#[trigger] next.demands[k]).consumer_id,
                ) by {
                    assert(registered(c.participants, c.demands[k].consumer_id));
                    assert(next.demands[k] == c.demands[k] || next.demands[k] == satisfied(
                        c.demands[k],
                    ));
                    lemma_same_people_same_positions(
                        next.participants,
                        c.participants,
                        c.demands[k].consumer_id,
                    );
                }
            }
        } else {
            if book_is_backed(c.participants, c.productions, c.demands) {
                assert(registered(c.participants, c.demands[i].consumer_id));
            }
        }
    }
}

/// Ordering a backed book leaves it backed.
pub proof fn lemma_opening_is_backed(s: LedgerState)
    requires
        ledger_is_backed(s),
    ensures
        book_is_backed(opening(s).participants, opening(s).productions, opening(s).demands),
{
    let c0 = opening(s);
    sort_rearranges(s.demands);
    sort_rearranges(s.productions);
    assert forall|j: int| 0 <= j < c0.productions.len() implies registered(
        c0.participants,
        (#[trigger] c0.productions[j]).producer_id,
    ) by {
        assert(stable_sort(s.productions).contains(c0.productions[j])) by {
            assert(stable_sort(s.productions)[j] == c0.productions[j]);
        }
        assert(s.productions.contains(c0.productions[j]));
    }
    assert forall|k: int| 0 <= k < c0.demands.len() implies registered(
        c0.participants,
        (#[trigger] c0.demands[k]).consumer_id,
    ) by {
        assert(stable_sort(s.demands).contains(c0.demands[k])) by {
            assert(stable_sort(s.demands)[k] == c0.demands[k]);
        }
        assert(s.demands.contains(c0.demands[k]));
    }
}

/// A clearing pass is refused only for an overflow or for a clearing pair
/// with a party that is not registered. Where every lot and every demand
/// belongs to a registered party, only an overflow is left.
pub proof fn pass_is_refused_only_for_overflow_or_missing_party(s: LedgerState)
    ensures
        cleared(s) matches Err(e) ==> e == MarketError::ArithmeticOverflow || e
            == MarketError::InvalidAccountData,
        ledger_is_backed(s) ==> cleared(s) != Err::<ClearingState, MarketError>(
            MarketError::InvalidAccountData,
        ),
{
    lemma_walk_refusals(opening(s), 0);
    if ledger_is_backed(s) {
        lemma_opening_is_backed(s);
    }
}

/// No instruction puts a lot or a demand of an unregistered party on the
/// book, and none takes a party of the book off the register.
pub proof fn instructions_keep_the_book_backed(
    s: LedgerState,
    caller: Identity,
    instruction: EnergyMarketInstruction,
    res: Result<(), MarketError>,
    next: LedgerState,
)
    requires
        applies(s, caller, instruction, res, next),
        ledger_is_backed(s),
    ensures
        ledger_is_backed(next),
{
    if res is Err {
        refused_instruction_changes_nothing(s, caller, instruction, res, next);
    } else {
        match instruction {
            EnergyMarketInstruction::InitializeLedger => {},
            EnergyMarketInstruction::RegisterParticipant { participant_type } => {
                assert forall|id: Identity| registered(s.participants, id) implies registered(
                    next.participants,
                    id,
                ) by {
                    let w = choose|i: int|
                        0 <= i < s.participants.len() && (#[trigger] s.participants[i]).id == id;
                    assert(next.participants[w].id == id);
                }
            },
            EnergyMarketInstruction::ReportProduction { energy_amount, price } => {
                assert(registered(s.participants, caller));
            },
            EnergyMarketInstruction::PostDemand { energy_amount, price_limit } => {
                assert(registered(s.participants, caller));
            },
            EnergyMarketInstruction::MatchTransactions => {
                settled_pass_is_sound(s, res, next);
                lemma_backed_after_pass(s, next);
            },
            EnergyMarketInstruction::Deposit { amount } => {
                lemma_position_is_first_match(s.participants, caller);
                lemma_backed_under_same_people(s, next);
            },
            EnergyMarketInstruction::Withdraw { amount } => {
                lemma_position_is_first_match(s.participants, caller);
                lemma_backed_under_same_people(s, next);
            },
        }
    }
}

/// Where only wallets changed, a backed book stays backed.
proof fn lemma_backed_under_same_people(s: LedgerState, next: LedgerState)
    requires
        ledger_is_backed(s),
        same_people(next.participants, s.participants),
        next.productions == s.productions,
        next.demands == s.demands,
    ensures
        ledger_is_backed(next),
{
    assert forall|j: int| 0 <= j < next.productions.len() implies registered(
        next.participants,
        (#[trigger] next.productions[j]).producer_id,
    ) by {
        lemma_same_people_same_positions(
            next.participants,
            s.participants,
            s.productions[j].producer_id,
        );
    }
    assert forall|k: int| 0 <= k < next.demands.len() implies registered(
        next.participants,
        (#[trigger] next.demands[k]).consumer_id,
    ) by {
        lemma_same_people_same_positions(
            next.participants,
            s.participants,
            s.demands[k].consumer_id,
        );
    }
}

/// What a pass leaves of a backed book is backed.
proof fn lemma_backed_after_pass(s: LedgerState, next: LedgerState)
    requires
        ledger_is_backed(s),
        cleared(s) is Ok,
        same_people(next.participants, s.participants),
        next.productions == cleared(s).unwrap().productions,
        next.demands == cleared(s).unwrap().demands,
    ensures
        ledger_is_backed(next),
{
    let c0 = opening(s);
    let w = walk(c0, 0).unwrap();
    lemma_cleared_follows(s);
    lemma_opening_is_backed(s);
    assert forall|j: int| 0 <= j < next.productions.len() implies registered(
        next.participants,
        (#[trigger] next.productions[j]).producer_id,
    ) by {
        let lot = next.productions[j];
        assert(next.productions.contains(lot));
        w.productions.lemma_filter_contains_rev(|p: EnergyProduction| lot_is_open(p), lot);
        let m = choose|m: int| 0 <= m < w.productions.len() && w.productions[m] == lot;
        assert(w.productions[m].producer_id == c0.productions[m].producer_id);
        assert(registered(s.participants, c0.productions[m].producer_id));
        lemma_same_people_same_positions(next.participants, s.participants, lot.producer_id);
    }
    assert forall|k: int| 0 <= k < next.demands.len() implies registered(
        next.participants,
        (#[trigger] next.demands[k]).consumer_id,
    ) by {
        let d = next.demands[k];
        assert(next.demands.contains(d));
        w.demands.lemma_filter_contains_rev(|d: EnergyDemand| demand_is_open(d), d);
        let m = choose|m: int| 0 <= m < w.demands.len() && w.demands[m] == d;
        assert(w.demands[m] == c0.demands[m] || w.demands[m] == satisfied(c0.demands[m]));
        assert(registered(s.participants, c0.demands[m].consumer_id));
        lemma_same_people_same_positions(next.participants, s.participants, d.consumer_id);
    }
}

/// What a pass leaves on the book was on the book before: every demand
/// left is a demand of the old book, whole and unchanged, and every lot
/// left is a lot of the old book with the same producer and price and no
/// more energy than it had.
pub proof fn remaining_book_comes_from_the_book(s: LedgerState)
    requires
        cleared(s) is Ok,
    ensures
        forall|k: int|
            0 <= k < cleared(s).unwrap().demands.len() ==> s.demands.contains(
                #[trigger] cleared(s).unwrap().demands[k],
            ),
        forall|k: int|
            #![trigger cleared(s).unwrap().productions[k]]
            0 <= k < cleared(s).unwrap().productions.len() ==> exists|j: int|
                #![trigger s.productions[j]]
                {
                    &&& 0 <= j < s.productions.len()
                    &&& s.productions[j].producer_id == cleared(
                        s,
                    ).unwrap().productions[k].producer_id
                    &&& s.productions[j].price == cleared(s).unwrap().productions[k].price
                    &&& s.productions[j].energy_amount >= cleared(
                        s,
                    ).unwrap().productions[k].energy_amount
                },
{
    let c0 = opening(s);
    let w = walk(c0, 0).unwrap();
    let c = cleared(s).unwrap();
    lemma_cleared_follows(s);
    sort_rearranges(s.demands);
    sort_rearranges(s.productions);
    assert forall|k: int| 0 <= k < c.demands.len() implies s.demands.contains(
        #[trigger] c.demands[k],
    ) by {
        let d = c.demands[k];
        w.demands.lemma_filter_pred(|d: EnergyDemand| demand_is_open(d), k);
        assert(c.demands.contains(d));
        w.demands.lemma_filter_contains_rev(|d: EnergyDemand| demand_is_open(d), d);
        let m = choose|m: int| 0 <= m < w.demands.len() && w.demands[m] == d;
        assert(w.demands[m] == c0.demands[m] || w.demands[m] == satisfied(c0.demands[m]));
        assert(stable_sort(s.demands).contains(d)) by {
            assert(stable_sort(s.demands)[m] == d);
        }
    }
    assert forall|k: int| #![trigger c.productions[k]] 0 <= k < c.productions.len() implies exists|
        j: int,
    |
        #![trigger s.productions[j]]
        {
            &&& 0 <= j < s.productions.len()
            &&& s.productions[j].producer_id == c.productions[k].producer_id
            &&& s.productions[j].price == c.productions[k].price
            &&& s.productions[j].energy_amount >= c.productions[k].energy_amount
        } by {
        let lot = c.productions[k];
        assert(c.productions.contains(lot));
        w.productions.lemma_filter_contains_rev(|p: EnergyProduction| lot_is_open(p), lot);
        let m = choose|m: int| 0 <= m < w.productions.len() && w.productions[m] == lot;
        assert(w.productions[m].price == c0.productions[m].price);
        assert(stable_sort(s.productions).contains(c0.productions[m])) by {
            assert(stable_sort(s.productions)[m] == c0.productions[m]);
        }
        assert(s.productions.contains(c0.productions[m]));
        let j = choose|j: int| 0 <= j < s.productions.len() && s.productions[j] == c0.productions[m];
        assert(s.productions[j].producer_id == lot.producer_id);
    }
}

} // verus!
