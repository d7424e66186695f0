use vstd::prelude::*;
use crate::book::{demand_is_open, lot_is_open};
use crate::laws::{
    follows, lemma_same_people_same_positions, lemma_serve_outcome, lemma_step_follows,
    lemma_walk_follows, same_people, sold_since,
};
use crate::matching::{
    attempt, cleared, clears, cost_of, opening, recorded, satisfied, serve, settled_at, stamp_all,
    step, walk, ClearingState, Served,
};
use crate::model::{
    EnergyDemand, EnergyProduction, LedgerState, MarketError, Participant, Transaction,
};
use crate::ordering::{
    lemma_filter_keeps_order, lemma_filter_of_kept, sort_puts_in_order,
    sort_of_ordered_changes_nothing, Ranked,
};
use crate::registry::{lemma_position_is_first_match, position_of};

verus! {

/// No seller of a cleared pair has a demand of their own still open.
pub open spec fn no_seller_still_wants(c: ClearingState) -> bool {
    forall|m: int, k: int|
        0 <= m < c.fills.len() && 0 <= k < c.demands.len() ==> (#[trigger] c.fills[m]).to != (
        #[trigger] c.demands[k]).consumer_id
}

/// A pair that was passed over is passed over again as long as the lot has
/// not grown and the consumer has not become richer.
pub proof fn lemma_skip_persists(
    ps: Seq<Participant>,
    later: Seq<Participant>,
    d: EnergyDemand,
    lot: EnergyProduction,
    lot_later: EnergyProduction,
)
    requires
        attempt(ps, d, lot) is Skip,
        same_people(later, ps),
        lot_later.producer_id == lot.producer_id,
        lot_later.price == lot.price,
        lot_later.energy_amount <= lot.energy_amount,
        position_of(ps, d.consumer_id) matches Some(c) ==> later[c].wallet_balance
            <= ps[c].wallet_balance,
    ensures
        attempt(later, d, lot_later) is Skip,
{
    lemma_same_people_same_positions(later, ps, d.consumer_id);
    lemma_same_people_same_positions(later, ps, lot.producer_id);
    lemma_position_is_first_match(ps, d.consumer_id);
    if clears(d, lot_later) {
        assert(clears(d, lot));
        assert(cost_of(d, lot_later) == cost_of(d, lot));
    }
}

/// A demand that found nothing was passed over by every lot.
pub proof fn lemma_unserved_was_skipped_by_all(
    ps: Seq<Participant>,
    lots: Seq<EnergyProduction>,
    d: EnergyDemand,
    j: int,
)
    requires
        0 <= j,
        d.energy_amount > 0,
        serve(ps, lots, d, j) matches Ok(served) && served.fill is None,
    ensures
        forall|m: int| j <= m < lots.len() ==> attempt(ps, d, #[trigger] lots[m]) is Skip,
    decreases lots.len() - j,
{
    if j < lots.len() {
        lemma_unserved_was_skipped_by_all(ps, lots, d, j + 1);
    }
}

/// A demand that every lot passes over finds nothing and changes nothing.
pub proof fn lemma_skipped_by_all_is_unserved(
    ps: Seq<Participant>,
    lots: Seq<EnergyProduction>,
    d: EnergyDemand,
    j: int,
)
    requires
        0 <= j,
        forall|m: int| j <= m < lots.len() ==> attempt(ps, d, #[trigger] lots[m]) is Skip,
    ensures
        serve(ps, lots, d, j) == Ok::<Served, MarketError>(
            Served { participants: ps, productions: lots, fill: None },
        ),
    decreases lots.len() - j,
{
    if j < lots.len() && d.energy_amount != 0 {
        assert(attempt(ps, d, lots[j]) is Skip);
        lemma_skipped_by_all_is_unserved(ps, lots, d, j + 1);
    }
}

/// Where every demand from place `i` on is passed over by every lot, the
/// rest of the pass changes nothing.
pub proof fn lemma_idle_walk(c: ClearingState, i: int)
    requires
        0 <= i,
        forall|a: int, b: int|
            i <= a < c.demands.len() && 0 <= b < c.productions.len() ==> attempt(
                c.participants,
                #[trigger] c.demands[a],
                #[trigger] c.productions[b],
            ) is Skip,
    ensures
        walk(c, i) == Ok::<ClearingState, MarketError>(c),
    decreases c.demands.len() - i,
{
    if i < c.demands.len() {
        assert forall|m: int| 0 <= m < c.productions.len() implies attempt(
            c.participants,
            c.demands[i],
            #[trigger] c.productions[m],
        ) is Skip by {
            assert(attempt(c.participants, c.demands[i], c.productions[m]) is Skip);
        }
        lemma_skipped_by_all_is_unserved(c.participants, c.productions, c.demands[i], 0);
        assert(step(c, i).unwrap() == c);
        lemma_idle_walk(c, i + 1);
    }
}

/// At the end of a pass, a demand that is still open is passed over by
/// every lot as the pass left it, provided that none of the sellers of the
/// pass is the consumer of a demand still open.
pub proof fn lemma_open_demands_find_no_lot(c: ClearingState, i: int)
    requires
        0 <= i <= c.demands.len(),
        walk(c, i) is Ok,
        forall|m: int, k: int|
            #![trigger walk(c, i).unwrap().fills[m], walk(c, i).unwrap().demands[k]]
            c.fills.len() <= m < walk(c, i).unwrap().fills.len() && 0 <= k < walk(
                c,
                i,
            ).unwrap().demands.len() && walk(c, i).unwrap().demands[k].energy_amount > 0
                ==> walk(c, i).unwrap().fills[m].to != walk(c, i).unwrap().demands[k].consumer_id,
    ensures
        forall|k: int, j: int|
            #![trigger walk(c, i).unwrap().demands[k], walk(c, i).unwrap().productions[j]]
            i <= k < walk(c, i).unwrap().demands.len() && walk(
                c,
                i,
            ).unwrap().demands[k].energy_amount > 0 && 0 <= j < walk(
                c,
                i,
            ).unwrap().productions.len() ==> attempt(
                walk(c, i).unwrap().participants,
                walk(c, i).unwrap().demands[k],
                walk(c, i).unwrap().productions[j],
            ) is Skip,
    decreases c.demands.len() - i,
{
    let w = walk(c, i).unwrap();
    if i < c.demands.len() {
        let next = step(c, i).unwrap();
        assert(follows(c, c, i));
        lemma_step_follows(c, c, i);
        assert(walk(next, i + 1) == walk(c, i));
        assert(follows(next, next, i + 1));
        lemma_walk_follows(next, next, i + 1);
        lemma_open_demands_find_no_lot(next, i + 1);
        assert forall|k: int, j: int|
            #![trigger w.demands[k], w.productions[j]]
            i <= k < w.demands.len() && w.demands[k].energy_amount > 0 && 0 <= j
                < w.productions.len() implies attempt(
            w.participants,
            w.demands[k],
            w.productions[j],
        ) is Skip by {
            if k == i {
                let d = c.demands[i];
                lemma_serve_outcome(c.participants, c.productions, d, 0);
                assert(w.demands[i] == next.demands[i] || w.demands[i] == satisfied(
                    next.demands[i],
                ));
                assert(w.demands[i] == next.demands[i]);
                let served = serve(c.participants, c.productions, d, 0).unwrap();
                if served.fill is Some {
                    assert(next.demands[i] == satisfied(d));
                }
                assert(served.fill is None);
                assert(next.demands[i] == d);
                assert(next.participants == c.participants);
                assert(next.productions == c.productions);
                lemma_unserved_was_skipped_by_all(c.participants, c.productions, d, 0);
                assert(attempt(c.participants, d, c.productions[j]) is Skip);
                lemma_position_is_first_match(c.participants, d.consumer_id);
                if position_of(c.participants, d.consumer_id) is Some {
                    let x = position_of(c.participants, d.consumer_id).unwrap();
                    assert(next.participants[x].id == d.consumer_id);
                    if sold_since(next, w, next.participants[x].id) {
                        let m = choose|m: int|
                            next.fills.len() <= m < w.fills.len() && (#[trigger] w.fills[m]).to
                                == next.participants[x].id;
                        assert(w.fills[m].to != w.demands[i].consumer_id);
                    }
                    assert(w.participants[x].wallet_balance <= c.participants[x].wallet_balance);
                }
                assert(w.productions[j].energy_amount <= next.productions[j].energy_amount);
                lemma_skip_persists(
                    c.participants,
                    w.participants,
                    d,
                    c.productions[j],
                    w.productions[j],
                );
            }
        }
    }
}

/// Running a second pass right after a first clears nothing and leaves the
/// ledger as the first pass left it, provided that no seller of the first
/// pass has a demand of their own still open. (A seller who does may have
/// been short of money when their demand was served and be able to pay now.)
pub proof fn second_pass_clears_nothing(s: LedgerState, t: i64)
    requires
        cleared(s) is Ok,
        no_seller_still_wants(cleared(s).unwrap()),
    ensures
        cleared(recorded(s, cleared(s).unwrap(), t)) is Ok,
        cleared(recorded(s, cleared(s).unwrap(), t)).unwrap().fills.len() == 0,
        forall|again: i64|
            #[trigger] settled_at(recorded(s, cleared(s).unwrap(), t), again) == Ok::<
                LedgerState,
                MarketError,
            >(recorded(s, cleared(s).unwrap(), t)),
{
    let c0 = opening(s);
    let w = walk(c0, 0).unwrap();
    let c = cleared(s).unwrap();
    let s1 = recorded(s, c, t);
    let lot_open = |p: EnergyProduction| lot_is_open(p);
    let dem_open = |d: EnergyDemand| demand_is_open(d);
    assert(follows(c0, c0, 0));
    lemma_walk_follows(c0, c0, 0);
    sort_puts_in_order(s.demands);
    sort_puts_in_order(s.productions);
    // the open entries of the first pass are in order already
    assert forall|i: int, j: int|
        0 <= i <= j < w.demands.len() && dem_open(w.demands[i]) && dem_open(
            w.demands[j],
        ) implies (#[trigger] w.demands[i]).rank() <= (#[trigger] w.demands[j]).rank() by {
        assert(w.demands[i] == c0.demands[i] || w.demands[i] == satisfied(c0.demands[i]));
        assert(w.demands[j] == c0.demands[j] || w.demands[j] == satisfied(c0.demands[j]));
        assert(c0.demands[i].rank() <= c0.demands[j].rank());
    }
    lemma_filter_keeps_order(w.demands, dem_open);
    assert forall|i: int, j: int|
        0 <= i <= j < w.productions.len() && lot_open(w.productions[i]) && lot_open(
            w.productions[j],
        ) implies (#[trigger] w.productions[i]).rank() <= (#[trigger] w.productions[j]).rank() by {
        assert(w.productions[i].price == c0.productions[i].price);
        assert(w.productions[j].price == c0.productions[j].price);
        assert(c0.productions[i].rank() <= c0.productions[j].rank());
    }
    lemma_filter_keeps_order(w.productions, lot_open);
    sort_of_ordered_changes_nothing(c.demands);
    sort_of_ordered_changes_nothing(c.productions);
    let c1 = opening(s1);
    assert(c1.demands == c.demands);
    assert(c1.productions == c.productions);
    // no open demand finds a lot
    assert forall|m: int, k: int|
        #![trigger w.fills[m], w.demands[k]]
        c0.fills.len() <= m < w.fills.len() && 0 <= k < w.demands.len()
            && w.demands[k].energy_amount > 0 implies w.fills[m].to
        != w.demands[k].consumer_id by {
        w.demands.lemma_filter_contains(dem_open, k);
        let k1 = choose|k1: int| 0 <= k1 < c.demands.len() && c.demands[k1] == w.demands[k];
        assert(c.fills[m].to != c.demands[k1].consumer_id);
    }
    lemma_open_demands_find_no_lot(c0, 0);
    assert forall|a: int, b: int|
        0 <= a < c1.demands.len() && 0 <= b < c1.productions.len() implies attempt(
        c1.participants,
        #[trigger] c1.demands[a],
        #[trigger] c1.productions[b],
    ) is Skip by {
        w.demands.lemma_filter_pred(dem_open, a);
        assert(c.demands.contains(c.demands[a]));
        w.demands.lemma_filter_contains_rev(dem_open, c.demands[a]);
        let k = choose|k: int| 0 <= k < w.demands.len() && w.demands[k] == c.demands[a];
        assert(c.productions.contains(c.productions[b]));
        w.productions.lemma_filter_contains_rev(lot_open, c.productions[b]);
        let j = choose|j: int| 0 <= j < w.productions.len() && w.productions[j] == c.productions[b];
        assert(attempt(w.participants, w.demands[k], w.productions[j]) is Skip);
    }
    lemma_idle_walk(c1, 0);
    // dropping spent entries a second time drops nothing
    assert forall|i: int| 0 <= i < c.productions.len() implies lot_open(
        #[trigger] c.productions[i],
    ) by {
        w.productions.lemma_filter_pred(lot_open, i);
    }
    lemma_filter_of_kept(c.productions, lot_open);
    assert forall|i: int| 0 <= i < c.demands.len() implies dem_open(#[trigger] c.demands[i]) by {
        w.demands.lemma_filter_pred(dem_open, i);
    }
    lemma_filter_of_kept(c.demands, dem_open);
    let c2 = cleared(s1).unwrap();
    assert(c2.fills.len() == 0);
    assert forall|again: i64|
        #[trigger] settled_at(s1, again) == Ok::<LedgerState, MarketError>(s1) by {
        assert(stamp_all(c2.fills, again) =~= Seq::<Transaction>::empty());
        assert(s1.transactions + stamp_all(c2.fills, again) =~= s1.transactions);
    }
}

} // verus!
