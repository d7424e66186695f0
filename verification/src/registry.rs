use vstd::prelude::*;
use crate::identity::Identity;
use crate::model::{Ledger, LedgerState, MarketError, Participant, ParticipantType, empty_state};

verus! {

/// Some participant is registered under `id`.
pub open spec fn registered(ps: Seq<Participant>, id: Identity) -> bool {
    exists|i: int| 0 <= i < ps.len() && (#[trigger] ps[i]).id == id
}

/// `i` is the place of the earliest participant registered under `id`.
pub open spec fn is_first_match(ps: Seq<Participant>, id: Identity, i: int) -> bool {
    &&& 0 <= i < ps.len()
    &&& ps[i].id == id
    &&& forall|j: int| 0 <= j < i ==> (#[trigger] ps[j]).id != id
}

/// The place of the earliest participant registered under `id`, if there is one.
/// Where an identity was registered twice, only its first record is ever used.
pub open spec fn position_of(ps: Seq<Participant>, id: Identity) -> Option<int> {
    if registered(ps, id) {
        Some(choose|i: int| is_first_match(ps, id, i))
    } else {
        None
    }
}

/// `ps` with the wallet at place `i` set to `balance`.
pub open spec fn with_balance(ps: Seq<Participant>, i: int, balance: int) -> Seq<Participant> {
    ps.update(
        i,
        Participant {
            id: ps[i].id,
            participant_type: ps[i].participant_type,
            wallet_balance: balance as u64,
        },
    )
}

/// The earliest match is the one that `position_of` names.
pub proof fn lemma_first_match_is_position(ps: Seq<Participant>, id: Identity, i: int)
    requires
        is_first_match(ps, id, i),
    ensures
        position_of(ps, id) == Some(i),
{
    assert(registered(ps, id));
    let c = choose|k: int| is_first_match(ps, id, k);
    assert(is_first_match(ps, id, c));
    if c < i {
        assert(ps[c].id != id);
    }
    if i < c {
        assert(ps[i].id != id);
    }
}

/// Whatever `position_of` names is the earliest match.
pub proof fn lemma_position_is_first_match(ps: Seq<Participant>, id: Identity)
    ensures
        match position_of(ps, id) {
            Some(i) => is_first_match(ps, id, i),
            None => forall|j: int| 0 <= j < ps.len() ==> (#[trigger] ps[j]).id != id,
        },
{
    if registered(ps, id) {
        let w = choose|i: int| 0 <= i < ps.len() && (#[trigger] ps[i]).id == id;
        lemma_some_first_match(ps, id, w);
    }
}

/// Below any match there is an earliest one.
proof fn lemma_some_first_match(ps: Seq<Participant>, id: Identity, w: int)
    requires
        0 <= w < ps.len(),
        ps[w].id == id,
    ensures
        exists|i: int| is_first_match(ps, id, i),
    decreases w,
{
    if exists|j: int| 0 <= j < w && (#[trigger] ps[j]).id == id {
        let j = choose|j: int| 0 <= j < w && (#[trigger] ps[j]).id == id;
        lemma_some_first_match(ps, id, j);
    } else {
        assert(is_first_match(ps, id, w));
    }
}

/// Looks up the earliest participant registered under `id`.
pub fn find_participant(participants: &Vec<Participant>, id: &Identity) -> (found: Option<usize>)
    ensures
        match found {
            Some(i) => position_of(participants@, *id) == Some(i as int) && is_first_match(
                participants@,
                *id,
                i as int,
            ),
            None => position_of(participants@, *id).is_none(),
        },
{
    let mut i: usize = 0;
    while i < participants.len()
        invariant
            i <= participants.len(),
            forall|j: int| 0 <= j < i ==> (#[trigger] participants@[j]).id != *id,
        decreases participants.len() - i,
    {
        if participants[i].id == *id {
            proof {
                lemma_first_match_is_position(participants@, *id, i as int);
            }
            return Some(i);
        }
        i += 1;
    }
    None
}

/// Creates the ledger with nothing in it.
pub fn initialize_ledger() -> (ledger: Ledger)
    ensures
        ledger@ == empty_state(),
{
    Ledger {
        participants: Vec::new(),
        productions: Vec::new(),
        demands: Vec::new(),
        transactions: Vec::new(),
    }
}

/// What the ledger holds once `id` has registered in the role `participant_type`:
/// one more participant, at the end, with an empty wallet.
pub open spec fn after_register(
    s: LedgerState,
    id: Identity,
    participant_type: ParticipantType,
) -> LedgerState {
    LedgerState {
        participants: s.participants.push(Participant { id, participant_type, wallet_balance: 0 }),
        productions: s.productions,
        demands: s.demands,
        transactions: s.transactions,
    }
}

/// Registers `id` with an empty wallet. An identity that is already registered
/// gets a second record, which no later operation will reach.
pub fn register_participant(ledger: &mut Ledger, id: Identity, participant_type: ParticipantType)
    ensures
        final(ledger)@ == after_register(old(ledger)@, id, participant_type),
{
    ledger.participants.push(Participant { id, participant_type, wallet_balance: 0 });
}

/// What a deposit of `amount` by `id` gives.
pub open spec fn after_deposit(s: LedgerState, id: Identity, amount: u64) -> Result<
    LedgerState,
    MarketError,
> {
    match position_of(s.participants, id) {
        None => Err(MarketError::UnknownParticipant),
        Some(i) => if s.participants[i].wallet_balance + amount > u64::MAX {
            Err(MarketError::ArithmeticOverflow)
        } else {
            Ok(
                LedgerState {
                    participants: with_balance(
                        s.participants,
                        i,
                        s.participants[i].wallet_balance + amount,
                    ),
                    productions: s.productions,
                    demands: s.demands,
                    transactions: s.transactions,
                },
            )
        },
    }
}

/// What a withdrawal of `amount` by `id` gives.
pub open spec fn after_withdraw(s: LedgerState, id: Identity, amount: u64) -> Result<
    LedgerState,
    MarketError,
> {
    match position_of(s.participants, id) {
        None => Err(MarketError::UnknownParticipant),
        Some(i) => if s.participants[i].wallet_balance < amount {
            Err(MarketError::InsufficientFunds)
        } else {
            Ok(
                LedgerState {
                    participants: with_balance(
                        s.participants,
                        i,
                        s.participants[i].wallet_balance - amount,
                    ),
                    productions: s.productions,
                    demands: s.demands,
                    transactions: s.transactions,
                },
            )
        },
    }
}

/// Adds `amount` to the wallet of `id`.
pub fn deposit(ledger: &mut Ledger, id: &Identity, amount: u64) -> (res: Result<(), MarketError>)
    ensures
        match after_deposit(old(ledger)@, *id, amount) {
            Ok(next) => res.is_ok() && final(ledger)@ == next,
            Err(e) => res == Err::<(), MarketError>(e) && final(ledger)@ == old(ledger)@,
        },
{
    match find_participant(&ledger.participants, id) {
        None => Err(MarketError::UnknownParticipant),
        Some(i) => {
            let p = ledger.participants[i];
            match p.wallet_balance.checked_add(amount) {
                None => Err(MarketError::ArithmeticOverflow),
                Some(balance) => {
                    ledger.participants.set(
                        i,
                        Participant {
                            id: p.id,
                            participant_type: p.participant_type,
                            wallet_balance: balance,
                        },
                    );
                    Ok(())
                },
            }
        },
    }
}

/// Takes `amount` out of the wallet of `id`.
pub fn withdraw(ledger: &mut Ledger, id: &Identity, amount: u64) -> (res: Result<(), MarketError>)
    ensures
        match after_withdraw(old(ledger)@, *id, amount) {
            Ok(next) => res.is_ok() && final(ledger)@ == next,
            Err(e) => res == Err::<(), MarketError>(e) && final(ledger)@ == old(ledger)@,
        },
{
    match find_participant(&ledger.participants, id) {
        None => Err(MarketError::UnknownParticipant),
        Some(i) => {
            let p = ledger.participants[i];
            if p.wallet_balance < amount {
                return Err(MarketError::InsufficientFunds);
            }
            ledger.participants.set(
                i,
                Participant {
                    id: p.id,
                    participant_type: p.participant_type,
                    wallet_balance: p.wallet_balance - amount,
                },
            );
            Ok(())
        },
    }
}

} // verus!
