use std::collections::HashMap;

use pallet_cash::blocks::{receive_chain_blocks, ChainState};
use pallet_cash::chains::{ChainBlock, ChainBlockEvent, ChainBlocks, ChainId, ChainReorg, EthEvent, MathError, Reason};
use pallet_cash::ingress::{
    ingress_queue, queue_slack, risk_adjusted_value, Priced, INGRESS_LARGE, INGRESS_QUOTA, MAX_EVENT_BLOCKS,
    MIN_EVENT_BLOCKS,
};
use pallet_cash::reorg::{formulate_reorg, receive_chain_reorg, walk_step};
use pallet_cash::tally::{ChainBlockTally, Origin, ValidatorKeys};
use pallet_cash::worker::{filter_already_supported, is_already_signed, track_chain_events_on, WorkerAction};

fn keys(n: u8) -> ValidatorKeys {
    ValidatorKeys { substrate_id: [n; 32], eth_address: [n; 20] }
}

fn two_validators() -> Vec<ValidatorKeys> {
    vec![keys(1), keys(2)]
}

fn block(number: u64, hash: u8, parent: u8, events: Vec<EthEvent>) -> ChainBlock {
    ChainBlock { chain: ChainId::Eth, number, hash: [hash; 32], parent_hash: [parent; 32], events }
}

fn genesis() -> ChainState {
    ChainState::new(block(1, 1, 0, vec![]), block(1, 1, 0, vec![]))
}

fn lock(amount: u128) -> EthEvent {
    EthEvent::Lock { asset: [238; 20], sender: [3; 20], recipient: [9; 32], amount }
}

fn at(number: u64, event: EthEvent) -> ChainBlockEvent {
    ChainBlockEvent { chain: ChainId::Eth, block_number: number, event }
}

/// Values an asset amount at the amount itself, whatever its age; knows no other price.
fn amount_value(p: Priced, _d: u64) -> Result<u128, Reason> {
    match p {
        Priced::Asset { amount, .. } => Ok(amount),
        _ => Err(Reason::NoPrice),
    }
}

fn vote(
    state: &mut ChainState,
    who: u8,
    blocks: Vec<ChainBlock>,
) -> Result<Vec<ChainBlockEvent>, Reason> {
    receive_chain_blocks(
        state,
        Origin::Unsigned,
        &ChainBlocks { chain: ChainId::Eth, blocks },
        Ok([who; 20]),
        &two_validators(),
        &amount_value,
    )
}

fn assert_linked(state: &ChainState) {
    let mut parent = state.last_block.hash;
    let mut number = state.last_block.number;
    for t in &state.pending_blocks {
        assert_eq!(t.block.parent_hash, parent);
        assert_eq!(t.block.number, number + 1);
        assert!(t.support.iter().all(|v| !t.dissent.contains(v)));
        parent = t.block.hash;
        number = t.block.number;
    }
}

#[test]
fn queue_slack_counts_room_left() {
    assert_eq!(queue_slack(&vec![]), 50);
    assert_eq!(queue_slack(&vec![at(1, lock(1)); 10]), 40);
    assert_eq!(queue_slack(&vec![at(1, lock(1)); 49]), 1);
    assert_eq!(queue_slack(&vec![at(1, lock(1)); 50]), 1);
    assert_eq!(queue_slack(&vec![at(1, lock(1)); 80]), 1);
}

#[test]
fn risk_value_of_future_event_is_unreachable() {
    assert_eq!(risk_adjusted_value(&at(10, lock(5)), 9, &amount_value), Err(Reason::Unreachable));
}

#[test]
fn risk_value_passes_elapsed_blocks_to_the_valuation() {
    let by_age = |_p: Priced, d: u64| -> Result<u128, Reason> { Ok(1000 * d as u128) };
    assert_eq!(risk_adjusted_value(&at(10, lock(5)), 17, &by_age), Ok(7000));
    let notice = EthEvent::NoticeInvoked { era_id: 1, era_index: 2, notice_hash: [7; 32] };
    assert_eq!(risk_adjusted_value(&at(10, notice), 17, &by_age), Ok(0));
}

#[test]
fn event_at_min_age_is_admitted() {
    let last = block(10 + MIN_EVENT_BLOCKS, 1, 0, vec![]);
    let mut queue = vec![at(10, lock(5)), at(11, lock(6))];
    let applied = ingress_queue(&last, &mut queue, &amount_value);
    assert_eq!(applied, vec![at(10, lock(5))]);
    assert_eq!(queue, vec![at(11, lock(6))]);
}

#[test]
fn event_past_max_age_costs_nothing() {
    let failing = |_p: Priced, _d: u64| -> Result<u128, Reason> { Err(Reason::NoPrice) };
    let last = block(100 + MAX_EVENT_BLOCKS + 1, 1, 0, vec![]);
    let mut queue = vec![at(101, lock(5)), at(100, lock(INGRESS_QUOTA + 1))];
    let applied = ingress_queue(&last, &mut queue, &failing);
    // the one at MAX_EVENT_BLOCKS is priced, fails and stays; the older one is free
    assert_eq!(applied, vec![at(100, lock(INGRESS_QUOTA + 1))]);
    assert_eq!(queue, vec![at(101, lock(5))]);
}

#[test]
fn round_drains_every_mature_event_when_quota_suffices() {
    let last = block(20, 1, 0, vec![]);
    let mut queue = vec![
        at(10, lock(3_000_000_000)),
        at(19, lock(1)),
        at(12, lock(3_000_000_000)),
        at(15, lock(4_000_000_000)),
        at(20, lock(2)),
    ];
    let applied = ingress_queue(&last, &mut queue, &amount_value);
    assert_eq!(applied, vec![at(10, lock(3_000_000_000)), at(12, lock(3_000_000_000)), at(15, lock(4_000_000_000))]);
    assert_eq!(queue, vec![at(19, lock(1)), at(20, lock(2))]);
}

#[test]
fn round_keeps_what_the_quota_cannot_cover() {
    let last = block(20, 1, 0, vec![]);
    let mut queue = vec![
        at(10, lock(6_000_000_000)),
        at(11, lock(6_000_000_000)),
        at(12, lock(3_000_000_000)),
        at(13, EthEvent::ExecuteProposal { proposal: [1; 32] }),
    ];
    let applied = ingress_queue(&last, &mut queue, &amount_value);
    // the second lock does not fit; the proposal has no price and waits
    assert_eq!(applied, vec![at(10, lock(6_000_000_000)), at(12, lock(3_000_000_000))]);
    assert_eq!(queue, vec![at(11, lock(6_000_000_000)), at(13, EthEvent::ExecuteProposal { proposal: [1; 32] })]);
}

#[test]
fn mismatched_parent_is_ignored_not_dissent() {
    let mut state = genesis();
    vote(&mut state, 1, vec![block(2, 2, 9, vec![])]).unwrap();
    assert_eq!(state.pending_blocks.len(), 0);

    vote(&mut state, 1, vec![block(2, 2, 1, vec![])]).unwrap();
    assert_eq!(state.pending_blocks.len(), 1);
    // a child of a block other than the pending one is ignored too
    vote(&mut state, 2, vec![block(3, 3, 7, vec![])]).unwrap();
    assert_eq!(state.pending_blocks.len(), 1);
    assert!(state.pending_blocks[0].dissent.is_empty());
    assert_eq!(state.pending_blocks[0].support, vec![[1; 32]]);
}

#[test]
fn supermajority_dissent_clears_pending() {
    let mut state = genesis();
    vote(&mut state, 1, vec![block(2, 2, 1, vec![]), block(3, 3, 2, vec![])]).unwrap();
    assert_eq!(state.pending_blocks.len(), 2);
    vote(&mut state, 2, vec![block(2, 8, 1, vec![])]).unwrap();
    assert_eq!(state.pending_blocks[0].dissent, vec![[2; 32]]);
    assert_linked(&state);
    // the first validator changes its mind: it leaves the support and joins the dissent
    vote(&mut state, 1, vec![block(2, 8, 1, vec![])]).unwrap();
    assert_eq!(state.pending_blocks, Vec::<ChainBlockTally>::new());
    assert_eq!(state.last_block.number, 1);
}

#[test]
fn pending_blocks_stay_linked() {
    let mut state = genesis();
    vote(&mut state, 1, vec![block(2, 2, 1, vec![]), block(4, 4, 3, vec![]), block(3, 3, 2, vec![])]).unwrap();
    assert_eq!(state.pending_blocks.len(), 2);
    assert_linked(&state);
    vote(&mut state, 2, vec![block(2, 2, 1, vec![])]).unwrap();
    assert_eq!(state.last_block, block(2, 2, 1, vec![]));
    assert_eq!(state.pending_blocks.len(), 1);
    assert_linked(&state);
}

#[test]
fn repeated_vote_changes_nothing() {
    let mut state = genesis();
    let msg = vec![block(2, 2, 1, vec![lock(1)]), block(3, 3, 2, vec![])];
    vote(&mut state, 1, msg.clone()).unwrap();
    let once = state.clone();
    let applied = vote(&mut state, 1, msg).unwrap();
    assert_eq!(applied, vec![]);
    assert_eq!(state.pending_blocks, once.pending_blocks);
    assert_eq!(state.last_block, once.last_block);
    assert_eq!(state.event_queue, once.event_queue);
}

fn reorg_state() -> (ChainState, ChainReorg, EthEvent) {
    let mut state = genesis();
    let old_event = lock(10);
    vote(&mut state, 1, vec![block(2, 3, 1, vec![old_event])]).unwrap();
    vote(&mut state, 2, vec![block(2, 3, 1, vec![old_event])]).unwrap();
    let reorg = ChainReorg {
        chain: ChainId::Eth,
        from_hash: [3; 32],
        to_hash: [5; 32],
        reverse_blocks: vec![block(2, 3, 1, vec![old_event])],
        forward_blocks: vec![block(2, 5, 1, vec![lock(9)])],
    };
    (state, reorg, old_event)
}

#[test]
fn reorg_from_another_head_is_refused() {
    let (mut state, mut reorg, _) = reorg_state();
    reorg.from_hash = [4; 32];
    let before = state.clone();
    let r = receive_chain_reorg(&mut state, Origin::Unsigned, reorg, Ok([1; 20]), &two_validators(), &amount_value);
    assert_eq!(r, Err(Reason::HashMismatch));
    assert_eq!(state.pending_reorgs, before.pending_reorgs);
}

#[test]
fn reorg_of_queued_event_drops_it_and_lands_on_to_hash() {
    let (mut state, reorg, _) = reorg_state();
    assert_eq!(state.event_queue.len(), 1);
    receive_chain_reorg(&mut state, Origin::Unsigned, reorg.clone(), Ok([1; 20]), &two_validators(), &amount_value)
        .unwrap();
    assert_eq!(state.pending_reorgs.len(), 1);
    // the same vote again leaves the support as it was
    receive_chain_reorg(&mut state, Origin::Unsigned, reorg.clone(), Ok([1; 20]), &two_validators(), &amount_value)
        .unwrap();
    assert_eq!(state.pending_reorgs[0].support, vec![[1; 32]]);
    let effects =
        receive_chain_reorg(&mut state, Origin::Unsigned, reorg.clone(), Ok([2; 20]), &two_validators(), &amount_value)
            .unwrap();
    assert_eq!(effects.unapply, vec![]);
    assert_eq!(state.last_block.hash, reorg.to_hash);
    assert_eq!(state.event_queue, vec![at(2, lock(9))]);
    assert_eq!(state.pending_reorgs, vec![]);
}

#[test]
fn reorg_unapplies_then_applies_and_ledger_round_trips() {
    let mut state = genesis();
    let free = |_p: Priced, _d: u64| -> Result<u128, Reason> { Ok(0) };
    let mut ledger: HashMap<[u8; 32], u128> = HashMap::new();
    let apply = |l: &mut HashMap<[u8; 32], u128>, e: &ChainBlockEvent| {
        if let EthEvent::Lock { recipient, amount, .. } = e.event {
            *l.entry(recipient).or_insert(0) += amount;
        }
    };
    let unapply = |l: &mut HashMap<[u8; 32], u128>, e: &ChainBlockEvent| {
        if let EthEvent::Lock { recipient, amount, .. } = e.event {
            *l.entry(recipient).or_insert(0) -= amount;
        }
    };
    let old_event = EthEvent::Lock { asset: [238; 20], sender: [3; 20], recipient: [4; 32], amount: 10 };
    let chain = vec![
        block(2, 3, 1, vec![old_event]),
        block(3, 13, 3, vec![]),
        block(4, 14, 13, vec![]),
        block(5, 15, 14, vec![]),
    ];
    for who in [1u8, 2] {
        let applied = receive_chain_blocks(
            &mut state,
            Origin::Unsigned,
            &ChainBlocks { chain: ChainId::Eth, blocks: chain.clone() },
            Ok([who; 20]),
            &two_validators(),
            &free,
        )
        .unwrap();
        applied.iter().for_each(|e| apply(&mut ledger, e));
    }
    assert_eq!(ledger[&[4; 32]], 10);
    let new_event = EthEvent::Lock { asset: [238; 20], sender: [3; 20], recipient: [5; 32], amount: 9 };
    let reorg = ChainReorg {
        chain: ChainId::Eth,
        from_hash: [15; 32],
        to_hash: [5; 32],
        reverse_blocks: vec![block(2, 3, 1, vec![old_event])],
        forward_blocks: vec![block(2, 5, 1, vec![new_event])],
    };
    for who in [1u8, 2] {
        let effects =
            receive_chain_reorg(&mut state, Origin::Unsigned, reorg.clone(), Ok([who; 20]), &two_validators(), &free)
                .unwrap();
        effects.unapply.iter().for_each(|e| unapply(&mut ledger, e));
        effects.apply.iter().for_each(|e| apply(&mut ledger, e));
    }
    assert_eq!(ledger[&[4; 32]], 0);
    assert_eq!(state.last_block.hash, [5; 32]);
    assert_eq!(state.event_queue, vec![at(2, new_event)]);
    // applying the forward events and undoing them in reverse order restores the ledger
    let saved = ledger.clone();
    let forward: Vec<ChainBlockEvent> = vec![at(2, new_event), at(2, lock(4))];
    forward.iter().for_each(|e| apply(&mut ledger, e));
    forward.iter().rev().for_each(|e| unapply(&mut ledger, e));
    assert!(ledger.iter().all(|(k, v)| *v == saved.get(k).copied().unwrap_or(0)));
}

#[test]
fn formulate_reorg_walks_no_further_than_first_block() {
    let old: Vec<ChainBlock> = (0..6).map(|i| block(i, 10 + i as u8, if i == 0 { 0 } else { 9 + i as u8 }, vec![])).collect();
    let new: Vec<ChainBlock> = (0..6).map(|i| block(i, 30 + i as u8, if i == 0 { 99 } else { 29 + i as u8 }, vec![])).collect();
    let cache: HashMap<[u8; 32], ChainBlock> = old.iter().map(|b| (b.hash, b.clone())).collect();
    let fetched: HashMap<u64, ChainBlock> = new.iter().map(|b| (b.number, b.clone())).collect();
    let reorg = formulate_reorg(
        ChainId::Eth,
        &old[5],
        &new[5],
        &old[2],
        &|h: [u8; 32]| cache.get(&h).cloned(),
        &|n: u64| fetched.get(&n).cloned().ok_or(Reason::MissingBlock),
    )
    .unwrap();
    // no common parent: the walk stops at the first block's height, after 5 - 2 steps
    assert_eq!(reorg.reverse_blocks.len() - 1, 3);
    assert_eq!(reorg.reverse_blocks.last().unwrap().number, 2);
    assert_eq!(reorg.forward_blocks[0].number, 2);

    // at height zero there is nothing to walk back to
    let r = formulate_reorg(
        ChainId::Eth,
        &old[0],
        &new[0],
        &old[0],
        &|h: [u8; 32]| cache.get(&h).cloned(),
        &|n: u64| fetched.get(&n).cloned().ok_or(Reason::MissingBlock),
    );
    assert_eq!(r, Err(Reason::MathError(MathError::Underflow)));

    // with the first block at the top, one step is taken and no more
    let reorg = formulate_reorg(
        ChainId::Eth,
        &old[5],
        &new[5],
        &old[5],
        &|h: [u8; 32]| cache.get(&h).cloned(),
        &|n: u64| fetched.get(&n).cloned().ok_or(Reason::MissingBlock),
    )
    .unwrap();
    assert_eq!(reorg.reverse_blocks.len(), 2);

    // a block of another chain ends the walk
    let mut matic = new.clone();
    matic[4].chain = ChainId::Matic;
    let fetched_mixed: HashMap<u64, ChainBlock> = matic.iter().map(|b| (b.number, b.clone())).collect();
    let r = formulate_reorg(
        ChainId::Eth,
        &old[5],
        &new[5],
        &old[0],
        &|h: [u8; 32]| cache.get(&h).cloned(),
        &|n: u64| fetched_mixed.get(&n).cloned().ok_or(Reason::MissingBlock),
    );
    assert_eq!(r, Err(Reason::Unreachable));
}

#[test]
fn walk_step_decides_each_answer() {
    let rev = block(5, 15, 14, vec![]);
    let fwd = block(5, 35, 34, vec![]);
    let b = block(4, 14, 13, vec![]);
    let f = block(4, 34, 33, vec![]);
    assert_eq!(walk_step(ChainId::Eth, &rev, &fwd, None, Ok(f.clone()), 0), Err(Reason::MissingBlock));
    assert_eq!(walk_step(ChainId::Eth, &rev, &fwd, Some(b.clone()), Err(Reason::NoPrice), 0), Err(Reason::NoPrice));
    assert_eq!(
        walk_step(ChainId::Eth, &rev, &fwd, Some(block(3, 14, 13, vec![])), Ok(f.clone()), 0),
        Err(Reason::BlockMismatch)
    );
    assert_eq!(walk_step(ChainId::Eth, &rev, &fwd, Some(b.clone()), Ok(f.clone()), 0), Ok((b.clone(), f.clone(), false)));
    assert_eq!(walk_step(ChainId::Eth, &rev, &fwd, Some(b.clone()), Ok(f.clone()), 4), Ok((b.clone(), f.clone(), true)));
    let shared = block(4, 34, 13, vec![]);
    assert_eq!(walk_step(ChainId::Eth, &rev, &fwd, Some(b.clone()), Ok(shared.clone()), 0), Ok((b, shared, true)));
}

#[test]
fn risk_value_follows_the_event_kind() {
    let seen = |p: Priced, d: u64| -> Result<u128, Reason> {
        match p {
            Priced::Asset { amount, .. } => Ok(amount + d as u128),
            Priced::Cash { principal } => Ok(2 * principal),
            Priced::Usd { value } => Ok(value),
        }
    };
    assert_eq!(risk_adjusted_value(&at(10, lock(5)), 12, &seen), Ok(7));
    let cash = EthEvent::LockCash { sender: [1; 20], recipient: [2; 32], amount: 8, principal: 3 };
    assert_eq!(risk_adjusted_value(&at(10, cash), 12, &seen), Ok(6));
    let proposal = EthEvent::ExecuteProposal { proposal: [1; 32] };
    assert_eq!(risk_adjusted_value(&at(10, proposal), 12, &seen), Ok(INGRESS_LARGE));
}

#[test]
fn reorg_missing_its_target_is_tallied_but_never_performed() {
    for empty in [false, true] {
        let (mut state, mut reorg, _) = reorg_state();
        if empty {
            reorg.forward_blocks = vec![];
        } else {
            reorg.to_hash = [6; 32];
        }
        // the first vote is counted like any other
        let effects =
            receive_chain_reorg(&mut state, Origin::Unsigned, reorg.clone(), Ok([1; 20]), &two_validators(), &amount_value)
                .unwrap();
        assert_eq!(effects.unapply, vec![]);
        assert_eq!(state.pending_reorgs.len(), 1);
        // the vote that would carry it is refused, and nothing changes
        let before = state.clone();
        let r = receive_chain_reorg(&mut state, Origin::Unsigned, reorg, Ok([2; 20]), &two_validators(), &amount_value);
        assert_eq!(r, Err(Reason::HashMismatch));
        assert_eq!(state.pending_reorgs, before.pending_reorgs);
        assert_eq!(state.last_block, before.last_block);
        assert_eq!(state.event_queue, before.event_queue);
    }
}

#[test]
fn reorg_undoes_events_newest_first() {
    let mut state = genesis();
    let free = |_p: Priced, _d: u64| -> Result<u128, Reason> { Ok(0) };
    let chain = vec![
        block(2, 3, 1, vec![lock(1), lock(2)]),
        block(3, 13, 3, vec![lock(3)]),
        block(4, 14, 13, vec![]),
        block(5, 15, 14, vec![]),
        block(6, 16, 15, vec![]),
    ];
    for who in [1u8, 2] {
        receive_chain_blocks(
            &mut state,
            Origin::Unsigned,
            &ChainBlocks { chain: ChainId::Eth, blocks: chain.clone() },
            Ok([who; 20]),
            &two_validators(),
            &free,
        )
        .unwrap();
    }
    assert_eq!(state.event_queue, vec![]);
    let reorg = ChainReorg {
        chain: ChainId::Eth,
        from_hash: [16; 32],
        to_hash: [5; 32],
        reverse_blocks: chain[..5].iter().rev().cloned().collect(),
        forward_blocks: vec![block(2, 5, 1, vec![])],
    };
    let mut effects = None;
    for who in [1u8, 2] {
        effects = Some(
            receive_chain_reorg(&mut state, Origin::Unsigned, reorg.clone(), Ok([who; 20]), &two_validators(), &free)
                .unwrap(),
        );
    }
    assert_eq!(effects.unwrap().unapply, vec![at(3, lock(3)), at(2, lock(2)), at(2, lock(1))]);
    assert_eq!(state.last_block.hash, [5; 32]);
}

#[test]
fn worker_extends_with_blocks_not_yet_voted() {
    let mut state = genesis();
    vote(&mut state, 1, vec![block(2, 2, 1, vec![])]).unwrap();
    let chain: HashMap<u64, ChainBlock> =
        [block(2, 2, 1, vec![]), block(3, 3, 2, vec![]), block(4, 4, 3, vec![])].into_iter().map(|b| (b.number, b)).collect();
    let cache: HashMap<[u8; 32], ChainBlock> = HashMap::new();
    let action = track_chain_events_on(
        ChainId::Eth,
        &state,
        &[1; 32],
        &|n: u64| chain.get(&n).cloned().ok_or(Reason::MissingBlock),
        &|a: u64, b: u64| {
            assert_eq!((a, b), (3, 53));
            Ok((a..b).filter_map(|n| chain.get(&n).cloned()).collect())
        },
        &|h: [u8; 32]| cache.get(&h).cloned(),
    )
    .unwrap();
    assert_eq!(
        action,
        WorkerAction::SubmitBlocks(ChainBlocks {
            chain: ChainId::Eth,
            blocks: vec![block(3, 3, 2, vec![]), block(4, 4, 3, vec![])]
        })
    );
    // another validator has voted for nothing yet
    let kept = filter_already_supported(vec![block(2, 2, 1, vec![])], &[2; 32], &state.pending_blocks);
    assert_eq!(kept, vec![block(2, 2, 1, vec![])]);
}

#[test]
fn worker_waits_on_its_own_reorg() {
    let (mut state, reorg, _) = reorg_state();
    assert!(!is_already_signed(&reorg, &[1; 32], &state.pending_reorgs));
    receive_chain_reorg(&mut state, Origin::Unsigned, reorg.clone(), Ok([1; 20]), &two_validators(), &amount_value)
        .unwrap();
    assert!(is_already_signed(&reorg, &[1; 32], &state.pending_reorgs));
    assert!(!is_already_signed(&reorg, &[2; 32], &state.pending_reorgs));

    let mut s = genesis();
    s.last_block = block(u64::MAX, 1, 0, vec![]);
    let none: HashMap<u64, ChainBlock> = HashMap::new();
    let r = track_chain_events_on(
        ChainId::Eth,
        &s,
        &[1; 32],
        &|n: u64| none.get(&n).cloned().ok_or(Reason::MissingBlock),
        &|_a: u64, _b: u64| Ok(vec![]),
        &|_h: [u8; 32]| None,
    );
    assert_eq!(r, Err(Reason::MathError(MathError::Overflow)));
}

#[test]
fn state_check_accepts_kept_states_and_refuses_broken_ones() {
    let mut state = genesis();
    assert!(state.check());
    vote(&mut state, 1, vec![block(2, 2, 1, vec![]), block(3, 3, 2, vec![])]).unwrap();
    vote(&mut state, 2, vec![block(3, 9, 2, vec![])]).unwrap();
    assert!(state.check());
    let mut broken = state.clone();
    broken.pending_blocks[1].block.parent_hash = [7; 32];
    assert!(!broken.check());
    let mut both = state.clone();
    both.pending_blocks[1].support.push([2; 32]);
    assert!(!both.check());
}

#[test]
fn fully_decayed_event_leaves_the_rest_of_the_round_alone() {
    let last = block(100 + MAX_EVENT_BLOCKS + 1, 1, 0, vec![]);
    let others = vec![at(110, lock(6_000_000_000)), at(120, lock(6_000_000_000)), at(150, lock(3_000_000_000))];
    let old = at(100, EthEvent::ExecuteProposal { proposal: [4; 32] });
    let mut without = others.clone();
    let applied_without = ingress_queue(&last, &mut without, &amount_value);
    let mut with = vec![others[0], old, others[1], others[2]];
    let applied_with = ingress_queue(&last, &mut with, &amount_value);
    assert_eq!(with, without);
    assert_eq!(applied_with, vec![others[0], old, others[2]]);
    assert_eq!(applied_without, vec![others[0], others[2]]);
}
