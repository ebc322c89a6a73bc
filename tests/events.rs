use std::collections::HashMap;

use pallet_cash::blocks::{receive_chain_blocks, ChainState};
use pallet_cash::chains::{
    collect_rev, ChainBlock, ChainBlockEvent, ChainBlocks, ChainId, ChainReorg, EthEvent, Reason,
};
use pallet_cash::ingress::Priced;
use pallet_cash::reorg::{formulate_reorg, receive_chain_reorg};
use pallet_cash::tally::{ChainReorgTally, Origin, ValidatorKeys};
use pallet_cash::worker::{track_chain_events_on, WorkerAction};

fn gen_blocks(start_block: u64, until_block: u64, pad: u8) -> Vec<ChainBlock> {
    let mut hash = [0u8; 32];
    let mut v: Vec<ChainBlock> = vec![];
    for i in start_block..until_block {
        let parent_hash = hash;
        let mut hashvec = i.to_le_bytes().to_vec();
        hashvec.extend_from_slice(&[pad; 24]);
        hash = hashvec.try_into().unwrap();
        v.push(ChainBlock { chain: ChainId::Eth, hash, parent_hash, number: i, events: vec![] });
    }
    v
}

fn cache_of(blocks: &[ChainBlock]) -> HashMap<[u8; 32], ChainBlock> {
    blocks.iter().map(|b| (b.hash, b.clone())).collect()
}

fn by_number(blocks: &[ChainBlock]) -> HashMap<u64, ChainBlock> {
    blocks.iter().map(|b| (b.number, b.clone())).collect()
}

fn val_a() -> ValidatorKeys {
    ValidatorKeys { substrate_id: [1; 32], eth_address: [0xaa; 20] }
}

fn val_b() -> ValidatorKeys {
    ValidatorKeys { substrate_id: [2; 32], eth_address: [0xbb; 20] }
}

fn validators() -> Vec<ValidatorKeys> {
    vec![val_a(), val_b()]
}

fn premined_block() -> ChainBlock {
    ChainBlock { chain: ChainId::Eth, number: 1, hash: [1; 32], parent_hash: [0; 32], events: vec![] }
}

fn genesis_state() -> ChainState {
    ChainState::new(premined_block(), premined_block())
}

/// Prices every event at 20,000 USD until it is `free_after` blocks old, then at nothing.
fn decaying(free_after: u64) -> impl Fn(Priced, u64) -> Result<u128, Reason> {
    move |_p: Priced, d: u64| if d >= free_after { Ok(0) } else { Ok(20_000_000_000) }
}

fn all_receive_chain_blocks(
    state: &mut ChainState,
    blocks: &ChainBlocks,
    value_of: &impl Fn(Priced, u64) -> Result<u128, Reason>,
) -> Vec<ChainBlockEvent> {
    let mut applied = vec![];
    for v in validators() {
        applied.extend(
            receive_chain_blocks(state, Origin::Unsigned, blocks, Ok(v.eth_address), &validators(), value_of)
                .unwrap(),
        );
    }
    applied
}

fn lock_event(recipient: [u8; 32], amount: u128) -> EthEvent {
    EthEvent::Lock { asset: [238; 20], sender: [3; 20], recipient, amount }
}

fn tagged(number: u64, event: EthEvent) -> ChainBlockEvent {
    ChainBlockEvent { chain: ChainId::Eth, block_number: number, event }
}

fn empty_block(number: u64, hash: [u8; 32], parent_hash: [u8; 32]) -> ChainBlock {
    ChainBlock { chain: ChainId::Eth, number, hash, parent_hash, events: vec![] }
}

#[test]
fn test_track_chain_events_on_eth_reorg_and_back() {
    let old_chain = gen_blocks(0, 10, 0);
    let new_chain = gen_blocks(1, 10, 1);
    let common_ancestor_block = old_chain[0].clone();
    let last_block = old_chain.last().unwrap().clone();
    let true_block = new_chain.last().unwrap().clone();

    // the external chain now follows new_chain
    let mut fetched = by_number(&new_chain);
    fetched.insert(10, empty_block(10, [10; 32], true_block.hash));
    let mut state = ChainState::new(common_ancestor_block.clone(), last_block.clone());
    let cache = cache_of(&old_chain);
    let action = track_chain_events_on(
        ChainId::Eth,
        &state,
        &[1; 32],
        &|n: u64| fetched.get(&n).cloned().ok_or(Reason::MissingBlock),
        &|_a: u64, _b: u64| Ok(vec![]),
        &|h: [u8; 32]| cache.get(&h).cloned(),
    )
    .unwrap();
    let forward = match action {
        WorkerAction::SubmitReorg(reorg) => {
            assert_eq!(reorg.from_hash, last_block.hash);
            assert_eq!(reorg.to_hash, true_block.hash);
            reorg.forward_blocks
        }
        other => panic!("expected a reorg, got {:?}", other),
    };

    // the external chain goes back to old_chain
    state.last_block = true_block.clone();
    let mut fetched_back = by_number(&old_chain);
    fetched_back.insert(10, empty_block(10, [10; 32], last_block.hash));
    let mut cache_back = cache_of(&old_chain);
    cache_back.extend(cache_of(&forward));
    let action = track_chain_events_on(
        ChainId::Eth,
        &state,
        &[1; 32],
        &|n: u64| fetched_back.get(&n).cloned().ok_or(Reason::MissingBlock),
        &|_a: u64, _b: u64| Ok(vec![]),
        &|h: [u8; 32]| cache_back.get(&h).cloned(),
    )
    .unwrap();
    match action {
        WorkerAction::SubmitReorg(reorg) => {
            assert_eq!(reorg.from_hash, true_block.hash);
            assert_eq!(reorg.to_hash, last_block.hash);
        }
        other => panic!("expected a reorg, got {:?}", other),
    }
}

#[test]
fn test_formulate_reorg() {
    let old_chain = gen_blocks(0, 10, 0);
    let new_chain = gen_blocks(1, 10, 1);
    let common_ancestor_block = old_chain[0].clone();
    let last_block = old_chain.last().unwrap().clone();
    let true_block = new_chain.last().unwrap().clone();

    // new_chain blocks -> 1...9, excluding true block -> 1...8 -> indices 0..8
    let fetched = by_number(&new_chain[0..8]);
    let cache = cache_of(&old_chain);
    let reorg = formulate_reorg(
        ChainId::Eth,
        &last_block,
        &true_block,
        &common_ancestor_block,
        &|h: [u8; 32]| cache.get(&h).cloned(),
        &|n: u64| fetched.get(&n).cloned().ok_or(Reason::MissingBlock),
    )
    .unwrap();

    assert_eq!(reorg.from_hash, last_block.hash);
    assert_eq!(reorg.to_hash, true_block.hash);
    assert_eq!(reorg.reverse_blocks, old_chain[1..10].iter().rev().cloned().collect::<Vec<_>>());
    assert_eq!(
        reorg.forward_blocks.iter().map(|x| x.hash).collect::<Vec<_>>(),
        new_chain.iter().map(|x| x.hash).collect::<Vec<_>>()
    );
}

#[test]
fn test_formulate_reorg_height_mismatch() {
    let old_chain = gen_blocks(0, 10, 0);
    let new_chain = gen_blocks(1, 9, 1);
    let common_ancestor_block = old_chain[0].clone();
    let last_block = old_chain.last().unwrap().clone();
    let true_block = new_chain.last().unwrap().clone();

    let fetched: HashMap<u64, ChainBlock> = HashMap::new();
    let cache: HashMap<[u8; 32], ChainBlock> = HashMap::new();
    assert_eq!(
        formulate_reorg(
            ChainId::Eth,
            &last_block,
            &true_block,
            &common_ancestor_block,
            &|h: [u8; 32]| cache.get(&h).cloned(),
            &|n: u64| fetched.get(&n).cloned().ok_or(Reason::MissingBlock),
        ),
        Err(Reason::BlockMismatch)
    );
}

#[test]
fn test_formulate_reorg_missing_data() {
    let old_chain = gen_blocks(0, 10, 0);
    let new_chain = gen_blocks(1, 10, 1);
    let common_ancestor_block = old_chain[0].clone();
    let last_block = old_chain.last().unwrap().clone();
    let true_block = new_chain.last().unwrap().clone();

    let fetched = by_number(&new_chain[7..8]);
    // only old_chain[8..10] is remembered, and the chain does not know old_chain[7] either
    let cache = cache_of(&old_chain[8..10]);
    assert_eq!(
        formulate_reorg(
            ChainId::Eth,
            &last_block,
            &true_block,
            &common_ancestor_block,
            &|h: [u8; 32]| cache.get(&h).cloned(),
            &|n: u64| fetched.get(&n).cloned().ok_or(Reason::MissingBlock),
        ),
        Err(Reason::MissingBlock)
    );
}

#[test]
fn test_formulate_reorg_before_first() {
    let old_chain = gen_blocks(0, 10, 0);
    let new_chain = gen_blocks(0, 10, 1);
    let last_block = old_chain.last().unwrap().clone();
    let true_block = new_chain.last().unwrap().clone();

    let fetched = by_number(&new_chain[0..9]);
    let cache = cache_of(&old_chain);
    let reorg = formulate_reorg(
        ChainId::Eth,
        &last_block,
        &true_block,
        &old_chain[0],
        &|h: [u8; 32]| cache.get(&h).cloned(),
        &|n: u64| fetched.get(&n).cloned().ok_or(Reason::MissingBlock),
    )
    .unwrap();

    assert_eq!(reorg.from_hash, last_block.hash);
    assert_eq!(reorg.to_hash, true_block.hash);
    assert_eq!(reorg.reverse_blocks, old_chain.iter().rev().cloned().collect::<Vec<_>>());
    assert_eq!(
        reorg.forward_blocks.iter().map(|x| x.hash).collect::<Vec<_>>(),
        new_chain.iter().map(|x| x.hash).collect::<Vec<_>>()
    );
}

#[test]
fn test_receive_chain_reorg() {
    let mut state = genesis_state();
    let value_of = decaying(3);

    let reorg_block_hash = [3; 32];
    let real_block_hash = [5; 32];
    let reorg_event = lock_event([4; 32], 10_000_000_000_000_000_000);
    let real_event = lock_event([5; 32], 9_000_000_000_000_000_000);

    let reorg_block = ChainBlock {
        chain: ChainId::Eth,
        hash: reorg_block_hash,
        parent_hash: premined_block().hash,
        number: 2,
        events: vec![reorg_event],
    };
    let real_block = ChainBlock {
        chain: ChainId::Eth,
        hash: real_block_hash,
        parent_hash: premined_block().hash,
        number: 2,
        events: vec![real_event],
    };

    let latest_hash = [10; 32];

    // mine dummy blocks to get past limit
    let blocks_3 = ChainBlocks {
        chain: ChainId::Eth,
        blocks: vec![
            empty_block(3, [3; 32], reorg_block_hash),
            empty_block(4, [4; 32], [3; 32]),
            empty_block(5, latest_hash, [4; 32]),
        ],
    };

    let reorg = ChainReorg {
        chain: ChainId::Eth,
        from_hash: latest_hash,
        to_hash: real_block_hash,
        reverse_blocks: vec![reorg_block.clone()],
        forward_blocks: vec![real_block.clone()],
    };

    // apply the to-be reorg'd block and a dummy block so that it is ingressed
    let applied = all_receive_chain_blocks(
        &mut state,
        &ChainBlocks { chain: ChainId::Eth, blocks: vec![reorg_block] },
        &value_of,
    );
    assert_eq!(applied, vec![]);
    assert_eq!(state.event_queue, vec![tagged(2, reorg_event)]);

    let applied = all_receive_chain_blocks(&mut state, &blocks_3, &value_of);
    assert_eq!(applied, vec![tagged(2, reorg_event)]);
    assert_eq!(state.pending_reorgs, vec![]);

    // val a sends reorg, tally started
    let effects = receive_chain_reorg(
        &mut state,
        Origin::Unsigned,
        reorg.clone(),
        Ok(val_a().eth_address),
        &validators(),
        &value_of,
    )
    .unwrap();
    assert_eq!(effects.unapply, vec![]);
    assert_eq!(effects.apply, vec![]);
    assert_eq!(state.pending_reorgs, vec![ChainReorgTally { reorg: reorg.clone(), support: vec![val_a().substrate_id] }]);

    // val b sends reorg: the reorg is executed, the old event reverted and the new one queued
    let effects = receive_chain_reorg(
        &mut state,
        Origin::Unsigned,
        reorg.clone(),
        Ok(val_b().eth_address),
        &validators(),
        &value_of,
    )
    .unwrap();
    assert_eq!(effects.unapply, vec![tagged(2, reorg_event)]);
    assert_eq!(effects.apply, vec![]);
    assert_eq!(state.last_block, real_block);
    assert_eq!(state.pending_blocks, vec![]);
    assert_eq!(state.pending_reorgs, vec![]);
    assert_eq!(state.event_queue, vec![tagged(2, real_event)]);

    // mine dummy blocks so that the new event is ingressed
    let blocks_4 = ChainBlocks {
        chain: ChainId::Eth,
        blocks: vec![
            empty_block(3, [3; 32], real_block_hash),
            empty_block(4, [4; 32], [3; 32]),
            empty_block(5, [5; 32], [4; 32]),
        ],
    };
    let applied = all_receive_chain_blocks(&mut state, &blocks_4, &value_of);
    assert_eq!(applied, vec![tagged(2, real_event)]);
    assert_eq!(state.event_queue, vec![]);
}

#[test]
fn test_collect_rev() {
    let x = vec![1, 2, 3];
    let y = collect_rev(x.iter().map(|v| v + 1).collect());
    assert_eq!(y, vec![4, 3, 2]);
}

#[test]
fn test_receive_chain_blocks_fails_for_signed_origin() {
    let mut state = genesis_state();
    let blocks = ChainBlocks { chain: ChainId::Eth, blocks: vec![] };
    let before = state.clone();
    assert_eq!(
        receive_chain_blocks(
            &mut state,
            Origin::Signed(Default::default()),
            &blocks,
            Err(Reason::CryptoError),
            &validators(),
            &decaying(0),
        ),
        Err(Reason::BadOrigin)
    );
    assert_eq!(state.last_block, before.last_block);
}

#[test]
fn test_receive_chain_blocks_fails_for_invalid_signature() {
    let mut state = genesis_state();
    let blocks = ChainBlocks { chain: ChainId::Eth, blocks: vec![] };
    assert_eq!(
        receive_chain_blocks(&mut state, Origin::Unsigned, &blocks, Err(Reason::CryptoError), &validators(), &decaying(0)),
        Err(Reason::CryptoError)
    );
}

#[test]
fn test_receive_chain_blocks_fails_if_not_validator() {
    let mut state = genesis_state();
    let blocks = ChainBlocks { chain: ChainId::Eth, blocks: vec![] };
    // a valid signature by a key outside the validator set
    let outsider = [0x42u8; 20];
    assert_eq!(
        receive_chain_blocks(&mut state, Origin::Unsigned, &blocks, Ok(outsider), &validators(), &decaying(0)),
        Err(Reason::UnknownValidator)
    );
}

#[test]
fn test_receive_chain_blocks_happy_path() {
    let mut state = genesis_state();
    // 75 ETH at 2000 USD is over the quota until the risk has decayed, four blocks on
    let value_of = decaying(4);

    let event = lock_event([2; 32], 75_000_000_000_000_000_000);
    let blocks_2 = ChainBlocks {
        chain: ChainId::Eth,
        blocks: vec![ChainBlock {
            chain: ChainId::Eth,
            hash: [2; 32],
            parent_hash: premined_block().hash,
            number: 2,
            events: vec![event],
        }],
    };
    let blocks_3 = ChainBlocks {
        chain: ChainId::Eth,
        blocks: vec![
            empty_block(3, [3; 32], [2; 32]),
            empty_block(4, [4; 32], [3; 32]),
            empty_block(5, [5; 32], [4; 32]),
        ],
    };
    let blocks_4 = ChainBlocks { chain: ChainId::Eth, blocks: vec![empty_block(6, [6; 32], [5; 32])] };

    // Sign and dispatch from first validator
    let applied = receive_chain_blocks(
        &mut state,
        Origin::Unsigned,
        &blocks_2,
        Ok(val_a().eth_address),
        &validators(),
        &value_of,
    )
    .unwrap();
    assert_eq!(applied, vec![]);

    // Block should be pending, nothing in event queue yet
    assert_eq!(state.pending_blocks.len(), 1);
    assert_eq!(state.event_queue, vec![]);

    // Sign and dispatch from second validator
    let applied = receive_chain_blocks(
        &mut state,
        Origin::Unsigned,
        &blocks_2,
        Ok(val_b().eth_address),
        &validators(),
        &value_of,
    )
    .unwrap();
    assert_eq!(applied, vec![]);

    // First round is too new - not yet processed
    assert_eq!(state.pending_blocks.len(), 0);
    assert_eq!(state.event_queue, vec![tagged(2, event)]);

    // Receive enough blocks to ingress another round
    let applied = all_receive_chain_blocks(&mut state, &blocks_3, &value_of);
    assert_eq!(applied, vec![]);

    // Second round should still be over quota - not yet processed
    assert_eq!(state.pending_blocks.len(), 0);
    assert_eq!(state.event_queue.len(), 1);

    // Receive enough blocks to ingress another round
    let applied = all_receive_chain_blocks(&mut state, &blocks_4, &value_of);

    // Third round should process
    assert_eq!(state.pending_blocks.len(), 0);
    assert_eq!(state.event_queue.len(), 0);
    assert_eq!(applied, vec![tagged(2, event)]);
}
