use vstd::prelude::*;

use crate::blocks::{reorg_tallies_view, tallies_view, ChainState};
use crate::chains::{
    block_eq, blocks_view, bytes_eq, copy_block, reorg_eq, BlockView, ChainBlock, ChainBlocks, ChainId, ChainReorg,
    Hash32, MathError, Reason, ReorgView,
};
use crate::ingress::{queue_slack, slack_of};
use crate::reorg::{formulate_reorg, is_walk, walk_succeeds};
use crate::tally::{contains_id, ChainBlockTally, ChainReorgTally, ReorgTallyView, TallyView, ValidatorId};

verus! {

/// What a worker should send after one look at the external chain.
#[derive(Clone, Debug, PartialEq, Eq)]
pub enum WorkerAction {
    /// Vote for these blocks.
    SubmitBlocks(ChainBlocks),
    /// Vote for this reorg.
    SubmitReorg(ChainReorg),
    /// This validator already voted for the reorg it sees: nothing to send.
    Wait,
}

/// Whether `me` already supports a pending tally of block `b`.
pub open spec fn already_supported(b: BlockView, me: ValidatorId, pending: Seq<TallyView>) -> bool {
    exists|i: int| 0 <= i < pending.len() && pending[i].block == b && pending[i].support.contains(me)
}

/// The blocks of `bs` that `me` does not already support, in order.
pub open spec fn unsupported(bs: Seq<BlockView>, me: ValidatorId, pending: Seq<TallyView>) -> Seq<BlockView>
    decreases bs.len(),
{
    if bs.len() == 0 {
        seq![]
    } else if already_supported(bs.last(), me, pending) {
        unsupported(bs.drop_last(), me, pending)
    } else {
        unsupported(bs.drop_last(), me, pending).push(bs.last())
    }
}

/// Whether `me` already supports a pending tally of reorg `r`.
pub open spec fn already_signed(r: ReorgView, me: ValidatorId, reorgs: Seq<ReorgTallyView>) -> bool {
    exists|i: int| 0 <= i < reorgs.len() && reorgs[i].reorg == r && reorgs[i].support.contains(me)
}

/// Drop the blocks that `me` has already voted for.
pub fn filter_already_supported(
    blocks: Vec<ChainBlock>,
    me: &ValidatorId,
    pending: &Vec<ChainBlockTally>,
) -> (r: Vec<ChainBlock>)
    ensures
        blocks_view(r@) == unsupported(blocks_view(blocks@), *me, tallies_view(pending@)),
{
    let ghost bs = blocks_view(blocks@);
    let ghost pv = tallies_view(pending@);
    let mut out: Vec<ChainBlock> = Vec::new();
    let mut i: usize = 0;
    assert(bs.take(0) =~= seq![]);
    while i < blocks.len()
        invariant
            i <= blocks@.len(),
            bs == blocks_view(blocks@),
            pv == tallies_view(pending@),
            blocks_view(out@) == unsupported(bs.take(i as int), *me, pv),
        decreases blocks.len() - i,
    {
        let b = &blocks[i];
        let mut supported = false;
        let mut j: usize = 0;
        while j < pending.len()
            invariant
                j <= pending@.len(),
                pv == tallies_view(pending@),
                supported == exists|x: int| 0 <= x < j && pv[x].block == b@ && pv[x].support.contains(*me),
            decreases pending.len() - j,
        {
            let hit = block_eq(&pending[j].block, b) && contains_id(&pending[j].support, me);
            assert(pv[j as int] == pending@[j as int]@);
            assert(hit == (pv[j as int].block == b@ && pv[j as int].support.contains(*me)));
            if hit {
                supported = true;
            }
            j = j + 1;
        }
        assert(supported == already_supported(b@, *me, pv));
        assert(bs.take(i + 1).drop_last() =~= bs.take(i as int));
        assert(bs.take(i + 1).last() == b@);
        if !supported {
            let ghost before = out@;
            out.push(copy_block(b));
            assert(blocks_view(out@) =~= blocks_view(before).push(b@));
        }
        i = i + 1;
    }
    assert(bs.take(i as int) =~= bs);
    out
}

/// Whether `me` has already voted for `reorg`.
pub fn is_already_signed(reorg: &ChainReorg, me: &ValidatorId, pending_reorgs: &Vec<ChainReorgTally>) -> (r:
    bool)
    ensures
        r == already_signed(reorg@, *me, reorg_tallies_view(pending_reorgs@)),
{
    let ghost rv = reorg_tallies_view(pending_reorgs@);
    let mut j: usize = 0;
    while j < pending_reorgs.len()
        invariant
            j <= pending_reorgs@.len(),
            rv == reorg_tallies_view(pending_reorgs@),
            forall|x: int| 0 <= x < j ==> !(rv[x].reorg == reorg@ && rv[x].support.contains(*me)),
        decreases pending_reorgs.len() - j,
    {
        let hit = reorg_eq(&pending_reorgs[j].reorg, reorg) && contains_id(&pending_reorgs[j].support, me);
        assert(rv[j as int] == pending_reorgs@[j as int]@);
        assert(hit == (rv[j as int].reorg == reorg@ && rv[j as int].support.contains(*me)));
        if hit {
            return true;
        }
        j = j + 1;
    }
    false
}

/// The action on the same fork: vote for `next` and then `rest`, less the blocks `me` already
/// supports.
pub fn blocks_to_submit(
    chain_id: ChainId,
    state: &ChainState,
    me: &ValidatorId,
    next: &ChainBlock,
    rest: &Vec<ChainBlock>,
) -> (r: WorkerAction)
    ensures
        r matches WorkerAction::SubmitBlocks(m) && m.chain == chain_id && blocks_view(m.blocks@)
            == unsupported(seq![next@] + blocks_view(rest@), *me, state@.pending),
{
    let mut all: Vec<ChainBlock> = Vec::new();
    all.push(copy_block(next));
    let mut i: usize = 0;
    while i < rest.len()
        invariant
            i <= rest@.len(),
            blocks_view(all@) =~= seq![next@] + blocks_view(rest@).take(i as int),
        decreases rest.len() - i,
    {
        let ghost before = all@;
        all.push(copy_block(&rest[i]));
        assert(blocks_view(all@) =~= blocks_view(before).push(rest@[i as int]@));
        assert(blocks_view(rest@).take(i + 1) =~= blocks_view(rest@).take(i as int).push(rest@[i as int]@));
        i = i + 1;
    }
    assert(blocks_view(rest@).take(i as int) =~= blocks_view(rest@));
    let blocks = filter_already_supported(all, me, &state.pending_blocks);
    WorkerAction::SubmitBlocks(ChainBlocks { chain: chain_id, blocks })
}

/// The action on another fork, given the reorg leading to it: wait exactly when `me` has
/// already voted for it, else vote for it.
pub fn reorg_action(state: &ChainState, me: &ValidatorId, reorg: ChainReorg) -> (r: WorkerAction)
    ensures
        already_signed(reorg@, *me, state@.reorgs) ==> r == WorkerAction::Wait,
        !already_signed(reorg@, *me, state@.reorgs) ==> r == WorkerAction::SubmitReorg(reorg),
{
    if is_already_signed(&reorg, me, &state.pending_reorgs) {
        WorkerAction::Wait
    } else {
        WorkerAction::SubmitReorg(reorg)
    }
}

/// `o` is a reorg that the worker formulates from answers `fetch` and `recall` can give: the
/// block after the last one does not extend it, and `o` walks back from the last block and the
/// block now at its height.
pub open spec fn formulated_from<F: Fn(u64) -> Result<ChainBlock, Reason>, R: Fn(Hash32) -> Option<ChainBlock>>(
    o: ChainReorg,
    chain_id: ChainId,
    state: ChainState,
    fetch: F,
    recall: R,
) -> bool {
    exists|next: ChainBlock, truth: ChainBlock|
        {
            &&& #[trigger] fetch.ensures(((state.last_block.number + 1) as u64,), Ok::<ChainBlock, Reason>(next))
            &&& next.parent_hash != state.last_block.hash
            &&& #[trigger] fetch.ensures((state.last_block.number,), Ok::<ChainBlock, Reason>(truth))
            &&& o.chain == chain_id
            &&& o.from_hash == state.last_block.hash
            &&& o.to_hash == truth.hash
            &&& is_walk(
                o.reverse_blocks@,
                o.forward_blocks@.reverse(),
                state.last_block@,
                truth@,
                chain_id,
                state.first_block.number,
                recall,
                fetch,
            )
        }
}

/// Every answer `fetch` can give at height `n` is the error `e`.
pub open spec fn fetch_fails_with<F: Fn(u64) -> Result<ChainBlock, Reason>>(fetch: F, n: u64, e: Reason) -> bool {
    forall|o: Result<ChainBlock, Reason>| #[trigger] fetch.ensures((n,), o) ==> o == Err::<ChainBlock, Reason>(e)
}

/// Every answer `fetch_range` can give for `from..to` is the error `e`.
pub open spec fn range_fails_with<G: Fn(u64, u64) -> Result<Vec<ChainBlock>, Reason>>(
    fetch_range: G,
    from: u64,
    to: u64,
    e: Reason,
) -> bool {
    forall|o: Result<Vec<ChainBlock>, Reason>|
        #[trigger] fetch_range.ensures((from, to), o) ==> o == Err::<Vec<ChainBlock>, Reason>(e)
}

/// Every answer `fetch` can give at height `n` is a block, whose parent is (when `extends`) or
/// is not `parent`.
pub open spec fn fetch_gives_child<F: Fn(u64) -> Result<ChainBlock, Reason>>(
    fetch: F,
    n: u64,
    parent: Hash32,
    extends: bool,
) -> bool {
    forall|o: Result<ChainBlock, Reason>|
        #[trigger] fetch.ensures((n,), o) ==> o is Ok && (o->Ok_0.parent_hash == parent) == extends
}

/// One step of a worker on a chain: look at the block after the last processed one; if it
/// extends the last block, vote for it and for the blocks after it that the queue has room
/// for (those this validator has not voted for yet); otherwise walk back to find the reorg
/// that leads to the new chain and vote for it, unless already done. An error of `fetch`,
/// `fetch_range` or of the walk comes back as it is.
pub fn track_chain_events_on<
    F: Fn(u64) -> Result<ChainBlock, Reason>,
    G: Fn(u64, u64) -> Result<Vec<ChainBlock>, Reason>,
    R: Fn(Hash32) -> Option<ChainBlock>,
>(
    chain_id: ChainId,
    state: &ChainState,
    me: &ValidatorId,
    fetch: &F,
    fetch_range: &G,
    recall: &R,
) -> (r: Result<WorkerAction, Reason>)
    requires
        forall|n: u64| #[trigger] fetch.requires((n,)),
        forall|a: u64, b: u64| #[trigger] fetch_range.requires((a, b)),
        forall|h: Hash32| #[trigger] recall.requires((h,)),
    ensures
        state.last_block.number == u64::MAX ==> r == Err::<WorkerAction, Reason>(
            Reason::MathError(MathError::Overflow),
        ),
        ({
            let n = state.last_block.number;
            let from = (n + 2) as u64;
            let to = (from + slack_of(state.event_queue@.len())) as u64;
            &&& (n + 2 + slack_of(state.event_queue@.len()) <= u64::MAX && (forall|o: Result<ChainBlock, Reason>|
                #[trigger] fetch.ensures(((n + 1) as u64,), o) ==> o is Ok && o->Ok_0.parent_hash
                == state.last_block.hash) && (forall|o: Result<Vec<ChainBlock>, Reason>|
                #[trigger] fetch_range.ensures((from, to), o) ==> o is Ok)) ==> (r matches Ok(WorkerAction::SubmitBlocks(_)))
            &&& (n < u64::MAX && state.last_block.chain == chain_id && (forall|o: Result<ChainBlock, Reason>|
                #[trigger] fetch.ensures(((n + 1) as u64,), o) ==> o is Ok && o->Ok_0.parent_hash
                != state.last_block.hash) && (forall|o: Result<ChainBlock, Reason>|
                #[trigger] fetch.ensures((n,), o) ==> o is Ok && o->Ok_0.chain == chain_id && o->Ok_0.number
                == n) && walk_succeeds(
                state.last_block.parent_hash,
                n,
                chain_id,
                state.first_block.number,
                *recall,
                *fetch,
            )) ==> (r matches Ok(WorkerAction::SubmitReorg(_)) || r matches Ok(WorkerAction::Wait))
        }),
        forall|e: Reason|
            #![trigger fetch_fails_with(*fetch, (state.last_block.number + 1) as u64, e)]
            state.last_block.number < u64::MAX && fetch_fails_with(*fetch, (state.last_block.number + 1) as u64, e)
                ==> r == Err::<WorkerAction, Reason>(e),
        forall|e: Reason|
            #![trigger range_fails_with(*fetch_range, (state.last_block.number + 2) as u64, (state.last_block.number + 2 + slack_of(state.event_queue@.len())) as u64, e)]
            state.last_block.number + 2 + slack_of(state.event_queue@.len()) <= u64::MAX && fetch_gives_child(
                *fetch,
                (state.last_block.number + 1) as u64,
                state.last_block.hash,
                true,
            ) && range_fails_with(
                *fetch_range,
                (state.last_block.number + 2) as u64,
                (state.last_block.number + 2 + slack_of(state.event_queue@.len())) as u64,
                e,
            ) ==> r == Err::<WorkerAction, Reason>(e),
        forall|e: Reason|
            #![trigger fetch_fails_with(*fetch, state.last_block.number, e)]
            state.last_block.number < u64::MAX && fetch_gives_child(
                *fetch,
                (state.last_block.number + 1) as u64,
                state.last_block.hash,
                false,
            ) && fetch_fails_with(*fetch, state.last_block.number, e) ==> r == Err::<WorkerAction, Reason>(e),
        (r matches Ok(WorkerAction::SubmitBlocks(m)) ==> {
            let from = (state.last_block.number + 2) as u64;
            let to = (from + slack_of(state.event_queue@.len())) as u64;
            &&& m.chain == chain_id
            &&& exists|next: ChainBlock, rest: Vec<ChainBlock>|
                {
                    &&& fetch.ensures(((state.last_block.number + 1) as u64,), Ok::<ChainBlock, Reason>(next))
                    &&& next.parent_hash == state.last_block.hash
                    &&& fetch_range.ensures((from, to), Ok::<Vec<ChainBlock>, Reason>(rest))
                    &&& blocks_view(m.blocks@) == unsupported(
                        seq![next@] + blocks_view(rest@),
                        *me,
                        state@.pending,
                    )
                }
        }),
        (r matches Ok(WorkerAction::SubmitReorg(o)) ==> !already_signed(o@, *me, state@.reorgs) && formulated_from(
            o,
            chain_id,
            *state,
            *fetch,
            *recall,
        )),
        (r matches Ok(WorkerAction::Wait) ==> exists|o: ChainReorg|
            already_signed(o@, *me, state@.reorgs) && #[trigger] formulated_from(o, chain_id, *state, *fetch, *recall)),
        r is Err ==> {
            let e = r->Err_0;
            ||| e == Reason::MathError(MathError::Overflow)
            ||| e == Reason::BlockMismatch
            ||| e == Reason::MathError(MathError::Underflow)
            ||| e == Reason::MissingBlock
            ||| e == Reason::Unreachable
            ||| exists|n: u64| #[trigger] fetch.ensures((n,), Err::<ChainBlock, Reason>(e))
            ||| exists|a: u64, b: u64| #[trigger] fetch_range.ensures((a, b), Err::<Vec<ChainBlock>, Reason>(e))
        },
{
    let last_block = &state.last_block;
    if last_block.number == u64::MAX {
        return Err(Reason::MathError(MathError::Overflow));
    }
    let next_block_number = last_block.number + 1;
    let next_block = match fetch(next_block_number) {
        Ok(b) => b,
        Err(e) => {
            return Err(e);
        },
    };
    if bytes_eq(&last_block.hash, &next_block.parent_hash) {
        let slack = queue_slack(&state.event_queue) as u64;
        if next_block_number == u64::MAX {
            return Err(Reason::MathError(MathError::Overflow));
        }
        let from = next_block_number + 1;
        if from > u64::MAX - slack {
            return Err(Reason::MathError(MathError::Overflow));
        }
        let to = from + slack;
        let rest = match fetch_range(from, to) {
            Ok(v) => v,
            Err(e) => {
                return Err(e);
            },
        };
        Ok(blocks_to_submit(chain_id, state, me, &next_block, &rest))
    } else {
        let true_block = match fetch(last_block.number) {
            Ok(b) => b,
            Err(e) => {
                return Err(e);
            },
        };
        let reorg = match formulate_reorg(chain_id, last_block, &true_block, &state.first_block, recall, fetch) {
            Ok(o) => o,
            Err(e) => {
                return Err(e);
            },
        };
        assert(formulated_from(reorg, chain_id, *state, *fetch, *recall));
        Ok(reorg_action(state, me, reorg))
    }
}

} // verus!
