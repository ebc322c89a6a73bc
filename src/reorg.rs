use vstd::prelude::*;

use crate::blocks::{reorg_tallies_view, tallies_view, ChainState, StateView};
use crate::chains::{
    block_events, bytes_eq, chain_block_events, chain_event_eq, copy_block, copy_reorg, reorg_eq,
    collect_rev, Address, BlockView, ChainBlock, ChainBlockEvent, ChainId, ChainReorg, Hash32, MathError,
    Reason, ReorgView,
};
use crate::ingress::{Priced, ingress_queue, ingress_round, is_valuation, oracle, INGRESS_QUOTA};
use crate::tally::{
    has_super_majority, insert_vote,
    authenticate, authorize, quorum, ChainReorgTally, Origin, ReorgTallyView, ValidatorId, ValidatorKeys,
};

verus! {

/// What a reorg asks of the ledger, in order: first undo `unapply`, then apply `apply`.
#[derive(Clone, Debug, PartialEq, Eq)]
pub struct ReorgEffects {
    pub unapply: Vec<ChainBlockEvent>,
    pub apply: Vec<ChainBlockEvent>,
}

impl ReorgEffects {
    /// The events undone before the undo at position `failed` failed, in the order they must be
    /// applied again to put the ledger back: most recently undone first.
    pub fn to_restore(&self, failed: usize) -> (r: Vec<ChainBlockEvent>)
        requires
            failed <= self.unapply@.len(),
        ensures
            r@ == self.unapply@.take(failed as int).reverse(),
    {
        let mut done: Vec<ChainBlockEvent> = Vec::new();
        let mut i: usize = 0;
        while i < failed
            invariant
                failed <= self.unapply@.len(),
                i <= failed,
                done@ =~= self.unapply@.take(i as int),
            decreases failed - i,
        {
            done.push(self.unapply[i]);
            i = i + 1;
            assert(done@ =~= self.unapply@.take(i as int));
        }
        collect_rev(done)
    }
}

/// The events of blocks listed newest first, newest event first: block by block, each
/// block's events last to first.
pub open spec fn events_of(bs: Seq<BlockView>) -> Seq<ChainBlockEvent>
    decreases bs.len(),
{
    if bs.len() == 0 {
        seq![]
    } else {
        events_of(bs.drop_last()) + block_events(bs.last()).reverse()
    }
}

/// Whether a reorg ends where it claims: its last forward block has hash `to_hash`.
pub open spec fn lands_on_target(r: ReorgView) -> bool {
    r.forward.len() > 0 && r.forward.last().hash == r.to_hash
}

/// `k` is the first position of `e` in `s`.
pub open spec fn is_first(s: Seq<ChainBlockEvent>, e: ChainBlockEvent, k: int) -> bool {
    &&& 0 <= k < s.len()
    &&& s[k] == e
    &&& forall|j: int| 0 <= j < k ==> s[j] != e
}

/// `s` without the first occurrence of `e`, if there is one.
pub open spec fn remove_first(s: Seq<ChainBlockEvent>, e: ChainBlockEvent) -> Seq<ChainBlockEvent> {
    if s.contains(e) {
        s.remove(choose|k: int| is_first(s, e, k))
    } else {
        s
    }
}

/// Revert events in order: each one still queued leaves the queue (its first occurrence);
/// each other one is to be unapplied. Returns the queue and the events to unapply, in order.
pub open spec fn revert(queue: Seq<ChainBlockEvent>, evs: Seq<ChainBlockEvent>) -> (
    Seq<ChainBlockEvent>,
    Seq<ChainBlockEvent>,
)
    decreases evs.len(),
{
    if evs.len() == 0 {
        (queue, seq![])
    } else {
        let prev = revert(queue, evs.drop_last());
        let e = evs.last();
        if prev.0.contains(e) {
            (remove_first(prev.0, e), prev.1)
        } else {
            (prev.0, prev.1.push(e))
        }
    }
}

/// Replay blocks in order: queue each one's events, make it the last block, and ingress one
/// round. Returns the last block, the queue and the admitted events, in order.
pub open spec fn replay(
    last: BlockView,
    queue: Seq<ChainBlockEvent>,
    bs: Seq<BlockView>,
    q: spec_fn(Priced, u64) -> Result<u128, Reason>,
) -> (BlockView, Seq<ChainBlockEvent>, Seq<ChainBlockEvent>)
    decreases bs.len(),
{
    if bs.len() == 0 {
        (last, queue, seq![])
    } else {
        let prev = replay(last, queue, bs.drop_last(), q);
        let b = bs.last();
        let round = ingress_round(prev.1 + block_events(b), b.number, q, INGRESS_QUOTA);
        (b, round.0, prev.2 + round.1)
    }
}

/// Whether a reorg already has a tally.
pub open spec fn has_tally(reorgs: Seq<ReorgTallyView>, r: ReorgView) -> bool {
    exists|i: int| 0 <= i < reorgs.len() && reorgs[i].reorg == r
}

/// The position of a reorg's tally.
pub open spec fn tally_index(reorgs: Seq<ReorgTallyView>, r: ReorgView) -> int {
    choose|i: int| 0 <= i < reorgs.len() && reorgs[i].reorg == r
}

/// The reorg tallies after a vote of `v` for `r`, and the support `r` then has.
pub open spec fn tally_reorg(reorgs: Seq<ReorgTallyView>, r: ReorgView, v: ValidatorId) -> (
    Seq<ReorgTallyView>,
    Set<ValidatorId>,
) {
    if has_tally(reorgs, r) {
        let i = tally_index(reorgs, r);
        let support = reorgs[i].support.insert(v);
        (reorgs.update(i, ReorgTallyView { reorg: r, support }), support)
    } else {
        (reorgs.push(ReorgTallyView { reorg: r, support: set![v] }), set![v])
    }
}

/// A reorg message from validator `v` whose `from_hash` matches the last block: tally it; on a
/// supermajority revert `r.reverse`, replay `r.forward` and clear everything pending.
/// Returns the new state, the events to unapply and the events admitted.
pub open spec fn receive_reorg(
    s: StateView,
    r: ReorgView,
    v: ValidatorId,
    vs: Seq<ValidatorKeys>,
    q: spec_fn(Priced, u64) -> Result<u128, Reason>,
) -> (StateView, Seq<ChainBlockEvent>, Seq<ChainBlockEvent>) {
    let t = tally_reorg(s.reorgs, r, v);
    if quorum(t.1, vs) {
        let rv = revert(s.queue, events_of(r.reverse));
        let fw = replay(s.last, rv.0, r.forward, q);
        (StateView { first: s.first, last: fw.0, pending: seq![], reorgs: seq![], queue: fw.1 }, rv.1, fw.2)
    } else {
        (StateView { reorgs: t.0, ..s }, seq![], seq![])
    }
}

/// Whether a reorg reaches quorum with the vote of `v`.
pub open spec fn reorg_quorum(s: StateView, r: ReorgView, v: ValidatorId, vs: Seq<ValidatorKeys>) -> bool {
    quorum(tally_reorg(s.reorgs, r, v).1, vs)
}

/// A reorg that lands on its target and gathers a supermajority makes its last forward
/// block, whose hash is `to_hash`, the last block.
pub proof fn lemma_reorg_moves_head(
    s: StateView,
    r: ReorgView,
    v: ValidatorId,
    vs: Seq<ValidatorKeys>,
    q: spec_fn(Priced, u64) -> Result<u128, Reason>,
)
    requires
        reorg_quorum(s, r, v, vs),
        lands_on_target(r),
    ensures
        receive_reorg(s, r, v, vs, q).0.last == r.forward.last(),
        receive_reorg(s, r, v, vs, q).0.last.hash == r.to_hash,
{
}

/// Applying events in order from `l`.
pub open spec fn apply_all<L>(l: L, evs: Seq<ChainBlockEvent>, apply: spec_fn(L, ChainBlockEvent) -> L) -> L
    decreases evs.len(),
{
    if evs.len() == 0 {
        l
    } else {
        apply(apply_all(l, evs.drop_last(), apply), evs.last())
    }
}

/// Unapplying events in the order listed from `l`.
pub open spec fn unapply_all<L>(l: L, evs: Seq<ChainBlockEvent>, unapply: spec_fn(L, ChainBlockEvent) -> L) -> L
    decreases evs.len(),
{
    if evs.len() == 0 {
        l
    } else {
        unapply_all(unapply(l, evs[0]), evs.drop_first(), unapply)
    }
}

/// For a ledger whose `unapply` undoes `apply` event by event: when the events that a reorg
/// hands back for undoing were applied in the reverse of the order listed (oldest first), undoing
/// them in the order listed restores the ledger.
pub proof fn lemma_reorg_undo_restores<L>(
    l: L,
    s: StateView,
    r: ReorgView,
    v: ValidatorId,
    vs: Seq<ValidatorKeys>,
    q: spec_fn(Priced, u64) -> Result<u128, Reason>,
    apply: spec_fn(L, ChainBlockEvent) -> L,
    unapply: spec_fn(L, ChainBlockEvent) -> L,
)
    requires
        forall|m: L, e: ChainBlockEvent| #[trigger] unapply(apply(m, e), e) == m,
    ensures
        ({
            let undo = receive_reorg(s, r, v, vs, q).1;
            unapply_all(apply_all(l, undo.reverse(), apply), undo, unapply) == l
        }),
{
    lemma_undo_newest_first(l, receive_reorg(s, r, v, vs, q).1, apply, unapply);
}

/// Undoing newest first what was applied oldest first restores the ledger.
proof fn lemma_undo_newest_first<L>(
    l: L,
    undo: Seq<ChainBlockEvent>,
    apply: spec_fn(L, ChainBlockEvent) -> L,
    unapply: spec_fn(L, ChainBlockEvent) -> L,
)
    requires
        forall|m: L, e: ChainBlockEvent| #[trigger] unapply(apply(m, e), e) == m,
    ensures
        unapply_all(apply_all(l, undo.reverse(), apply), undo, unapply) == l,
    decreases undo.len(),
{
    if undo.len() > 0 {
        let rest = undo.drop_first();
        assert(undo.reverse().drop_last() =~= rest.reverse());
        assert(undo.reverse().last() == undo[0]);
        lemma_undo_newest_first(l, rest, apply, unapply);
    }
}

/// The first position of an event in a queue.
pub fn position(queue: &Vec<ChainBlockEvent>, e: &ChainBlockEvent) -> (r: Option<usize>)
    ensures
        r is Some ==> is_first(queue@, *e, r->Some_0 as int),
        r is None ==> !queue@.contains(*e),
{
    let mut i: usize = 0;
    while i < queue.len()
        invariant
            i <= queue@.len(),
            forall|j: int| 0 <= j < i ==> queue@[j] != *e,
        decreases queue.len() - i,
    {
        if chain_event_eq(&queue[i], e) {
            return Some(i);
        }
        i = i + 1;
    }
    None
}

/// The events of blocks listed newest first, newest event first.
pub fn blocks_events(bs: &Vec<ChainBlock>) -> (r: Vec<ChainBlockEvent>)
    ensures
        r@ == events_of(bs@.map(|_i: int, b: ChainBlock| b@)),
{
    let ghost views = bs@.map(|_i: int, b: ChainBlock| b@);
    let mut out: Vec<ChainBlockEvent> = Vec::new();
    let mut i: usize = 0;
    assert(views.take(0) =~= seq![]);
    while i < bs.len()
        invariant
            i <= bs@.len(),
            views == bs@.map(|_i: int, b: ChainBlock| b@),
            out@ == events_of(views.take(i as int)),
        decreases bs.len() - i,
    {
        let mut evs = collect_rev(chain_block_events(&bs[i]));
        out.append(&mut evs);
        assert(views.take(i + 1).drop_last() =~= views.take(i as int));
        i = i + 1;
    }
    assert(views.take(i as int) =~= views);
    out
}

/// The position of a reorg's tally.
fn find_reorg(reorgs: &Vec<ChainReorgTally>, reorg: &ChainReorg) -> (r: Option<usize>)
    ensures
        r is Some ==> r->Some_0 < reorgs@.len() && reorgs@[r->Some_0 as int].reorg@ == reorg@,
        r is None ==> forall|j: int| 0 <= j < reorgs@.len() ==> reorgs@[j].reorg@ != reorg@,
{
    let mut i: usize = 0;
    while i < reorgs.len()
        invariant
            i <= reorgs@.len(),
            forall|j: int| 0 <= j < i ==> reorgs@[j].reorg@ != reorg@,
        decreases reorgs.len() - i,
    {
        if reorg_eq(&reorgs[i].reorg, reorg) {
            return Some(i);
        }
        i = i + 1;
    }
    None
}

/// Whether a vote of `validator` would give `reorg` a supermajority.
fn quorum_with_vote(
    reorgs: &Vec<ChainReorgTally>,
    reorg: &ChainReorg,
    validator: &ValidatorKeys,
    validators: &Vec<ValidatorKeys>,
) -> (r: bool)
    requires
        forall|i: int| 0 <= i < reorgs@.len() ==> #[trigger] reorgs@[i].wf(),
        forall|i: int, j: int|
            0 <= i < reorgs@.len() && 0 <= j < reorgs@.len() && i != j ==> #[trigger] reorgs@[i].reorg@
                != #[trigger] reorgs@[j].reorg@,
    ensures
        r == quorum(tally_reorg(reorg_tallies_view(reorgs@), reorg@, validator.substrate_id).1, validators@),
{
    let ghost rv = reorg_tallies_view(reorgs@);
    let ghost v = validator.substrate_id;
    let mut support: Vec<ValidatorId> = Vec::new();
    match find_reorg(reorgs, reorg) {
        Some(i) => {
            let src = &reorgs[i].support;
            let mut j: usize = 0;
            while j < src.len()
                invariant
                    j <= src@.len(),
                    support@ =~= src@.take(j as int),
                decreases src.len() - j,
            {
                support.push(src[j]);
                j = j + 1;
                assert(support@ =~= src@.take(j as int));
            }
            assert(support@ =~= src@);
            proof {
                assert(rv[i as int].reorg == reorg@);
                assert(has_tally(rv, reorg@));
                let c = tally_index(rv, reorg@);
                assert(rv[c].reorg == reorg@);
                assert(reorgs@[c].reorg@ == reorgs@[i as int].reorg@);
                assert(c == i);
                assert(reorgs@[i as int].wf());
            }
        },
        None => {
            assert(!has_tally(rv, reorg@));
            assert(support@.to_set() =~= Set::<ValidatorId>::empty());
        },
    }
    let ghost before = support@;
    insert_vote(&mut support, &validator.substrate_id);
    proof {
        if !has_tally(rv, reorg@) {
            assert(before.to_set().insert(v) =~= set![v]);
        }
    }
    has_super_majority(&support, validators)
}

/// Receive a reorg message from a validator, tallying it and, once a supermajority supports
/// it, performing it. A reorg must start at the last block, else `HashMismatch`; one that this
/// vote would carry must also end on its target (its last forward block has hash `to_hash`),
/// else `HashMismatch` and nothing changes. Returns what the ledger must undo and then apply; a caller that cannot
/// undo an event must drop the whole message, keeping the state it had.
pub fn receive_chain_reorg<V: Fn(Priced, u64) -> Result<u128, Reason>>(
    state: &mut ChainState,
    origin: Origin,
    reorg: ChainReorg,
    signer: Result<Address, Reason>,
    validators: &Vec<ValidatorKeys>,
    value_of: &V,
) -> (r: Result<ReorgEffects, Reason>)
    requires
        old(state).inv(),
        is_valuation(*value_of),
    ensures
        final(state).inv(),
        (match authorize(origin, signer, validators@) {
            Err(e) => r == Err::<ReorgEffects, Reason>(e) && *final(state) == *old(state),
            Ok(k) => if reorg.from_hash != old(state).last_block.hash || (reorg_quorum(
                old(state)@,
                reorg@,
                k.substrate_id,
                validators@,
            ) && !lands_on_target(reorg@)) {
                r == Err::<ReorgEffects, Reason>(Reason::HashMismatch) && *final(state) == *old(state)
            } else {
                &&& r is Ok
                &&& (final(state)@, r->Ok_0.unapply@, r->Ok_0.apply@) == receive_reorg(
                    old(state)@,
                    reorg@,
                    k.substrate_id,
                    validators@,
                    oracle(*value_of),
                )
                &&& reorg_quorum(old(state)@, reorg@, k.substrate_id, validators@)
                    ==> final(state).last_block.hash == reorg.to_hash
            },
        }),
{
    let validator = match authenticate(origin, signer, validators) {
        Ok(k) => k,
        Err(e) => {
            return Err(e);
        },
    };
    if !bytes_eq(&reorg.from_hash, &state.last_block.hash) {
        return Err(Reason::HashMismatch);
    }
    // a reorg that this vote would carry must end on its target
    let reached = quorum_with_vote(&state.pending_reorgs, &reorg, &validator, validators);
    if reached {
        let nf = reorg.forward_blocks.len();
        if nf == 0 || !bytes_eq(&reorg.forward_blocks[nf - 1].hash, &reorg.to_hash) {
            return Err(Reason::HashMismatch);
        }
    }
    assert(reached ==> lands_on_target(reorg@));
    let ghost s0 = state@;
    let ghost q = oracle(*value_of);
    let ghost v = validator.substrate_id;
    let ghost t = tally_reorg(s0.reorgs, reorg@, v);
    let pos: usize = match find_reorg(&state.pending_reorgs, &reorg) {
        Some(i) => {
            let ghost before = state.pending_reorgs@;
            proof {
                assert(s0.reorgs[i as int].reorg == reorg@);
                assert(has_tally(s0.reorgs, reorg@));
                let c = tally_index(s0.reorgs, reorg@);
                assert(s0.reorgs[c].reorg == reorg@);
                assert(before[c].reorg@ == before[i as int].reorg@);
                assert(c == i);
            }
            let mut tally = state.pending_reorgs.remove(i);
            tally.add_support(&validator);
            state.pending_reorgs.insert(i, tally);
            assert(state.pending_reorgs@ =~= before.update(i as int, tally));
            assert(reorg_tallies_view(state.pending_reorgs@) =~= t.0);
            i
        },
        None => {
            let ghost before = state.pending_reorgs@;
            let n = state.pending_reorgs.len();
            assert(!has_tally(s0.reorgs, reorg@));
            let tally = ChainReorgTally::new(copy_reorg(&reorg), &validator);
            state.pending_reorgs.push(tally);
            assert(reorg_tallies_view(state.pending_reorgs@) =~= t.0);
            n
        },
    };
    assert(state.pending_reorgs@[pos as int]@.support == t.1);
    assert forall|i: int| 0 <= i < state.pending_reorgs@.len() implies #[trigger] state.pending_reorgs@[i].wf() by {
        if i != pos {
            assert(state.pending_reorgs@[i] == old(state).pending_reorgs@[i]);
        }
    }
    assert forall|i: int, j: int|
        0 <= i < state.pending_reorgs@.len() && 0 <= j < state.pending_reorgs@.len() && i != j implies
        #[trigger] state.pending_reorgs@[i].reorg@ != #[trigger] state.pending_reorgs@[j].reorg@ by {
        assert(reorg_tallies_view(state.pending_reorgs@)[i] == t.0[i]);
        assert(reorg_tallies_view(state.pending_reorgs@)[j] == t.0[j]);
        if i < s0.reorgs.len() && j < s0.reorgs.len() {
            assert(old(state).pending_reorgs@[i].reorg@ == s0.reorgs[i].reorg);
            assert(old(state).pending_reorgs@[j].reorg@ == s0.reorgs[j].reorg);
        }
    }
    if !state.pending_reorgs[pos].has_enough_support(validators) {
        assert(state@ == StateView { reorgs: t.0, ..s0 });
        return Ok(ReorgEffects { unapply: Vec::new(), apply: Vec::new() });
    }
    // Revert: newest block first; drop queued events, unapply the rest.

    let evs = blocks_events(&reorg.reverse_blocks);
    let ghost all = evs@;
    let mut unapply: Vec<ChainBlockEvent> = Vec::new();
    let mut i: usize = 0;
    assert(all.take(0) =~= seq![]);
    while i < evs.len()
        invariant
            i <= all.len(),
            all == evs@,
            all == events_of(reorg@.reverse),
            (state.event_queue@, unapply@) == revert(s0.queue, all.take(i as int)),
            state.last_block == old(state).last_block,
            state.first_block == old(state).first_block,
        decreases evs.len() - i,
    {
        let e = evs[i];
        assert(all.take(i + 1).drop_last() =~= all.take(i as int));
        assert(all.take(i + 1).last() == e);
        match position(&state.event_queue, &e) {
            Some(k) => {
                let ghost qb = state.event_queue@;
                proof {
                    let c = choose|c: int| is_first(qb, e, c);
                    assert(is_first(qb, e, k as int));
                    if c < k {
                        assert(qb[c] != e);
                    }
                    if k < c {
                        assert(qb[k as int] != e);
                    }
                    assert(c == k);
                }
                state.event_queue.remove(k);
            },
            None => {
                unapply.push(e);
            },
        }
        i = i + 1;
    }
    assert(all.take(i as int) =~= all);
    // Replay: oldest block first.

    let ghost rq = state.event_queue@;
    let ghost fwd = reorg@.forward;
    let mut applied: Vec<ChainBlockEvent> = Vec::new();
    let mut j: usize = 0;
    assert(fwd.take(0) =~= seq![]);
    while j < reorg.forward_blocks.len()
        invariant
            is_valuation(*value_of),
            q == oracle(*value_of),
            j <= fwd.len(),
            fwd == reorg@.forward,
            (state.last_block@, state.event_queue@, applied@) == replay(s0.last, rq, fwd.take(j as int), q),
            state.first_block == old(state).first_block,
        decreases reorg.forward_blocks.len() - j,
    {
        let block = &reorg.forward_blocks[j];
        assert(fwd.take(j + 1).drop_last() =~= fwd.take(j as int));
        assert(fwd.take(j + 1).last() == block@);
        let mut events = chain_block_events(block);
        state.event_queue.append(&mut events);
        state.last_block = copy_block(block);
        let mut admitted = ingress_queue(&state.last_block, &mut state.event_queue, value_of);
        applied.append(&mut admitted);
        j = j + 1;
    }
    assert(fwd.take(j as int) =~= fwd);
    state.pending_blocks = Vec::new();
    state.pending_reorgs = Vec::new();
    assert(tallies_view(state.pending_blocks@) =~= seq![]);
    assert(reorg_tallies_view(state.pending_reorgs@) =~= seq![]);
    Ok(ReorgEffects { unapply, apply: applied })
}


/// The walk ends at step `j`: the two blocks share a parent, or the reverse block has reached
/// the height of the first block.
pub open spec fn walk_stops(rev: Seq<ChainBlock>, fwd: Seq<ChainBlock>, j: int, first: u64) -> bool {
    rev[j].parent_hash == fwd[j].parent_hash || rev[j].number <= first
}

/// One step of the backward walk from `rev` and `fwd` (at one height), given what the cache
/// recalled for `rev`'s parent and what the chain gave at the height below: the two new blocks
/// and whether the walk ends there.
pub open spec fn step_spec(
    chain_id: ChainId,
    rev: ChainBlock,
    fwd: ChainBlock,
    recalled: Option<ChainBlock>,
    fetched: Result<ChainBlock, Reason>,
    first: u64,
) -> Result<(ChainBlock, ChainBlock, bool), Reason> {
    match recalled {
        None => Err(Reason::MissingBlock),
        Some(b) => match fetched {
            Err(e) => Err(e),
            Ok(f) => if b.chain != chain_id || f.chain != chain_id {
                Err(Reason::Unreachable)
            } else if b.number + 1 != rev.number || f.number + 1 != fwd.number {
                Err(Reason::BlockMismatch)
            } else {
                Ok((b, f, b.parent_hash == f.parent_hash || b.number <= first))
            },
        },
    }
}

/// One step of the backward walk: see `step_spec`.
pub fn walk_step(
    chain_id: ChainId,
    rev: &ChainBlock,
    fwd: &ChainBlock,
    recalled: Option<ChainBlock>,
    fetched: Result<ChainBlock, Reason>,
    first: u64,
) -> (r: Result<(ChainBlock, ChainBlock, bool), Reason>)
    ensures
        r == step_spec(chain_id, *rev, *fwd, recalled, fetched, first),
{
    let b = match recalled {
        None => {
            return Err(Reason::MissingBlock);
        },
        Some(b) => b,
    };
    let f = match fetched {
        Err(e) => {
            return Err(e);
        },
        Ok(f) => f,
    };
    if b.chain != chain_id || f.chain != chain_id {
        return Err(Reason::Unreachable);
    }
    if b.number as u128 + 1 != rev.number as u128 || f.number as u128 + 1 != fwd.number as u128 {
        return Err(Reason::BlockMismatch);
    }
    let done = bytes_eq(&b.parent_hash, &f.parent_hash) || b.number <= first;
    Ok((b, f, done))
}

/// Whether every possible walk from a reverse block with this parent and height succeeds:
/// every answer of `recall` is a block of the chain one height lower, every answer of `fetch`
/// at that height is a block of the chain at that height, and each pair either ends the walk
/// or leads on to a walk that succeeds.
pub open spec fn walk_succeeds<R: Fn(Hash32) -> Option<ChainBlock>, F: Fn(u64) -> Result<ChainBlock, Reason>>(
    parent: Hash32,
    number: u64,
    chain_id: ChainId,
    first: u64,
    recall: R,
    fetch: F,
) -> bool
    decreases number,
{
    &&& number >= 1
    &&& forall|o: Option<ChainBlock>|
        #[trigger] recall.ensures((parent,), o) ==> {
            &&& o is Some
            &&& o->Some_0.chain == chain_id
            &&& o->Some_0.number + 1 == number
            &&& forall|p: Result<ChainBlock, Reason>|
                #[trigger] fetch.ensures(((number - 1) as u64,), p) ==> {
                    &&& p is Ok
                    &&& p->Ok_0.chain == chain_id
                    &&& p->Ok_0.number + 1 == number
                    &&& (o->Some_0.parent_hash == p->Ok_0.parent_hash || o->Some_0.number <= first
                        || walk_succeeds(o->Some_0.parent_hash, o->Some_0.number, chain_id, first, recall, fetch))
                }
        }
}

/// `rev` and `fwd`, newest first, are a backward walk of chain `chain_id` from `last` and
/// `truth` at equal heights: each reverse block recalled by its child's parent hash, each
/// forward block fetched at the height below its child, both one height lower, stopping at the
/// first step where `walk_stops`.
pub open spec fn is_walk<R: Fn(Hash32) -> Option<ChainBlock>, F: Fn(u64) -> Result<ChainBlock, Reason>>(
    rev: Seq<ChainBlock>,
    fwd: Seq<ChainBlock>,
    last: BlockView,
    truth: BlockView,
    chain_id: ChainId,
    first: u64,
    recall: R,
    fetch: F,
) -> bool {
    &&& rev.len() == fwd.len()
    &&& rev.len() >= 2
    &&& rev[0]@ == last
    &&& fwd[0]@ == truth
    &&& forall|j: int|
        0 <= j < rev.len() ==> {
            &&& #[trigger] rev[j].number == fwd[j].number
            &&& rev[j].chain == chain_id
            &&& fwd[j].chain == chain_id
        }
    &&& forall|j: int|
        0 <= j < rev.len() - 1 ==> {
            &&& #[trigger] rev[j + 1].number + 1 == rev[j].number
            &&& recall.ensures((rev[j].parent_hash,), Some(rev[j + 1]))
            &&& fetch.ensures(((fwd[j].number - 1) as u64,), Ok::<ChainBlock, Reason>(fwd[j + 1]))
        }
    &&& forall|j: int| 1 <= j < rev.len() - 1 ==> !#[trigger] walk_stops(rev, fwd, j, first)
    &&& walk_stops(rev, fwd, rev.len() - 1, first)
}

/// Try to form a path from the last block to the new true block at the same height, walking
/// back on both sides: the old side through `recall` (a block by hash), the new side through
/// `fetch` (a block by number), until a common parent or the first block's height. Every block
/// must belong to `chain_id`.
pub fn formulate_reorg<R: Fn(Hash32) -> Option<ChainBlock>, F: Fn(u64) -> Result<ChainBlock, Reason>>(
    chain_id: ChainId,
    last_block: &ChainBlock,
    true_block: &ChainBlock,
    first_block: &ChainBlock,
    recall: &R,
    fetch: &F,
) -> (r: Result<ChainReorg, Reason>)
    requires
        forall|h: Hash32| #[trigger] recall.requires((h,)),
        forall|n: u64| #[trigger] fetch.requires((n,)),
    ensures
        last_block.chain != chain_id || true_block.chain != chain_id ==> r == Err::<ChainReorg, Reason>(
            Reason::Unreachable,
        ),
        last_block.chain == chain_id && true_block.chain == chain_id && last_block.number
            != true_block.number ==> r == Err::<ChainReorg, Reason>(Reason::BlockMismatch),
        last_block.chain == chain_id && true_block.chain == chain_id && last_block.number
            == true_block.number && true_block.number == 0 ==> r == Err::<ChainReorg, Reason>(
            Reason::MathError(MathError::Underflow),
        ),
        last_block.chain == chain_id && true_block.chain == chain_id && last_block.number
            == true_block.number && walk_succeeds(
            last_block.parent_hash,
            last_block.number,
            chain_id,
            first_block.number,
            *recall,
            *fetch,
        ) ==> r is Ok,
        r is Ok ==> {
            let o = r->Ok_0;
            &&& o.chain == chain_id
            &&& o.from_hash == last_block.hash
            &&& o.to_hash == true_block.hash
            &&& is_walk(
                o.reverse_blocks@,
                o.forward_blocks@.reverse(),
                last_block@,
                true_block@,
                chain_id,
                first_block.number,
                *recall,
                *fetch,
            )
        },
        r is Ok && first_block.number <= last_block.number ==> r->Ok_0.reverse_blocks@.len() - 1
            <= last_block.number - first_block.number + 1,
        r == Err::<ChainReorg, Reason>(Reason::MissingBlock) ==> (exists|h: Hash32|
            #[trigger] recall.ensures((h,), None::<ChainBlock>)) || (exists|n: u64|
            #[trigger] fetch.ensures((n,), Err::<ChainBlock, Reason>(Reason::MissingBlock))),
        r == Err::<ChainReorg, Reason>(Reason::BlockMismatch) ==> last_block.number != true_block.number
            || (exists|c: ChainBlock, b: ChainBlock|
            #[trigger] recall.ensures((c.parent_hash,), Some(b)) && b.number + 1 != c.number) || (exists|
            n: u64,
            b: ChainBlock,
        | #[trigger] fetch.ensures((n,), Ok::<ChainBlock, Reason>(b)) && b.number != n) || (exists|n: u64|
            #[trigger] fetch.ensures((n,), Err::<ChainBlock, Reason>(Reason::BlockMismatch))),
        r == Err::<ChainReorg, Reason>(Reason::MathError(MathError::Underflow)) ==> (last_block.number == 0
            && true_block.number == 0) || (exists|n: u64|
            #[trigger] fetch.ensures((n,), Err::<ChainBlock, Reason>(Reason::MathError(MathError::Underflow)))),
        r == Err::<ChainReorg, Reason>(Reason::Unreachable) ==> last_block.chain != chain_id || true_block.chain
            != chain_id || (exists|h: Hash32, b: ChainBlock|
            #[trigger] recall.ensures((h,), Some(b)) && b.chain != chain_id) || (exists|n: u64, b: ChainBlock|
            #[trigger] fetch.ensures((n,), Ok::<ChainBlock, Reason>(b)) && b.chain != chain_id) || (exists|n: u64|
            #[trigger] fetch.ensures((n,), Err::<ChainBlock, Reason>(Reason::Unreachable))),
        r is Err ==> {
            let e = r->Err_0;
            ||| e == Reason::BlockMismatch
            ||| e == Reason::MathError(MathError::Underflow)
            ||| e == Reason::MissingBlock
            ||| e == Reason::Unreachable
            ||| exists|n: u64| #[trigger] fetch.ensures((n,), Err::<ChainBlock, Reason>(e))
        },
{
    if last_block.chain != chain_id || true_block.chain != chain_id {
        return Err(Reason::Unreachable);
    }
    if last_block.number != true_block.number {
        return Err(Reason::BlockMismatch);
    }
    let first = first_block.number;
    let ghost n0 = last_block.number;
    let ghost good = walk_succeeds(last_block.parent_hash, last_block.number, chain_id, first, *recall, *fetch);
    let mut reverse_blocks: Vec<ChainBlock> = Vec::new();
    let mut drawrof_blocks: Vec<ChainBlock> = Vec::new();
    reverse_blocks.push(copy_block(last_block));
    drawrof_blocks.push(copy_block(true_block));
    let mut done = false;
    while !done
        invariant
            forall|h: Hash32| #[trigger] recall.requires((h,)),
            forall|n: u64| #[trigger] fetch.requires((n,)),
            n0 == last_block.number,
            first == first_block.number,
            good == walk_succeeds(last_block.parent_hash, last_block.number, chain_id, first, *recall, *fetch),
            reverse_blocks@.len() == drawrof_blocks@.len(),
            reverse_blocks@.len() >= 1,
            done ==> reverse_blocks@.len() >= 2,
            reverse_blocks@[0]@ == last_block@,
            drawrof_blocks@[0]@ == true_block@,
            forall|j: int| 0 <= j < reverse_blocks@.len() ==> #[trigger] reverse_blocks@[j].number == n0 - j,
            forall|j: int| 0 <= j < drawrof_blocks@.len() ==> #[trigger] drawrof_blocks@[j].number == n0 - j,
            forall|j: int| 0 <= j < reverse_blocks@.len() ==> #[trigger] reverse_blocks@[j].chain == chain_id,
            forall|j: int| 0 <= j < drawrof_blocks@.len() ==> #[trigger] drawrof_blocks@[j].chain == chain_id,
            forall|j: int|
                0 <= j < reverse_blocks@.len() - 1 ==> {
                    &&& #[trigger] reverse_blocks@[j + 1].number + 1 == reverse_blocks@[j].number
                    &&& recall.ensures((reverse_blocks@[j].parent_hash,), Some(reverse_blocks@[j + 1]))
                    &&& fetch.ensures(
                        ((drawrof_blocks@[j].number - 1) as u64,),
                        Ok::<ChainBlock, Reason>(drawrof_blocks@[j + 1]),
                    )
                },
            forall|j: int|
                1 <= j < reverse_blocks@.len() - 1 ==> !#[trigger] walk_stops(
                    reverse_blocks@,
                    drawrof_blocks@,
                    j,
                    first,
                ),
            !done && reverse_blocks@.len() >= 2 ==> !walk_stops(
                reverse_blocks@,
                drawrof_blocks@,
                reverse_blocks@.len() - 1,
                first,
            ),
            done ==> walk_stops(reverse_blocks@, drawrof_blocks@, reverse_blocks@.len() - 1, first),
            good && !done ==> walk_succeeds(
                reverse_blocks@.last().parent_hash,
                reverse_blocks@.last().number,
                chain_id,
                first,
                *recall,
                *fetch,
            ),
        decreases drawrof_blocks@.last().number + if done {
            0int
        } else {
            1int
        },
    {
        let k = reverse_blocks.len() - 1;
        assert(k >= 1 ==> !walk_stops(reverse_blocks@, drawrof_blocks@, k as int, first));
        if drawrof_blocks[k].number == 0 {
            proof {
                if k >= 1 {
                    assert(reverse_blocks@[k as int].number == n0 - k);
                    assert(drawrof_blocks@[k as int].number == n0 - k);
                    assert(walk_stops(reverse_blocks@, drawrof_blocks@, k as int, first));
                }
                assert(drawrof_blocks@[0].number == n0);
            }
            return Err(Reason::MathError(MathError::Underflow));
        }
        let next_number = drawrof_blocks[k].number - 1;
        let recalled = recall(reverse_blocks[k].parent_hash);
        if recalled.is_none() {
            return Err(Reason::MissingBlock);
        }
        let ghost recalled0 = recalled;
        let fetched = fetch(next_number);
        let ghost fetched0 = fetched;
        let step = walk_step(chain_id, &reverse_blocks[k], &drawrof_blocks[k], recalled, fetched, first);
        let (reverse_next, drawrof_next, stop) = match step {
            Ok(t) => t,
            Err(e) => {
                proof {
                    if e == Reason::Unreachable && !(fetched0 == Err::<ChainBlock, Reason>(Reason::Unreachable)) {
                        let b = recalled0->Some_0;
                        if b.chain != chain_id {
                            assert(recall.ensures((reverse_blocks@[k as int].parent_hash,), Some(b)));
                        } else {
                            assert(fetch.ensures((next_number,), Ok::<ChainBlock, Reason>(fetched0->Ok_0)));
                        }
                    }
                    if e == Reason::BlockMismatch && !(fetched0 == Err::<ChainBlock, Reason>(Reason::BlockMismatch)) {
                        let c = reverse_blocks@[k as int];
                        let b = recalled0->Some_0;
                        if b.number + 1 == c.number {
                            assert(fetch.ensures((next_number,), Ok::<ChainBlock, Reason>(fetched0->Ok_0)));
                        } else {
                            assert(recall.ensures((c.parent_hash,), Some(b)));
                        }
                    }
                }
                return Err(e);
            },
        };
        proof {
            assert(recalled0 is Some);
            assert(fetched0 is Ok);
            assert(reverse_next == recalled0->Some_0);
            assert(drawrof_next == fetched0->Ok_0);
            assert(reverse_next.number + 1 == reverse_blocks@[k as int].number);
            assert(drawrof_next.number + 1 == drawrof_blocks@[k as int].number);
            assert(reverse_next.chain == chain_id && drawrof_next.chain == chain_id);
        }
        done = stop;
        let ghost rev0 = reverse_blocks@;
        let ghost fwd0 = drawrof_blocks@;
        reverse_blocks.push(reverse_next);
        drawrof_blocks.push(drawrof_next);
        assert forall|j: int| 0 <= j < reverse_blocks@.len() implies #[trigger] reverse_blocks@[j].number == n0 - j
            && reverse_blocks@[j].chain == chain_id by {
            if j <= k {
                assert(reverse_blocks@[j] == rev0[j]);
            }
        }
        assert forall|j: int| 0 <= j < drawrof_blocks@.len() implies #[trigger] drawrof_blocks@[j].number == n0 - j
            && drawrof_blocks@[j].chain == chain_id by {
            if j <= k {
                assert(drawrof_blocks@[j] == fwd0[j]);
            }
        }
        assert forall|j: int| 1 <= j <= k implies walk_stops(reverse_blocks@, drawrof_blocks@, j, first)
            == walk_stops(rev0, fwd0, j, first) by {
            assert(reverse_blocks@[j] == rev0[j]);
            assert(drawrof_blocks@[j] == fwd0[j]);
        }
        assert forall|j: int| 1 <= j < reverse_blocks@.len() - 1 implies !#[trigger] walk_stops(
            reverse_blocks@,
            drawrof_blocks@,
            j,
            first,
        ) by {
            assert(walk_stops(reverse_blocks@, drawrof_blocks@, j, first) == walk_stops(rev0, fwd0, j, first));
            if j < k {
                assert(!walk_stops(rev0, fwd0, j, first));
            }
        }
    }
    let ghost rev = reverse_blocks@;
    let ghost fwd = drawrof_blocks@;
    proof {
        let k = rev.len() - 1;
        assert(rev[1].number == n0 - 1);
        if first <= n0 && k > n0 - first + 1 {
            let j0: int = if n0 - first >= 1 { n0 - first } else { 1 };
            assert(rev[j0].number == n0 - j0);
            assert(walk_stops(rev, fwd, j0, first));
        }
    }
    let forward_blocks = collect_rev(drawrof_blocks);
    assert(forward_blocks@.reverse() =~= fwd);
    Ok(
        ChainReorg {
            chain: chain_id,
            from_hash: last_block.hash,
            to_hash: true_block.hash,
            reverse_blocks,
            forward_blocks,
        },
    )
}

} // verus!
