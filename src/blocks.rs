use vstd::prelude::*;

use crate::chains::{
    reorg_eq,
    block_eq, block_events, blocks_view, bytes_eq, chain_block_events, copy_block, Address, BlockView,
    ChainBlock, ChainBlockEvent, ChainBlocks, Reason,
};
use crate::ingress::{ingress_queue, Priced, ingress_round, is_valuation, oracle, INGRESS_QUOTA};
use crate::tally::{
    authenticate, authorize, contains_id, dissented, quorum, supported, ChainBlockTally, ChainReorgTally, Origin,
    ReorgTallyView, TallyView, ValidatorId, ValidatorKeys,
};

verus! {

/// The per-chain state that the receivers update.
#[derive(Clone, Debug)]
pub struct ChainState {
    /// The oldest block a reorg may reach.
    pub first_block: ChainBlock,
    /// The last block whose events have been queued.
    pub last_block: ChainBlock,
    /// Tallies of the blocks after `last_block`, in chain order.
    pub pending_blocks: Vec<ChainBlockTally>,
    /// Tallies of candidate reorgs.
    pub pending_reorgs: Vec<ChainReorgTally>,
    /// Events waiting to be admitted, in arrival order.
    pub event_queue: Vec<ChainBlockEvent>,
}

/// The mathematical value of a chain state.
pub struct StateView {
    pub first: BlockView,
    pub last: BlockView,
    pub pending: Seq<TallyView>,
    pub reorgs: Seq<ReorgTallyView>,
    pub queue: Seq<ChainBlockEvent>,
}

/// The views of a sequence of block tallies.
pub open spec fn tallies_view(ts: Seq<ChainBlockTally>) -> Seq<TallyView> {
    ts.map(|_i: int, t: ChainBlockTally| t@)
}

/// The views of a sequence of reorg tallies.
pub open spec fn reorg_tallies_view(ts: Seq<ChainReorgTally>) -> Seq<ReorgTallyView> {
    ts.map(|_i: int, t: ChainReorgTally| t@)
}

impl View for ChainState {
    type V = StateView;

    open spec fn view(&self) -> StateView {
        StateView {
            first: self.first_block@,
            last: self.last_block@,
            pending: tallies_view(self.pending_blocks@),
            reorgs: reorg_tallies_view(self.pending_reorgs@),
            queue: self.event_queue@,
        }
    }
}

/// The pending tallies form a chain of consecutive blocks, each the child of the one before,
/// the first a child of `last`.
pub open spec fn linked(last: BlockView, pending: Seq<TallyView>) -> bool {
    forall|i: int|
        0 <= i < pending.len() ==> {
            &&& #[trigger] pending[i].block.number == last.number + i + 1
            &&& pending[i].block.parent_hash == if i == 0 {
                last.hash
            } else {
                pending[i - 1].block.hash
            }
        }
}

/// No validator both supports and dissents from one pending block.
pub open spec fn votes_disjoint(pending: Seq<TallyView>) -> bool {
    forall|i: int, v: ValidatorId|
        0 <= i < pending.len() ==> !(#[trigger] pending[i].support.contains(v) && pending[i].dissent.contains(
            v,
        ))
}

impl ChainState {
    /// The invariant of a chain state.
    pub open spec fn inv(&self) -> bool {
        &&& linked(self.last_block@, tallies_view(self.pending_blocks@))
        &&& votes_disjoint(tallies_view(self.pending_blocks@))
        &&& forall|i: int| 0 <= i < self.pending_blocks@.len() ==> #[trigger] self.pending_blocks@[i].wf()
        &&& forall|i: int| 0 <= i < self.pending_reorgs@.len() ==> #[trigger] self.pending_reorgs@[i].wf()
        &&& forall|i: int, j: int|
            0 <= i < self.pending_reorgs@.len() && 0 <= j < self.pending_reorgs@.len() && i != j
                ==> #[trigger] self.pending_reorgs@[i].reorg@ != #[trigger] self.pending_reorgs@[j].reorg@
    }

    /// Test the invariant: true only of a state that has it.
    pub fn check(&self) -> (r: bool)
        ensures
            r == self.inv(),
    {
        let ghost pv = tallies_view(self.pending_blocks@);
        let mut i: usize = 0;
        while i < self.pending_blocks.len()
            invariant
                i <= self.pending_blocks@.len(),
                pv == tallies_view(self.pending_blocks@),
                forall|j: int|
                    0 <= j < i ==> {
                        &&& #[trigger] pv[j].block.number == self.last_block.number + j + 1
                        &&& pv[j].block.parent_hash == if j == 0 {
                            self.last_block.hash
                        } else {
                            pv[j - 1].block.hash
                        }
                    },
                forall|j: int, w: ValidatorId|
                    0 <= j < i ==> !(#[trigger] pv[j].support.contains(w) && pv[j].dissent.contains(w)),
                forall|j: int| 0 <= j < i ==> #[trigger] self.pending_blocks@[j].wf(),
            decreases self.pending_blocks.len() - i,
        {
            let t = &self.pending_blocks[i];
            assert(pv[i as int] == t@);
            if t.block.number as u128 != self.last_block.number as u128 + i as u128 + 1 {
                assert(pv[i as int].block.number != self.last_block.number + i + 1);
                return false;
            }
            let parent_ok = if i == 0 {
                bytes_eq(&t.block.parent_hash, &self.last_block.hash)
            } else {
                assert(pv[i - 1] == self.pending_blocks@[i - 1]@);
                bytes_eq(&t.block.parent_hash, &self.pending_blocks[i - 1].block.hash)
            };
            if !parent_ok {
                assert(pv[i as int].block.number == self.last_block.number + i + 1);
                return false;
            }
            if !ids_distinct(&t.support) || !ids_distinct(&t.dissent) {
                assert(!self.pending_blocks@[i as int].wf());
                return false;
            }
            if !ids_disjoint(&t.support, &t.dissent) {
                proof {
                    let w = choose|w: ValidatorId| t.support@.contains(w) && t.dissent@.contains(w);
                    assert(pv[i as int].support.contains(w) && pv[i as int].dissent.contains(w));
                }
                return false;
            }
            i = i + 1;
        }
        let mut k: usize = 0;
        while k < self.pending_reorgs.len()
            invariant
                k <= self.pending_reorgs@.len(),
                forall|j: int| 0 <= j < k ==> #[trigger] self.pending_reorgs@[j].wf(),
                forall|a: int, b: int|
                    0 <= a < k && 0 <= b < self.pending_reorgs@.len() && a != b
                        ==> #[trigger] self.pending_reorgs@[a].reorg@ != #[trigger] self.pending_reorgs@[b].reorg@,
            decreases self.pending_reorgs.len() - k,
        {
            if !ids_distinct(&self.pending_reorgs[k].support) {
                assert(!self.pending_reorgs@[k as int].wf());
                return false;
            }
            let mut m: usize = 0;
            while m < self.pending_reorgs.len()
                invariant
                    k < self.pending_reorgs@.len(),
                    m <= self.pending_reorgs@.len(),
                    forall|b: int|
                        0 <= b < m && b != k ==> self.pending_reorgs@[k as int].reorg@ != #[trigger] self.pending_reorgs@[b].reorg@,
                decreases self.pending_reorgs.len() - m,
            {
                if m != k && reorg_eq(&self.pending_reorgs[k].reorg, &self.pending_reorgs[m].reorg) {
                    assert(self.pending_reorgs@[k as int].reorg@ == self.pending_reorgs@[m as int].reorg@);
                    return false;
                }
                m = m + 1;
            }
            k = k + 1;
        }
        true
    }

    /// The state of a chain at genesis: nothing pending, nothing queued.
    pub fn new(first_block: ChainBlock, last_block: ChainBlock) -> (r: Self)
        ensures
            r.inv(),
            r@ == (StateView {
                first: first_block@,
                last: last_block@,
                pending: seq![],
                reorgs: seq![],
                queue: seq![],
            }),
    {
        let r = ChainState {
            first_block,
            last_block,
            pending_blocks: Vec::new(),
            pending_reorgs: Vec::new(),
            event_queue: Vec::new(),
        };
        assert(r@.pending =~= seq![]);
        assert(r@.reorgs =~= seq![]);
        r
    }
}

/// Whether a list of votes is free of repeats.
fn ids_distinct(ids: &Vec<ValidatorId>) -> (r: bool)
    ensures
        r == ids@.no_duplicates(),
{
    let mut i: usize = 0;
    while i < ids.len()
        invariant
            i <= ids@.len(),
            forall|a: int, b: int| 0 <= a < b < ids@.len() && a < i ==> #[trigger] ids@[a] != #[trigger] ids@[b],
        decreases ids.len() - i,
    {
        let mut j: usize = i + 1;
        while j < ids.len()
            invariant
                i < ids@.len(),
                i + 1 <= j <= ids@.len(),
                forall|a: int, b: int| 0 <= a < b < ids@.len() && a < i ==> #[trigger] ids@[a] != #[trigger] ids@[b],
                forall|b: int| i < b < j ==> ids@[i as int] != #[trigger] ids@[b],
            decreases ids.len() - j,
        {
            if bytes_eq(&ids[i], &ids[j]) {
                assert(ids@[i as int] == ids@[j as int]);
                return false;
            }
            j = j + 1;
        }
        i = i + 1;
    }
    true
}

/// Whether no vote is in both lists.
fn ids_disjoint(a: &Vec<ValidatorId>, b: &Vec<ValidatorId>) -> (r: bool)
    ensures
        r == forall|w: ValidatorId| !(a@.contains(w) && b@.contains(w)),
{
    let mut i: usize = 0;
    while i < a.len()
        invariant
            i <= a@.len(),
            forall|j: int| 0 <= j < i ==> !b@.contains(#[trigger] a@[j]),
        decreases a.len() - i,
    {
        if contains_id(b, &a[i]) {
            assert(a@.contains(a@[i as int]));
            return false;
        }
        i = i + 1;
    }
    true
}

/// The pending tallies after one vote of `v` for block `b`, given the last processed block.
pub open spec fn tally_block(
    last: BlockView,
    pending: Seq<TallyView>,
    b: BlockView,
    v: ValidatorId,
) -> Seq<TallyView> {
    if b.number <= last.number {
        pending
    } else {
        let offset = b.number - last.number - 1;
        if offset < pending.len() {
            if b == pending[offset].block {
                pending.update(offset, supported(pending[offset], v))
            } else {
                pending.update(offset, dissented(pending[offset], v))
            }
        } else if offset == pending.len() && b.parent_hash == if offset == 0 {
            last.hash
        } else {
            pending[offset - 1].block.hash
        } {
            pending.push(TallyView { block: b, support: set![v], dissent: Set::empty() })
        } else {
            pending
        }
    }
}

/// The pending tallies after votes of `v` for each block of `bs`, in order.
pub open spec fn tally_blocks(
    last: BlockView,
    pending: Seq<TallyView>,
    bs: Seq<BlockView>,
    v: ValidatorId,
) -> Seq<TallyView>
    decreases bs.len(),
{
    if bs.len() == 0 {
        pending
    } else {
        tally_block(last, tally_blocks(last, pending, bs.drop_last(), v), bs.last(), v)
    }
}

/// Advance greedily from the head of the pending tallies: a supported head becomes the last
/// block, its events are queued and one round is ingressed; a head dissented from clears
/// everything pending; otherwise nothing moves. Returns the new state and the admitted events.
pub open spec fn advance(
    s: StateView,
    vs: Seq<ValidatorKeys>,
    q: spec_fn(Priced, u64) -> Result<u128, Reason>,
) -> (StateView, Seq<ChainBlockEvent>)
    decreases s.pending.len(),
{
    if s.pending.len() == 0 {
        (s, seq![])
    } else if quorum(s.pending[0].support, vs) {
        let b = s.pending[0].block;
        let round = ingress_round(s.queue + block_events(b), b.number, q, INGRESS_QUOTA);
        let next = advance(
            StateView { last: b, pending: s.pending.drop_first(), queue: round.0, ..s },
            vs,
            q,
        );
        (next.0, round.1 + next.1)
    } else if quorum(s.pending[0].dissent, vs) {
        (StateView { pending: seq![], ..s }, seq![])
    } else {
        (s, seq![])
    }
}

/// A blocks message from validator `v`: tally every block, then advance.
pub open spec fn receive_blocks(
    s: StateView,
    bs: Seq<BlockView>,
    v: ValidatorId,
    vs: Seq<ValidatorKeys>,
    q: spec_fn(Priced, u64) -> Result<u128, Reason>,
) -> (StateView, Seq<ChainBlockEvent>) {
    advance(StateView { pending: tally_blocks(s.last, s.pending, bs, v), ..s }, vs, q)
}

/// Whether a state has nothing left to advance: its head tally, if any, has neither a
/// supporting nor a dissenting supermajority.
pub open spec fn settled(s: StateView, vs: Seq<ValidatorKeys>) -> bool {
    s.pending.len() > 0 ==> !quorum(s.pending[0].support, vs) && !quorum(s.pending[0].dissent, vs)
}

/// Each tally's vote lists are free of repeats.
pub open spec fn tallies_wf(ts: Seq<ChainBlockTally>) -> bool {
    forall|i: int| 0 <= i < ts.len() ==> #[trigger] ts[i].wf()
}

/// Record one vote of `validator` for `block` in the pending tallies.
fn tally_one(
    pending: &mut Vec<ChainBlockTally>,
    last_block: &ChainBlock,
    block: &ChainBlock,
    validator: &ValidatorKeys,
)
    requires
        tallies_wf(old(pending)@),
    ensures
        tallies_wf(final(pending)@),
        tallies_view(final(pending)@) == tally_block(
            last_block@,
            tallies_view(old(pending)@),
            block@,
            validator.substrate_id,
        ),
{
    if block.number > last_block.number {
        let offset: u64 = block.number - last_block.number - 1;
        let len: u64 = pending.len() as u64;
        if offset < len {
            let idx = offset as usize;
            let ghost before = pending@;
            let mut t = pending.remove(idx);
            if block_eq(block, &t.block) {
                t.add_support(validator);
            } else {
                t.add_dissent(validator);
            }
            pending.insert(idx, t);
            assert(pending@ =~= before.update(idx as int, t));
            assert(tallies_view(pending@) =~= tallies_view(before).update(idx as int, t@));
        } else if offset == len {
            let parent_ok = if offset == 0 {
                bytes_eq(&block.parent_hash, &last_block.hash)
            } else {
                bytes_eq(&block.parent_hash, &pending[(offset - 1) as usize].block.hash)
            };
            if parent_ok {
                let ghost before = pending@;
                let t = ChainBlockTally::new(copy_block(block), validator);
                pending.push(t);
                assert(tallies_view(pending@) =~= tallies_view(before).push(t@));
            }
        }
    }
}

/// One vote keeps the pending tallies linked and their votes disjoint.
proof fn lemma_tally_block_inv(last: BlockView, pending: Seq<TallyView>, b: BlockView, v: ValidatorId)
    requires
        linked(last, pending),
        votes_disjoint(pending),
    ensures
        linked(last, tally_block(last, pending, b, v)),
        votes_disjoint(tally_block(last, pending, b, v)),
{
    let p = tally_block(last, pending, b, v);
    assert forall|i: int| 0 <= i < p.len() implies {
        &&& #[trigger] p[i].block.number == last.number + i + 1
        &&& p[i].block.parent_hash == if i == 0 {
            last.hash
        } else {
            p[i - 1].block.hash
        }
    } by {
        if i < pending.len() {
            assert(p[i].block == pending[i].block);
            assert(pending[i].block.number == last.number + i + 1);
            if i > 0 {
                assert(p[i - 1].block == pending[i - 1].block);
            }
        } else {
            assert(p[i].block == b);
            if i > 0 {
                assert(p[i - 1].block == pending[i - 1].block);
            }
        }
    }
    assert forall|i: int, w: ValidatorId| 0 <= i < p.len() implies !(#[trigger] p[i].support.contains(w)
        && p[i].dissent.contains(w)) by {
        if i < pending.len() {
            assert(!(pending[i].support.contains(w) && pending[i].dissent.contains(w)));
        }
    }
}

/// Votes for a sequence of blocks keep the pending tallies linked and their votes disjoint.
proof fn lemma_tally_blocks_inv(last: BlockView, pending: Seq<TallyView>, bs: Seq<BlockView>, v: ValidatorId)
    requires
        linked(last, pending),
        votes_disjoint(pending),
    ensures
        linked(last, tally_blocks(last, pending, bs, v)),
        votes_disjoint(tally_blocks(last, pending, bs, v)),
    decreases bs.len(),
{
    if bs.len() > 0 {
        lemma_tally_blocks_inv(last, pending, bs.drop_last(), v);
        lemma_tally_block_inv(last, tally_blocks(last, pending, bs.drop_last(), v), bs.last(), v);
    }
}

/// Advancing keeps the pending tallies linked and their votes disjoint, and ends settled.
proof fn lemma_advance_inv(
    s: StateView,
    vs: Seq<ValidatorKeys>,
    q: spec_fn(Priced, u64) -> Result<u128, Reason>,
)
    requires
        linked(s.last, s.pending),
        votes_disjoint(s.pending),
    ensures
        linked(advance(s, vs, q).0.last, advance(s, vs, q).0.pending),
        votes_disjoint(advance(s, vs, q).0.pending),
        settled(advance(s, vs, q).0, vs),
        advance(s, vs, q).0.first == s.first,
        advance(s, vs, q).0.reorgs == s.reorgs,
    decreases s.pending.len(),
{
    if s.pending.len() > 0 && quorum(s.pending[0].support, vs) {
        let b = s.pending[0].block;
        let round = ingress_round(s.queue + block_events(b), b.number, q, INGRESS_QUOTA);
        let n = StateView { last: b, pending: s.pending.drop_first(), queue: round.0, ..s };
        assert forall|i: int| 0 <= i < n.pending.len() implies {
            &&& #[trigger] n.pending[i].block.number == n.last.number + i + 1
            &&& n.pending[i].block.parent_hash == if i == 0 {
                n.last.hash
            } else {
                n.pending[i - 1].block.hash
            }
        } by {
            assert(n.pending[i] == s.pending[i + 1]);
            assert(s.pending[i + 1].block.number == s.last.number + (i + 1) + 1);
            assert(s.pending[0].block.number == s.last.number + 0 + 1);
        }
        assert forall|i: int, w: ValidatorId| 0 <= i < n.pending.len() implies !(
        #[trigger] n.pending[i].support.contains(w) && n.pending[i].dissent.contains(w)) by {
            assert(n.pending[i] == s.pending[i + 1]);
            assert(!(s.pending[i + 1].support.contains(w) && s.pending[i + 1].dissent.contains(w)));
        }
        lemma_advance_inv(n, vs, q);
    }
}

/// Receive a blocks message from a validator, tallying each block and advancing as far as
/// the tallies allow. `state` is the state of the message's chain; `signer` is the address
/// recovered from the message's signature. Returns the events admitted to the ledger, in order.
pub fn receive_chain_blocks<V: Fn(Priced, u64) -> Result<u128, Reason>>(
    state: &mut ChainState,
    origin: Origin,
    blocks: &ChainBlocks,
    signer: Result<Address, Reason>,
    validators: &Vec<ValidatorKeys>,
    value_of: &V,
) -> (r: Result<Vec<ChainBlockEvent>, Reason>)
    requires
        old(state).inv(),
        is_valuation(*value_of),
    ensures
        final(state).inv(),
        (match authorize(origin, signer, validators@) {
            Err(e) => r == Err::<Vec<ChainBlockEvent>, Reason>(e) && *final(state) == *old(state),
            Ok(k) => r is Ok && (final(state)@, r->Ok_0@) == receive_blocks(
                old(state)@,
                blocks_view(blocks.blocks@),
                k.substrate_id,
                validators@,
                oracle(*value_of),
            ) && settled(final(state)@, validators@),
        }),
{
    let validator = match authenticate(origin, signer, validators) {
        Ok(k) => k,
        Err(e) => {
            return Err(e);
        },
    };
    let ghost q = oracle(*value_of);
    let ghost s_in = state@;
    let ghost v = validator.substrate_id;
    let ghost bs = blocks_view(blocks.blocks@);
    let mut i: usize = 0;
    assert(bs.take(0) =~= seq![]);
    while i < blocks.blocks.len()
        invariant
            i <= blocks.blocks@.len(),
            bs == blocks_view(blocks.blocks@),
            tallies_wf(state.pending_blocks@),
            tallies_view(state.pending_blocks@) == tally_blocks(s_in.last, s_in.pending, bs.take(i as int), v),
            s_in == old(state)@,
            v == validator.substrate_id,
            state.first_block == old(state).first_block,
            state.last_block == old(state).last_block,
            state.pending_reorgs == old(state).pending_reorgs,
            state.event_queue == old(state).event_queue,
        decreases blocks.blocks.len() - i,
    {
        tally_one(&mut state.pending_blocks, &state.last_block, &blocks.blocks[i], &validator);
        assert(bs.take(i + 1).drop_last() =~= bs.take(i as int));
        assert(bs.take(i + 1).last() == blocks.blocks@[i as int]@);
        i = i + 1;
    }
    assert(bs.take(i as int) =~= bs);
    proof {
        lemma_tally_blocks_inv(s_in.last, s_in.pending, bs, v);
    }
    let ghost s0 = state@;
    assert(s0 == StateView { pending: tally_blocks(s_in.last, s_in.pending, bs, v), ..s_in });
    proof {
        lemma_advance_inv(s0, validators@, q);
    }
    let mut applied: Vec<ChainBlockEvent> = Vec::new();
    let mut done = false;
    assert(applied@ + advance(s0, validators@, q).1 =~= advance(s0, validators@, q).1);
    while !done && state.pending_blocks.len() > 0
        invariant
            is_valuation(*value_of),
            q == oracle(*value_of),
            tallies_wf(state.pending_blocks@),
            linked(state@.last, state@.pending),
            votes_disjoint(state@.pending),
            advance(s0, validators@, q) == (
                advance(state@, validators@, q).0,
                applied@ + advance(state@, validators@, q).1,
            ),
            done ==> advance(state@, validators@, q) == (state@, Seq::<ChainBlockEvent>::empty()),
            state.first_block == old(state).first_block,
            state.pending_reorgs == old(state).pending_reorgs,
        decreases state.pending_blocks.len() + if done {
            0int
        } else {
            1int
        },
    {
        let ghost cur = state@;
        if state.pending_blocks[0].has_enough_support(validators) {
            let ghost pb = state.pending_blocks@;
            let tally = state.pending_blocks.remove(0);
            assert(tally@ == cur.pending[0]);
            let mut events = chain_block_events(&tally.block);
            state.event_queue.append(&mut events);
            state.last_block = tally.block;
            let mut admitted = ingress_queue(&state.last_block, &mut state.event_queue, value_of);
            let ghost before = applied@;
            let ghost adm = admitted@;
            applied.append(&mut admitted);
            proof {
                assert(tallies_view(state.pending_blocks@) =~= cur.pending.drop_first());
                assert(state@ == StateView {
                    last: cur.pending[0].block,
                    pending: cur.pending.drop_first(),
                    queue: state@.queue,
                    ..cur
                });
                lemma_advance_inv(cur, validators@, q);
                let nx = advance(state@, validators@, q);
                assert((before + adm) + nx.1 =~= before + (adm + nx.1));
                assert forall|j: int| 0 <= j < state.pending_blocks@.len() implies #[trigger] state.pending_blocks@[j].wf() by {
                    assert(state.pending_blocks@[j] == pb[j + 1]);
                }
                assert(linked(state@.last, state@.pending)) by {
                    let n = state@;
                    assert forall|i: int| 0 <= i < n.pending.len() implies {
                        &&& #[trigger] n.pending[i].block.number == n.last.number + i + 1
                        &&& n.pending[i].block.parent_hash == if i == 0 {
                            n.last.hash
                        } else {
                            n.pending[i - 1].block.hash
                        }
                    } by {
                        assert(n.pending[i] == cur.pending[i + 1]);
                        assert(cur.pending[i + 1].block.number == cur.last.number + (i + 1) + 1);
                        assert(cur.pending[0].block.number == cur.last.number + 0 + 1);
                    }
                }
                assert forall|i: int, w: ValidatorId| 0 <= i < state@.pending.len() implies !(
                #[trigger] state@.pending[i].support.contains(w) && state@.pending[i].dissent.contains(w)) by {
                    assert(state@.pending[i] == cur.pending[i + 1]);
                    assert(!(cur.pending[i + 1].support.contains(w) && cur.pending[i + 1].dissent.contains(w)));
                }
            }
        } else if state.pending_blocks[0].has_enough_dissent(validators) {
            state.pending_blocks = Vec::new();
            assert(tallies_view(state.pending_blocks@) =~= seq![]);
            assert(applied@ + seq![] =~= applied@);
        } else {
            done = true;
            assert(applied@ + seq![] =~= applied@);
        }
    }
    assert(applied@ + seq![] =~= applied@);
    Ok(applied)
}


/// The blocks of a message stand at strictly increasing heights.
pub open spec fn increasing(bs: Seq<BlockView>) -> bool {
    forall|i: int, j: int| 0 <= i < j < bs.len() ==> #[trigger] bs[i].number < #[trigger] bs[j].number
}

/// Whether advancing clears the pending tallies on a dissenting supermajority.
pub open spec fn purges(
    s: StateView,
    vs: Seq<ValidatorKeys>,
    q: spec_fn(Priced, u64) -> Result<u128, Reason>,
) -> bool
    decreases s.pending.len(),
{
    if s.pending.len() == 0 {
        false
    } else if quorum(s.pending[0].support, vs) {
        let b = s.pending[0].block;
        let round = ingress_round(s.queue + block_events(b), b.number, q, INGRESS_QUOTA);
        purges(StateView { last: b, pending: s.pending.drop_first(), queue: round.0, ..s }, vs, q)
    } else {
        quorum(s.pending[0].dissent, vs)
    }
}

/// A validator that sends the same blocks message twice, its blocks at increasing heights,
/// changes nothing the second time, unless the first time cleared the pending tallies on a
/// dissenting supermajority.
pub proof fn lemma_repeat_vote_changes_nothing(
    s: StateView,
    bs: Seq<BlockView>,
    v: ValidatorId,
    vs: Seq<ValidatorKeys>,
    q: spec_fn(Priced, u64) -> Result<u128, Reason>,
)
    requires
        linked(s.last, s.pending),
        votes_disjoint(s.pending),
        increasing(bs),
        !purges(StateView { pending: tally_blocks(s.last, s.pending, bs, v), ..s }, vs, q),
    ensures
        receive_blocks(receive_blocks(s, bs, v, vs, q).0, bs, v, vs, q) == (
            receive_blocks(s, bs, v, vs, q).0,
            Seq::<ChainBlockEvent>::empty(),
        ),
{
    let t = tally_blocks(s.last, s.pending, bs, v);
    let st = StateView { pending: t, ..s };
    lemma_tally_blocks_inv(s.last, s.pending, bs, v);
    lemma_tally_blocks_fixpoint(s.last, s.pending, bs, v);
    let k = lemma_advance_shape(st, vs, q);
    lemma_advance_inv(st, vs, q);
    let once = advance(st, vs, q).0;
    assert forall|i: int| 0 <= i < bs.len() implies tally_block(once.last, once.pending, #[trigger] bs[i], v)
        == once.pending by {
        lemma_vote_after_advance(s.last, t, bs[i], v, k);
    }
    lemma_tally_blocks_noop(once.last, once.pending, bs, v);
    assert(StateView { pending: once.pending, ..once } == once);
}

/// Voting twice for the same block is voting once.
proof fn lemma_vote_twice(last: BlockView, p: Seq<TallyView>, b: BlockView, v: ValidatorId)
    ensures
        tally_block(last, tally_block(last, p, b, v), b, v) == tally_block(last, p, b, v),
{
    let p1 = tally_block(last, p, b, v);
    if b.number > last.number {
        let o = b.number - last.number - 1;
        if o < p.len() {
            let t = p[o];
            let t1 = p1[o];
            if b == t.block {
                assert(supported(t1, v) == t1) by {
                    assert(t1.support.insert(v) =~= t1.support);
                    assert(t1.dissent.remove(v) =~= t1.dissent);
                }
            } else {
                assert(dissented(t1, v) == t1) by {
                    assert(t1.support.remove(v) =~= t1.support);
                    assert(t1.dissent.insert(v) =~= t1.dissent);
                }
            }
            assert(p1.update(o, p1[o]) =~= p1);
        } else if p1.len() > p.len() {
            let t1 = p1[o];
            assert(supported(t1, v) == t1) by {
                assert(t1.support.insert(v) =~= t1.support);
                assert(t1.dissent.remove(v) =~= t1.dissent);
            }
            assert(p1.update(o, p1[o]) =~= p1);
        }
    }
}

/// A vote that changed nothing still changes nothing after a vote for a higher block.
proof fn lemma_vote_stable(last: BlockView, p: Seq<TallyView>, a: BlockView, b: BlockView, v: ValidatorId)
    requires
        tally_block(last, p, a, v) == p,
        a.number < b.number,
    ensures
        tally_block(last, tally_block(last, p, b, v), a, v) == tally_block(last, p, b, v),
{
    let p1 = tally_block(last, p, b, v);
    if a.number > last.number {
        let oa = a.number - last.number - 1;
        if oa < p.len() {
            assert(p1.len() >= p.len());
            assert(p1[oa] == p[oa]);
            assert(tally_block(last, p, a, v)[oa] == p[oa]);
            assert(tally_block(last, p1, a, v) =~= p1);
        } else {
            assert(p1 == p);
        }
    }
}

/// Votes for blocks at increasing heights leave every one of those votes changing nothing.
proof fn lemma_tally_blocks_fixpoint(last: BlockView, p: Seq<TallyView>, bs: Seq<BlockView>, v: ValidatorId)
    requires
        increasing(bs),
    ensures
        forall|i: int|
            0 <= i < bs.len() ==> tally_block(last, tally_blocks(last, p, bs, v), #[trigger] bs[i], v)
                == tally_blocks(last, p, bs, v),
    decreases bs.len(),
{
    if bs.len() > 0 {
        let init = bs.drop_last();
        assert(increasing(init)) by {
            assert forall|i: int, j: int| 0 <= i < j < init.len() implies #[trigger] init[i].number
                < #[trigger] init[j].number by {
                assert(init[i] == bs[i] && init[j] == bs[j]);
            }
        }
        lemma_tally_blocks_fixpoint(last, p, init, v);
        let t0 = tally_blocks(last, p, init, v);
        assert forall|i: int| 0 <= i < bs.len() implies tally_block(
            last,
            tally_blocks(last, p, bs, v),
            #[trigger] bs[i],
            v,
        ) == tally_blocks(last, p, bs, v) by {
            if i == bs.len() - 1 {
                lemma_vote_twice(last, t0, bs.last(), v);
            } else {
                assert(init[i] == bs[i]);
                assert(bs[i].number < bs[bs.len() - 1].number);
                lemma_vote_stable(last, t0, bs[i], bs.last(), v);
            }
        }
    }
}

/// Votes that each change nothing change nothing together.
proof fn lemma_tally_blocks_noop(last: BlockView, p: Seq<TallyView>, bs: Seq<BlockView>, v: ValidatorId)
    requires
        forall|i: int| 0 <= i < bs.len() ==> tally_block(last, p, #[trigger] bs[i], v) == p,
    ensures
        tally_blocks(last, p, bs, v) == p,
    decreases bs.len(),
{
    if bs.len() > 0 {
        let init = bs.drop_last();
        assert forall|i: int| 0 <= i < init.len() implies tally_block(last, p, #[trigger] init[i], v) == p by {
            assert(init[i] == bs[i]);
        }
        lemma_tally_blocks_noop(last, p, init, v);
        assert(tally_block(last, p, bs[bs.len() - 1], v) == p);
    }
}

/// Advancing without a purge drops the first `k` pending tallies, the last of which becomes
/// the last block.
proof fn lemma_advance_shape(
    s: StateView,
    vs: Seq<ValidatorKeys>,
    q: spec_fn(Priced, u64) -> Result<u128, Reason>,
) -> (k: int)
    requires
        !purges(s, vs, q),
    ensures
        0 <= k <= s.pending.len(),
        advance(s, vs, q).0.pending == s.pending.skip(k),
        advance(s, vs, q).0.last == if k == 0 {
            s.last
        } else {
            s.pending[k - 1].block
        },
    decreases s.pending.len(),
{
    if s.pending.len() > 0 && quorum(s.pending[0].support, vs) {
        let b = s.pending[0].block;
        let round = ingress_round(s.queue + block_events(b), b.number, q, INGRESS_QUOTA);
        let n = StateView { last: b, pending: s.pending.drop_first(), queue: round.0, ..s };
        let k1 = lemma_advance_shape(n, vs, q);
        assert(n.pending.skip(k1) =~= s.pending.skip(k1 + 1));
        if k1 > 0 {
            assert(n.pending[k1 - 1] == s.pending[k1]);
        }
        k1 + 1
    } else {
        assert(s.pending.skip(0) =~= s.pending);
        0
    }
}

/// A vote that changes nothing still changes nothing once the first `k` tallies have been
/// taken off and the last of them has become the last block.
proof fn lemma_vote_after_advance(last: BlockView, t: Seq<TallyView>, b: BlockView, v: ValidatorId, k: int)
    requires
        linked(last, t),
        tally_block(last, t, b, v) == t,
        0 <= k <= t.len(),
    ensures
        tally_block(if k == 0 { last } else { t[k - 1].block }, t.skip(k), b, v) == t.skip(k),
{
    let last2 = if k == 0 {
        last
    } else {
        t[k - 1].block
    };
    let t2 = t.skip(k);
    if k > 0 {
        assert(t[k - 1].block.number == last.number + (k - 1) + 1);
    }
    if b.number > last2.number {
        let o = b.number - last.number - 1;
        let o2 = b.number - last2.number - 1;
        assert(o2 == o - k);
        if o < t.len() {
            assert(t2[o2] == t[o]);
            assert(tally_block(last, t, b, v)[o] == t[o]);
            assert(tally_block(last2, t2, b, v) =~= t2);
        } else if o == t.len() {
            assert(tally_block(last, t, b, v).len() == t.len());
            if o2 > 0 {
                assert(t2[o2 - 1] == t[o - 1]);
            }
        }
    }
}


/// In every pending tally of a well-formed state, supporters and dissenters are disjoint.
pub proof fn lemma_support_dissent_disjoint(state: ChainState)
    requires
        state.inv(),
    ensures
        forall|i: int|
            0 <= i < state@.pending.len() ==> #[trigger] state@.pending[i].support.intersect(
                state@.pending[i].dissent,
            ) == Set::<ValidatorId>::empty(),
{
    assert forall|i: int| 0 <= i < state@.pending.len() implies #[trigger] state@.pending[i].support.intersect(
        state@.pending[i].dissent,
    ) == Set::<ValidatorId>::empty() by {
        assert forall|w: ValidatorId| !state@.pending[i].support.intersect(state@.pending[i].dissent).contains(
            w,
        ) by {
            assert(!(state@.pending[i].support.contains(w) && state@.pending[i].dissent.contains(w)));
        }
        assert(state@.pending[i].support.intersect(state@.pending[i].dissent) =~= Set::<ValidatorId>::empty());
    }
}

/// A new block whose parent is not the block before it leaves every tally as it was: it is
/// ignored, not counted as dissent.
pub proof fn lemma_mismatched_parent_ignored(last: BlockView, pending: Seq<TallyView>, b: BlockView, v: ValidatorId)
    requires
        b.number == last.number + pending.len() + 1,
        b.parent_hash != if pending.len() == 0 {
            last.hash
        } else {
            pending[pending.len() - 1].block.hash
        },
    ensures
        tally_block(last, pending, b, v) == pending,
{
}

} // verus!
