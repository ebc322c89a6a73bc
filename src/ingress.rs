use vstd::prelude::*;

use crate::chains::{Address, ChainBlock, ChainBlockEvent, ChainId, EthEvent, Reason};

verus! {

/// USD (six decimals) that one round may accept.
pub const INGRESS_QUOTA: u128 = 10_000_000_000;

/// Soft cap on the queue length that a worker respects.
pub const INGRESS_SLACK: u32 = 50;

/// USD (six decimals) that a governance event stands for.
pub const INGRESS_LARGE: u128 = 1_000_000_000_000_000_000;

/// Blocks an event must age before it may be admitted.
pub const MIN_EVENT_BLOCKS: u64 = 3;

/// Blocks after which an event carries no risk.
pub const MAX_EVENT_BLOCKS: u64 = 60;

/// What an event puts at risk: an amount of an asset, an amount of cash principal, or a USD
/// value.
#[derive(Clone, Copy, Debug, PartialEq, Eq)]
pub enum Priced {
    Asset { chain: ChainId, asset: Address, amount: u128 },
    Cash { principal: u128 },
    Usd { value: u128 },
}

/// What an event puts at risk, if anything: a lock its amount of the asset, a cash lock its
/// principal, a proposal `INGRESS_LARGE` USD; other events nothing.
pub open spec fn priced(e: ChainBlockEvent) -> Option<Priced> {
    match e.event {
        EthEvent::Lock { asset, amount, .. } => Some(Priced::Asset { chain: e.chain, asset, amount }),
        EthEvent::LockCash { principal, .. } => Some(Priced::Cash { principal }),
        EthEvent::ExecuteProposal { .. } => Some(Priced::Usd { value: INGRESS_LARGE }),
        EthEvent::NoticeInvoked { .. } => None,
    }
}

/// What an event puts at risk: see `priced`.
pub fn priced_of(e: &ChainBlockEvent) -> (r: Option<Priced>)
    ensures
        r == priced(*e),
{
    match e.event {
        EthEvent::Lock { asset, amount, .. } => Some(Priced::Asset { chain: e.chain, asset, amount }),
        EthEvent::LockCash { principal, .. } => Some(Priced::Cash { principal }),
        EthEvent::ExecuteProposal { .. } => Some(Priced::Usd { value: INGRESS_LARGE }),
        EthEvent::NoticeInvoked { .. } => None,
    }
}

/// A valuation maps what is at risk and the blocks elapsed since its event to its USD value,
/// decayed over those blocks (prices and the decay curve live outside this library).
/// It must accept every input and answer the same for the same input.
pub open spec fn is_valuation<V: Fn(Priced, u64) -> Result<u128, Reason>>(value_of: V) -> bool {
    &&& forall|e: Priced, d: u64| #[trigger] value_of.requires((e, d))
    &&& forall|e: Priced, d: u64, r1: Result<u128, Reason>, r2: Result<u128, Reason>|
        #![trigger value_of.ensures((e, d), r1), value_of.ensures((e, d), r2)]
        value_of.ensures((e, d), r1) && value_of.ensures((e, d), r2) ==> r1 == r2
}

/// The answers of a valuation, as a function.
pub open spec fn oracle<V: Fn(Priced, u64) -> Result<u128, Reason>>(value_of: V) -> spec_fn(
    Priced,
    u64,
) -> Result<u128, Reason> {
    |e: Priced, d: u64| choose|r: Result<u128, Reason>| value_of.ensures((e, d), r)
}

/// An answer of a valuation is the one its function gives.
proof fn lemma_oracle_answer<V: Fn(Priced, u64) -> Result<u128, Reason>>(
    value_of: V,
    e: Priced,
    d: u64,
    r: Result<u128, Reason>,
)
    requires
        is_valuation(value_of),
        value_of.ensures((e, d), r),
    ensures
        oracle(value_of)(e, d) == r,
{
    let c = choose|c: Result<u128, Reason>| value_of.ensures((e, d), c);
    assert(value_of.ensures((e, d), c));
}

/// Blocks elapsed from an event to height `n`, saturating at zero.
pub open spec fn elapsed(e: ChainBlockEvent, n: u64) -> u64 {
    if n >= e.block_number {
        (n - e.block_number) as u64
    } else {
        0
    }
}

/// The risk-adjusted value of an event at height `n`.
pub open spec fn risk_value(
    e: ChainBlockEvent,
    n: u64,
    q: spec_fn(Priced, u64) -> Result<u128, Reason>,
) -> Result<u128, Reason> {
    if n < e.block_number {
        Err(Reason::Unreachable)
    } else {
        match priced(e) {
            None => Ok(0),
            Some(p) => q(p, (n - e.block_number) as u64),
        }
    }
}

/// Whether an event is old enough to be admitted at height `n`.
pub open spec fn eligible(e: ChainBlockEvent, n: u64) -> bool {
    elapsed(e, n) >= MIN_EVENT_BLOCKS
}

/// The quota cost of an eligible event in a round at height `n`.
pub open spec fn round_cost(
    e: ChainBlockEvent,
    n: u64,
    q: spec_fn(Priced, u64) -> Result<u128, Reason>,
) -> Result<u128, Reason> {
    if elapsed(e, n) > MAX_EVENT_BLOCKS {
        Ok(0)
    } else {
        risk_value(e, n, q)
    }
}

/// Whether an event is admitted in a round at height `n` with `available` quota left.
pub open spec fn admitted(
    e: ChainBlockEvent,
    n: u64,
    q: spec_fn(Priced, u64) -> Result<u128, Reason>,
    available: u128,
) -> bool {
    &&& eligible(e, n)
    &&& round_cost(e, n, q) is Ok
    &&& round_cost(e, n, q)->Ok_0 <= available
}

/// One round over a queue: the events kept, in order, and those admitted, in order.
pub open spec fn ingress_round(
    queue: Seq<ChainBlockEvent>,
    n: u64,
    q: spec_fn(Priced, u64) -> Result<u128, Reason>,
    available: u128,
) -> (Seq<ChainBlockEvent>, Seq<ChainBlockEvent>)
    decreases queue.len(),
{
    if queue.len() == 0 {
        (seq![], seq![])
    } else {
        let e = queue[0];
        if admitted(e, n, q, available) {
            let rest = ingress_round(
                queue.drop_first(),
                n,
                q,
                (available - round_cost(e, n, q)->Ok_0) as u128,
            );
            (rest.0, seq![e] + rest.1)
        } else {
            let rest = ingress_round(queue.drop_first(), n, q, available);
            (seq![e] + rest.0, rest.1)
        }
    }
}

/// The number of blocks a queue of `len` events still has room for, at least one.
pub open spec fn slack_of(len: nat) -> u32 {
    if len < INGRESS_SLACK {
        (INGRESS_SLACK - len) as u32
    } else {
        1
    }
}

/// Determine the number of blocks which can still fit on an ingression queue.
pub fn queue_slack(event_queue: &Vec<ChainBlockEvent>) -> (r: u32)
    ensures
        r == slack_of(event_queue@.len()),
{
    let queue_len: u32 = if event_queue.len() > u32::MAX as usize {
        u32::MAX
    } else {
        event_queue.len() as u32
    };
    if queue_len < INGRESS_SLACK {
        INGRESS_SLACK - queue_len
    } else {
        1
    }
}

/// Determine the risk-adjusted value of an event at height `block_number`.
pub fn risk_adjusted_value<V: Fn(Priced, u64) -> Result<u128, Reason>>(
    block_event: &ChainBlockEvent,
    block_number: u64,
    value_of: &V,
) -> (r: Result<u128, Reason>)
    requires
        is_valuation(*value_of),
    ensures
        r == risk_value(*block_event, block_number, oracle(*value_of)),
{
    if block_number < block_event.block_number {
        return Err(Reason::Unreachable);
    }
    let elapsed_blocks = block_number - block_event.block_number;
    match priced_of(block_event) {
        None => Ok(0),
        Some(p) => {
            let r = value_of(p, elapsed_blocks);
            proof {
                lemma_oracle_answer(*value_of, p, elapsed_blocks, r);
            }
            r
        },
    }
}

/// Ingress a single round at the height of `last_block`: accept, in queue order, each event
/// that is old enough and whose cost fits in what is left of the quota. Returns the admitted
/// events, in order; the rest stay queued, in order.
pub fn ingress_queue<V: Fn(Priced, u64) -> Result<u128, Reason>>(
    last_block: &ChainBlock,
    event_queue: &mut Vec<ChainBlockEvent>,
    value_of: &V,
) -> (applied: Vec<ChainBlockEvent>)
    requires
        is_valuation(*value_of),
    ensures
        (final(event_queue)@, applied@) == ingress_round(
            old(event_queue)@,
            last_block.number,
            oracle(*value_of),
            INGRESS_QUOTA,
        ),
{
    let ghost q = oracle(*value_of);
    let ghost queue0 = event_queue@;
    let n = last_block.number;
    let mut available: u128 = INGRESS_QUOTA;
    let mut kept: Vec<ChainBlockEvent> = Vec::new();
    let mut taken: Vec<ChainBlockEvent> = Vec::new();
    let mut i: usize = 0;
    proof {
        let all = ingress_round(queue0, n, q, INGRESS_QUOTA);
        assert(queue0.subrange(0, queue0.len() as int) =~= queue0);
        assert(kept@ + all.0 =~= all.0);
        assert(taken@ + all.1 =~= all.1);
    }
    while i < event_queue.len()
        invariant
            is_valuation(*value_of),
            q == oracle(*value_of),
            event_queue@ == queue0,
            i <= queue0.len(),
            ({
                let rest = ingress_round(queue0.subrange(i as int, queue0.len() as int), n, q, available);
                ingress_round(queue0, n, q, INGRESS_QUOTA) == (kept@ + rest.0, taken@ + rest.1)
            }),
        decreases queue0.len() - i,
    {
        let event = event_queue[i];
        let ghost suffix = queue0.subrange(i as int, queue0.len() as int);
        assert(suffix[0] == event);
        assert(suffix.drop_first() =~= queue0.subrange(i + 1, queue0.len() as int));
        let delta_blocks: u64 = if n >= event.block_number {
            n - event.block_number
        } else {
            0
        };
        let mut accept = false;
        if delta_blocks >= MIN_EVENT_BLOCKS {
            let risk_result = if delta_blocks > MAX_EVENT_BLOCKS {
                Ok(0)
            } else {
                risk_adjusted_value(&event, n, value_of)
            };
            match risk_result {
                Ok(value) => {
                    if value <= available {
                        available = available - value;
                        accept = true;
                    }
                },
                Err(_) => {},
            }
        }
        let ghost taken0 = taken@;
        let ghost kept0 = kept@;
        if accept {
            taken.push(event);
            assert(taken@ + ingress_round(suffix.drop_first(), n, q, available).1 =~= taken0 + (
            seq![event] + ingress_round(suffix.drop_first(), n, q, available).1));
        } else {
            kept.push(event);
            assert(kept@ + ingress_round(suffix.drop_first(), n, q, available).0 =~= kept0 + (
            seq![event] + ingress_round(suffix.drop_first(), n, q, available).0));
        }
        i = i + 1;
    }
    assert(queue0.subrange(i as int, queue0.len() as int).len() == 0);
    assert(kept@ + seq![] =~= kept@);
    assert(taken@ + seq![] =~= taken@);
    *event_queue = kept;
    taken
}


/// The events of a queue that are old enough to be admitted at height `n`, in order.
pub open spec fn mature_events(queue: Seq<ChainBlockEvent>, n: u64) -> Seq<ChainBlockEvent>
    decreases queue.len(),
{
    if queue.len() == 0 {
        seq![]
    } else if eligible(queue[0], n) {
        seq![queue[0]] + mature_events(queue.drop_first(), n)
    } else {
        mature_events(queue.drop_first(), n)
    }
}

/// The events of a queue that are still too young at height `n`, in order.
pub open spec fn young_events(queue: Seq<ChainBlockEvent>, n: u64) -> Seq<ChainBlockEvent>
    decreases queue.len(),
{
    if queue.len() == 0 {
        seq![]
    } else if eligible(queue[0], n) {
        young_events(queue.drop_first(), n)
    } else {
        seq![queue[0]] + young_events(queue.drop_first(), n)
    }
}

/// Whether every mature event of a queue has a known cost at height `n`.
pub open spec fn mature_costs_known(
    queue: Seq<ChainBlockEvent>,
    n: u64,
    q: spec_fn(Priced, u64) -> Result<u128, Reason>,
) -> bool {
    forall|i: int| 0 <= i < queue.len() && eligible(queue[i], n) ==> #[trigger] round_cost(queue[i], n, q) is Ok
}

/// The summed cost of the mature events of a queue at height `n`.
pub open spec fn mature_cost(
    queue: Seq<ChainBlockEvent>,
    n: u64,
    q: spec_fn(Priced, u64) -> Result<u128, Reason>,
) -> int
    decreases queue.len(),
{
    if queue.len() == 0 {
        0
    } else if eligible(queue[0], n) {
        round_cost(queue[0], n, q)->Ok_0 + mature_cost(queue.drop_first(), n, q)
    } else {
        mature_cost(queue.drop_first(), n, q)
    }
}

/// An event exactly `MIN_EVENT_BLOCKS` old is eligible.
pub proof fn lemma_min_age_is_eligible(e: ChainBlockEvent, n: u64)
    requires
        n >= e.block_number,
        n - e.block_number == MIN_EVENT_BLOCKS,
    ensures
        eligible(e, n),
{
}

/// An event `MAX_EVENT_BLOCKS + 1` old costs nothing.
pub proof fn lemma_past_max_age_costs_nothing(
    e: ChainBlockEvent,
    n: u64,
    q: spec_fn(Priced, u64) -> Result<u128, Reason>,
)
    requires
        n >= e.block_number,
        n - e.block_number == MAX_EVENT_BLOCKS + 1,
    ensures
        round_cost(e, n, q) == Ok::<u128, Reason>(0),
{
}

/// When the quota covers the summed cost of all mature events, one round admits every
/// mature event, in order, and keeps exactly the young ones.
pub proof fn lemma_round_drains_mature(
    queue: Seq<ChainBlockEvent>,
    n: u64,
    q: spec_fn(Priced, u64) -> Result<u128, Reason>,
    available: u128,
)
    requires
        mature_costs_known(queue, n, q),
        mature_cost(queue, n, q) <= available,
    ensures
        ingress_round(queue, n, q, available) == (young_events(queue, n), mature_events(queue, n)),
    decreases queue.len(),
{
    if queue.len() > 0 {
        let rest = queue.drop_first();
        assert forall|i: int| 0 <= i < rest.len() && eligible(rest[i], n) implies #[trigger] round_cost(
            rest[i],
            n,
            q,
        ) is Ok by {
            assert(rest[i] == queue[i + 1]);
        }
        lemma_mature_cost_nonneg(rest, n, q);
        if eligible(queue[0], n) {
            assert(round_cost(queue[0], n, q) is Ok);
            let c = round_cost(queue[0], n, q)->Ok_0;
            lemma_round_drains_mature(rest, n, q, (available - c) as u128);
        } else {
            lemma_round_drains_mature(rest, n, q, available);
        }
    }
}

/// Costs sum to a non-negative amount.
proof fn lemma_mature_cost_nonneg(
    queue: Seq<ChainBlockEvent>,
    n: u64,
    q: spec_fn(Priced, u64) -> Result<u128, Reason>,
)
    ensures
        mature_cost(queue, n, q) >= 0,
    decreases queue.len(),
{
    if queue.len() > 0 {
        lemma_mature_cost_nonneg(queue.drop_first(), n, q);
    }
}

/// What is left of the quota after a round over `queue`.
pub open spec fn quota_left(
    queue: Seq<ChainBlockEvent>,
    n: u64,
    q: spec_fn(Priced, u64) -> Result<u128, Reason>,
    available: u128,
) -> u128
    decreases queue.len(),
{
    if queue.len() == 0 {
        available
    } else if admitted(queue[0], n, q, available) {
        quota_left(queue.drop_first(), n, q, (available - round_cost(queue[0], n, q)->Ok_0) as u128)
    } else {
        quota_left(queue.drop_first(), n, q, available)
    }
}

/// A round over `a + b` is a round over `a`, then one over `b` with what `a` left of the quota.
proof fn lemma_round_split(
    a: Seq<ChainBlockEvent>,
    b: Seq<ChainBlockEvent>,
    n: u64,
    q: spec_fn(Priced, u64) -> Result<u128, Reason>,
    available: u128,
)
    ensures
        ingress_round(a + b, n, q, available) == (
            ingress_round(a, n, q, available).0 + ingress_round(b, n, q, quota_left(a, n, q, available)).0,
            ingress_round(a, n, q, available).1 + ingress_round(b, n, q, quota_left(a, n, q, available)).1,
        ),
        quota_left(a + b, n, q, available) == quota_left(b, n, q, quota_left(a, n, q, available)),
    decreases a.len(),
{
    if a.len() == 0 {
        assert(a + b =~= b);
        let r = ingress_round(b, n, q, available);
        assert(seq![] + r.0 =~= r.0);
        assert(seq![] + r.1 =~= r.1);
    } else {
        let e = a[0];
        assert((a + b)[0] == e);
        assert((a + b).drop_first() =~= a.drop_first() + b);
        let next = if admitted(e, n, q, available) {
            (available - round_cost(e, n, q)->Ok_0) as u128
        } else {
            available
        };
        lemma_round_split(a.drop_first(), b, n, q, next);
        let ra = ingress_round(a.drop_first(), n, q, next);
        let rb = ingress_round(b, n, q, quota_left(a.drop_first(), n, q, next));
        assert(seq![e] + (ra.0 + rb.0) =~= (seq![e] + ra.0) + rb.0);
        assert(seq![e] + (ra.1 + rb.1) =~= (seq![e] + ra.1) + rb.1);
    }
}

/// An event `MAX_EVENT_BLOCKS + 1` old is admitted at no cost wherever it stands in the queue:
/// every other event is kept or admitted exactly as if it were absent.
pub proof fn lemma_fully_decayed_event_is_free(
    before: Seq<ChainBlockEvent>,
    e: ChainBlockEvent,
    after: Seq<ChainBlockEvent>,
    n: u64,
    q: spec_fn(Priced, u64) -> Result<u128, Reason>,
    available: u128,
)
    requires
        n >= e.block_number,
        n - e.block_number == MAX_EVENT_BLOCKS + 1,
    ensures
        ingress_round(before + seq![e] + after, n, q, available).0 == ingress_round(before + after, n, q, available).0,
        ingress_round(before + seq![e] + after, n, q, available).1 == ingress_round(before, n, q, available).1 + seq![e]
            + ingress_round(after, n, q, quota_left(before, n, q, available)).1,
        ingress_round(before + after, n, q, available).1 == ingress_round(before, n, q, available).1
            + ingress_round(after, n, q, quota_left(before, n, q, available)).1,
{
    let left = quota_left(before, n, q, available);
    let one = seq![e];
    assert(one.drop_first() =~= Seq::<ChainBlockEvent>::empty());
    assert(one.len() == 1 && one[0] == e);
    assert(round_cost(e, n, q) == Ok::<u128, Reason>(0));
    assert(admitted(e, n, q, left));
    assert((left - round_cost(e, n, q)->Ok_0) as u128 == left);
    assert(ingress_round(Seq::<ChainBlockEvent>::empty(), n, q, left) == (
        Seq::<ChainBlockEvent>::empty(),
        Seq::<ChainBlockEvent>::empty(),
    ));
    assert(quota_left(Seq::<ChainBlockEvent>::empty(), n, q, left) == left);
    assert(ingress_round(one, n, q, left) == (Seq::<ChainBlockEvent>::empty(), seq![e] + Seq::<ChainBlockEvent>::empty()));
    assert(seq![e] + Seq::<ChainBlockEvent>::empty() =~= seq![e]);
    assert(quota_left(one, n, q, left) == left);
    lemma_round_split(before, one, n, q, available);
    lemma_round_split(before + one, after, n, q, available);
    lemma_round_split(before, after, n, q, available);
    let r1 = ingress_round(before, n, q, available);
    let r2 = ingress_round(after, n, q, left);
    assert(r1.0 + Seq::<ChainBlockEvent>::empty() =~= r1.0);
}

} // verus!
