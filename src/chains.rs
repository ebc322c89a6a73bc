use vstd::prelude::*;

verus! {

/// A 32-byte digest: block hashes and validator identities.
pub type Hash32 = [u8; 32];

/// A 20-byte address on the external chain.
pub type Address = [u8; 20];

/// The external chains that are observed.
#[derive(Clone, Copy, Debug, PartialEq, Eq, Structural)]
pub enum ChainId {
    Eth,
    Matic,
}

/// Arithmetic failures.
#[derive(Clone, Copy, Debug, PartialEq, Eq, Structural)]
pub enum MathError {
    Overflow,
    Underflow,
}

/// Why an operation failed.
#[derive(Clone, Copy, Debug, PartialEq, Eq, Structural)]
pub enum Reason {
    MissingBlock,
    BlockMismatch,
    HashMismatch,
    CryptoError,
    UnknownValidator,
    BadOrigin,
    WorkerBusy,
    FailedToSubmitExtrinsic,
    NoPrice,
    MathError(MathError),
    Unreachable,
}

/// An event emitted by the starport contract on an external chain.
#[derive(Clone, Copy, Debug, PartialEq, Eq)]
pub enum EthEvent {
    Lock { asset: Address, sender: Address, recipient: Hash32, amount: u128 },
    LockCash { sender: Address, recipient: Hash32, amount: u128, principal: u128 },
    ExecuteProposal { proposal: Hash32 },
    NoticeInvoked { era_id: u32, era_index: u32, notice_hash: Hash32 },
}

/// An external event together with the chain and the block number it came from.
#[derive(Clone, Copy, Debug, PartialEq, Eq)]
pub struct ChainBlockEvent {
    pub chain: ChainId,
    pub block_number: u64,
    pub event: EthEvent,
}

/// A block of an external chain.
#[derive(Clone, Debug, PartialEq, Eq)]
pub struct ChainBlock {
    pub chain: ChainId,
    pub number: u64,
    pub hash: Hash32,
    pub parent_hash: Hash32,
    pub events: Vec<EthEvent>,
}

/// The mathematical value of a block.
pub struct BlockView {
    pub chain: ChainId,
    pub number: u64,
    pub hash: Hash32,
    pub parent_hash: Hash32,
    pub events: Seq<EthEvent>,
}

impl View for ChainBlock {
    type V = BlockView;

    open spec fn view(&self) -> BlockView {
        BlockView {
            chain: self.chain,
            number: self.number,
            hash: self.hash,
            parent_hash: self.parent_hash,
            events: self.events@,
        }
    }
}

/// A message of blocks of one chain, in the order a worker observed them.
#[derive(Clone, Debug, PartialEq, Eq)]
pub struct ChainBlocks {
    pub chain: ChainId,
    pub blocks: Vec<ChainBlock>,
}

/// The events of a block, each tagged with the block's chain and number.
pub open spec fn block_events(b: BlockView) -> Seq<ChainBlockEvent> {
    b.events.map(|_i: int, e: EthEvent| ChainBlockEvent { chain: b.chain, block_number: b.number, event: e })
}

/// The views of a sequence of blocks.
pub open spec fn blocks_view(bs: Seq<ChainBlock>) -> Seq<BlockView> {
    bs.map(|_i: int, b: ChainBlock| b@)
}

/// Byte-wise equality of two fixed-size arrays.
pub fn bytes_eq<const N: usize>(a: &[u8; N], b: &[u8; N]) -> (r: bool)
    ensures
        r == (*a == *b),
{
    let mut i: usize = 0;
    while i < N
        invariant
            a@.len() == N,
            b@.len() == N,
            i <= N,
            forall|j: int| 0 <= j < i ==> a@[j] == b@[j],
        decreases N - i,
    {
        if a[i] != b[i] {
            return false;
        }
        i = i + 1;
    }
    proof {
        assert(a@ =~= b@);
        vstd::array::axiom_array_ext_equal(*a, *b);
    }
    true
}

/// Equality of two external events.
pub fn eth_event_eq(a: &EthEvent, b: &EthEvent) -> (r: bool)
    ensures
        r == (*a == *b),
{
    match (a, b) {
        (
            EthEvent::Lock { asset: a1, sender: s1, recipient: r1, amount: m1 },
            EthEvent::Lock { asset: a2, sender: s2, recipient: r2, amount: m2 },
        ) => bytes_eq(a1, a2) && bytes_eq(s1, s2) && bytes_eq(r1, r2) && *m1 == *m2,
        (
            EthEvent::LockCash { sender: s1, recipient: r1, amount: m1, principal: p1 },
            EthEvent::LockCash { sender: s2, recipient: r2, amount: m2, principal: p2 },
        ) => bytes_eq(s1, s2) && bytes_eq(r1, r2) && *m1 == *m2 && *p1 == *p2,
        (EthEvent::ExecuteProposal { proposal: p1 }, EthEvent::ExecuteProposal { proposal: p2 }) => {
            bytes_eq(p1, p2)
        },
        (
            EthEvent::NoticeInvoked { era_id: e1, era_index: i1, notice_hash: h1 },
            EthEvent::NoticeInvoked { era_id: e2, era_index: i2, notice_hash: h2 },
        ) => *e1 == *e2 && *i1 == *i2 && bytes_eq(h1, h2),
        _ => false,
    }
}

/// Equality of two tagged events.
pub fn chain_event_eq(a: &ChainBlockEvent, b: &ChainBlockEvent) -> (r: bool)
    ensures
        r == (*a == *b),
{
    a.chain == b.chain && a.block_number == b.block_number && eth_event_eq(&a.event, &b.event)
}

/// Equality of two blocks, over all four fields.
pub fn block_eq(a: &ChainBlock, b: &ChainBlock) -> (r: bool)
    ensures
        r == (a@ == b@),
{
    if a.chain != b.chain || a.number != b.number || !bytes_eq(&a.hash, &b.hash) || !bytes_eq(
        &a.parent_hash,
        &b.parent_hash,
    ) {
        return false;
    }
    if a.events.len() != b.events.len() {
        assert(a@.events.len() != b@.events.len());
        return false;
    }
    let mut i: usize = 0;
    while i < a.events.len()
        invariant
            a.events.len() == b.events.len(),
            i <= a.events.len(),
            forall|j: int| 0 <= j < i ==> a.events@[j] == b.events@[j],
        decreases a.events.len() - i,
    {
        if !eth_event_eq(&a.events[i], &b.events[i]) {
            assert(a@.events[i as int] != b@.events[i as int]);
            return false;
        }
        i = i + 1;
    }
    assert(a.events@ =~= b.events@);
    true
}

/// A copy of a block.
pub fn copy_block(b: &ChainBlock) -> (r: ChainBlock)
    ensures
        r@ == b@,
{
    let mut events: Vec<EthEvent> = Vec::new();
    let mut i: usize = 0;
    while i < b.events.len()
        invariant
            i <= b.events.len(),
            events@ =~= b.events@.take(i as int),
        decreases b.events.len() - i,
    {
        events.push(b.events[i]);
        i = i + 1;
        assert(events@ =~= b.events@.take(i as int));
    }
    assert(events@ =~= b.events@);
    ChainBlock { chain: b.chain, number: b.number, hash: b.hash, parent_hash: b.parent_hash, events }
}

/// The events of a block, tagged with its chain and number.
pub fn chain_block_events(b: &ChainBlock) -> (r: Vec<ChainBlockEvent>)
    ensures
        r@ == block_events(b@),
{
    let mut out: Vec<ChainBlockEvent> = Vec::new();
    let mut i: usize = 0;
    while i < b.events.len()
        invariant
            i <= b.events.len(),
            out@ =~= block_events(b@).take(i as int),
        decreases b.events.len() - i,
    {
        out.push(ChainBlockEvent { chain: b.chain, block_number: b.number, event: b.events[i] });
        i = i + 1;
        assert(out@ =~= block_events(b@).take(i as int));
    }
    assert(out@ =~= block_events(b@));
    out
}


/// A claim that the chain now ending at `to_hash` supersedes the one ending at `from_hash`.
/// `reverse_blocks` run newest to oldest; `forward_blocks` oldest to newest.
#[derive(Clone, Debug, PartialEq, Eq)]
pub struct ChainReorg {
    pub chain: ChainId,
    pub from_hash: Hash32,
    pub to_hash: Hash32,
    pub reverse_blocks: Vec<ChainBlock>,
    pub forward_blocks: Vec<ChainBlock>,
}

/// The mathematical value of a reorg.
pub struct ReorgView {
    pub chain: ChainId,
    pub from_hash: Hash32,
    pub to_hash: Hash32,
    pub reverse: Seq<BlockView>,
    pub forward: Seq<BlockView>,
}

impl View for ChainReorg {
    type V = ReorgView;

    open spec fn view(&self) -> ReorgView {
        ReorgView {
            chain: self.chain,
            from_hash: self.from_hash,
            to_hash: self.to_hash,
            reverse: blocks_view(self.reverse_blocks@),
            forward: blocks_view(self.forward_blocks@),
        }
    }
}

/// Equality of two sequences of blocks.
pub fn blocks_eq(a: &Vec<ChainBlock>, b: &Vec<ChainBlock>) -> (r: bool)
    ensures
        r == (blocks_view(a@) == blocks_view(b@)),
{
    if a.len() != b.len() {
        assert(blocks_view(a@).len() != blocks_view(b@).len());
        return false;
    }
    let mut i: usize = 0;
    while i < a.len()
        invariant
            a.len() == b.len(),
            i <= a.len(),
            forall|j: int| 0 <= j < i ==> a@[j]@ == b@[j]@,
        decreases a.len() - i,
    {
        if !block_eq(&a[i], &b[i]) {
            assert(blocks_view(a@)[i as int] != blocks_view(b@)[i as int]);
            return false;
        }
        i = i + 1;
    }
    assert(blocks_view(a@) =~= blocks_view(b@));
    true
}

/// Equality of two reorgs, over all their fields.
pub fn reorg_eq(a: &ChainReorg, b: &ChainReorg) -> (r: bool)
    ensures
        r == (a@ == b@),
{
    a.chain == b.chain && bytes_eq(&a.from_hash, &b.from_hash) && bytes_eq(&a.to_hash, &b.to_hash)
        && blocks_eq(&a.reverse_blocks, &b.reverse_blocks) && blocks_eq(
        &a.forward_blocks,
        &b.forward_blocks,
    )
}

/// A copy of a sequence of blocks.
pub fn copy_blocks(bs: &Vec<ChainBlock>) -> (r: Vec<ChainBlock>)
    ensures
        blocks_view(r@) == blocks_view(bs@),
{
    let mut out: Vec<ChainBlock> = Vec::new();
    let mut i: usize = 0;
    while i < bs.len()
        invariant
            i <= bs.len(),
            out@.len() == i,
            forall|j: int| 0 <= j < i ==> out@[j]@ == bs@[j]@,
        decreases bs.len() - i,
    {
        out.push(copy_block(&bs[i]));
        i = i + 1;
    }
    assert(blocks_view(out@) =~= blocks_view(bs@));
    out
}

/// A copy of a reorg.
pub fn copy_reorg(r: &ChainReorg) -> (c: ChainReorg)
    ensures
        c@ == r@,
{
    ChainReorg {
        chain: r.chain,
        from_hash: r.from_hash,
        to_hash: r.to_hash,
        reverse_blocks: copy_blocks(&r.reverse_blocks),
        forward_blocks: copy_blocks(&r.forward_blocks),
    }
}

/// The items in reverse order.
pub fn collect_rev<T>(items: Vec<T>) -> (r: Vec<T>)
    ensures
        r@ == items@.reverse(),
{
    let mut items = items;
    let ghost input = items@;
    let mut out: Vec<T> = Vec::new();
    while items.len() > 0
        invariant
            items@ == input.take(items@.len() as int),
            items@.len() <= input.len(),
            out@ =~= input.skip(items@.len() as int).reverse(),
        decreases items.len(),
    {
        let x = items.pop().unwrap();
        out.push(x);
        assert(items@ =~= input.take(items@.len() as int));
        assert(out@ =~= input.skip(items@.len() as int).reverse());
    }
    assert(input.skip(0) =~= input);
    out
}

} // verus!
