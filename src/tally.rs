use vstd::prelude::*;

use crate::chains::{bytes_eq, Address, BlockView, ChainBlock, ChainReorg, Hash32, Reason, ReorgView};

verus! {

/// The identity under which a validator's votes are recorded.
pub type ValidatorId = Hash32;

/// A member of the validator set: its identity and the address it signs with.
#[derive(Clone, Copy, Debug, PartialEq, Eq)]
pub struct ValidatorKeys {
    pub substrate_id: ValidatorId,
    pub eth_address: Address,
}

/// Where a message came from: only unsigned messages, carrying their own signature, are taken.
#[derive(Clone, Copy, Debug, PartialEq, Eq)]
pub enum Origin {
    Unsigned,
    Signed(Hash32),
}

/// The first validator of `vs` that signs with `addr`.
pub open spec fn find_validator(vs: Seq<ValidatorKeys>, addr: Address) -> Option<ValidatorKeys>
    decreases vs.len(),
{
    if vs.len() == 0 {
        None
    } else if vs[0].eth_address == addr {
        Some(vs[0])
    } else {
        find_validator(vs.drop_first(), addr)
    }
}

/// Who sent a message: the origin must be unsigned, the signature must have been recovered,
/// and the recovered address must belong to the validator set.
pub open spec fn authorize(
    origin: Origin,
    signer: Result<Address, Reason>,
    vs: Seq<ValidatorKeys>,
) -> Result<ValidatorKeys, Reason> {
    match origin {
        Origin::Signed(_) => Err(Reason::BadOrigin),
        Origin::Unsigned => match signer {
            Err(e) => Err(e),
            Ok(addr) => match find_validator(vs, addr) {
                Some(k) => Ok(k),
                None => Err(Reason::UnknownValidator),
            },
        },
    }
}

/// Authenticate a message: see `authorize`.
pub fn authenticate(
    origin: Origin,
    signer: Result<Address, Reason>,
    validators: &Vec<ValidatorKeys>,
) -> (r: Result<ValidatorKeys, Reason>)
    ensures
        r == authorize(origin, signer, validators@),
{
    match origin {
        Origin::Signed(_) => Err(Reason::BadOrigin),
        Origin::Unsigned => match signer {
            Err(e) => Err(e),
            Ok(addr) => {
                let mut i: usize = 0;
                assert(validators@.skip(0) =~= validators@);
                while i < validators.len()
                    invariant
                        origin is Unsigned,
                        signer == Ok::<Address, Reason>(addr),
                        i <= validators@.len(),
                        find_validator(validators@, addr) == find_validator(
                            validators@.skip(i as int),
                            addr,
                        ),
                    decreases validators.len() - i,
                {
                    assert(validators@.skip(i as int).drop_first() =~= validators@.skip(i + 1));
                    assert(validators@.skip(i as int)[0] == validators@[i as int]);
                    let k = validators[i];
                    if bytes_eq(&k.eth_address, &addr) {
                        assert(validators@.skip(i as int).len() > 0);
                        assert(find_validator(validators@.skip(i as int), addr) == Some(k));
                        return Ok(k);
                    }
                    i = i + 1;
                }
                Err(Reason::UnknownValidator)
            },
        },
    }
}

/// How many members of `vs` are among `votes`.
pub open spec fn votes_in(vs: Seq<ValidatorKeys>, votes: Set<ValidatorId>) -> nat
    decreases vs.len(),
{
    if vs.len() == 0 {
        0
    } else {
        votes_in(vs.drop_last(), votes) + if votes.contains(vs.last().substrate_id) {
            1nat
        } else {
            0nat
        }
    }
}

/// Whether `votes` hold a two-thirds supermajority of `vs`.
pub open spec fn quorum(votes: Set<ValidatorId>, vs: Seq<ValidatorKeys>) -> bool {
    3 * votes_in(vs, votes) > 2 * vs.len()
}

/// Whether an identity is in a list of votes.
pub fn contains_id(ids: &Vec<ValidatorId>, id: &ValidatorId) -> (r: bool)
    ensures
        r == ids@.contains(*id),
{
    match index_of_id(ids, id) {
        Some(_) => true,
        None => false,
    }
}

/// The position of an identity in a list of votes.
pub fn index_of_id(ids: &Vec<ValidatorId>, id: &ValidatorId) -> (r: Option<usize>)
    ensures
        r is Some ==> r->Some_0 < ids@.len() && ids@[r->Some_0 as int] == *id,
        r is None ==> !ids@.contains(*id),
{
    let mut i: usize = 0;
    while i < ids.len()
        invariant
            i <= ids@.len(),
            forall|j: int| 0 <= j < i ==> ids@[j] != *id,
        decreases ids.len() - i,
    {
        if bytes_eq(&ids[i], id) {
            return Some(i);
        }
        i = i + 1;
    }
    None
}

/// Whether a list of votes holds a supermajority of `validators`.
pub fn has_super_majority(votes: &Vec<ValidatorId>, validators: &Vec<ValidatorKeys>) -> (r: bool)
    ensures
        r == quorum(votes@.to_set(), validators@),
{
    let mut count: u64 = 0;
    let mut i: usize = 0;
    while i < validators.len()
        invariant
            i <= validators@.len(),
            count == votes_in(validators@.take(i as int), votes@.to_set()),
            count <= i,
        decreases validators.len() - i,
    {
        assert(validators@.take(i + 1).drop_last() =~= validators@.take(i as int));
        if contains_id(votes, &validators[i].substrate_id) {
            count = count + 1;
        }
        i = i + 1;
    }
    assert(validators@.take(i as int) =~= validators@);
    3 * (count as u128) > 2 * (validators.len() as u128)
}

/// Pushing onto a list adds one member to its set.
proof fn lemma_push_to_set(s: Seq<ValidatorId>, x: ValidatorId)
    ensures
        s.push(x).to_set() == s.to_set().insert(x),
{
    assert forall|y: ValidatorId| #[trigger] s.push(x).contains(y) <==> s.contains(y) || y == x by {
        if s.contains(y) {
            let k = choose|k: int| 0 <= k < s.len() && s[k] == y;
            assert(s.push(x)[k] == y);
        }
        if y == x {
            assert(s.push(x)[s.len() as int] == x);
        }
    }
    assert(s.push(x).to_set() =~= s.to_set().insert(x));
}

/// A one-element list has a one-element set.
proof fn lemma_singleton_to_set(s: Seq<ValidatorId>, x: ValidatorId)
    requires
        s == Seq::<ValidatorId>::empty().push(x),
    ensures
        s.to_set() == set![x],
        s.no_duplicates(),
{
    lemma_push_to_set(Seq::empty(), x);
    assert(Seq::<ValidatorId>::empty().to_set() =~= Set::empty());
    assert(set![x] =~= Set::<ValidatorId>::empty().insert(x));
}

/// Add a vote to a list of votes, keeping it free of repeats.
pub(crate) fn insert_vote(ids: &mut Vec<ValidatorId>, id: &ValidatorId)
    requires
        old(ids)@.no_duplicates(),
    ensures
        final(ids)@.no_duplicates(),
        final(ids)@.to_set() == old(ids)@.to_set().insert(*id),
        old(ids)@.contains(*id) ==> final(ids)@ == old(ids)@,
{
    if !contains_id(ids, id) {
        let ghost before = ids@;
        ids.push(*id);
        proof {
            lemma_push_to_set(before, *id);
        }
    }
}

/// Take a vote out of a list of votes.
fn remove_vote(ids: &mut Vec<ValidatorId>, id: &ValidatorId)
    requires
        old(ids)@.no_duplicates(),
    ensures
        final(ids)@.no_duplicates(),
        final(ids)@.to_set() == old(ids)@.to_set().remove(*id),
        !old(ids)@.contains(*id) ==> final(ids)@ == old(ids)@,
{
    match index_of_id(ids, id) {
        Some(i) => {
            let ghost before = ids@;
            ids.remove(i);
            assert forall|x: ValidatorId| #[trigger] ids@.contains(x) <==> before.contains(x) && x != *id by {
                if before.contains(x) && x != *id {
                    let k = choose|k: int| 0 <= k < before.len() && before[k] == x;
                    if k < i {
                        assert(ids@[k] == x);
                    } else {
                        assert(ids@[k - 1] == x);
                    }
                }
            }
            assert(ids@.to_set() =~= before.to_set().remove(*id));
        },
        None => {},
    }
}

/// The tally of votes on one pending block.
#[derive(Clone, Debug, PartialEq, Eq)]
pub struct ChainBlockTally {
    pub block: ChainBlock,
    pub support: Vec<ValidatorId>,
    pub dissent: Vec<ValidatorId>,
}

/// The mathematical value of a block tally.
pub struct TallyView {
    pub block: BlockView,
    pub support: Set<ValidatorId>,
    pub dissent: Set<ValidatorId>,
}

impl View for ChainBlockTally {
    type V = TallyView;

    open spec fn view(&self) -> TallyView {
        TallyView { block: self.block@, support: self.support@.to_set(), dissent: self.dissent@.to_set() }
    }
}

/// A tally with one more supporter, who no longer dissents.
pub open spec fn supported(t: TallyView, v: ValidatorId) -> TallyView {
    TallyView { block: t.block, support: t.support.insert(v), dissent: t.dissent.remove(v) }
}

/// A tally with one more dissenter, who no longer supports.
pub open spec fn dissented(t: TallyView, v: ValidatorId) -> TallyView {
    TallyView { block: t.block, support: t.support.remove(v), dissent: t.dissent.insert(v) }
}

impl ChainBlockTally {
    /// Its vote lists hold no repeats.
    pub open spec fn wf(&self) -> bool {
        self.support@.no_duplicates() && self.dissent@.no_duplicates()
    }

    /// A new tally of `block`, supported by `validator`.
    pub fn new(block: ChainBlock, validator: &ValidatorKeys) -> (r: Self)
        ensures
            r.wf(),
            r@ == (TallyView {
                block: block@,
                support: set![validator.substrate_id],
                dissent: Set::empty(),
            }),
    {
        let mut support: Vec<ValidatorId> = Vec::new();
        support.push(validator.substrate_id);
        let r = ChainBlockTally { block, support, dissent: Vec::new() };
        proof {
            lemma_singleton_to_set(r.support@, validator.substrate_id);
        }
        assert(r.dissent@.to_set() =~= Set::empty());
        r
    }

    /// Record `validator` as supporting the block.
    pub fn add_support(&mut self, validator: &ValidatorKeys)
        requires
            old(self).wf(),
        ensures
            final(self).wf(),
            final(self)@ == supported(old(self)@, validator.substrate_id),
    {
        insert_vote(&mut self.support, &validator.substrate_id);
        remove_vote(&mut self.dissent, &validator.substrate_id);
    }

    /// Record `validator` as dissenting from the block.
    pub fn add_dissent(&mut self, validator: &ValidatorKeys)
        requires
            old(self).wf(),
        ensures
            final(self).wf(),
            final(self)@ == dissented(old(self)@, validator.substrate_id),
    {
        remove_vote(&mut self.support, &validator.substrate_id);
        insert_vote(&mut self.dissent, &validator.substrate_id);
    }

    /// Whether a supermajority of `validators` supports the block.
    pub fn has_enough_support(&self, validators: &Vec<ValidatorKeys>) -> (r: bool)
        ensures
            r == quorum(self@.support, validators@),
    {
        has_super_majority(&self.support, validators)
    }

    /// Whether a supermajority of `validators` dissents from the block.
    pub fn has_enough_dissent(&self, validators: &Vec<ValidatorKeys>) -> (r: bool)
        ensures
            r == quorum(self@.dissent, validators@),
    {
        has_super_majority(&self.dissent, validators)
    }
}

/// The tally of votes on one candidate reorg.
#[derive(Clone, Debug, PartialEq, Eq)]
pub struct ChainReorgTally {
    pub reorg: ChainReorg,
    pub support: Vec<ValidatorId>,
}

/// The mathematical value of a reorg tally.
pub struct ReorgTallyView {
    pub reorg: ReorgView,
    pub support: Set<ValidatorId>,
}

impl View for ChainReorgTally {
    type V = ReorgTallyView;

    open spec fn view(&self) -> ReorgTallyView {
        ReorgTallyView { reorg: self.reorg@, support: self.support@.to_set() }
    }
}

impl ChainReorgTally {
    /// Its vote list holds no repeats.
    pub open spec fn wf(&self) -> bool {
        self.support@.no_duplicates()
    }

    /// A new tally of `reorg`, supported by `validator`.
    pub fn new(reorg: ChainReorg, validator: &ValidatorKeys) -> (r: Self)
        ensures
            r.wf(),
            r@ == (ReorgTallyView { reorg: reorg@, support: set![validator.substrate_id] }),
    {
        let mut support: Vec<ValidatorId> = Vec::new();
        support.push(validator.substrate_id);
        let r = ChainReorgTally { reorg, support };
        proof {
            lemma_singleton_to_set(r.support@, validator.substrate_id);
        }
        r
    }

    /// Record `validator` as supporting the reorg.
    pub fn add_support(&mut self, validator: &ValidatorKeys)
        requires
            old(self).wf(),
        ensures
            final(self).wf(),
            final(self)@ == (ReorgTallyView {
                reorg: old(self)@.reorg,
                support: old(self)@.support.insert(validator.substrate_id),
            }),
    {
        insert_vote(&mut self.support, &validator.substrate_id);
    }

    /// Whether a supermajority of `validators` supports the reorg.
    pub fn has_enough_support(&self, validators: &Vec<ValidatorKeys>) -> (r: bool)
        ensures
            r == quorum(self@.support, validators@),
    {
        has_super_majority(&self.support, validators)
    }
}

} // verus!
