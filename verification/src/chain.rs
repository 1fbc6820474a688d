//! The ledger: a hash-chained sequence of committed blocks anchored at a
//! fixed genesis block, plus a holding area of proposed blocks. A proposed
//! block is committed by `mine`, the sole mutator of the committed chain,
//! which matches the first pending entry on `(file_hash, receiver)`,
//! finalizes its index, predecessor hash and own hash, and appends it.

use vstd::prelude::*;
use vstd::pervasive::unreached;
use vstd::string::StringExecFns;

use crate::numeral::{dec_str, u128_to_dec};

verus! {

/// Mathematical image of a block: numerals and character sequences only.
pub ghost struct BlockV {
    pub index: nat,
    pub timestamp: nat,
    pub sender: Seq<char>,
    pub receiver: Seq<char>,
    pub file_hash: Seq<char>,
    pub hash: Option<Seq<char>>,
    pub prev_hash: Option<Seq<char>>,
}

/// One ledger entry: a record of a file transfer. `hash` stays `None` while
/// the block waits in the holding area and is filled at commit time.
pub struct Block {
    pub index: u32,
    pub timestamp: u128,
    pub sender: String,
    pub receiver: String,
    pub file_hash: String,
    pub hash: Option<String>,
    pub prev_hash: Option<String>,
}

impl View for Block {
    type V = BlockV;

    open spec fn view(&self) -> BlockV {
        BlockV {
            index: self.index as nat,
            timestamp: self.timestamp as nat,
            sender: self.sender@,
            receiver: self.receiver@,
            file_hash: self.file_hash@,
            hash: match self.hash {
                Some(h) => Some(h@),
                None => None,
            },
            prev_hash: match self.prev_hash {
                Some(p) => Some(p@),
                None => None,
            },
        }
    }
}

/// Mathematical image of a proposed transfer.
pub ghost struct InputV {
    pub file_hash: Seq<char>,
    pub sender: Seq<char>,
    pub receiver: Seq<char>,
}

/// A proposed transfer: the three caller-supplied fields of a block.
pub struct BlockInput {
    pub file_hash: String,
    pub sender: String,
    pub receiver: String,
}

impl View for BlockInput {
    type V = InputV;

    open spec fn view(&self) -> InputV {
        InputV { file_hash: self.file_hash@, sender: self.sender@, receiver: self.receiver@ }
    }
}

/// The hex digest that `sha256_hex` computes. The digest is a function of
/// the input characters alone; nothing more is assumed of it.
pub uninterp spec fn sha256_hex_of(s: Seq<char>) -> Seq<char>;

/// Relies on `sha2::Sha256` (`Digest::digest`: the SHA-256 digest of the
/// input bytes, a function of the input alone) and on `hex::encode` (two
/// lowercase hex digits per byte).
#[verifier::external_body]
pub(crate) fn sha256_hex(data: &str) -> (r: String)
    ensures
        r@ == sha256_hex_of(data@),
{
    hex::encode(<sha2::Sha256 as sha2::Digest>::digest(data.as_bytes()))
}

/// Relies on `std::time::SystemTime::now`: milliseconds since the epoch,
/// or zero for a clock before the epoch. The result depends on the wall
/// clock, so nothing is promised of it.
#[verifier::external_body]
fn now_millis() -> u128 {
    std::time::SystemTime::now()
        .duration_since(std::time::UNIX_EPOCH)
        .map(|d| d.as_millis())
        .unwrap_or(0)
}

/// The text a block's hash is computed over: the concatenation of the six
/// other fields, numerals in decimal, the predecessor hash unwrapped.
pub open spec fn hash_input(b: BlockV) -> Seq<char> {
    dec_str(b.index) + dec_str(b.timestamp) + b.sender + b.receiver + b.file_hash + (match b
        .prev_hash {
        Some(p) => p,
        None => Seq::<char>::empty(),
    })
}

/// A committed non-genesis block carries a predecessor hash and its own
/// hash, computed over its final fields.
pub open spec fn block_hash_ok(b: BlockV) -> bool {
    &&& b.prev_hash is Some
    &&& b.hash == Some(sha256_hex_of(hash_input(b)))
}

/// The fixed genesis block anchoring every chain.
pub open spec fn genesis() -> BlockV {
    BlockV {
        index: 0,
        timestamp: 0,
        sender: Seq::<char>::empty(),
        receiver: Seq::<char>::empty(),
        file_hash: Seq::<char>::empty(),
        hash: Some(seq!['0']),
        prev_hash: None,
    }
}

/// Chain integrity: the chain starts at genesis, each later block carries
/// the position it stands at, references its predecessor's hash, and its
/// own hash is the digest of its final fields.
pub open spec fn chain_wf(bs: Seq<BlockV>) -> bool {
    &&& bs.len() >= 1
    &&& bs[0] == genesis()
    &&& forall|i: int|
        1 <= i < bs.len() ==> {
            &&& block_hash_ok(#[trigger] bs[i])
            &&& bs[i].prev_hash == bs[i - 1].hash
            &&& bs[i].index == i
        }
}

/// `b` may stand at the end of the chain `pre`.
pub open spec fn extends(pre: Seq<BlockV>, b: BlockV) -> bool {
    &&& pre.len() >= 1
    &&& b.index == pre.len()
    &&& b.prev_hash == pre.last().hash
    &&& block_hash_ok(b)
}

/// Appending a fitting block preserves chain integrity.
pub proof fn lemma_chain_wf_push(bs: Seq<BlockV>, b: BlockV)
    requires
        chain_wf(bs),
        extends(bs, b),
    ensures
        chain_wf(bs.push(b)),
{
    let cs = bs.push(b);
    assert forall|i: int| 1 <= i < cs.len() implies {
        &&& block_hash_ok(#[trigger] cs[i])
        &&& cs[i].prev_hash == cs[i - 1].hash
        &&& cs[i].index == i
    } by {
        if i < bs.len() {
            assert(cs[i] == bs[i]);
            assert(cs[i - 1] == bs[i - 1]);
        } else {
            assert(cs[i] == b);
            assert(cs[i - 1] == bs[bs.len() - 1]);
        }
    }
}

/// The views of a sequence of blocks.
pub open spec fn views_of(s: Seq<Block>) -> Seq<BlockV> {
    s.map_values(|b: Block| b@)
}

pub proof fn lemma_views_of_push(s: Seq<Block>, b: Block)
    ensures
        views_of(s.push(b)) =~= views_of(s).push(b@),
{
}

pub proof fn lemma_views_of_remove(s: Seq<Block>, i: int)
    requires
        0 <= i < s.len(),
    ensures
        views_of(s.remove(i)) =~= views_of(s).remove(i),
{
}

/// Mathematical image of the ledger store.
pub ghost struct ChainV {
    pub blocks: Seq<BlockV>,
    pub pending: Seq<BlockV>,
}

/// The ledger store: the committed chain and the holding area of proposed
/// blocks. All chain growth passes through `add_block` and `mine`.
pub struct BlockChain {
    blocks: Vec<Block>,
    pending_blocks: Vec<Block>,
}

/// `b` matches a commit request for `(fh, rc)`.
pub open spec fn block_matches(b: BlockV, fh: Seq<char>, rc: Seq<char>) -> bool {
    b.file_hash == fh && b.receiver == rc
}

/// Some pending entry matches `(fh, rc)`.
pub open spec fn has_match(p: Seq<BlockV>, fh: Seq<char>, rc: Seq<char>) -> bool {
    exists|i: int| 0 <= i < p.len() && block_matches(#[trigger] p[i], fh, rc)
}

/// `i` is the first pending entry matching `(fh, rc)`.
pub open spec fn is_first_match(p: Seq<BlockV>, fh: Seq<char>, rc: Seq<char>, i: int) -> bool {
    &&& 0 <= i < p.len()
    &&& block_matches(p[i], fh, rc)
    &&& forall|j: int| 0 <= j < i ==> !block_matches(#[trigger] p[j], fh, rc)
}

/// The index of the first pending entry matching `(fh, rc)`.
pub open spec fn first_match_idx(p: Seq<BlockV>, fh: Seq<char>, rc: Seq<char>) -> int {
    choose|i: int| is_first_match(p, fh, rc, i)
}

/// A successful commit of `(fh, rc)` turned the state `pre` into `post`:
/// the first matching pending entry left the holding area and, finalized,
/// now stands at the end of the chain.
pub open spec fn mined_ok(pre: ChainV, post: ChainV, fh: Seq<char>, rc: Seq<char>) -> bool {
    let i = first_match_idx(pre.pending, fh, rc);
    let b = post.blocks.last();
    &&& is_first_match(pre.pending, fh, rc, i)
    &&& post.pending == pre.pending.remove(i)
    &&& post.blocks == pre.blocks.push(b)
    &&& b.sender == pre.pending[i].sender
    &&& b.receiver == rc
    &&& b.file_hash == fh
    &&& b.index == pre.blocks.len()
    &&& b.prev_hash == pre.blocks.last().hash
    &&& b.hash == Some(sha256_hex_of(hash_input(b)))
}

/// A proposal for `inp` turned the state `pre` into `post`: the candidate
/// that an immediate commit would append — carrying the next index and the
/// head's hash, but no hash of its own — now ends the holding area.
pub open spec fn proposed_ok(pre: ChainV, post: ChainV, inp: InputV) -> bool {
    let b = post.pending.last();
    &&& post.blocks == pre.blocks
    &&& post.pending == pre.pending.push(b)
    &&& b.sender == inp.sender
    &&& b.receiver == inp.receiver
    &&& b.file_hash == inp.file_hash
    &&& b.index == pre.blocks.len()
    &&& b.prev_hash == pre.blocks.last().hash
    &&& b.hash is None
}

/// The error of a failed commit: no pending entry matched.
#[derive(Clone, Copy, Debug, PartialEq, Eq, Structural)]
pub enum ChainError {
    NotFound,
}

impl View for BlockChain {
    type V = ChainV;

    closed spec fn view(&self) -> ChainV {
        ChainV { blocks: views_of(self.blocks@), pending: views_of(self.pending_blocks@) }
    }
}

impl BlockChain {
    /// Chain integrity of the committed chain.
    pub open spec fn wf(self) -> bool {
        chain_wf(self@.blocks)
    }

    /// A fresh ledger: the genesis block alone, an empty holding area.
    pub fn new() -> (c: BlockChain)
        ensures
            c.wf(),
            c@.blocks =~= seq![genesis()],
            c@.pending =~= Seq::<BlockV>::empty(),
    {
        let mut blocks: Vec<Block> = Vec::new();
        blocks.push(genesis_block());
        let c = BlockChain { blocks, pending_blocks: Vec::new() };
        proof {
            assert(c@.blocks =~= seq![genesis()]);
        }
        c
    }

    /// An independent copy of the ledger state.
    pub fn clone(&self) -> (c: BlockChain)
        ensures
            c@ == self@,
    {
        let c = BlockChain {
            blocks: clone_blocks(&self.blocks),
            pending_blocks: clone_blocks(&self.pending_blocks),
        };
        proof {
            assert(c@.blocks =~= self@.blocks);
            assert(c@.pending =~= self@.pending);
        }
        c
    }

    /// Appends a proposed block to the holding area, unconditionally:
    /// duplicates are allowed there and resolved at commit time.
    pub fn add_pending_block(&mut self, block: Block)
        ensures
            final(self)@.pending =~= old(self)@.pending.push(block@),
            final(self)@.blocks == old(self)@.blocks,
            final(self).wf() == old(self).wf(),
    {
        proof {
            lemma_views_of_push(self.pending_blocks@, block);
        }
        self.pending_blocks.push(block);
    }

    /// Appends an already finalized block to the committed chain.
    pub fn add_block(&mut self, block: Block)
        requires
            old(self).wf(),
            extends(old(self)@.blocks, block@),
        ensures
            final(self).wf(),
            final(self)@.blocks =~= old(self)@.blocks.push(block@),
            final(self)@.pending == old(self)@.pending,
    {
        proof {
            lemma_views_of_push(self.blocks@, block);
            lemma_chain_wf_push(self@.blocks, block@);
        }
        self.blocks.push(block);
    }

    /// The candidate a proposal would commit as right now: it carries the
    /// index and predecessor hash of an immediate commit, and no hash yet.
    pub fn input_to_block(&self, input: BlockInput) -> (r: Block)
        requires
            self.wf(),
            self@.blocks.len() <= u32::MAX,
        ensures
            r@.index == self@.blocks.len(),
            r@.sender == input@.sender,
            r@.receiver == input@.receiver,
            r@.file_hash == input@.file_hash,
            r@.hash is None,
            r@.prev_hash == self@.blocks.last().hash,
    {
        let n = self.blocks.len();
        let prev = match &self.blocks[n - 1].hash {
            Some(h) => h.clone(),
            None => {
                proof {
                    last_hash_is_some(self@.blocks);
                }
                unreached()
            },
        };
        Block::new(input, n as u32, prev)
    }

    /// Commits the first pending entry matching the request's
    /// `(file_hash, receiver)` — the sender is deliberately not part of the
    /// match key. On success the entry leaves the holding area and, with a
    /// fresh timestamp, its final index, the head's hash as predecessor and
    /// its own hash, extends the chain. With no match, `NotFound` and an
    /// unchanged ledger.
    #[verifier::rlimit(50)]
    pub fn mine(&mut self, input: BlockInput) -> (r: Result<(), ChainError>)
        requires
            old(self).wf(),
            old(self)@.blocks.len() < u32::MAX,
        ensures
            final(self).wf(),
            !has_match(old(self)@.pending, input@.file_hash, input@.receiver) ==> r == Err::<
                (),
                ChainError,
            >(ChainError::NotFound) && final(self)@ == old(self)@,
            has_match(old(self)@.pending, input@.file_hash, input@.receiver) ==> r == Ok::<
                (),
                ChainError,
            >(()) && mined_ok(old(self)@, final(self)@, input@.file_hash, input@.receiver),
    {
        let ghost pre = self@;
        let ghost fh = input@.file_hash;
        let ghost rc = input@.receiver;
        match find_first_match(&self.pending_blocks, &input) {
            None => Err(ChainError::NotFound),
            Some(i) => {
                proof {
                    assert(first_match_idx(pre.pending, fh, rc) == i as int) by {
                        first_match_unique(pre.pending, fh, rc, i as int);
                    }
                    lemma_views_of_remove(self.pending_blocks@, i as int);
                }
                let mut b = self.pending_blocks.remove(i);
                b.index = self.blocks.len() as u32;
                b.timestamp = now_millis();
                let m = self.blocks.len();
                let prev = match &self.blocks[m - 1].hash {
                    Some(h) => h.clone(),
                    None => {
                        proof {
                            last_hash_is_some(self@.blocks);
                        }
                        unreached()
                    },
                };
                b.prev_hash = Some(prev);
                let text = hash_text(&b);
                b.hash = Some(sha256_hex(text.as_str()));
                proof {
                    assert(extends(self@.blocks, b@));
                }
                self.add_block(b);
                proof {
                    assert(self@.blocks.last() == b@);
                    assert(mined_ok(pre, self@, fh, rc));
                }
                Ok(())
            },
        }
    }

    /// The number of committed blocks, the genesis block included.
    pub fn num_blocks(&self) -> (r: usize)
        ensures
            r == self@.blocks.len(),
    {
        self.blocks.len()
    }

    pub(crate) fn blocks_ref(&self) -> (r: &Vec<Block>)
        ensures
            views_of(r@) == self@.blocks,
    {
        &self.blocks
    }

    pub(crate) fn raw(blocks: Vec<Block>) -> (c: BlockChain)
        ensures
            c@.blocks == views_of(blocks@),
            c@.pending =~= Seq::<BlockV>::empty(),
    {
        let c = BlockChain { blocks, pending_blocks: Vec::new() };
        proof {
            assert(c@.pending =~= Seq::<BlockV>::empty());
        }
        c
    }
}

/// The text a block's hash is computed over, built for a finalized block.
pub(crate) fn hash_text(b: &Block) -> (r: String)
    requires
        b@.prev_hash is Some,
    ensures
        r@ == hash_input(b@),
{
    let mut text = u128_to_dec(b.index as u128);
    text.append(u128_to_dec(b.timestamp).as_str());
    text.append(b.sender.as_str());
    text.append(b.receiver.as_str());
    text.append(b.file_hash.as_str());
    match &b.prev_hash {
        Some(p) => text.append(p.as_str()),
        None => unreached(),
    }
    proof {
        assert(text@ == hash_input(b@));
    }
    text
}

/// The position of the first pending entry matching the request, if any.
fn find_first_match(p: &Vec<Block>, input: &BlockInput) -> (r: Option<usize>)
    ensures
        match r {
            Some(i) => is_first_match(views_of(p@), input@.file_hash, input@.receiver, i as int),
            None => !has_match(views_of(p@), input@.file_hash, input@.receiver),
        },
{
    let ghost fh = input@.file_hash;
    let ghost rc = input@.receiver;
    let mut i: usize = 0;
    while i < p.len()
        invariant
            0 <= i <= p.len(),
            input@.file_hash == fh,
            input@.receiver == rc,
            forall|j: int| 0 <= j < i ==> !block_matches(#[trigger] views_of(p@)[j], fh, rc),
        decreases p.len() - i,
    {
        if p[i].file_hash == input.file_hash && p[i].receiver == input.receiver {
            proof {
                assert(views_of(p@)[i as int] == p@[i as int]@);
            }
            return Some(i);
        }
        proof {
            assert(views_of(p@)[i as int] == p@[i as int]@);
        }
        i = i + 1;
    }
    None
}

/// The first match is the only index satisfying `is_first_match`.
proof fn first_match_unique(p: Seq<BlockV>, fh: Seq<char>, rc: Seq<char>, i: int)
    requires
        is_first_match(p, fh, rc, i),
    ensures
        first_match_idx(p, fh, rc) == i,
{
    let k = first_match_idx(p, fh, rc);
    assert(is_first_match(p, fh, rc, k));
    if k < i {
        assert(!block_matches(p[k], fh, rc));
    } else if i < k {
        assert(!block_matches(p[i], fh, rc));
    }
}

/// In a well-formed chain the head carries a hash.
proof fn last_hash_is_some(bs: Seq<BlockV>)
    requires
        chain_wf(bs),
    ensures
        bs.last().hash is Some,
{
    if bs.len() == 1 {
        assert(bs.last() == genesis());
    } else {
        assert(block_hash_ok(bs[bs.len() - 1]));
    }
}

/// The executable genesis block, matching `genesis()`.
pub fn genesis_block() -> (b: Block)
    ensures
        b@ == genesis(),
{
    let b = Block {
        index: 0,
        timestamp: 0,
        sender: String::new(),
        receiver: String::new(),
        file_hash: String::new(),
        hash: Some("0".to_owned()),
        prev_hash: None,
    };
    proof {
        reveal_strlit("0");
        assert(b@.hash matches Some(h) && h =~= seq!['0']);
        assert(b@.sender =~= Seq::<char>::empty());
        assert(b@.receiver =~= Seq::<char>::empty());
        assert(b@.file_hash =~= Seq::<char>::empty());
    }
    b
}

fn clone_block(b: &Block) -> (r: Block)
    ensures
        r@ == b@,
{
    Block {
        index: b.index,
        timestamp: b.timestamp,
        sender: b.sender.clone(),
        receiver: b.receiver.clone(),
        file_hash: b.file_hash.clone(),
        hash: match &b.hash {
            Some(h) => Some(h.clone()),
            None => None,
        },
        prev_hash: match &b.prev_hash {
            Some(p) => Some(p.clone()),
            None => None,
        },
    }
}

fn clone_blocks(v: &Vec<Block>) -> (r: Vec<Block>)
    ensures
        views_of(r@) =~= views_of(v@),
{
    let mut r: Vec<Block> = Vec::new();
    let mut i: usize = 0;
    while i < v.len()
        invariant
            0 <= i <= v.len(),
            views_of(r@) =~= views_of(v@.take(i as int)),
        decreases v.len() - i,
    {
        let ghost r0 = r@;
        let b = clone_block(&v[i]);
        r.push(b);
        proof {
            lemma_views_of_push(r0, b);
            assert(v@.take(i as int + 1) =~= v@.take(i as int).push(v@[i as int]));
            lemma_views_of_push(v@.take(i as int), v@[i as int]);
            assert(views_of(r@) =~= views_of(v@.take(i as int + 1)));
        }
        i = i + 1;
    }
    proof {
        assert(v@.take(v@.len() as int) =~= v@);
    }
    r
}

impl Block {
    /// A proposed block materialized: the given position and predecessor
    /// hash, a wall-clock timestamp, and no hash of its own yet.
    pub fn new(input: BlockInput, index: u32, prev_hash: String) -> (r: Block)
        ensures
            r@.index == index as nat,
            r@.sender == input@.sender,
            r@.receiver == input@.receiver,
            r@.file_hash == input@.file_hash,
            r@.hash is None,
            r@.prev_hash == Some(prev_hash@),
    {
        Block {
            index,
            timestamp: now_millis(),
            sender: input.sender,
            receiver: input.receiver,
            file_hash: input.file_hash,
            hash: None,
            prev_hash: Some(prev_hash),
        }
    }
}

/// Chain integrity, as a law of every well-formed chain: it starts at the
/// genesis block, every later block references its predecessor's hash, and
/// no two blocks share an index.
pub proof fn lemma_chain_integrity(bs: Seq<BlockV>)
    requires
        chain_wf(bs),
    ensures
        bs.len() >= 1,
        bs[0] == genesis(),
        forall|i: int| 1 <= i < bs.len() ==> (#[trigger] bs[i]).prev_hash == bs[i - 1].hash,
        forall|i: int, j: int|
            0 <= i < j < bs.len() ==> (#[trigger] bs[i]).index != (#[trigger] bs[j]).index,
{
    assert forall|i: int, j: int|
        0 <= i < j < bs.len() implies (#[trigger] bs[i]).index != (#[trigger] bs[j]).index by {
        if i == 0 {
            assert(bs[j].index == j);
        } else {
            assert(bs[i].index == i);
            assert(bs[j].index == j);
        }
    }
}

/// Commits are consumed exactly once: where `i` is the only pending entry
/// matching `(fh, rc)`, a commit removes it and a second commit of the
/// same pair finds no match, so by `mine`'s contract it returns `NotFound`
/// and leaves the ledger unchanged.
pub proof fn lemma_commit_consumes_match(p: Seq<BlockV>, fh: Seq<char>, rc: Seq<char>, i: int)
    requires
        is_first_match(p, fh, rc, i),
        forall|j: int| 0 <= j < p.len() && block_matches(#[trigger] p[j], fh, rc) ==> j == i,
    ensures
        has_match(p, fh, rc),
        first_match_idx(p, fh, rc) == i,
        !has_match(p.remove(i), fh, rc),
{
    assert(block_matches(p[i], fh, rc));
    first_match_unique(p, fh, rc, i);
    let q = p.remove(i);
    assert forall|j: int| 0 <= j < q.len() implies !block_matches(#[trigger] q[j], fh, rc) by {
        if j < i {
            assert(q[j] == p[j]);
        } else {
            assert(q[j] == p[j + 1]);
        }
    }
}

} // verus!

