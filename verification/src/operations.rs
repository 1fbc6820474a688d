//! The command protocol: one line of whitespace-separated tokens decodes to
//! a typed operation — strictly, so that a missing or extra argument is a
//! typed decode failure rather than a crash — and the dispatcher runs the
//! operation against the peer directory and the ledger, answering with one
//! line of text.

use vstd::prelude::*;
use vstd::string::StringExecFns;

use crate::chain::{has_match, mined_ok, proposed_ok, BlockChain, BlockInput, InputV};
use crate::numeral::{dec_str, u128_to_dec};
use crate::peertable::{pt_has_key, PeerTable};
use crate::snapshot::enc_chain;

verus! {

/// The separators between tokens of a command line.
pub open spec fn is_space(c: char) -> bool {
    c == ' ' || c == '\t' || c == '\r' || c == '\n'
}

/// The first position at or after `i` that is not a separator.
pub open spec fn spec_skip(s: Seq<char>, i: int) -> int
    decreases s.len() - i when 0 <= i <= s.len()
{
    if i < s.len() && is_space(s[i]) {
        spec_skip(s, i + 1)
    } else {
        i
    }
}

/// The first position at or after `i` that is a separator, or the end.
pub open spec fn spec_end(s: Seq<char>, i: int) -> int
    decreases s.len() - i when 0 <= i <= s.len()
{
    if i < s.len() && !is_space(s[i]) {
        spec_end(s, i + 1)
    } else {
        i
    }
}

pub proof fn lemma_skip_bounds(s: Seq<char>, i: int)
    requires
        0 <= i <= s.len(),
    ensures
        i <= spec_skip(s, i) <= s.len(),
        spec_skip(s, i) == s.len() || !is_space(s[spec_skip(s, i)]),
    decreases s.len() - i,
{
    if i < s.len() && is_space(s[i]) {
        lemma_skip_bounds(s, i + 1);
    }
}

pub proof fn lemma_end_bounds(s: Seq<char>, i: int)
    requires
        0 <= i <= s.len(),
    ensures
        i <= spec_end(s, i) <= s.len(),
        spec_end(s, i) == s.len() || is_space(s[spec_end(s, i)]),
    decreases s.len() - i,
{
    if i < s.len() && !is_space(s[i]) {
        lemma_end_bounds(s, i + 1);
    }
}

/// The tokens of `s` from position `i` on: maximal separator-free runs.
pub open spec fn tokens_from(s: Seq<char>, i: int) -> Seq<Seq<char>>
    decreases s.len() - i when 0 <= i <= s.len() via tokens_from_dec
{
    let j = spec_skip(s, i);
    if j >= s.len() {
        Seq::<Seq<char>>::empty()
    } else {
        seq![s.subrange(j, spec_end(s, j))] + tokens_from(s, spec_end(s, j))
    }
}

#[via_fn]
proof fn tokens_from_dec(s: Seq<char>, i: int) {
    if 0 <= i <= s.len() {
        lemma_skip_bounds(s, i);
        let j = spec_skip(s, i);
        if j < s.len() {
            lemma_end_bounds(s, j);
            assert(spec_end(s, j) == spec_end(s, j + 1));
        }
    }
}

/// The tokens of a command line.
pub open spec fn tokens(s: Seq<char>) -> Seq<Seq<char>> {
    tokens_from(s, 0)
}

/// Mathematical image of a decoded operation.
pub ghost enum OpV {
    AddPeer(Seq<char>),
    GetPeer(Seq<char>),
    AddBlock(InputV),
    MineBlock(InputV),
    GetBlocks,
    NumBlocks,
    NoOp,
}

/// A decoded operation. An unrecognized keyword decodes to `NoOp`; a
/// recognized keyword with the wrong number of arguments does not decode.
pub enum Operations {
    AddPeer(String),
    GetPeer(String),
    AddBlock(BlockInput),
    MineBlock(BlockInput),
    GetBlocks,
    NumBlocks,
    NoOp,
}

impl View for Operations {
    type V = OpV;

    open spec fn view(&self) -> OpV {
        match self {
            Operations::AddPeer(k) => OpV::AddPeer(k@),
            Operations::GetPeer(k) => OpV::GetPeer(k@),
            Operations::AddBlock(inp) => OpV::AddBlock(inp@),
            Operations::MineBlock(inp) => OpV::MineBlock(inp@),
            Operations::GetBlocks => OpV::GetBlocks,
            Operations::NumBlocks => OpV::NumBlocks,
            Operations::NoOp => OpV::NoOp,
        }
    }
}

/// The error of a line whose keyword is recognized but whose argument
/// count is wrong: too few or too many.
#[derive(Clone, Copy, Debug, PartialEq, Eq, Structural)]
pub enum DecodeError {
    BadArity,
}

/// What a command line decodes to, over its tokens. An empty line and an
/// unrecognized keyword are no-ops; a recognized keyword demands its exact
/// argument count.
pub open spec fn spec_parse_operation(s: Seq<char>) -> Result<OpV, DecodeError> {
    let ts = tokens(s);
    if ts.len() == 0 {
        Ok(OpV::NoOp)
    } else if ts[0] == "add_peer"@ {
        if ts.len() == 2 {
            Ok(OpV::AddPeer(ts[1]))
        } else {
            Err(DecodeError::BadArity)
        }
    } else if ts[0] == "get_peer"@ {
        if ts.len() == 2 {
            Ok(OpV::GetPeer(ts[1]))
        } else {
            Err(DecodeError::BadArity)
        }
    } else if ts[0] == "add_block"@ {
        if ts.len() == 4 {
            Ok(OpV::AddBlock(InputV { file_hash: ts[1], sender: ts[2], receiver: ts[3] }))
        } else {
            Err(DecodeError::BadArity)
        }
    } else if ts[0] == "mine_block"@ {
        if ts.len() == 4 {
            Ok(OpV::MineBlock(InputV { file_hash: ts[1], sender: ts[2], receiver: ts[3] }))
        } else {
            Err(DecodeError::BadArity)
        }
    } else if ts[0] == "num_blocks"@ {
        if ts.len() == 1 {
            Ok(OpV::NumBlocks)
        } else {
            Err(DecodeError::BadArity)
        }
    } else if ts[0] == "get_blocks"@ {
        if ts.len() == 1 {
            Ok(OpV::GetBlocks)
        } else {
            Err(DecodeError::BadArity)
        }
    } else {
        Ok(OpV::NoOp)
    }
}

/// The views of a token list.
pub open spec fn token_views(v: Seq<String>) -> Seq<Seq<char>> {
    v.map_values(|t: String| t@)
}

fn kw(s: &String, lit: &str) -> (r: bool)
    ensures
        r == (s@ == lit@),
{
    *s == lit.to_owned()
}

fn skip_ws(s: &str, i: usize) -> (j: usize)
    requires
        i <= s@.len(),
    ensures
        j == spec_skip(s@, i as int),
        i <= j <= s@.len(),
    decreases s@.len() - i,
{
    if i < s.unicode_len() {
        let c = s.get_char(i);
        if c == ' ' || c == '\t' || c == '\r' || c == '\n' {
            skip_ws(s, i + 1)
        } else {
            i
        }
    } else {
        i
    }
}

fn token_end(s: &str, i: usize) -> (j: usize)
    requires
        i <= s@.len(),
    ensures
        j == spec_end(s@, i as int),
        i <= j <= s@.len(),
    decreases s@.len() - i,
{
    if i < s.unicode_len() {
        let c = s.get_char(i);
        if c == ' ' || c == '\t' || c == '\r' || c == '\n' {
            i
        } else {
            token_end(s, i + 1)
        }
    } else {
        i
    }
}

proof fn lemma_tokens_from_skip(s: Seq<char>, i: int)
    requires
        0 <= i <= s.len(),
    ensures
        tokens_from(s, i) == tokens_from(s, spec_skip(s, i)),
{
    lemma_skip_bounds(s, i);
    let j = spec_skip(s, i);
    assert(spec_skip(s, j) == j);
}

/// Splits a line into its tokens.
fn tokenize(s: &str) -> (r: Vec<String>)
    ensures
        token_views(r@) == tokens(s@),
{
    let n = s.unicode_len();
    let mut toks: Vec<String> = Vec::new();
    let mut i: usize = skip_ws(s, 0);
    proof {
        lemma_tokens_from_skip(s@, 0);
        lemma_skip_bounds(s@, 0);
        assert(token_views(toks@) =~= Seq::<Seq<char>>::empty());
    }
    while i < n
        invariant
            0 <= i <= n,
            n == s@.len(),
            i == spec_skip(s@, i as int),
            token_views(toks@) + tokens_from(s@, i as int) == tokens(s@),
        decreases n - i,
    {
        let ghost t0 = toks@;
        let k = token_end(s, i);
        proof {
            lemma_end_bounds(s@, i as int);
        }
        let t = s.substring_char(i, k).to_owned();
        toks.push(t);
        let j = skip_ws(s, k);
        proof {
            lemma_tokens_from_skip(s@, k as int);
            lemma_skip_bounds(s@, k as int);
            assert(token_views(toks@) =~= token_views(t0).push(s@.subrange(i as int, k as int)));
            assert(tokens_from(s@, i as int) == seq![s@.subrange(i as int, k as int)]
                + tokens_from(s@, k as int));
            assert(token_views(toks@) + tokens_from(s@, j as int) =~= tokens(s@));
            if j < n {
                assert(spec_skip(s@, j as int) == j);
            }
        }
        i = j;
    }
    proof {
        assert(tokens_from(s@, i as int) =~= Seq::<Seq<char>>::empty());
        assert(token_views(toks@) =~= tokens(s@));
    }
    toks
}

/// Decodes one command line, strictly: a recognized keyword with the wrong
/// number of arguments is a typed failure, never a crash.
pub fn parse_operation(line: &str) -> (r: Result<Operations, DecodeError>)
    ensures
        spec_parse_operation(line@) matches Ok(v) ==> r matches Ok(op) && op@ == v,
        spec_parse_operation(line@) is Err ==> r == Err::<Operations, DecodeError>(
            DecodeError::BadArity,
        ),
{
    let toks = tokenize(line);
    let ghost ts = tokens(line@);
    if toks.len() == 0 {
        return Ok(Operations::NoOp);
    }
    proof {
        assert(ts[0] == toks@[0]@);
    }
    if kw(&toks[0], "add_peer") {
        if toks.len() == 2 {
            proof {
                assert(ts[1] == toks@[1]@);
            }
            Ok(Operations::AddPeer(toks[1].clone()))
        } else {
            Err(DecodeError::BadArity)
        }
    } else if kw(&toks[0], "get_peer") {
        if toks.len() == 2 {
            proof {
                assert(ts[1] == toks@[1]@);
            }
            Ok(Operations::GetPeer(toks[1].clone()))
        } else {
            Err(DecodeError::BadArity)
        }
    } else if kw(&toks[0], "add_block") {
        if toks.len() == 4 {
            proof {
                assert(ts[1] == toks@[1]@ && ts[2] == toks@[2]@ && ts[3] == toks@[3]@);
            }
            Ok(Operations::AddBlock(BlockInput {
                file_hash: toks[1].clone(),
                sender: toks[2].clone(),
                receiver: toks[3].clone(),
            }))
        } else {
            Err(DecodeError::BadArity)
        }
    } else if kw(&toks[0], "mine_block") {
        if toks.len() == 4 {
            proof {
                assert(ts[1] == toks@[1]@ && ts[2] == toks@[2]@ && ts[3] == toks@[3]@);
            }
            Ok(Operations::MineBlock(BlockInput {
                file_hash: toks[1].clone(),
                sender: toks[2].clone(),
                receiver: toks[3].clone(),
            }))
        } else {
            Err(DecodeError::BadArity)
        }
    } else if kw(&toks[0], "num_blocks") {
        if toks.len() == 1 {
            Ok(Operations::NumBlocks)
        } else {
            Err(DecodeError::BadArity)
        }
    } else if kw(&toks[0], "get_blocks") {
        if toks.len() == 1 {
            Ok(Operations::GetBlocks)
        } else {
            Err(DecodeError::BadArity)
        }
    } else {
        Ok(Operations::NoOp)
    }
}

/// Runs one decoded operation against the directory and the ledger and
/// returns the reply line. `peer_addr` is the caller's observed source
/// address, recorded by `add_peer`.
pub fn run_operation(
    operation: Operations,
    peer_table: &mut PeerTable,
    blockchain: &mut BlockChain,
    peer_addr: String,
) -> (r: String)
    requires
        old(peer_table).wf(),
        old(blockchain).wf(),
        old(blockchain)@.blocks.len() < u32::MAX,
    ensures
        final(peer_table).wf(),
        final(blockchain).wf(),
        operation@ matches OpV::AddPeer(k) ==> final(blockchain)@ == old(blockchain)@ && (
        if pt_has_key(old(peer_table)@, k) {
            r@ == "Peer already exists"@ && final(peer_table)@ == old(peer_table)@
        } else {
            r@ == "Peer added"@ && final(peer_table)@ == old(peer_table)@.push((k, peer_addr@))
        }),
        operation@ matches OpV::GetPeer(k) ==> final(blockchain)@ == old(blockchain)@
            && final(peer_table)@ == old(peer_table)@ && (if pt_has_key(old(peer_table)@, k) {
            exists|i: int|
                0 <= i < old(peer_table)@.len() && #[trigger] old(peer_table)@[i] == (k, r@)
        } else {
            r@ == "Peer not found"@
        }),
        operation@ matches OpV::AddBlock(inp) ==> final(peer_table)@ == old(peer_table)@
            && proposed_ok(old(blockchain)@, final(blockchain)@, inp) && r@ == "Block added"@,
        operation@ matches OpV::MineBlock(inp) ==> final(peer_table)@ == old(peer_table)@ && (
        if has_match(old(blockchain)@.pending, inp.file_hash, inp.receiver) {
            mined_ok(old(blockchain)@, final(blockchain)@, inp.file_hash, inp.receiver) && r@
                == "Block mined"@
        } else {
            final(blockchain)@ == old(blockchain)@ && r@ == "Block not added"@
        }),
        operation@ is NumBlocks ==> final(peer_table)@ == old(peer_table)@ && final(blockchain)@
            == old(blockchain)@ && r@ == dec_str(old(blockchain)@.blocks.len()),
        operation@ is GetBlocks ==> final(peer_table)@ == old(peer_table)@ && final(blockchain)@
            == old(blockchain)@ && r@ == enc_chain(old(blockchain)@.blocks),
        operation@ is NoOp ==> final(peer_table)@ == old(peer_table)@
            && final(blockchain)@ == old(blockchain)@ && r@ == "No operation"@,
{
    match operation {
        Operations::AddPeer(public_key) => match peer_table.add_peer(public_key, peer_addr) {
            Ok(_) => "Peer added".to_owned(),
            Err(_) => "Peer already exists".to_owned(),
        },
        Operations::GetPeer(public_key) => match peer_table.get_peer(public_key) {
            Some(ip) => ip,
            None => "Peer not found".to_owned(),
        },
        Operations::AddBlock(input) => {
            let block = blockchain.input_to_block(input);
            blockchain.add_pending_block(block);
            "Block added".to_owned()
        },
        Operations::MineBlock(input) => match blockchain.mine(input) {
            Ok(_) => "Block mined".to_owned(),
            Err(_) => "Block not added".to_owned(),
        },
        Operations::NumBlocks => u128_to_dec(blockchain.num_blocks() as u128),
        Operations::GetBlocks => blockchain.get_blocks(),
        Operations::NoOp => "No operation".to_owned(),
    }
}

} // verus!
