use sendit::chain::{BlockChain, BlockInput, ChainError};
use sendit::operations::{parse_operation, run_operation, DecodeError, Operations};
use sendit::peertable::{PeerError, PeerTable};

fn input(file_hash: &str, sender: &str, receiver: &str) -> BlockInput {
    BlockInput {
        file_hash: file_hash.to_string(),
        sender: sender.to_string(),
        receiver: receiver.to_string(),
    }
}

#[test]
fn fresh_chain_has_genesis_only() {
    let chain = BlockChain::new();
    assert_eq!(chain.num_blocks(), 1);
    assert_eq!(
        chain.get_blocks(),
        "[{\"index\":0,\"timestamp\":0,\"sender\":\"\",\"receiver\":\"\",\"file_hash\":\"\",\"hash\":\"0\",\"prev_hash\":null}]"
    );
}

#[test]
fn mine_commits_matching_pending_block() {
    let mut chain = BlockChain::new();
    let block = chain.input_to_block(input("foo", "A", "B"));
    chain.add_pending_block(block);
    assert!(chain.mine(input("foo", "A", "B")).is_ok());
    assert_eq!(chain.num_blocks(), 2);
}

#[test]
fn mine_without_match_fails_and_changes_nothing() {
    let mut chain = BlockChain::new();
    let r = chain.mine(input("missing", "X", "Y"));
    assert_eq!(r, Err(ChainError::NotFound));
    assert_eq!(chain.num_blocks(), 1);
}

#[test]
fn mine_consumes_the_pending_entry_once() {
    let mut chain = BlockChain::new();
    let block = chain.input_to_block(input("foo", "A", "B"));
    chain.add_pending_block(block);
    assert!(chain.mine(input("foo", "A", "B")).is_ok());
    assert_eq!(chain.mine(input("foo", "A", "B")), Err(ChainError::NotFound));
    assert_eq!(chain.num_blocks(), 2);
}

#[test]
fn mine_matches_on_file_hash_and_receiver_only() {
    let mut chain = BlockChain::new();
    let block = chain.input_to_block(input("foo", "A", "B"));
    chain.add_pending_block(block);
    // A different sender still commits the transfer: the sender is not part
    // of the match key.
    assert!(chain.mine(input("foo", "OTHER", "B")).is_ok());
    assert_eq!(chain.num_blocks(), 2);
}

#[test]
fn mine_takes_the_first_matching_entry() {
    let mut chain = BlockChain::new();
    let b1 = chain.input_to_block(input("foo", "first", "B"));
    chain.add_pending_block(b1);
    let b2 = chain.input_to_block(input("foo", "second", "B"));
    chain.add_pending_block(b2);
    assert!(chain.mine(input("foo", "X", "B")).is_ok());
    assert!(chain.mine(input("foo", "X", "B")).is_ok());
    assert_eq!(chain.mine(input("foo", "X", "B")), Err(ChainError::NotFound));
    assert_eq!(chain.num_blocks(), 3);
    let s = chain.get_blocks();
    let first = s.find("\"sender\":\"first\"").unwrap();
    let second = s.find("\"sender\":\"second\"").unwrap();
    assert!(first < second);
}

#[test]
fn distinct_pending_entries_all_commit() {
    let mut chain = BlockChain::new();
    for k in 0..5 {
        let b = chain.input_to_block(input(&format!("file{}", k), "S", &format!("R{}", k)));
        chain.add_pending_block(b);
    }
    for k in 0..5 {
        assert!(chain.mine(input(&format!("file{}", k), "S", &format!("R{}", k))).is_ok());
    }
    assert_eq!(chain.num_blocks(), 6);
    // Every committed block carries its own position as index.
    let s = chain.get_blocks();
    for k in 0..6 {
        assert!(s.contains(&format!("{{\"index\":{},", k)));
    }
}

#[test]
fn snapshot_round_trip_reproduces_the_chain() {
    let mut chain = BlockChain::new();
    let b = chain.input_to_block(input("foo", "A", "B"));
    chain.add_pending_block(b);
    chain.mine(input("foo", "A", "B")).unwrap();
    let b = chain.input_to_block(input("bar", "C", "D"));
    chain.add_pending_block(b);
    chain.mine(input("bar", "C", "D")).unwrap();
    let snapshot = chain.get_blocks();
    let reloaded = BlockChain::from_snapshot(&snapshot).unwrap();
    assert_eq!(reloaded.get_blocks(), snapshot);
    assert_eq!(reloaded.num_blocks(), 3);
}

#[test]
fn snapshot_round_trip_survives_quotes_and_backslashes() {
    let mut chain = BlockChain::new();
    let b = chain.input_to_block(input("we\"ird\\hash", "a\"b", "c\\d"));
    chain.add_pending_block(b);
    chain.mine(input("we\"ird\\hash", "x", "c\\d")).unwrap();
    let snapshot = chain.get_blocks();
    let reloaded = BlockChain::from_snapshot(&snapshot).unwrap();
    assert_eq!(reloaded.get_blocks(), snapshot);
}

#[test]
fn from_snapshot_accepts_a_hand_written_snapshot() {
    // The hash is the SHA-256 digest of "11700000000000alicebobdeadbeef0",
    // the concatenated fields of the block; a wrapper that handed its input
    // back unchanged would make this load fail.
    let s = "[{\"index\":0,\"timestamp\":0,\"sender\":\"\",\"receiver\":\"\",\"file_hash\":\"\",\"hash\":\"0\",\"prev_hash\":null},{\"index\":1,\"timestamp\":1700000000000,\"sender\":\"alice\",\"receiver\":\"bob\",\"file_hash\":\"deadbeef\",\"hash\":\"f302cfaeb83aa3fd0faa8c06d4933b14af86f19148fb974939feebbe8661cf0e\",\"prev_hash\":\"0\"}]";
    let chain = BlockChain::from_snapshot(s).unwrap();
    assert_eq!(chain.num_blocks(), 2);
    assert_eq!(chain.get_blocks(), s);
}

#[test]
fn from_snapshot_rejects_a_tampered_block() {
    // Same snapshot, but the receiver was altered after hashing.
    let s = "[{\"index\":0,\"timestamp\":0,\"sender\":\"\",\"receiver\":\"\",\"file_hash\":\"\",\"hash\":\"0\",\"prev_hash\":null},{\"index\":1,\"timestamp\":1700000000000,\"sender\":\"alice\",\"receiver\":\"mallory\",\"file_hash\":\"deadbeef\",\"hash\":\"f302cfaeb83aa3fd0faa8c06d4933b14af86f19148fb974939feebbe8661cf0e\",\"prev_hash\":\"0\"}]";
    assert!(BlockChain::from_snapshot(s).is_none());
}

#[test]
fn from_snapshot_rejects_malformed_text() {
    assert!(BlockChain::from_snapshot("").is_none());
    assert!(BlockChain::from_snapshot("[").is_none());
    assert!(BlockChain::from_snapshot("[]trailing").is_none());
    assert!(BlockChain::from_snapshot("{\"index\":0}").is_none());
}

#[test]
fn chain_clone_is_an_equal_independent_copy() {
    let mut chain = BlockChain::new();
    let b = chain.input_to_block(input("foo", "A", "B"));
    chain.add_pending_block(b);
    let copy = chain.clone();
    chain.mine(input("foo", "A", "B")).unwrap();
    assert_eq!(chain.num_blocks(), 2);
    assert_eq!(copy.num_blocks(), 1);
}

#[test]
fn peer_directory_is_insert_once() {
    let mut table = PeerTable::new();
    assert!(table.add_peer("K1".to_string(), "10.0.0.1".to_string()).is_ok());
    assert_eq!(
        table.add_peer("K1".to_string(), "10.0.0.2".to_string()),
        Err(PeerError::AlreadyExists)
    );
    // The first address is preserved.
    assert_eq!(table.get_peer("K1".to_string()), Some("10.0.0.1".to_string()));
    assert_eq!(table.get_peer("K2".to_string()), None);
}

#[test]
fn peer_table_clone_copies_entries() {
    let mut table = PeerTable::new();
    table.add_peer("K1".to_string(), "10.0.0.1".to_string()).unwrap();
    let copy = table.clone();
    assert_eq!(copy.get_peer("K1".to_string()), Some("10.0.0.1".to_string()));
}

#[test]
fn parse_recognizes_every_operation() {
    assert!(matches!(parse_operation("add_peer K1"), Ok(Operations::AddPeer(k)) if k == "K1"));
    assert!(matches!(parse_operation("get_peer K1"), Ok(Operations::GetPeer(k)) if k == "K1"));
    assert!(matches!(
        parse_operation("add_block foo A B"),
        Ok(Operations::AddBlock(i)) if i.file_hash == "foo" && i.sender == "A" && i.receiver == "B"
    ));
    assert!(matches!(
        parse_operation("mine_block foo A B"),
        Ok(Operations::MineBlock(i)) if i.file_hash == "foo" && i.sender == "A" && i.receiver == "B"
    ));
    assert!(matches!(parse_operation("num_blocks"), Ok(Operations::NumBlocks)));
    assert!(matches!(parse_operation("get_blocks"), Ok(Operations::GetBlocks)));
    assert!(matches!(parse_operation(""), Ok(Operations::NoOp)));
    assert!(matches!(parse_operation("   \r\n"), Ok(Operations::NoOp)));
    assert!(matches!(parse_operation("frobnicate x y"), Ok(Operations::NoOp)));
}

#[test]
fn parse_rejects_wrong_arity() {
    assert!(matches!(parse_operation("add_peer"), Err(DecodeError::BadArity)));
    assert!(matches!(parse_operation("add_peer K1 extra"), Err(DecodeError::BadArity)));
    assert!(matches!(parse_operation("add_block foo A"), Err(DecodeError::BadArity)));
    assert!(matches!(parse_operation("mine_block foo A B extra"), Err(DecodeError::BadArity)));
    assert!(matches!(parse_operation("num_blocks 1"), Err(DecodeError::BadArity)));
    assert!(matches!(parse_operation("get_blocks x"), Err(DecodeError::BadArity)));
}

#[test]
fn add_then_mine_scenario_replies() {
    let mut table = PeerTable::new();
    let mut chain = BlockChain::new();
    let before = chain.num_blocks();
    let r1 = run_operation(
        parse_operation("add_block foo A B").unwrap(),
        &mut table,
        &mut chain,
        "127.0.0.1".to_string(),
    );
    assert_eq!(r1, "Block added");
    let r2 = run_operation(
        parse_operation("mine_block foo A B").unwrap(),
        &mut table,
        &mut chain,
        "127.0.0.1".to_string(),
    );
    assert_eq!(r2, "Block mined");
    let r3 = run_operation(
        parse_operation("num_blocks").unwrap(),
        &mut table,
        &mut chain,
        "127.0.0.1".to_string(),
    );
    assert_eq!(r3, (before + 1).to_string());
}

#[test]
fn mine_against_empty_holding_area_replies_not_added() {
    let mut table = PeerTable::new();
    let mut chain = BlockChain::new();
    let r = run_operation(
        parse_operation("mine_block missing X Y").unwrap(),
        &mut table,
        &mut chain,
        "127.0.0.1".to_string(),
    );
    assert_eq!(r, "Block not added");
    assert_eq!(chain.num_blocks(), 1);
}

#[test]
fn repeated_add_peer_scenario_replies() {
    let mut table = PeerTable::new();
    let mut chain = BlockChain::new();
    let r1 = run_operation(
        parse_operation("add_peer K1").unwrap(),
        &mut table,
        &mut chain,
        "10.1.2.3".to_string(),
    );
    assert_eq!(r1, "Peer added");
    let r2 = run_operation(
        parse_operation("add_peer K1").unwrap(),
        &mut table,
        &mut chain,
        "10.9.9.9".to_string(),
    );
    assert_eq!(r2, "Peer already exists");
    let r3 = run_operation(
        parse_operation("get_peer K1").unwrap(),
        &mut table,
        &mut chain,
        "0.0.0.0".to_string(),
    );
    assert_eq!(r3, "10.1.2.3");
    let r4 = run_operation(
        parse_operation("get_peer K2").unwrap(),
        &mut table,
        &mut chain,
        "0.0.0.0".to_string(),
    );
    assert_eq!(r4, "Peer not found");
    let r5 = run_operation(Operations::NoOp, &mut table, &mut chain, "0.0.0.0".to_string());
    assert_eq!(r5, "No operation");
}

#[test]
fn decimal_rendering_is_exact() {
    assert_eq!(sendit::numeral::u128_to_dec(0), "0");
    assert_eq!(sendit::numeral::u128_to_dec(7), "7");
    assert_eq!(sendit::numeral::u128_to_dec(1700000000000), "1700000000000");
    assert_eq!(
        sendit::numeral::u128_to_dec(u128::MAX),
        "340282366920938463463374607431768211455"
    );
}

#[test]
fn get_blocks_emits_json() {
    let mut chain = BlockChain::new();
    let b = chain.input_to_block(input("foo", "A", "B"));
    chain.add_pending_block(b);
    chain.mine(input("foo", "A", "B")).unwrap();
    let v: serde_json::Value = serde_json::from_str(&chain.get_blocks()).unwrap();
    let blocks = v.as_array().unwrap();
    assert_eq!(blocks.len(), 2);
    assert_eq!(blocks[0]["index"], 0);
    assert_eq!(blocks[0]["hash"], "0");
    assert!(blocks[0]["prev_hash"].is_null());
    assert_eq!(blocks[1]["index"], 1);
    assert_eq!(blocks[1]["sender"], "A");
    assert_eq!(blocks[1]["receiver"], "B");
    assert_eq!(blocks[1]["file_hash"], "foo");
    assert_eq!(blocks[1]["prev_hash"], "0");
    assert_eq!(blocks[1]["hash"].as_str().unwrap().len(), 64);
}
