use faucet_prover::contract::TxExecutorHandler;
use faucet_prover::faucet::Faucet;
use faucet_prover::prover::{BlockOutput, ProverModule};
use faucet_prover::types::{AppEvent, Blob, BlobTransaction, Block, BlockTx, TxHash};

const NAME: &str = "faucet";

fn click_data(nonce: u64) -> Vec<u8> {
    let mut d = vec![0u8];
    d.extend_from_slice(&nonce.to_le_bytes());
    d
}

fn blob(contract: &str, data: Vec<u8>) -> Blob {
    Blob { contract_name: contract.to_string(), data }
}

fn tx(hash: &str, identity: &str, blobs: Vec<Blob>) -> BlobTransaction {
    BlobTransaction {
        hash: TxHash(hash.to_string()),
        identity: identity.to_string(),
        blobs,
    }
}

fn transfer_data(recipient: &str, amount: u128) -> Vec<u8> {
    let mut d = vec![0u8];
    d.extend_from_slice(&(recipient.len() as u32).to_le_bytes());
    d.extend_from_slice(recipient.as_bytes());
    d.extend_from_slice(&amount.to_le_bytes());
    d
}

fn wallet(player: &str) -> String {
    format!("{}@wallet", player)
}

fn click_tx(hash: &str, player: &str, nonce: u64) -> BlobTransaction {
    tx(
        hash,
        &wallet(player),
        vec![blob(NAME, click_data(nonce)), blob("hyllar", transfer_data(player, 1))],
    )
}

fn block(height: u64, txs: Vec<BlobTransaction>) -> Block {
    Block {
        block_height: height,
        hash: format!("block{}", height),
        block_timestamp: 1000 + height as u128,
        txs: txs
            .into_iter()
            .map(|t| BlockTx { tx: t, lane_id: "lane".to_string() })
            .collect(),
        successful_txs: vec![],
        timed_out_txs: vec![],
        failed_txs: vec![],
    }
}

fn verdicts(height: u64, ok: &[&str], timed_out: &[&str], failed: &[&str]) -> Block {
    let mut b = block(height, vec![]);
    b.successful_txs = ok.iter().map(|h| TxHash(h.to_string())).collect();
    b.timed_out_txs = timed_out.iter().map(|h| TxHash(h.to_string())).collect();
    b.failed_txs = failed.iter().map(|h| TxHash(h.to_string())).collect();
    b
}

fn engine(start: u64) -> ProverModule<Faucet> {
    ProverModule::new(NAME.to_string(), start, 7, Faucet::default())
}

fn points(m: &ProverModule<Faucet>, who: &str) -> Option<u128> {
    m.state().player(&wallet(who)).map(|p| p.points())
}

fn sequenced(out: &BlockOutput) -> Vec<String> {
    out.events
        .iter()
        .filter_map(|e| match e {
            AppEvent::SequencedTx(h) => Some(h.0.clone()),
            AppEvent::FailedTx(..) => None,
        })
        .collect()
}

fn failed(out: &BlockOutput) -> Vec<String> {
    out.events
        .iter()
        .filter_map(|e| match e {
            AppEvent::FailedTx(h, _) => Some(h.0.clone()),
            AppEvent::SequencedTx(_) => None,
        })
        .collect()
}

fn unsettled(m: &ProverModule<Faucet>) -> Vec<String> {
    (0..m.unsettled_len()).map(|i| m.unsettled_hash(i).0).collect()
}

fn history(m: &ProverModule<Faucet>) -> Vec<String> {
    (0..m.history_len()).map(|i| m.history_hash(i).0).collect()
}

#[test]
fn new_transaction_is_executed_and_batched() {
    let mut m = engine(0);
    let out = m.handle_processed_block(&block(1, vec![click_tx("t1", "bob", 1)]));
    assert_eq!(points(&m, "bob"), Some(1));
    assert_eq!(history(&m), vec!["t1"]);
    assert_eq!(unsettled(&m), vec!["t1"]);
    assert_eq!(sequenced(&out), vec!["t1"]);
    assert!(failed(&out).is_empty());
    assert_eq!(out.batches.len(), 1);
    let batch = &out.batches[0];
    assert_eq!(batch.calldatas.len(), 1);
    let call = &batch.calldatas[0];
    assert_eq!(call.tx_hash.0, "t1");
    assert_eq!(call.identity, "bob@wallet");
    assert_eq!(call.index, 0);
    assert_eq!(call.tx_blob_count, 2);
    assert_eq!(call.tx_ctx.block_height, 1);
    assert_eq!(call.tx_ctx.block_hash, "block1");
    assert_eq!(call.tx_ctx.timestamp, 1001);
    assert_eq!(call.tx_ctx.lane_id, "lane");
    assert_eq!(call.tx_ctx.chain_id, 7);
    // metadata is the encoding of the state before the call: an empty faucet
    assert_eq!(batch.commitment_metadata, vec![0u8; 8]);
}

#[test]
fn failure_of_only_transaction_restores_initial_state() {
    let mut m = engine(0);
    m.handle_processed_block(&block(1, vec![click_tx("t1", "bob", 1)]));
    let out = m.handle_processed_block(&verdicts(2, &[], &[], &["t1"]));
    assert_eq!(points(&m, "bob"), None);
    assert_eq!(m.state().player_count(), 0);
    assert_eq!(m.history_len(), 0);
    assert_eq!(m.unsettled_len(), 0);
    assert!(out.events.is_empty());
    assert!(out.batches.is_empty());
}

#[test]
fn failure_replays_later_transactions_on_rolled_back_state() {
    let mut m = engine(0);
    m.handle_processed_block(&block(1, vec![click_tx("t1", "bob", 1), click_tx("t2", "bob", 2)]));
    assert_eq!(points(&m, "bob"), Some(2));
    let out = m.handle_processed_block(&verdicts(2, &[], &[], &["t1"]));
    assert_eq!(points(&m, "bob"), Some(1));
    assert_eq!(unsettled(&m), vec!["t2"]);
    assert_eq!(history(&m), vec!["t2"]);
    assert_eq!(sequenced(&out), vec!["t2"]);
    assert_eq!(out.batches.len(), 1);
    assert_eq!(out.batches[0].calldatas.len(), 1);
    assert_eq!(out.batches[0].calldatas[0].tx_hash.0, "t2");
    assert_eq!(out.batches[0].commitment_metadata, vec![0u8; 8]);
}

#[test]
fn success_after_replay_empties_ledger_and_history() {
    let mut m = engine(0);
    m.handle_processed_block(&block(1, vec![click_tx("t1", "bob", 1), click_tx("t2", "bob", 2)]));
    m.handle_processed_block(&verdicts(2, &[], &[], &["t1"]));
    let out = m.handle_processed_block(&verdicts(3, &["t2"], &[], &[]));
    assert_eq!(m.unsettled_len(), 0);
    assert_eq!(m.history_len(), 0);
    assert_eq!(points(&m, "bob"), Some(1));
    assert!(out.events.is_empty());
    assert!(out.batches.is_empty());
}

#[test]
fn historical_transaction_executes_silently() {
    let mut m = engine(10);
    let out = m.handle_processed_block(&block(5, vec![click_tx("old", "bob", 1)]));
    assert_eq!(points(&m, "bob"), Some(1));
    assert!(out.events.is_empty());
    assert!(out.batches.is_empty());
    assert_eq!(unsettled(&m), vec!["old"]);
}

#[test]
fn historical_then_live_in_replay() {
    let mut m = engine(10);
    m.handle_processed_block(&block(5, vec![click_tx("old1", "bob", 1), click_tx("old2", "bob", 2)]));
    let out = m.handle_processed_block(&block(10, vec![click_tx("live", "bob", 3)]));
    assert_eq!(points(&m, "bob"), Some(3));
    assert_eq!(sequenced(&out), vec!["live"]);
    let out = m.handle_processed_block(&verdicts(11, &[], &["old1"], &[]));
    assert_eq!(points(&m, "bob"), Some(2));
    // only the live transaction is reported and batched again
    assert_eq!(sequenced(&out), vec!["live"]);
    assert_eq!(out.batches.len(), 1);
    assert_eq!(out.batches[0].calldatas.len(), 1);
    assert_eq!(out.batches[0].calldatas[0].tx_hash.0, "live");
    assert_eq!(unsettled(&m), vec!["old2", "live"]);
}

#[test]
fn repeated_success_verdict_is_a_no_op() {
    let mut m = engine(0);
    m.handle_processed_block(&block(1, vec![click_tx("t1", "bob", 1), click_tx("t2", "ann", 2)]));
    m.handle_processed_block(&verdicts(2, &["t1"], &[], &[]));
    assert_eq!(unsettled(&m), vec!["t2"]);
    assert_eq!(history(&m), vec!["t2"]);
    let out = m.handle_processed_block(&verdicts(3, &["t1", "t1"], &[], &[]));
    assert_eq!(unsettled(&m), vec!["t2"]);
    assert_eq!(history(&m), vec!["t2"]);
    assert_eq!(points(&m, "bob"), Some(1));
    assert_eq!(points(&m, "ann"), Some(1));
    assert!(out.events.is_empty());
    assert!(m.history_len() <= m.unsettled_len());
}

#[test]
fn unknown_verdicts_change_nothing() {
    let mut m = engine(0);
    m.handle_processed_block(&block(1, vec![click_tx("t1", "bob", 1)]));
    let out = m.handle_processed_block(&verdicts(2, &["x"], &["y"], &["z"]));
    assert_eq!(unsettled(&m), vec!["t1"]);
    assert_eq!(points(&m, "bob"), Some(1));
    assert!(out.events.is_empty());
    assert!(out.batches.is_empty());
}

#[test]
fn failure_after_success_returns_to_settled_state() {
    let mut m = engine(0);
    m.handle_processed_block(&block(1, vec![click_tx("t1", "bob", 1), click_tx("t2", "bob", 2)]));
    m.handle_processed_block(&verdicts(2, &["t1"], &[], &[]));
    m.handle_processed_block(&verdicts(3, &[], &[], &["t2"]));
    assert_eq!(points(&m, "bob"), Some(1));
    assert_eq!(m.unsettled_len(), 0);
    assert_eq!(m.history_len(), 0);
}

#[test]
fn success_of_later_transaction_settles_older_ones() {
    let mut m = engine(0);
    m.handle_processed_block(&block(
        1,
        vec![click_tx("t1", "bob", 1), click_tx("t2", "bob", 2), click_tx("t3", "bob", 3)],
    ));
    m.handle_processed_block(&verdicts(2, &["t2"], &[], &[]));
    assert_eq!(unsettled(&m), vec!["t3"]);
    assert_eq!(history(&m), vec!["t3"]);
    m.handle_processed_block(&verdicts(3, &[], &["t3"], &[]));
    assert_eq!(points(&m, "bob"), Some(2));
}

#[test]
fn failure_in_the_middle_keeps_earlier_effects() {
    let mut m = engine(0);
    m.handle_processed_block(&block(
        1,
        vec![click_tx("t1", "bob", 1), click_tx("t2", "ann", 2), click_tx("t3", "bob", 3)],
    ));
    let out = m.handle_processed_block(&verdicts(2, &[], &[], &["t2"]));
    assert_eq!(points(&m, "bob"), Some(2));
    assert_eq!(points(&m, "ann"), None);
    assert_eq!(unsettled(&m), vec!["t1", "t3"]);
    assert_eq!(history(&m), vec!["t1", "t3"]);
    assert_eq!(sequenced(&out), vec!["t3"]);
    // metadata is captured from the state after t1, before t3 ran again
    let mut after_t1 = Faucet::default();
    after_t1.click(wallet("bob")).unwrap();
    assert_eq!(out.batches[0].commitment_metadata, after_t1.as_bytes().unwrap());
}

#[test]
fn duplicate_transaction_is_recorded_once() {
    let mut m = engine(0);
    m.handle_processed_block(&block(1, vec![click_tx("t1", "bob", 1)]));
    let out = m.handle_processed_block(&block(2, vec![click_tx("t1", "bob", 1)]));
    assert_eq!(unsettled(&m), vec!["t1"]);
    assert_eq!(history(&m), vec!["t1"]);
    assert_eq!(points(&m, "bob"), Some(1));
    assert!(out.events.is_empty());
}

#[test]
fn transactions_for_other_contracts_are_ignored() {
    let mut m = engine(0);
    let other = tx("t9", "bob", vec![blob("hyllar", click_data(1))]);
    let none = tx("t8", "bob", vec![]);
    let out = m.handle_processed_block(&block(1, vec![other, none]));
    assert_eq!(m.unsettled_len(), 0);
    assert_eq!(m.history_len(), 0);
    assert!(out.events.is_empty());
    assert!(out.batches.is_empty());
}

#[test]
fn every_operation_of_a_transaction_runs_once_history_entry() {
    let mut m = engine(0);
    let t = tx(
        "t1",
        &wallet("bob"),
        vec![
            blob(NAME, click_data(1)),
            blob("hyllar", vec![1, 2]),
            blob(NAME, click_data(2)),
            blob("hyllar", transfer_data("bob", 1)),
        ],
    );
    let out = m.handle_processed_block(&block(1, vec![t]));
    assert_eq!(points(&m, "bob"), Some(2));
    assert_eq!(history(&m), vec!["t1"]);
    assert_eq!(sequenced(&out), vec!["t1", "t1"]);
    let calls = &out.batches[0].calldatas;
    assert_eq!(calls.len(), 2);
    assert_eq!(calls[0].index, 0);
    assert_eq!(calls[1].index, 2);
    assert_eq!(calls[1].tx_blob_count, 4);
}

#[test]
fn rejected_operation_reports_failure_and_stays_out_of_batch() {
    let mut m = engine(0);
    let bad = tx("bad", &wallet("bob"), vec![blob(NAME, vec![0u8])]);
    let out = m.handle_processed_block(&block(1, vec![bad, click_tx("good", "bob", 1)]));
    assert_eq!(failed(&out), vec!["bad"]);
    match &out.events[0] {
        AppEvent::FailedTx(_, reason) => assert_eq!(reason, "Could not decode the faucet action"),
        AppEvent::SequencedTx(_) => panic!("expected a failure"),
    }
    assert_eq!(sequenced(&out), vec!["good"]);
    assert_eq!(out.batches.len(), 1);
    assert_eq!(out.batches[0].calldatas.len(), 1);
    assert_eq!(out.batches[0].calldatas[0].tx_hash.0, "good");
    assert_eq!(unsettled(&m), vec!["bad", "good"]);
    assert_eq!(points(&m, "bob"), Some(1));
}

#[test]
fn replica_matches_replay_of_surviving_transactions() {
    let mut m = engine(0);
    m.handle_processed_block(&block(1, vec![click_tx("a", "bob", 1), click_tx("b", "ann", 2)]));
    m.handle_processed_block(&block(2, vec![click_tx("c", "bob", 3), click_tx("d", "ann", 4)]));
    m.handle_processed_block(&verdicts(3, &["a"], &["d"], &["b"]));
    // surviving executions: a (settled), then c
    let mut expect = Faucet::default();
    expect.click(wallet("bob")).unwrap();
    expect.click(wallet("bob")).unwrap();
    assert_eq!(points(&m, "bob"), Some(2));
    assert_eq!(points(&m, "ann"), None);
    assert_eq!(m.state().as_bytes().unwrap(), expect.as_bytes().unwrap());
    assert_eq!(unsettled(&m), vec!["c"]);
}

#[test]
fn snapshot_is_independent_of_later_changes() {
    let mut f = Faucet::new();
    f.click("bob".to_string()).unwrap();
    let snap = f.snapshot();
    f.click("bob".to_string()).unwrap();
    assert_eq!(snap.player(&"bob".to_string()).unwrap().points(), 1);
    assert_eq!(f.player(&"bob".to_string()).unwrap().points(), 2);
}

#[test]
fn failures_are_reconciled_before_timeouts() {
    let mut m = engine(0);
    m.handle_processed_block(&block(
        1,
        vec![click_tx("t1", "bob", 1), click_tx("t2", "bob", 2), click_tx("t3", "bob", 3)],
    ));
    let out = m.handle_processed_block(&verdicts(2, &[], &["t1"], &["t2"]));
    // t2 fails first: t3 replays; then t1 times out: t3 replays again
    assert_eq!(sequenced(&out), vec!["t3", "t3"]);
    assert_eq!(out.batches.len(), 2);
    assert_eq!(unsettled(&m), vec!["t3"]);
    assert_eq!(points(&m, "bob"), Some(1));
}

#[test]
fn unpaid_click_fails_and_changes_nothing() {
    let mut m = engine(0);
    let unpaid = tx("t1", &wallet("bob"), vec![blob(NAME, click_data(1))]);
    let out = m.handle_processed_block(&block(1, vec![unpaid]));
    assert_eq!(points(&m, "bob"), None);
    assert_eq!(failed(&out), vec!["t1"]);
    assert!(out.batches.is_empty());
    assert_eq!(unsettled(&m), vec!["t1"]);
}
