use faucet_prover::faucet::Faucet;
use faucet_prover::indexer::{get_balance, sort_by_balance, FaucetCustomState, LEADERBOARD_SIZE};
use faucet_prover::init::check_program_id;
use faucet_prover::types::{BlobTransaction, TxHash};

fn sender(identity: &str) -> BlobTransaction {
    BlobTransaction {
        hash: TxHash("t".to_string()),
        identity: identity.to_string(),
        blobs: vec![],
    }
}

fn state(entries: &[(&str, u128)]) -> FaucetCustomState {
    FaucetCustomState {
        contract: Faucet::default(),
        balances: entries.iter().map(|(k, v)| (k.to_string(), *v)).collect(),
    }
}

#[test]
fn success_counts_per_account_without_suffix() {
    let mut s = state(&[]);
    s.handle_transaction_success(&sender("bob@faucet")).unwrap();
    s.handle_transaction_success(&sender("bob@faucet")).unwrap();
    s.handle_transaction_success(&sender("ann@faucet")).unwrap();
    assert_eq!(s.balances, vec![("bob".to_string(), 2), ("ann".to_string(), 1)]);
    assert_eq!(s.get_balance(&"bob".to_string()), 2);
    assert_eq!(s.get_balance(&"carol".to_string()), 0);
}

#[test]
fn success_count_overflow_is_refused() {
    let mut s = state(&[("bob", u128::MAX)]);
    assert!(s.handle_transaction_success(&sender("bob@faucet")).is_err());
    assert_eq!(s.balances, vec![("bob".to_string(), u128::MAX)]);
}

#[test]
fn balance_lookup() {
    let b = vec![("a".to_string(), 3u128), ("b".to_string(), 5)];
    assert_eq!(get_balance(&b, &"b".to_string()), 5);
    assert_eq!(get_balance(&b, &"z".to_string()), 0);
}

#[test]
fn sort_is_descending_and_stable() {
    let b = vec![
        ("a".to_string(), 1u128),
        ("b".to_string(), 5),
        ("c".to_string(), 1),
        ("d".to_string(), 7),
    ];
    let s = sort_by_balance(&b);
    let names: Vec<&str> = s.iter().map(|e| e.0.as_str()).collect();
    assert_eq!(names, vec!["d", "b", "a", "c"]);
}

#[test]
fn leaderboard_rank_of_present_and_absent_accounts() {
    let s = state(&[("a", 1), ("b", 5), ("c", 3)]);
    let r = s.get_leaderboard(&"c".to_string());
    assert_eq!(r.rank, Some(2));
    assert_eq!(
        r.leaderboard,
        vec![("b".to_string(), 5), ("c".to_string(), 3), ("a".to_string(), 1)]
    );
    assert_eq!(s.get_leaderboard(&"zed".to_string()).rank, Some(4));
    assert_eq!(state(&[]).get_leaderboard(&"a".to_string()).rank, Some(1));
}

#[test]
fn leaderboard_is_capped() {
    let names: Vec<String> = (0..250).map(|i| format!("p{}", i)).collect();
    let s = FaucetCustomState {
        contract: Faucet::default(),
        balances: names.iter().enumerate().map(|(i, n)| (n.clone(), i as u128)).collect(),
    };
    let r = s.get_leaderboard(&"p0".to_string());
    assert_eq!(r.leaderboard.len(), LEADERBOARD_SIZE);
    assert_eq!(r.leaderboard[0], ("p249".to_string(), 249));
    assert_eq!(r.rank, Some(250));
}

#[test]
fn matching_program_id_is_accepted() {
    let id = vec![1u8, 2, 3];
    assert_eq!(check_program_id(&"faucet".to_string(), &id, &id.clone()), Ok(()));
}

#[test]
fn mismatched_program_id_names_both_in_hex() {
    let r = check_program_id(&"faucet".to_string(), &vec![0xab, 0x01], &vec![0x00, 0xff]);
    assert_eq!(
        r,
        Err("Invalid program_id for faucet. On-chain version is ab01, expected 00ff".to_string())
    );
    assert!(check_program_id(&"f".to_string(), &vec![1], &vec![1, 2]).is_err());
}
