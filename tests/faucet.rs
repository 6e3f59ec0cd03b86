use faucet_prover::config::Conf;
use faucet_prover::contract::TxExecutorHandler;
use faucet_prover::faucet::{Faucet, FaucetAction, Nonced, PlayerState};
use faucet_prover::types::{build_calldata, Blob, BlobTransaction, TxContext, TxHash};

fn id(s: &str) -> String {
    s.to_string()
}

fn points(f: &Faucet, who: &str) -> u128 {
    f.player(&id(who)).map(PlayerState::points).unwrap()
}

fn ctx() -> TxContext {
    TxContext {
        block_height: 1,
        block_hash: "h".to_string(),
        timestamp: 0,
        lane_id: "l".to_string(),
        chain_id: 0,
    }
}

fn transfer_data(recipient: &str, amount: u128) -> Vec<u8> {
    let mut d = vec![0u8];
    d.extend_from_slice(&(recipient.len() as u32).to_le_bytes());
    d.extend_from_slice(recipient.as_bytes());
    d.extend_from_slice(&amount.to_le_bytes());
    d
}

fn click_data() -> Vec<u8> {
    let mut data = vec![0u8];
    data.extend_from_slice(&5u64.to_le_bytes());
    data
}

fn call_from(identity: &str, blobs: Vec<Blob>) -> faucet_prover::types::Calldata {
    let tx = BlobTransaction {
        hash: TxHash("t".to_string()),
        identity: identity.to_string(),
        blobs,
    };
    build_calldata(&tx, &ctx(), 0)
}

fn faucet_blob(data: Vec<u8>) -> Blob {
    Blob { contract_name: "faucet".to_string(), data }
}

fn hyllar_blob(data: Vec<u8>) -> Blob {
    Blob { contract_name: "hyllar".to_string(), data }
}

fn call_with(data: Vec<u8>) -> faucet_prover::types::Calldata {
    call_from("bob@wallet", vec![faucet_blob(data), hyllar_blob(transfer_data("bob", 1))])
}

#[test]
fn click_adds_multiplier() {
    let mut f = Faucet::new();
    assert_eq!(f.click(id("bob")), Ok("Clicked! Points: 1, Multiplier: 1".to_string()));
    assert_eq!(f.click(id("bob")), Ok("Clicked! Points: 2, Multiplier: 1".to_string()));
    assert_eq!(points(&f, "bob"), 2);
    assert_eq!(f.player_count(), 1);
}

#[test]
fn buy_powerup_pays_and_raises_multiplier() {
    let mut f = Faucet::new();
    for _ in 0..105 {
        f.click(id("bob")).unwrap();
    }
    assert_eq!(
        f.buy_powerup(id("bob"), "Wooden Click"),
        Ok("Powerup bought! Name: Wooden Click, New Multiplier: 2".to_string())
    );
    let p = f.player(&id("bob")).unwrap();
    assert_eq!(p.points(), 5);
    assert_eq!(p.multiplier(), 2);
    assert_eq!(p.owned_powerups(), &vec!["Wooden Click".to_string()]);
    assert_eq!(f.click(id("bob")), Ok("Clicked! Points: 7, Multiplier: 2".to_string()));
}

#[test]
fn buy_powerup_without_enough_points() {
    let mut f = Faucet::new();
    f.click(id("bob")).unwrap();
    assert_eq!(
        f.buy_powerup(id("bob"), "Wooden Click"),
        Err("Not enough points to buy powerup. Required: 100, Current: 1".to_string())
    );
    assert_eq!(points(&f, "bob"), 1);
}

#[test]
fn buy_unknown_powerup() {
    let mut f = Faucet::new();
    assert_eq!(f.buy_powerup(id("ann"), "Golden Click"), Err("Powerup not found".to_string()));
    assert!(f.player(&id("ann")).is_none());
}

#[test]
fn cashout_spends_points() {
    let mut f = Faucet::new();
    for _ in 0..12 {
        f.click(id("bob")).unwrap();
    }
    assert_eq!(f.cashout(id("bob"), 10), Ok("Cashout successful! Amount: 10".to_string()));
    assert_eq!(points(&f, "bob"), 2);
    assert_eq!(
        f.cashout(id("bob"), 3),
        Err("Not enough points to cash out. Required: 3, Current: 2".to_string())
    );
    assert_eq!(points(&f, "bob"), 2);
}

#[test]
fn cashout_creates_player() {
    let mut f = Faucet::new();
    assert!(f.cashout(id("ann"), 0).is_ok());
    assert_eq!(points(&f, "ann"), 0);
    assert_eq!(f.player(&id("ann")).unwrap().multiplier(), 1);
}

#[test]
fn as_blob_encodes_variant_index() {
    let b = FaucetAction::Click.as_blob(id("faucet"));
    assert_eq!(b.contract_name, "faucet");
    assert_eq!(b.data, vec![0u8]);
}

#[test]
fn nonced_action_fields() {
    let n = Nonced { action: FaucetAction::Click, nonce: 9 };
    assert_eq!(n.clone(), n);
    assert_eq!(n.action, FaucetAction::Click);
}

#[test]
fn state_encoding_of_new_faucet() {
    let f = Faucet::new();
    let mut expect = vec![0, 0, 0, 0, 1, 0, 0, 0, 0, 12, 0, 0, 0];
    expect.extend_from_slice(b"Wooden Click");
    expect.extend_from_slice(&100u128.to_le_bytes());
    expect.extend_from_slice(&1u128.to_le_bytes());
    assert_eq!(f.as_bytes().unwrap(), expect);
    assert_eq!(Faucet::default().as_bytes().unwrap(), vec![0u8; 8]);
}

#[test]
fn state_encoding_sorts_players() {
    let mut f = Faucet::default();
    f.click(id("b")).unwrap();
    f.click(id("a")).unwrap();
    let mut expect = vec![2, 0, 0, 0];
    for name in ["a", "b"] {
        expect.extend_from_slice(&[1, 0, 0, 0]);
        expect.extend_from_slice(name.as_bytes());
        expect.extend_from_slice(&1u128.to_le_bytes());
        expect.extend_from_slice(&1u128.to_le_bytes());
        expect.extend_from_slice(&[0, 0, 0, 0]);
    }
    expect.extend_from_slice(&[0, 0, 0, 0]);
    assert_eq!(f.as_bytes().unwrap(), expect);
    assert_eq!(f.build_commitment_metadata(&Blob { contract_name: id("faucet"), data: vec![] }), Ok(expect));
}

#[test]
fn handle_decodes_nonced_click() {
    let mut f = Faucet::default();
    let out = f.handle(&call_with(click_data())).unwrap();
    assert_eq!(out, b"Clicked! Points: 1, Multiplier: 1".to_vec());
    assert_eq!(points(&f, "bob@wallet"), 1);
}

#[test]
fn handle_rejects_malformed_blobs() {
    let mut f = Faucet::default();
    assert!(f.handle(&call_with(vec![0u8])).is_err());
    assert!(f.handle(&call_with(vec![0u8; 10])).is_err());
    let mut other = vec![1u8];
    other.extend_from_slice(&5u64.to_le_bytes());
    assert!(f.handle(&call_with(other)).is_err());
    assert_eq!(f.player_count(), 0);
    let mut call = call_with(vec![0u8; 9]);
    call.index = 3;
    assert!(f.handle(&call).is_err());
}

#[test]
fn large_numbers_render_in_decimal() {
    let mut f = Faucet::new();
    assert_eq!(
        f.cashout(id("bob"), 1234567890123),
        Err("Not enough points to cash out. Required: 1234567890123, Current: 0".to_string())
    );
}

#[test]
fn conf_holds_settings() {
    let c = Conf {
        id: id("node"),
        log_format: id("full"),
        data_directory: id("data"),
        rest_server_port: 4002,
        rest_server_max_body_size: 1024,
        da_read_from: id("localhost:4141"),
        contract_name: id("faucet"),
        buffer_blocks: 2,
        max_txs_per_proof: 10,
        tx_working_window_size: 50,
    };
    assert_eq!(c.rest_server_port, 4002);
}

#[test]
fn click_without_transfer_is_refused() {
    let mut f = Faucet::default();
    let r = f.handle(&call_from("bob@wallet", vec![faucet_blob(click_data())]));
    assert_eq!(r, Err("Missing hyllar transfer of 1 to the player".to_string()));
    assert_eq!(f.player_count(), 0);
}

#[test]
fn click_with_wrong_transfer_is_refused() {
    let mut f = Faucet::default();
    let two = call_from(
        "bob@wallet",
        vec![faucet_blob(click_data()), hyllar_blob(transfer_data("bob", 2))],
    );
    assert!(f.handle(&two).is_err());
    let other = call_from(
        "bob@wallet",
        vec![faucet_blob(click_data()), hyllar_blob(transfer_data("ann", 1))],
    );
    assert!(f.handle(&other).is_err());
    let wrong_contract = call_from(
        "bob@wallet",
        vec![faucet_blob(click_data()), faucet_blob(transfer_data("bob", 1))],
    );
    assert!(f.handle(&wrong_contract).is_err());
    assert_eq!(f.player_count(), 0);
}

#[test]
fn identity_without_at_is_refused() {
    let mut f = Faucet::default();
    let r = f.handle(&call_from("bob", vec![faucet_blob(click_data()), hyllar_blob(transfer_data("bob", 1))]));
    assert_eq!(r, Err("Identity has no '@'".to_string()));
}

#[test]
fn recipient_is_text_before_last_at() {
    let mut f = Faucet::default();
    let call = call_from(
        "a@b@wallet",
        vec![faucet_blob(click_data()), hyllar_blob(transfer_data("a@b", 1))],
    );
    assert!(f.handle(&call).is_ok());
    assert_eq!(points(&f, "a@b@wallet"), 1);
}

#[test]
fn state_round_trips_through_its_encoding() {
    let mut f = Faucet::new();
    f.click(id("b@w")).unwrap();
    f.click(id("a@w")).unwrap();
    let bytes = f.as_bytes().unwrap();
    let g = Faucet::from_bytes(&bytes).unwrap();
    assert_eq!(g.as_bytes().unwrap(), bytes);
    assert_eq!(points(&g, "a@w"), 1);
    assert_eq!(g.player_count(), 2);
}

#[test]
fn malformed_state_is_refused() {
    assert!(Faucet::from_bytes(&vec![1, 2, 3]).is_err());
    let mut unknown = vec![0, 0, 0, 0, 1, 0, 0, 0, 7, 1, 0, 0, 0, b'x'];
    unknown.extend_from_slice(&1u128.to_le_bytes());
    unknown.extend_from_slice(&1u128.to_le_bytes());
    assert_eq!(Faucet::from_bytes(&unknown).err(), Some("Unknown powerup kind".to_string()));
}
