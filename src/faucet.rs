//! The hosted faucet contract: players click to earn points, may buy
//! multiplier powerups with them and cash them out.

use crate::contract::TxExecutorHandler;
use crate::text::{decimal, push_decimal};
use crate::types::{Blob, BlobView, Calldata, CalldataView, blobs_view, bytes_eq, le_bytes, push_le};
use vstd::utf8::encode_utf8;
use vstd::prelude::*;
use vstd::string::StringExecFns;

verus! {

/// A player's points, click multiplier and the powerups bought so far.
pub struct PlayerState {
    points: u128,
    multiplier: u128,
    owned_powerups: Vec<String>,
}

pub struct PlayerView {
    pub points: nat,
    pub multiplier: nat,
    pub owned_powerups: Seq<Seq<char>>,
}

pub open spec fn strings_view(v: Seq<String>) -> Seq<Seq<char>> {
    v.map_values(|s: String| s@)
}

impl View for PlayerState {
    type V = PlayerView;

    closed spec fn view(&self) -> PlayerView {
        PlayerView {
            points: self.points as nat,
            multiplier: self.multiplier as nat,
            owned_powerups: strings_view(self.owned_powerups@),
        }
    }
}

impl PlayerState {
    pub fn points(&self) -> (r: u128)
        ensures
            r as nat == self@.points,
    {
        self.points
    }

    pub fn multiplier(&self) -> (r: u128)
        ensures
            r as nat == self@.multiplier,
    {
        self.multiplier
    }

    pub fn owned_powerups(&self) -> (r: &Vec<String>)
        ensures
            strings_view(r@) == self@.owned_powerups,
    {
        &self.owned_powerups
    }

    fn copy(&self) -> (r: PlayerState)
        ensures
            r@ == self@,
    {
        PlayerState {
            points: self.points,
            multiplier: self.multiplier,
            owned_powerups: copy_strings(&self.owned_powerups),
        }
    }
}

fn copy_strings(v: &Vec<String>) -> (r: Vec<String>)
    ensures
        strings_view(r@) == strings_view(v@),
{
    let mut r: Vec<String> = Vec::new();
    let mut i: usize = 0;
    while i < v.len()
        invariant
            i <= v.len(),
            strings_view(r@) == strings_view(v@.take(i as int)),
        decreases v.len() - i,
    {
        let s = v[i].clone();
        proof {
            assert(v@.take(i + 1) == v@.take(i as int).push(v@[i as int]));
            assert(strings_view(r@.push(s)) =~= strings_view(r@).push(s@));
            assert(strings_view(v@.take(i + 1)) =~= strings_view(v@.take(i as int)).push(
                v@[i as int]@,
            ));
        }
        r.push(s);
        i = i + 1;
    }
    assert(v@.take(v.len() as int) == v@);
    r
}

/// An item for sale.
pub enum Powerup {
    Multiplier { name: String, price: u128, multiplier_bonus: u128 },
}

pub struct PowerupView {
    pub name: Seq<char>,
    pub price: nat,
    pub multiplier_bonus: nat,
}

impl View for Powerup {
    type V = PowerupView;

    open spec fn view(&self) -> PowerupView {
        match self {
            Powerup::Multiplier { name, price, multiplier_bonus } => PowerupView {
                name: name@,
                price: *price as nat,
                multiplier_bonus: *multiplier_bonus as nat,
            },
        }
    }
}

/// The contract state: players by identity, and the powerups on sale.
pub struct Faucet {
    players: Vec<(String, PlayerState)>,
    available_powerups: Vec<Powerup>,
}

pub struct FaucetView {
    pub players: Seq<(Seq<char>, PlayerView)>,
    pub powerups: Seq<PowerupView>,
}

impl View for Faucet {
    type V = FaucetView;

    closed spec fn view(&self) -> FaucetView {
        FaucetView {
            players: self.players@.map_values(|e: (String, PlayerState)| (e.0@, e.1@)),
            powerups: self.available_powerups@.map_values(|p: Powerup| p@),
        }
    }
}

/// An action together with the nonce that makes its blob unique.
#[derive(Debug, Clone, PartialEq)]
pub struct Nonced<T> {
    pub action: T,
    pub nonce: u64,
}

/// The calls the contract offers.
#[derive(Debug, Clone, Copy, PartialEq, Eq)]
pub enum FaucetAction {
    Click,
}

impl FaucetAction {
    /// The blob addressed to `contract_name` carrying this action: its borsh
    /// encoding, the variant's index as one byte.
    pub fn as_blob(&self, contract_name: String) -> (r: Blob)
        ensures
            r@.contract_name == contract_name@,
            r@.data == seq![0u8],
    {
        Blob { contract_name, data: vec![0u8] }
    }
}

/// Position of the first entry of `p` held by `id`.
pub open spec fn index_of(p: Seq<(Seq<char>, PlayerView)>, id: Seq<char>) -> Option<int>
    decreases p.len(),
{
    if p.len() == 0 {
        None
    } else {
        match index_of(p.drop_last(), id) {
            Some(i) => Some(i),
            None => if p.last().0 == id {
                Some(p.len() - 1)
            } else {
                None
            },
        }
    }
}

/// Position of the first powerup of `p` named `name`.
pub open spec fn powerup_index(p: Seq<PowerupView>, name: Seq<char>) -> Option<int>
    decreases p.len(),
{
    if p.len() == 0 {
        None
    } else {
        match powerup_index(p.drop_last(), name) {
            Some(i) => Some(i),
            None => if p.last().name == name {
                Some(p.len() - 1)
            } else {
                None
            },
        }
    }
}

pub open spec fn new_player() -> PlayerView {
    PlayerView { points: 0, multiplier: 1, owned_powerups: Seq::empty() }
}

/// The state with a player for `id`, created with no points and multiplier
/// one when there was none.
pub open spec fn with_player(f: FaucetView, id: Seq<char>) -> FaucetView {
    if index_of(f.players, id) is Some {
        f
    } else {
        FaucetView { players: f.players.push((id, new_player())), powerups: f.powerups }
    }
}

/// Position of `id`'s player once it exists.
pub open spec fn player_pos(f: FaucetView, id: Seq<char>) -> int {
    index_of(with_player(f, id).players, id)->Some_0
}

pub open spec fn player_of(f: FaucetView, id: Seq<char>) -> PlayerView {
    with_player(f, id).players[player_pos(f, id)].1
}

pub open spec fn set_player(f: FaucetView, id: Seq<char>, p: PlayerView) -> FaucetView {
    let g = with_player(f, id);
    FaucetView { players: g.players.update(player_pos(f, id), (id, p)), powerups: g.powerups }
}

pub open spec fn click_ok(f: FaucetView, id: Seq<char>) -> bool {
    player_of(f, id).points + player_of(f, id).multiplier <= u128::MAX
}

/// State after `id` clicks: the player gains its multiplier in points.
pub open spec fn click_state(f: FaucetView, id: Seq<char>) -> FaucetView {
    let p = player_of(f, id);
    if click_ok(f, id) {
        set_player(
            f,
            id,
            PlayerView {
                points: p.points + p.multiplier,
                multiplier: p.multiplier,
                owned_powerups: p.owned_powerups,
            },
        )
    } else {
        with_player(f, id)
    }
}

pub open spec fn click_message(points: nat, multiplier: nat) -> Seq<char> {
    "Clicked! Points: "@ + decimal(points) + ", Multiplier: "@ + decimal(multiplier)
}

pub open spec fn buy_ok(f: FaucetView, id: Seq<char>, name: Seq<char>) -> bool {
    match powerup_index(f.powerups, name) {
        Some(j) => player_of(f, id).points >= f.powerups[j].price && player_of(f, id).multiplier
            + f.powerups[j].multiplier_bonus <= u128::MAX,
        None => false,
    }
}

/// State after `id` tries to buy powerup `name`: when it is on sale and the
/// player has enough points, the price is paid, the multiplier grows by the
/// bonus and the powerup is recorded. The player exists afterwards whenever
/// the powerup is on sale.
pub open spec fn buy_state(f: FaucetView, id: Seq<char>, name: Seq<char>) -> FaucetView {
    match powerup_index(f.powerups, name) {
        None => f,
        Some(j) => {
            let w = f.powerups[j];
            let p = player_of(f, id);
            if buy_ok(f, id, name) {
                set_player(
                    f,
                    id,
                    PlayerView {
                        points: (p.points - w.price) as nat,
                        multiplier: p.multiplier + w.multiplier_bonus,
                        owned_powerups: p.owned_powerups.push(w.name),
                    },
                )
            } else {
                with_player(f, id)
            }
        },
    }
}

pub open spec fn cashout_ok(f: FaucetView, id: Seq<char>, amount: nat) -> bool {
    player_of(f, id).points >= amount
}

/// State after `id` cashes out `amount` points, when it has them.
pub open spec fn cashout_state(f: FaucetView, id: Seq<char>, amount: nat) -> FaucetView {
    let p = player_of(f, id);
    if cashout_ok(f, id, amount) {
        set_player(
            f,
            id,
            PlayerView {
                points: (p.points - amount) as nat,
                multiplier: p.multiplier,
                owned_powerups: p.owned_powerups,
            },
        )
    } else {
        with_player(f, id)
    }
}

/// Value of little-endian bytes.
pub open spec fn le_value(b: Seq<u8>) -> nat
    decreases b.len(),
{
    if b.len() == 0 {
        0
    } else {
        b[0] as nat + 256 * le_value(b.drop_first())
    }
}

/// Whether `data` is the borsh encoding of a nonced click.
pub open spec fn is_click_blob(data: Seq<u8>) -> bool {
    data.len() == 9 && data[0] == 0
}

/// Whether `call` addresses a nonced click to the contract.
pub open spec fn call_is_click(call: CalldataView) -> bool {
    call.index < call.blobs.len() && is_click_blob(call.blobs[call.index as int].data)
}

/// Position of the last '@' of `s`, or -1 when it has none.
pub open spec fn last_at(s: Seq<char>) -> int
    decreases s.len(),
{
    if s.len() == 0 {
        -1
    } else if s.last() == '@' {
        s.len() - 1
    } else {
        last_at(s.drop_last())
    }
}

/// The player an identity names: the text before its last '@'.
pub open spec fn player_name(identity: Seq<char>) -> Seq<char> {
    identity.take(last_at(identity))
}

/// Borsh encoding of the hyllar token's transfer action, its first variant:
/// the variant tag, the recipient as length-prefixed UTF-8, the amount.
pub open spec fn transfer_bytes(recipient: Seq<char>, amount: nat) -> Seq<u8> {
    seq![0u8] + le_bytes(encode_utf8(recipient).len(), 4) + encode_utf8(recipient) + le_bytes(
        amount,
        16,
    )
}

/// Whether `blobs` hold a hyllar transfer of one token to `recipient`.
pub open spec fn carries_transfer(blobs: Seq<BlobView>, recipient: Seq<char>) -> bool {
    &&& encode_utf8(recipient).len() <= u32::MAX
    &&& exists|i: int|
        0 <= i < blobs.len() && blobs[i].contract_name == "hyllar"@ && blobs[i].data
            == transfer_bytes(recipient, 1)
}

/// Whether the transaction of `call` pays its player one hyllar token, as a
/// click requires.
pub open spec fn funded(call: CalldataView) -> bool {
    last_at(call.identity) >= 0 && carries_transfer(call.blobs, player_name(call.identity))
}

/// The reason a call to the faucet fails on `state`.
pub open spec fn click_failure(state: FaucetView, call: CalldataView) -> Seq<char> {
    if call.index >= call.blobs.len() {
        "Blob index out of range"@
    } else if call.blobs[call.index as int].data.len() != 9 {
        "Could not decode the faucet action"@
    } else if call.blobs[call.index as int].data[0] != 0 {
        "Unknown faucet action"@
    } else if last_at(call.identity) < 0 {
        "Identity has no '@'"@
    } else if !funded(call) {
        "Missing hyllar transfer of 1 to the player"@
    } else {
        "Points overflow"@
    }
}

/// Relies on str::rsplit_once: the text before the last '@', when there is
/// one.
#[verifier::external_body]
fn before_last_at(s: &String) -> (r: Option<String>)
    ensures
        r is Some <==> last_at(s@) >= 0,
        r matches Some(a) ==> a@ == s@.take(last_at(s@)),
{
    s.rsplit_once('@').map(|(a, _)| a.to_string())
}

/// The hyllar transfer of `amount` to `recipient`, encoded as `transfer_bytes`
/// says; none when the recipient is too long for a length prefix.
fn transfer_encoding(recipient: &String, amount: u128) -> (r: Option<Vec<u8>>)
    ensures
        r is Some <==> encode_utf8(recipient@).len() <= u32::MAX,
        r matches Some(v) ==> v@ == transfer_bytes(recipient@, amount as nat),
{
    let bytes = recipient.as_str().as_bytes();
    assert(bytes@ == encode_utf8(recipient@));
    if bytes.len() > u32::MAX as usize {
        return None;
    }
    let mut v: Vec<u8> = vec![0u8];
    push_le(&mut v, bytes.len() as u128, 4);
    let ghost head = v@;
    let mut i: usize = 0;
    while i < bytes.len()
        invariant
            i <= bytes.len(),
            v@ == head + bytes@.take(i as int),
        decreases bytes.len() - i,
    {
        v.push(bytes[i]);
        assert(bytes@.take(i + 1) =~= bytes@.take(i as int).push(bytes@[i as int]));
        assert(head + bytes@.take(i + 1) =~= (head + bytes@.take(i as int)).push(bytes@[i as int]));
        i = i + 1;
    }
    assert(bytes@.take(bytes.len() as int) =~= bytes@);
    push_le(&mut v, amount, 16);
    assert(v@ =~= transfer_bytes(recipient@, amount as nat));
    Some(v)
}

/// Whether `blobs` hold a hyllar transfer of one token to `recipient`.
fn find_transfer(blobs: &Vec<Blob>, recipient: &String) -> (r: bool)
    ensures
        r == carries_transfer(blobs_view(blobs@), recipient@),
{
    let expected = match transfer_encoding(recipient, 1) {
        Some(v) => v,
        None => {
            return false;
        },
    };
    let token = String::from_str("hyllar");
    proof {
        reveal_strlit("hyllar");
    }
    let ghost bv = blobs_view(blobs@);
    let mut i: usize = 0;
    while i < blobs.len()
        invariant
            i <= blobs.len(),
            bv == blobs_view(blobs@),
            token@ == "hyllar"@,
            expected@ == transfer_bytes(recipient@, 1),
            encode_utf8(recipient@).len() <= u32::MAX,
            forall|j: int|
                0 <= j < i ==> !(bv[j].contract_name == "hyllar"@ && bv[j].data == transfer_bytes(
                    recipient@,
                    1,
                )),
        decreases blobs.len() - i,
    {
        assert(bv[i as int] == blobs[i as int]@);
        if blobs[i].contract_name == token && bytes_eq(&blobs[i].data, &expected) {
            assert(bv[i as int].contract_name == "hyllar"@ && bv[i as int].data == transfer_bytes(
                recipient@,
                1,
            ));
            return true;
        }
        i = i + 1;
    }
    false
}

/// Borsh encoding of a faucet state, when borsh can encode it: the players
/// as a map from identity to (points, multiplier, powerups), then the list
/// of powerups on sale.
pub uninterp spec fn state_encoding(f: FaucetView) -> Option<Seq<u8>>;

/// Relies on borsh::from_slice for a one-byte enum tag followed by a
/// little-endian u64: it succeeds exactly on nine bytes and reads them in
/// order.
#[verifier::external_body]
fn decode_tag_and_nonce(data: &Vec<u8>) -> (r: Option<(u8, u64)>)
    ensures
        r is Some <==> data@.len() == 9,
        r matches Some(v) ==> v.0 == data@[0] && v.1 as nat == le_value(data@.subrange(1, 9)),
{
    borsh::from_slice::<(u8, u64)>(data).ok()
}

/// Whether every count and text of `f` fits borsh's 32-bit length prefix.
pub open spec fn state_encodable(f: FaucetView) -> bool {
    &&& f.players.len() <= u32::MAX
    &&& forall|i: int|
        0 <= i < f.players.len() ==> {
            &&& encode_utf8(#[trigger] f.players[i].0).len() <= u32::MAX
            &&& f.players[i].1.owned_powerups.len() <= u32::MAX
            &&& forall|j: int|
                0 <= j < f.players[i].1.owned_powerups.len() ==> encode_utf8(
                    #[trigger] f.players[i].1.owned_powerups[j],
                ).len() <= u32::MAX
        }
    &&& f.powerups.len() <= u32::MAX
    &&& forall|i: int|
        0 <= i < f.powerups.len() ==> encode_utf8(#[trigger] f.powerups[i].name).len() <= u32::MAX
}

/// Relies on borsh::to_vec of the state in the shape the contract commits to
/// (a map is encoded sorted by key, as borsh encodes a `HashMap`). Borsh
/// fails only on a count or text longer than its 32-bit length prefix.
#[verifier::external_body]
fn encode_state(f: &Faucet) -> (r: Option<Vec<u8>>)
    ensures
        r is Some == state_encoding(f@) is Some,
        state_encodable(f@) ==> r is Some,
        r matches Some(v) ==> v@ == state_encoding(f@)->Some_0,
{
    let players: std::collections::BTreeMap<String, (u128, u128, Vec<String>)> = f.players.iter().map(
        |e| (e.0.clone(), (e.1.points, e.1.multiplier, e.1.owned_powerups.clone())),
    ).collect();
    let powerups: Vec<(u8, String, u128, u128)> = f.available_powerups.iter().map(
        |p| match p {
            Powerup::Multiplier { name, price, multiplier_bonus } => (0u8, name.clone(), *price, *multiplier_bonus),
        },
    ).collect();
    borsh::to_vec(&(players, powerups)).ok()
}

/// A decoded player record as the contract sees it.
pub open spec fn record_view(e: (String, u128, u128, Vec<String>)) -> (Seq<char>, PlayerView) {
    (
        e.0@,
        PlayerView {
            points: e.1 as nat,
            multiplier: e.2 as nat,
            owned_powerups: strings_view(e.3@),
        },
    )
}

/// A decoded powerup with its variant tag.
pub open spec fn item_view(e: (u8, String, u128, u128)) -> (u8, PowerupView) {
    (e.0, PowerupView { name: e.1@, price: e.2 as nat, multiplier_bonus: e.3 as nat })
}

/// What borsh decodes from a committed state: the player records, then the
/// tagged powerups; none when the bytes are not such an encoding.
pub uninterp spec fn decoded_state(bytes: Seq<u8>) -> Option<
    (Seq<(Seq<char>, PlayerView)>, Seq<(u8, PowerupView)>),
>;

/// Relies on borsh::from_slice of the state in the shape the contract commits
/// to: the players map, then the list of tagged powerups.
#[verifier::external_body]
fn decode_state(bytes: &Vec<u8>) -> (r: Option<
    (Vec<(String, u128, u128, Vec<String>)>, Vec<(u8, String, u128, u128)>),
>)
    ensures
        r is Some == decoded_state(bytes@) is Some,
        r matches Some(v) ==> decoded_state(bytes@)->Some_0 == (
            v.0@.map_values(|e: (String, u128, u128, Vec<String>)| record_view(e)),
            v.1@.map_values(|e: (u8, String, u128, u128)| item_view(e)),
        ),
{
    borsh::from_slice::<
        (
            std::collections::BTreeMap<String, (u128, u128, Vec<String>)>,
            Vec<(u8, String, u128, u128)>,
        ),
    >(bytes).ok().map(
        |(players, powerups)|
            (players.into_iter().map(|(k, (p, m, o))| (k, p, m, o)).collect(), powerups),
    )
}

/// Whether every decoded powerup has the only variant's tag.
pub open spec fn tags_known(items: Seq<(u8, PowerupView)>) -> bool {
    forall|i: int| 0 <= i < items.len() ==> #[trigger] items[i].0 == 0
}

proof fn lemma_powerup_index_prefix(p: Seq<PowerupView>, j: int, name: Seq<char>)
    requires
        0 <= j <= p.len(),
        powerup_index(p.take(j), name) is Some,
    ensures
        powerup_index(p, name) == powerup_index(p.take(j), name),
    decreases p.len(),
{
    if j == p.len() {
        assert(p.take(j) =~= p);
    } else {
        assert(p.drop_last().take(j) =~= p.take(j));
        lemma_powerup_index_prefix(p.drop_last(), j, name);
    }
}

proof fn lemma_powerup_index_found(p: Seq<PowerupView>, name: Seq<char>)
    ensures
        powerup_index(p, name) matches Some(i) ==> 0 <= i < p.len() && p[i].name == name,
    decreases p.len(),
{
    if p.len() > 0 {
        lemma_powerup_index_found(p.drop_last(), name);
    }
}

/// No two players share an identity.
pub open spec fn unique_players(f: FaucetView) -> bool {
    forall|i: int, j: int|
        0 <= i < j < f.players.len() ==> f.players[i].0 != f.players[j].0
}

proof fn lemma_index_of_none(p: Seq<(Seq<char>, PlayerView)>, id: Seq<char>)
    ensures
        index_of(p, id) is None ==> forall|i: int| 0 <= i < p.len() ==> p[i].0 != id,
    decreases p.len(),
{
    if p.len() > 0 {
        let q = p.drop_last();
        lemma_index_of_none(q, id);
        assert(forall|i: int| 0 <= i < q.len() ==> q[i] == p[i]);
    }
}

proof fn lemma_with_player_unique(f: FaucetView, id: Seq<char>)
    requires
        unique_players(f),
    ensures
        unique_players(with_player(f, id)),
        index_of(with_player(f, id).players, id) is Some,
{
    lemma_index_of_none(f.players, id);
    lemma_index_of_push(f.players, (id, new_player()), id);
    if index_of(f.players, id) is None {
        let q = f.players.push((id, new_player()));
        assert forall|i: int, j: int| 0 <= i < j < q.len() implies q[i].0 != q[j].0 by {
            assert(q[i] == f.players[i]);
            if j < f.players.len() {
                assert(q[j] == f.players[j]);
            }
        }
    }
}

/// Giving `id`'s player a new record keeps identities unique.
pub proof fn lemma_set_player_unique(f: FaucetView, id: Seq<char>, p: PlayerView)
    requires
        unique_players(f),
    ensures
        unique_players(set_player(f, id, p)),
        unique_players(with_player(f, id)),
{
    lemma_with_player_unique(f, id);
    lemma_index_of_found(with_player(f, id).players, id);
    let g = with_player(f, id).players;
    let k = player_pos(f, id);
    let q = g.update(k, (id, p));
    assert forall|i: int, j: int| 0 <= i < j < q.len() implies q[i].0 != q[j].0 by {
        assert(q[i].0 == g[i].0);
        assert(q[j].0 == g[j].0);
    }
}

proof fn lemma_updates_unique(f: FaucetView, id: Seq<char>)
    requires
        unique_players(f),
    ensures
        unique_players(with_player(f, id)),
        forall|p: PlayerView| #[trigger] unique_players(set_player(f, id, p)),
{
    lemma_with_player_unique(f, id);
    assert forall|p: PlayerView| #[trigger] unique_players(set_player(f, id, p)) by {
        lemma_set_player_unique(f, id, p);
    }
}

/// Every execution of a call keeps player identities unique.
pub proof fn lemma_players_stay_unique(f: FaucetView, call: CalldataView)
    requires
        unique_players(f),
    ensures
        unique_players(<Faucet as TxExecutorHandler>::next(f, call)),
{
    let p = player_of(f, call.identity);
    lemma_set_player_unique(
        f,
        call.identity,
        PlayerView {
            points: p.points + p.multiplier,
            multiplier: p.multiplier,
            owned_powerups: p.owned_powerups,
        },
    );
}

proof fn lemma_index_of_push(p: Seq<(Seq<char>, PlayerView)>, e: (Seq<char>, PlayerView), id: Seq<char>)
    ensures
        index_of(p, id) is Some ==> index_of(p.push(e), id) == index_of(p, id),
        index_of(p, id) is None && e.0 == id ==> index_of(p.push(e), id) == Some(p.len() as int),
{
    assert(p.push(e).drop_last() =~= p);
}

proof fn lemma_index_of_prefix(p: Seq<(Seq<char>, PlayerView)>, j: int, id: Seq<char>)
    requires
        0 <= j <= p.len(),
        index_of(p.take(j), id) is Some,
    ensures
        index_of(p, id) == index_of(p.take(j), id),
    decreases p.len(),
{
    if j == p.len() {
        assert(p.take(j) =~= p);
    } else {
        assert(p.drop_last().take(j) =~= p.take(j));
        lemma_index_of_prefix(p.drop_last(), j, id);
    }
}

proof fn lemma_index_of_found(p: Seq<(Seq<char>, PlayerView)>, id: Seq<char>)
    ensures
        index_of(p, id) matches Some(i) ==> 0 <= i < p.len() && p[i].0 == id,
    decreases p.len(),
{
    if p.len() > 0 {
        lemma_index_of_found(p.drop_last(), id);
    }
}

proof fn lemma_index_of_update(
    p: Seq<(Seq<char>, PlayerView)>,
    k: int,
    e: (Seq<char>, PlayerView),
    q: Seq<char>,
)
    requires
        0 <= k < p.len(),
        p[k].0 == e.0,
    ensures
        index_of(p.update(k, e), q) == index_of(p, q),
    decreases p.len(),
{
    if k < p.len() - 1 {
        assert(p.update(k, e).drop_last() =~= p.drop_last().update(k, e));
        lemma_index_of_update(p.drop_last(), k, e, q);
    } else {
        assert(p.update(k, e).drop_last() =~= p.drop_last());
    }
}

impl Faucet {
    /// A faucet with no players and one powerup on sale.
    pub fn new() -> (r: Faucet)
        ensures
            r@.players == Seq::<(Seq<char>, PlayerView)>::empty(),
            unique_players(r@),
            r@.powerups == seq![
                PowerupView { name: "Wooden Click"@, price: 100, multiplier_bonus: 1 },
            ],
    {
        let r = Faucet {
            players: Vec::new(),
            available_powerups: vec![
                Powerup::Multiplier {
                    name: String::from_str("Wooden Click"),
                    price: 100,
                    multiplier_bonus: 1,
                },
            ],
        };
        proof {
            assert(r@.players =~= Seq::<(Seq<char>, PlayerView)>::empty());
            assert(r@.powerups =~= seq![
                PowerupView { name: "Wooden Click"@, price: 100, multiplier_bonus: 1 },
            ]);
        }
        r
    }

    /// Position of `id`'s player, if there is one.
    fn find_player(&self, id: &String) -> (r: Option<usize>)
        ensures
            r matches Some(i) ==> index_of(self@.players, id@) == Some(i as int),
            r is None ==> index_of(self@.players, id@) is None,
    {
        let mut i: usize = 0;
        while i < self.players.len()
            invariant
                i <= self.players.len(),
                index_of(self@.players.take(i as int), id@) is None,
            decreases self.players.len() - i,
        {
            assert(self@.players.take(i + 1).drop_last() =~= self@.players.take(i as int));
            assert(self@.players[i as int].0 == self.players[i as int].0@);
            if self.players[i].0 == *id {
                proof {
                    lemma_index_of_prefix(self@.players, i + 1, id@);
                }
                return Some(i);
            }
            i = i + 1;
        }
        assert(self@.players.take(self.players.len() as int) =~= self@.players);
        None
    }

    /// Position of `id`'s player, created with no points and multiplier one
    /// when there was none.
    fn get_or_create_player(&mut self, id: &String) -> (r: usize)
        ensures
            final(self)@ == with_player(old(self)@, id@),
            r as int == player_pos(old(self)@, id@),
            r < final(self)@.players.len(),
            final(self)@.players[r as int].0 == id@,
    {
        match self.find_player(id) {
            Some(i) => {
                proof {
                    lemma_index_of_found(self@.players, id@);
                }
                i
            },
            None => {
                let ghost before = self@.players;
                let p = PlayerState { points: 0, multiplier: 1, owned_powerups: Vec::new() };
                self.players.push((id.clone(), p));
                proof {
                    assert(strings_view(Seq::<String>::empty()) =~= Seq::<Seq<char>>::empty());
                    assert(self@.players =~= before.push((id@, new_player())));
                    lemma_index_of_push(before, (id@, new_player()), id@);
                }
                self.players.len() - 1
            },
        }
    }

    pub fn click(&mut self, identity: String) -> (r: Result<String, String>)
        ensures
            final(self)@ == click_state(old(self)@, identity@),
            unique_players(old(self)@) ==> unique_players(final(self)@),
            r is Ok == click_ok(old(self)@, identity@),
            r matches Err(m) ==> m@ == "Points overflow"@,
            r matches Ok(m) ==> m@ == click_message(
                player_of(old(self)@, identity@).points + player_of(old(self)@, identity@).multiplier,
                player_of(old(self)@, identity@).multiplier,
            ),
    {
        proof {
            if unique_players(self@) {
                lemma_updates_unique(self@, identity@);
            }
        }
        let i = self.get_or_create_player(&identity);
        let points = self.players[i].1.points;
        let multiplier = self.players[i].1.multiplier;
        proof {
            reveal_strlit("Points overflow");
        }
        if points > u128::MAX - multiplier {
            return Err(String::from_str("Points overflow"));
        }
        let ghost g = self@.players;
        let owned = self.players[i].1.copy();
        let updated = PlayerState {
            points: points + multiplier,
            multiplier,
            owned_powerups: owned.owned_powerups,
        };
        let ghost pv = updated@;
        self.players.set(i, (identity.clone(), updated));
        proof {
            assert(self@.players =~= g.update(i as int, (identity@, pv)));
        }
        let mut m = String::from_str("Clicked! Points: ");
        push_decimal(&mut m, points + multiplier);
        m.append(", Multiplier: ");
        push_decimal(&mut m, multiplier);
        proof {
            reveal_strlit("Clicked! Points: ");
            reveal_strlit(", Multiplier: ");
        }
        Ok(m)
    }

    /// Position of the first powerup on sale named `name`.
    fn find_powerup(&self, name: &str) -> (r: Option<usize>)
        ensures
            r matches Some(i) ==> powerup_index(self@.powerups, name@) == Some(i as int),
            r is None ==> powerup_index(self@.powerups, name@) is None,
    {
        let target = String::from_str(name);
        let mut i: usize = 0;
        while i < self.available_powerups.len()
            invariant
                target@ == name@,
                i <= self.available_powerups.len(),
                powerup_index(self@.powerups.take(i as int), name@) is None,
            decreases self.available_powerups.len() - i,
        {
            assert(self@.powerups.take(i + 1).drop_last() =~= self@.powerups.take(i as int));
            assert(self@.powerups[i as int] == self.available_powerups[i as int]@);
            let found = match &self.available_powerups[i] {
                Powerup::Multiplier { name: n, .. } => *n == target,
            };
            if found {
                proof {
                    lemma_powerup_index_prefix(self@.powerups, i + 1, name@);
                }
                return Some(i);
            }
            i = i + 1;
        }
        assert(self@.powerups.take(self.available_powerups.len() as int) =~= self@.powerups);
        None
    }

    pub fn buy_powerup(&mut self, identity: String, powerup_name: &str) -> (r: Result<String, String>)
        ensures
            final(self)@ == buy_state(old(self)@, identity@, powerup_name@),
            unique_players(old(self)@) ==> unique_players(final(self)@),
            r is Ok == buy_ok(old(self)@, identity@, powerup_name@),
            powerup_index(old(self)@.powerups, powerup_name@) is None ==> (r matches Err(m) && m@
                == "Powerup not found"@),
            r matches Ok(m) ==> m@ == "Powerup bought! Name: "@ + powerup_name@
                + ", New Multiplier: "@ + decimal(player_of(final(self)@, identity@).multiplier),
            powerup_index(old(self)@.powerups, powerup_name@) is Some && player_of(
                old(self)@,
                identity@,
            ).points < old(self)@.powerups[powerup_index(
                old(self)@.powerups,
                powerup_name@,
            )->Some_0].price ==> (r matches Err(m) && m@
                == "Not enough points to buy powerup. Required: "@ + decimal(
                old(self)@.powerups[powerup_index(old(self)@.powerups, powerup_name@)->Some_0].price,
            ) + ", Current: "@ + decimal(
                player_of(old(self)@, identity@).points,
            )),
    {
        proof {
            reveal_strlit("Powerup not found");
            reveal_strlit("Powerup bought! Name: ");
            reveal_strlit(", New Multiplier: ");
            reveal_strlit("Not enough points to buy powerup. Required: ");
            reveal_strlit(", Current: ");
            reveal_strlit("Multiplier overflow");
        }
        proof {
            if unique_players(self@) {
                lemma_updates_unique(self@, identity@);
            }
        }
        let j = match self.find_powerup(powerup_name) {
            Some(j) => j,
            None => {
                return Err(String::from_str("Powerup not found"));
            },
        };
        proof {
            lemma_powerup_index_found(self@.powerups, powerup_name@);
        }
        let (price, bonus) = match &self.available_powerups[j] {
            Powerup::Multiplier { price, multiplier_bonus, .. } => (*price, *multiplier_bonus),
        };
        let i = self.get_or_create_player(&identity);
        let points = self.players[i].1.points;
        let multiplier = self.players[i].1.multiplier;
        if points < price {
            let mut m = String::from_str("Not enough points to buy powerup. Required: ");
            push_decimal(&mut m, price);
            m.append(", Current: ");
            push_decimal(&mut m, points);
            return Err(m);
        }
        if multiplier > u128::MAX - bonus {
            return Err(String::from_str("Multiplier overflow"));
        }
        let ghost g = self@.players;
        let old_player = self.players[i].1.copy();
        let mut owned = old_player.owned_powerups;
        let bought = String::from_str(powerup_name);
        let ghost owned_before = strings_view(owned@);
        owned.push(bought);
        proof {
            assert(strings_view(owned@) =~= owned_before.push(powerup_name@));
        }
        let updated = PlayerState { points: points - price, multiplier: multiplier + bonus, owned_powerups: owned };
        let ghost pv = updated@;
        self.players.set(i, (identity.clone(), updated));
        proof {
            assert(self@.players =~= g.update(i as int, (identity@, pv)));
            lemma_index_of_found(g, identity@);
            lemma_index_of_update(g, i as int, (identity@, pv), identity@);
            assert(with_player(self@, identity@) == self@);
        }
        let mut m = String::from_str("Powerup bought! Name: ");
        m.append(powerup_name);
        m.append(", New Multiplier: ");
        push_decimal(&mut m, multiplier + bonus);
        Ok(m)
    }

    pub fn cashout(&mut self, identity: String, amount: u128) -> (r: Result<String, String>)
        ensures
            final(self)@ == cashout_state(old(self)@, identity@, amount as nat),
            unique_players(old(self)@) ==> unique_players(final(self)@),
            r is Ok == cashout_ok(old(self)@, identity@, amount as nat),
            r matches Ok(m) ==> m@ == "Cashout successful! Amount: "@ + decimal(amount as nat),
            r matches Err(m) ==> m@ == "Not enough points to cash out. Required: "@ + decimal(
                amount as nat,
            ) + ", Current: "@ + decimal(player_of(old(self)@, identity@).points),
    {
        proof {
            reveal_strlit("Cashout successful! Amount: ");
            reveal_strlit("Not enough points to cash out. Required: ");
            reveal_strlit(", Current: ");
        }
        proof {
            if unique_players(self@) {
                lemma_updates_unique(self@, identity@);
            }
        }
        let i = self.get_or_create_player(&identity);
        let points = self.players[i].1.points;
        if points < amount {
            let mut m = String::from_str("Not enough points to cash out. Required: ");
            push_decimal(&mut m, amount);
            m.append(", Current: ");
            push_decimal(&mut m, points);
            return Err(m);
        }
        let ghost g = self@.players;
        let old_player = self.players[i].1.copy();
        let updated = PlayerState {
            points: points - amount,
            multiplier: old_player.multiplier,
            owned_powerups: old_player.owned_powerups,
        };
        let ghost pv = updated@;
        self.players.set(i, (identity.clone(), updated));
        proof {
            assert(self@.players =~= g.update(i as int, (identity@, pv)));
        }
        let mut m = String::from_str("Cashout successful! Amount: ");
        push_decimal(&mut m, amount);
        Ok(m)
    }

    /// The player record of `identity`, if it has one.
    pub fn player(&self, identity: &String) -> (r: Option<&PlayerState>)
        ensures
            index_of(self@.players, identity@) is None ==> r is None,
            index_of(self@.players, identity@) matches Some(i) ==> (r matches Some(p) && p@
                == self@.players[i].1),
    {
        proof {
            lemma_index_of_found(self@.players, identity@);
        }
        match self.find_player(identity) {
            Some(i) => Some(&self.players[i].1),
            None => None,
        }
    }

    /// The state a commitment holds: its borsh encoding decoded. Fails when
    /// the bytes are no such encoding.
    pub fn from_bytes(bytes: &Vec<u8>) -> (r: Result<Faucet, String>)
        ensures
            (r is Ok) == (decoded_state(bytes@) is Some && tags_known(
                (decoded_state(bytes@)->Some_0).1,
            )),
            r matches Ok(f) ==> f@ == (FaucetView {
                players: (decoded_state(bytes@)->Some_0).0,
                powerups: (decoded_state(bytes@)->Some_0).1.map_values(|e: (u8, PowerupView)| e.1),
            }),
    {
        let d = match decode_state(bytes) {
            Some(d) => d,
            None => {
                return Err(String::from_str("Could not decode the faucet state"));
            },
        };
        let ghost dv = decoded_state(bytes@)->Some_0;
        let mut players: Vec<(String, PlayerState)> = Vec::new();
        let mut i: usize = 0;
        while i < d.0.len()
            invariant
                i <= d.0.len(),
                dv.0 == d.0@.map_values(|e: (String, u128, u128, Vec<String>)| record_view(e)),
                players@.map_values(|e: (String, PlayerState)| (e.0@, e.1@)) == dv.0.take(i as int),
            decreases d.0.len() - i,
        {
            let p = PlayerState {
                points: d.0[i].1,
                multiplier: d.0[i].2,
                owned_powerups: copy_strings(&d.0[i].3),
            };
            let e = (d.0[i].0.clone(), p);
            proof {
                let f = |e: (String, PlayerState)| (e.0@, e.1@);
                assert(dv.0[i as int] == record_view(d.0@[i as int]));
                assert(f(e) == dv.0[i as int]);
                assert(dv.0.take(i + 1) =~= dv.0.take(i as int).push(dv.0[i as int]));
                assert(players@.push(e).map_values(f) =~= players@.map_values(f).push(f(e)));
            }
            players.push(e);
            i = i + 1;
        }
        let mut powerups: Vec<Powerup> = Vec::new();
        let mut k: usize = 0;
        while k < d.1.len()
            invariant
                k <= d.1.len(),
                dv == (decoded_state(bytes@)->Some_0),
                dv.1 == d.1@.map_values(|e: (u8, String, u128, u128)| item_view(e)),
                tags_known(dv.1.take(k as int)),
                powerups@.map_values(|p: Powerup| p@) == dv.1.take(k as int).map_values(
                    |e: (u8, PowerupView)| e.1,
                ),
            decreases d.1.len() - k,
        {
            assert(dv.1[k as int] == item_view(d.1@[k as int]));
            if d.1[k].0 != 0 {
                assert(d.1@[k as int].0 == d.1[k as int].0);
                assert(dv.1[k as int].0 != 0);
                assert(!tags_known(dv.1));
                return Err(String::from_str("Unknown powerup kind"));
            }
            let p = Powerup::Multiplier {
                name: d.1[k].1.clone(),
                price: d.1[k].2,
                multiplier_bonus: d.1[k].3,
            };
            proof {
                assert(dv.1.take(k + 1) =~= dv.1.take(k as int).push(dv.1[k as int]));
                assert(dv.1.take(k + 1).map_values(|e: (u8, PowerupView)| e.1) =~= dv.1.take(
                    k as int,
                ).map_values(|e: (u8, PowerupView)| e.1).push(p@));
                assert(powerups@.push(p).map_values(|p: Powerup| p@) =~= powerups@.map_values(
                    |p: Powerup| p@,
                ).push(p@));
            }
            powerups.push(p);
            k = k + 1;
        }
        let r = Faucet { players, available_powerups: powerups };
        proof {
            assert(dv.0.take(d.0.len() as int) =~= dv.0);
            assert(dv.1.take(d.1.len() as int) =~= dv.1);
            assert(r@.players =~= dv.0);
            assert(r@.powerups =~= dv.1.map_values(|e: (u8, PowerupView)| e.1));
        }
        Ok(r)
    }

    /// Number of players.
    pub fn player_count(&self) -> (r: usize)
        ensures
            r == self@.players.len(),
    {
        self.players.len()
    }

    /// The borsh encoding of the state, as the contract commits to it.
    pub fn as_bytes(&self) -> (r: Result<Vec<u8>, String>)
        ensures
            r is Ok == state_encoding(self@) is Some,
            state_encodable(self@) ==> r is Ok,
            r matches Ok(v) ==> v@ == state_encoding(self@)->Some_0,
    {
        match encode_state(self) {
            Some(v) => Ok(v),
            None => Err(String::from_str("Failed to encode the faucet state")),
        }
    }
}

impl Default for Faucet {
    /// No players and nothing on sale.
    fn default() -> (r: Faucet)
        ensures
            r@ == (FaucetView { players: Seq::empty(), powerups: Seq::empty() }),
    {
        let r = Faucet { players: Vec::new(), available_powerups: Vec::new() };
        proof {
            assert(r@.players =~= Seq::<(Seq<char>, PlayerView)>::empty());
            assert(r@.powerups =~= Seq::<PowerupView>::empty());
        }
        r
    }
}

impl TxExecutorHandler for Faucet {
    open spec fn next(state: FaucetView, call: CalldataView) -> FaucetView {
        if call_is_click(call) && funded(call) {
            click_state(state, call.identity)
        } else {
            state
        }
    }

    open spec fn accepts(state: FaucetView, call: CalldataView) -> bool {
        call_is_click(call) && funded(call) && click_ok(state, call.identity)
    }

    open spec fn failure(state: FaucetView, call: CalldataView) -> Seq<char> {
        click_failure(state, call)
    }

    open spec fn metadata(state: FaucetView, blob: BlobView) -> Option<Seq<u8>> {
        state_encoding(state)
    }

    open spec fn initial() -> FaucetView {
        FaucetView { players: Seq::empty(), powerups: Seq::empty() }
    }

    /// Decodes the addressed blob as a nonced action and performs it for the
    /// calling identity; the output is the action's message. A click must be
    /// paid: the transaction must carry a hyllar transfer of one token to the
    /// player named by the identity's text before its last '@'. The ledger
    /// SDK's framing of blobs (the caller and callee indices that tie a
    /// transfer to this blob) cannot be had here, so the transfer is looked for
    /// among all the transaction's blobs, by the token's own encoding of it.
    fn handle(&mut self, calldata: &Calldata) -> (r: Result<Vec<u8>, String>) {
        proof {
            reveal_strlit("Blob index out of range");
            reveal_strlit("Could not decode the faucet action");
            reveal_strlit("Unknown faucet action");
            reveal_strlit("Identity has no '@'");
            reveal_strlit("Missing hyllar transfer of 1 to the player");
            reveal_strlit("Points overflow");
        }
        if calldata.index >= calldata.blobs.len() {
            return Err(String::from_str("Blob index out of range"));
        }
        assert(calldata@.blobs[calldata.index as int] == calldata.blobs[calldata.index as int]@);
        let action = match decode_tag_and_nonce(&calldata.blobs[calldata.index].data) {
            Some(v) => {
                if v.0 != 0 {
                    return Err(String::from_str("Unknown faucet action"));
                }
                Nonced { action: FaucetAction::Click, nonce: v.1 }
            },
            None => {
                return Err(String::from_str("Could not decode the faucet action"));
            },
        };
        let recipient = match before_last_at(&calldata.identity) {
            Some(a) => a,
            None => {
                return Err(String::from_str("Identity has no '@'"));
            },
        };
        if !find_transfer(&calldata.blobs, &recipient) {
            return Err(String::from_str("Missing hyllar transfer of 1 to the player"));
        }
        match action.action {
            FaucetAction::Click => match self.click(calldata.identity.clone()) {
                Ok(m) => Ok(vstd::slice::slice_to_vec(m.as_str().as_bytes())),
                Err(e) => Err(e),
            },
        }
    }

    fn build_commitment_metadata(&self, blob: &Blob) -> (r: Result<Vec<u8>, String>) {
        self.as_bytes()
    }

    fn snapshot(&self) -> (r: Faucet) {
        let mut players: Vec<(String, PlayerState)> = Vec::new();
        let mut i: usize = 0;
        while i < self.players.len()
            invariant
                i <= self.players.len(),
                players@.map_values(|e: (String, PlayerState)| (e.0@, e.1@)) == self@.players.take(
                    i as int,
                ),
            decreases self.players.len() - i,
        {
            let e = (self.players[i].0.clone(), self.players[i].1.copy());
            proof {
                let f = |e: (String, PlayerState)| (e.0@, e.1@);
                assert(self@.players[i as int] == f(self.players@[i as int]));
                assert(self@.players.take(i + 1) =~= self@.players.take(i as int).push(
                    self@.players[i as int],
                ));
                assert(players@.push(e).map_values(f) =~= players@.map_values(f).push(f(e)));
            }
            players.push(e);
            i = i + 1;
        }
        let mut powerups: Vec<Powerup> = Vec::new();
        let mut k: usize = 0;
        while k < self.available_powerups.len()
            invariant
                k <= self.available_powerups.len(),
                powerups@.map_values(|p: Powerup| p@) == self@.powerups.take(k as int),
            decreases self.available_powerups.len() - k,
        {
            let p = match &self.available_powerups[k] {
                Powerup::Multiplier { name, price, multiplier_bonus } => Powerup::Multiplier {
                    name: name.clone(),
                    price: *price,
                    multiplier_bonus: *multiplier_bonus,
                },
            };
            proof {
                let f = |p: Powerup| p@;
                assert(self@.powerups[k as int] == self.available_powerups@[k as int]@);
                assert(self@.powerups.take(k + 1) =~= self@.powerups.take(k as int).push(
                    self@.powerups[k as int],
                ));
                assert(powerups@.push(p).map_values(f) =~= powerups@.map_values(f).push(p@));
            }
            powerups.push(p);
            k = k + 1;
        }
        let r = Faucet { players, available_powerups: powerups };
        proof {
            assert(self@.players.take(self.players.len() as int) =~= self@.players);
            assert(self@.powerups.take(self.available_powerups.len() as int) =~= self@.powerups);
            assert(r@.players =~= self@.players);
            assert(r@.powerups =~= self@.powerups);
        }
        r
    }

    fn initial_state() -> (r: Faucet) {
        Faucet::default()
    }
}

} // verus!
