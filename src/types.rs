//! Ledger data as the engine sees it: transactions, their operations (blobs),
//! block context, call inputs and blocks.

use vstd::prelude::*;

verus! {

/// Content-derived identifier of a transaction, as the ledger reports it.
pub struct TxHash(pub String);

impl View for TxHash {
    type V = Seq<char>;

    open spec fn view(&self) -> Seq<char> {
        self.0@
    }
}

impl TxHash {
    pub fn copy(&self) -> (r: TxHash)
        ensures
            r@ == self@,
    {
        TxHash(self.0.clone())
    }

    pub fn same(&self, other: &TxHash) -> (r: bool)
        ensures
            r == (self@ == other@),
    {
        self.0 == other.0
    }
}

/// Whether two byte vectors hold the same bytes.
pub fn bytes_eq(a: &Vec<u8>, b: &Vec<u8>) -> (r: bool)
    ensures
        r == (a@ == b@),
{
    if a.len() != b.len() {
        return false;
    }
    let mut i: usize = 0;
    while i < a.len()
        invariant
            i <= a.len(),
            a.len() == b.len(),
            a@.take(i as int) == b@.take(i as int),
        decreases a.len() - i,
    {
        if a[i] != b[i] {
            return false;
        }
        assert(a@.take(i + 1) =~= a@.take(i as int).push(a@[i as int]));
        assert(b@.take(i + 1) =~= b@.take(i as int).push(b@[i as int]));
        i = i + 1;
    }
    assert(a@ =~= a@.take(a.len() as int));
    assert(b@ =~= b@.take(b.len() as int));
    true
}

/// The `k` low bytes of `n`, least significant first.
pub open spec fn le_bytes(n: nat, k: nat) -> Seq<u8>
    decreases k,
{
    if k == 0 {
        Seq::empty()
    } else {
        seq![(n % 256) as u8] + le_bytes(n / 256, (k - 1) as nat)
    }
}

/// Appends the `k` low bytes of `n` to `v`, least significant first.
pub fn push_le(v: &mut Vec<u8>, n: u128, k: usize)
    ensures
        final(v)@ == old(v)@ + le_bytes(n as nat, k as nat),
    decreases k,
{
    if k > 0 {
        let ghost v0 = v@;
        v.push((n % 256) as u8);
        push_le(v, n / 256, k - 1);
        assert(final(v)@ =~= v0 + le_bytes(n as nat, k as nat));
    }
}

/// One contract-addressed payload inside a transaction.
pub struct Blob {
    pub contract_name: String,
    pub data: Vec<u8>,
}

pub struct BlobView {
    pub contract_name: Seq<char>,
    pub data: Seq<u8>,
}

impl View for Blob {
    type V = BlobView;

    open spec fn view(&self) -> BlobView {
        BlobView { contract_name: self.contract_name@, data: self.data@ }
    }
}

impl Blob {
    pub fn copy(&self) -> (r: Blob)
        ensures
            r@ == self@,
    {
        Blob { contract_name: self.contract_name.clone(), data: self.data.clone() }
    }
}

pub open spec fn blobs_view(v: Seq<Blob>) -> Seq<BlobView> {
    v.map_values(|b: Blob| b@)
}

pub fn copy_blobs(v: &Vec<Blob>) -> (r: Vec<Blob>)
    ensures
        blobs_view(r@) == blobs_view(v@),
{
    let mut r: Vec<Blob> = Vec::new();
    let mut i: usize = 0;
    while i < v.len()
        invariant
            i <= v.len(),
            blobs_view(r@) == blobs_view(v@.take(i as int)),
        decreases v.len() - i,
    {
        let b = v[i].copy();
        proof {
            assert(v@.take(i + 1) == v@.take(i as int).push(v@[i as int]));
            assert(blobs_view(r@.push(b)) =~= blobs_view(r@).push(b@));
            assert(blobs_view(v@.take(i + 1)) =~= blobs_view(v@.take(i as int)).push(v@[i as int]@));
        }
        r.push(b);
        i = i + 1;
    }
    assert(v@.take(v.len() as int) == v@);
    r
}

/// A transaction carrying an ordered sequence of blobs, sent by `identity`.
pub struct BlobTransaction {
    pub hash: TxHash,
    pub identity: String,
    pub blobs: Vec<Blob>,
}

pub struct TxView {
    pub hash: Seq<char>,
    pub identity: Seq<char>,
    pub blobs: Seq<BlobView>,
}

impl View for BlobTransaction {
    type V = TxView;

    open spec fn view(&self) -> TxView {
        TxView { hash: self.hash@, identity: self.identity@, blobs: blobs_view(self.blobs@) }
    }
}

impl BlobTransaction {
    pub fn copy(&self) -> (r: BlobTransaction)
        ensures
            r@ == self@,
    {
        BlobTransaction {
            hash: self.hash.copy(),
            identity: self.identity.clone(),
            blobs: copy_blobs(&self.blobs),
        }
    }
}

/// Where a transaction was sequenced.
pub struct TxContext {
    pub block_height: u64,
    pub block_hash: String,
    pub timestamp: u128,
    pub lane_id: String,
    pub chain_id: u128,
}

pub struct CtxView {
    pub block_height: nat,
    pub block_hash: Seq<char>,
    pub timestamp: nat,
    pub lane_id: Seq<char>,
    pub chain_id: nat,
}

impl View for TxContext {
    type V = CtxView;

    open spec fn view(&self) -> CtxView {
        CtxView {
            block_height: self.block_height as nat,
            block_hash: self.block_hash@,
            timestamp: self.timestamp as nat,
            lane_id: self.lane_id@,
            chain_id: self.chain_id as nat,
        }
    }
}

impl TxContext {
    pub fn copy(&self) -> (r: TxContext)
        ensures
            r@ == self@,
    {
        TxContext {
            block_height: self.block_height,
            block_hash: self.block_hash.clone(),
            timestamp: self.timestamp,
            lane_id: self.lane_id.clone(),
            chain_id: self.chain_id,
        }
    }
}

/// One operation bound to its transaction, index and context: the unit the
/// contract's execution function consumes.
pub struct Calldata {
    pub identity: String,
    pub tx_hash: TxHash,
    pub private_input: Vec<u8>,
    pub blobs: Vec<Blob>,
    pub index: usize,
    pub tx_ctx: TxContext,
    pub tx_blob_count: usize,
}

pub struct CalldataView {
    pub identity: Seq<char>,
    pub tx_hash: Seq<char>,
    pub private_input: Seq<u8>,
    pub blobs: Seq<BlobView>,
    pub index: nat,
    pub tx_ctx: CtxView,
    pub tx_blob_count: nat,
}

impl View for Calldata {
    type V = CalldataView;

    open spec fn view(&self) -> CalldataView {
        CalldataView {
            identity: self.identity@,
            tx_hash: self.tx_hash@,
            private_input: self.private_input@,
            blobs: blobs_view(self.blobs@),
            index: self.index as nat,
            tx_ctx: self.tx_ctx@,
            tx_blob_count: self.tx_blob_count as nat,
        }
    }
}

/// The call input for blob `index` of `tx`, sequenced in `ctx`.
pub open spec fn calldata_of(tx: TxView, ctx: CtxView, index: nat) -> CalldataView {
    CalldataView {
        identity: tx.identity,
        tx_hash: tx.hash,
        private_input: Seq::empty(),
        blobs: tx.blobs,
        index,
        tx_ctx: ctx,
        tx_blob_count: tx.blobs.len(),
    }
}

/// Builds the call input for blob `index` of `tx`.
pub fn build_calldata(tx: &BlobTransaction, ctx: &TxContext, index: usize) -> (r: Calldata)
    ensures
        r@ == calldata_of(tx@, ctx@, index as nat),
{
    let blobs = copy_blobs(&tx.blobs);
    let count = blobs.len();
    Calldata {
        identity: tx.identity.clone(),
        tx_hash: tx.hash.copy(),
        private_input: Vec::new(),
        blobs,
        index,
        tx_ctx: ctx.copy(),
        tx_blob_count: count,
    }
}

/// A transaction as it appears in a block, with the lane it was sequenced on.
pub struct BlockTx {
    pub tx: BlobTransaction,
    pub lane_id: String,
}

/// An ordered batch of transactions plus settlement verdicts for transactions
/// observed earlier.
pub struct Block {
    pub block_height: u64,
    pub hash: String,
    pub block_timestamp: u128,
    pub txs: Vec<BlockTx>,
    pub successful_txs: Vec<TxHash>,
    pub timed_out_txs: Vec<TxHash>,
    pub failed_txs: Vec<TxHash>,
}

/// Local notifications of speculative outcomes of live transactions.
pub enum AppEvent {
    SequencedTx(TxHash),
    FailedTx(TxHash, String),
}

pub enum EventView {
    Sequenced(Seq<char>),
    /// The transaction and the reason its operation failed.
    Failed(Seq<char>, Seq<char>),
}

impl View for AppEvent {
    type V = EventView;

    open spec fn view(&self) -> EventView {
        match self {
            AppEvent::SequencedTx(h) => EventView::Sequenced(h@),
            AppEvent::FailedTx(h, r) => EventView::Failed(h@, r@),
        }
    }
}

pub open spec fn events_view(v: Seq<AppEvent>) -> Seq<EventView> {
    v.map_values(|e: AppEvent| e@)
}

pub open spec fn calls_view(v: Seq<Calldata>) -> Seq<CalldataView> {
    v.map_values(|c: Calldata| c@)
}

/// One proving request: the commitment metadata captured before the first
/// call input executed, and the call inputs in execution order.
pub struct ProofBatch {
    pub commitment_metadata: Vec<u8>,
    pub calldatas: Vec<Calldata>,
}

} // verus!
