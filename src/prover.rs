//! The settlement reconciliation engine: speculative execution of the
//! operations addressed to one contract, a history of snapshots to undo it,
//! and rollback with replay when the ledger reports a failure.

use crate::contract::{
    TxExecutorHandler, calls_of, entry_calls, lemma_entry_calls_append, lemma_replay_split,
    lemma_run_append, matching_indices, run,
};
use crate::types::{
    AppEvent, BlobTransaction, Block, BlockTx, CalldataView, Calldata, CtxView, EventView, ProofBatch,
    TxContext, TxHash, TxView, build_calldata, calldata_of, calls_view, events_view,
};
use vstd::prelude::*;

verus! {

/// What a block's proving request is made of, as it is being collected.
pub struct BatchView {
    pub metadata: Option<Seq<u8>>,
    pub calls: Seq<CalldataView>,
}

/// Accumulates the accepted call inputs of live transactions, together with
/// the commitment metadata captured before the first of them executed.
pub struct BatchBuilder {
    metadata: Option<Vec<u8>>,
    calldatas: Vec<Calldata>,
}

impl View for BatchBuilder {
    type V = BatchView;

    closed spec fn view(&self) -> BatchView {
        BatchView {
            metadata: match self.metadata {
                Some(m) => Some(m@),
                None => None,
            },
            calls: calls_view(self.calldatas@),
        }
    }
}

pub open spec fn empty_batch() -> BatchView {
    BatchView { metadata: None, calls: Seq::empty() }
}

/// The batch after executing `call` on `s`: accepted calls join it, and the
/// first one to join fixes the commitment metadata.
pub open spec fn batch_step<C: TxExecutorHandler>(b: BatchView, s: C::V, call: CalldataView) -> BatchView {
    if C::accepts(s, call) {
        if b.calls.len() == 0 {
            BatchView { metadata: C::metadata(s, call.blobs[call.index as int]), calls: seq![call] }
        } else {
            BatchView { metadata: b.metadata, calls: b.calls.push(call) }
        }
    } else {
        b
    }
}

/// The batch after executing `calls` in order from `s`.
pub open spec fn batch_trace<C: TxExecutorHandler>(
    b: BatchView,
    s: C::V,
    calls: Seq<CalldataView>,
) -> BatchView
    decreases calls.len(),
{
    if calls.len() == 0 {
        b
    } else {
        batch_step::<C>(
            batch_trace::<C>(b, s, calls.drop_last()),
            run::<C>(s, calls.drop_last()),
            calls.last(),
        )
    }
}

/// The notification for executing `call` on `s`.
pub open spec fn event_for<C: TxExecutorHandler>(s: C::V, call: CalldataView) -> EventView {
    if C::accepts(s, call) {
        EventView::Sequenced(call.tx_hash)
    } else {
        EventView::Failed(call.tx_hash, C::failure(s, call))
    }
}

/// The notifications for executing `calls` in order from `s`.
pub open spec fn event_trace<C: TxExecutorHandler>(s: C::V, calls: Seq<CalldataView>) -> Seq<
    EventView,
>
    decreases calls.len(),
{
    if calls.len() == 0 {
        Seq::empty()
    } else {
        event_trace::<C>(s, calls.drop_last()).push(
            event_for::<C>(run::<C>(s, calls.drop_last()), calls.last()),
        )
    }
}

impl BatchBuilder {
    pub fn new() -> (r: BatchBuilder)
        ensures
            r@ == empty_batch(),
    {
        let r = BatchBuilder { metadata: None, calldatas: Vec::new() };
        assert(calls_view(r.calldatas@) =~= Seq::<CalldataView>::empty());
        r
    }

    /// The proving request, when there is an accepted call input and the
    /// commitment metadata before the first of them could be built.
    pub fn finish(self) -> (r: Option<ProofBatch>)
        ensures
            r is Some <==> self@.calls.len() > 0 && self@.metadata is Some,
            r matches Some(p) ==> p.commitment_metadata@ == self@.metadata->Some_0
                && calls_view(p.calldatas@) == self@.calls,
    {
        if self.calldatas.len() == 0 {
            return None;
        }
        match self.metadata {
            Some(m) => Some(ProofBatch { commitment_metadata: m, calldatas: self.calldatas }),
            None => None,
        }
    }
}

/// Indices of the blobs of `tx` addressed to contract `name`, in order.
pub fn blob_indices(tx: &BlobTransaction, name: &String) -> (r: Vec<usize>)
    ensures
        r@.map_values(|i: usize| i as nat) == matching_indices(tx@.blobs, name@),
        forall|k: int| 0 <= k < r.len() ==> r[k] < tx.blobs.len(),
{
    let mut r: Vec<usize> = Vec::new();
    let mut i: usize = 0;
    while i < tx.blobs.len()
        invariant
            i <= tx.blobs.len(),
            r@.map_values(|i: usize| i as nat) == matching_indices(tx@.blobs.take(i as int), name@),
            forall|k: int| 0 <= k < r.len() ==> r[k] < i,
        decreases tx.blobs.len() - i,
    {
        assert(tx@.blobs.take(i + 1).drop_last() =~= tx@.blobs.take(i as int));
        assert(tx@.blobs[i as int] == tx.blobs[i as int]@);
        if tx.blobs[i].contract_name == *name {
            assert(r@.push(i).map_values(|i: usize| i as nat) =~= r@.map_values(
                |i: usize| i as nat,
            ).push(i as nat));
            r.push(i);
        }
        i = i + 1;
    }
    assert(tx@.blobs.take(tx.blobs.len() as int) =~= tx@.blobs);
    r
}

/// Executes the operations at `indices` of `tx` on `contract`, in order. For a
/// live transaction each outcome is reported in `events` and accepted call
/// inputs join `batch`; a historical one only advances the state.
fn execute_tx<C: TxExecutorHandler>(
    contract: &mut C,
    tx: &BlobTransaction,
    ctx: &TxContext,
    indices: &Vec<usize>,
    name: Ghost<Seq<char>>,
    live: bool,
    events: &mut Vec<AppEvent>,
    batch: &mut BatchBuilder,
)
    requires
        indices@.map_values(|i: usize| i as nat) == matching_indices(tx@.blobs, name@),
        forall|k: int| 0 <= k < indices.len() ==> indices[k] < tx.blobs.len(),
    ensures
        final(contract)@ == run::<C>(old(contract)@, calls_of(tx@, ctx@, name@)),
        live ==> events_view(final(events)@) == events_view(old(events)@) + event_trace::<C>(
            old(contract)@,
            calls_of(tx@, ctx@, name@),
        ),
        !live ==> final(events)@ == old(events)@,
        live ==> final(batch)@ == batch_trace::<C>(
            old(batch)@,
            old(contract)@,
            calls_of(tx@, ctx@, name@),
        ),
        !live ==> final(batch)@ == old(batch)@,
{
    let ghost calls = calls_of(tx@, ctx@, name@);
    let ghost s0 = contract@;
    let ghost e0 = events_view(events@);
    let ghost b0 = batch@;
    assert(calls.len() == indices.len());
    let mut k: usize = 0;
    while k < indices.len()
        invariant
            k <= indices.len(),
            calls == calls_of(tx@, ctx@, name@),
            calls.len() == indices.len(),
            indices@.map_values(|i: usize| i as nat) == matching_indices(tx@.blobs, name@),
            forall|j: int| 0 <= j < indices.len() ==> indices[j] < tx.blobs.len(),
            contract@ == run::<C>(s0, calls.take(k as int)),
            live ==> events_view(events@) == e0 + event_trace::<C>(s0, calls.take(k as int)),
            !live ==> events@ == old(events)@,
            live ==> batch@ == batch_trace::<C>(b0, s0, calls.take(k as int)),
            !live ==> batch@ == old(batch)@,
        decreases indices.len() - k,
    {
        let idx = indices[k];
        let calldata = build_calldata(tx, ctx, idx);
        proof {
            assert(calls.take(k + 1).drop_last() =~= calls.take(k as int));
            assert(calls.take(k + 1).last() == calls[k as int]);
            assert(indices@.map_values(|i: usize| i as nat)[k as int] == idx as nat);
            assert(calls[k as int] == calldata@);
        }
        let ghost before = contract@;
        let mut meta: Option<Vec<u8>> = None;
        if live && batch.calldatas.len() == 0 {
            match contract.build_commitment_metadata(&tx.blobs[idx]) {
                Ok(m) => {
                    meta = Some(m);
                },
                Err(_) => {},
            }
        }
        let outcome = contract.handle(&calldata);
        if live {
            match outcome {
                Ok(_) => {
                    proof {
                        assert(calldata@.blobs[calldata@.index as int] == tx.blobs[idx as int]@);
                    }
                    let h = tx.hash.copy();
                    proof {
                        assert(events_view(events@.push(AppEvent::SequencedTx(h)))
                            =~= events_view(events@).push(EventView::Sequenced(tx@.hash)));
                    }
                    events.push(AppEvent::SequencedTx(h));
                    if batch.calldatas.len() == 0 {
                        batch.metadata = meta;
                        proof {
                            assert(calls_view(seq![calldata]) =~= seq![calldata@]);
                        }
                        batch.calldatas = vec![calldata];
                        proof {
                            assert(calls_view(batch.calldatas@) =~= seq![calldata@]);
                        }
                    } else {
                        proof {
                            assert(calls_view(batch.calldatas@.push(calldata)) =~= calls_view(
                                batch.calldatas@,
                            ).push(calldata@));
                        }
                        batch.calldatas.push(calldata);
                    }
                },
                Err(e) => {
                    let h = tx.hash.copy();
                    proof {
                        assert(events_view(events@.push(AppEvent::FailedTx(h, e)))
                            =~= events_view(events@).push(EventView::Failed(tx@.hash, e@)));
                    }
                    events.push(AppEvent::FailedTx(h, e));
                },
            }
        }
        k = k + 1;
    }
    assert(calls.take(indices.len() as int) =~= calls);
}

/// The notifications of executing the operations of `entries` in order from
/// `s`; historical entries (below height `start`) report nothing.
pub open spec fn entries_events<C: TxExecutorHandler>(
    s: C::V,
    entries: Seq<(TxView, CtxView)>,
    name: Seq<char>,
    start: nat,
) -> Seq<EventView>
    decreases entries.len(),
{
    if entries.len() == 0 {
        Seq::empty()
    } else {
        let prev = entries.drop_last();
        let e = entries.last();
        entries_events::<C>(s, prev, name, start) + if e.1.block_height >= start {
            event_trace::<C>(run::<C>(s, entry_calls(prev, name)), calls_of(e.0, e.1, name))
        } else {
            Seq::empty()
        }
    }
}

/// The batch after executing the operations of `entries` in order from `s`;
/// historical entries (below height `start`) add nothing.
pub open spec fn entries_batch<C: TxExecutorHandler>(
    b: BatchView,
    s: C::V,
    entries: Seq<(TxView, CtxView)>,
    name: Seq<char>,
    start: nat,
) -> BatchView
    decreases entries.len(),
{
    if entries.len() == 0 {
        b
    } else {
        let prev = entries.drop_last();
        let e = entries.last();
        if e.1.block_height >= start {
            batch_trace::<C>(
                entries_batch::<C>(b, s, prev, name, start),
                run::<C>(s, entry_calls(prev, name)),
                calls_of(e.0, e.1, name),
            )
        } else {
            entries_batch::<C>(b, s, prev, name, start)
        }
    }
}

/// Whether the transaction with identifier `h` is among `entries`.
pub open spec fn holds_tx(entries: Seq<(TxView, CtxView)>, h: Seq<char>) -> bool {
    exists|i: int| 0 <= i < entries.len() && entries[i].0.hash == h
}

/// Every call input in `b` belongs to a transaction at height `start` or above.
pub open spec fn all_live(b: BatchView, start: nat) -> bool {
    forall|i: int| 0 <= i < b.calls.len() ==> #[trigger] b.calls[i].tx_ctx.block_height >= start
}

/// Every call input of every request in `v` belongs to a transaction at
/// height `start` or above.
pub open spec fn batches_live(v: Seq<ProofBatch>, start: nat) -> bool {
    forall|i: int, j: int|
        0 <= i < v.len() && 0 <= j < v[i].calldatas.len() ==> #[trigger] v[i].calldatas[j].tx_ctx.block_height
            >= start
}

proof fn lemma_calls_of_live(tx: TxView, ctx: CtxView, name: Seq<char>, start: nat)
    requires
        ctx.block_height >= start,
    ensures
        forall|i: int|
            0 <= i < calls_of(tx, ctx, name).len() ==> #[trigger] calls_of(tx, ctx, name)[i].tx_ctx
                == ctx,
{
}

proof fn lemma_batch_trace_live<C: TxExecutorHandler>(
    b: BatchView,
    s: C::V,
    calls: Seq<CalldataView>,
    start: nat,
)
    requires
        all_live(b, start),
        forall|i: int| 0 <= i < calls.len() ==> #[trigger] calls[i].tx_ctx.block_height >= start,
    ensures
        all_live(batch_trace::<C>(b, s, calls), start),
    decreases calls.len(),
{
    if calls.len() > 0 {
        lemma_batch_trace_live::<C>(b, s, calls.drop_last(), start);
        assert(calls.last().tx_ctx.block_height >= start);
        let p = batch_trace::<C>(b, s, calls.drop_last());
        let q = batch_step::<C>(p, run::<C>(s, calls.drop_last()), calls.last());
        assert forall|i: int| 0 <= i < q.calls.len() implies #[trigger] q.calls[i].tx_ctx.block_height
            >= start by {
            if i < p.calls.len() {
                assert(p.calls[i].tx_ctx.block_height >= start);
            }
        }
    }
}

proof fn lemma_entries_batch_live<C: TxExecutorHandler>(
    b: BatchView,
    s: C::V,
    entries: Seq<(TxView, CtxView)>,
    name: Seq<char>,
    start: nat,
)
    requires
        all_live(b, start),
    ensures
        all_live(entries_batch::<C>(b, s, entries, name, start), start),
    decreases entries.len(),
{
    if entries.len() > 0 {
        let prev = entries.drop_last();
        let e = entries.last();
        lemma_entries_batch_live::<C>(b, s, prev, name, start);
        if e.1.block_height >= start {
            lemma_calls_of_live(e.0, e.1, name, start);
            lemma_batch_trace_live::<C>(
                entries_batch::<C>(b, s, prev, name, start),
                run::<C>(s, entry_calls(prev, name)),
                calls_of(e.0, e.1, name),
                start,
            );
        }
    }
}

proof fn lemma_failed_batch_live<C: TxExecutorHandler>(
    u: Seq<(TxView, CtxView)>,
    s: C::V,
    h: Seq<char>,
    name: Seq<char>,
    start: nat,
    b: BatchView,
)
    requires
        !holds_tx(u, h) ==> b == empty_batch(),
        forall|k: int|
            0 <= k < u.len() && u[k].0.hash == h ==> b == entries_batch::<C>(
                empty_batch(),
                run::<C>(s, entry_calls(u.take(k), name)),
                u.skip(k + 1),
                name,
                start,
            ),
    ensures
        all_live(b, start),
{
    if holds_tx(u, h) {
        let k = choose|k: int| 0 <= k < u.len() && u[k].0.hash == h;
        lemma_entries_batch_live::<C>(
            empty_batch(),
            run::<C>(s, entry_calls(u.take(k), name)),
            u.skip(k + 1),
            name,
            start,
        );
    }
}

/// Adds the proving request of `b` to `batches`, when it makes one.
fn push_batch(batches: &mut Vec<ProofBatch>, b: BatchBuilder, start: Ghost<nat>)
    requires
        batches_live(old(batches)@, start@),
        all_live(b@, start@),
    ensures
        batches_live(final(batches)@, start@),
        requests_view(final(batches)@) == requests_view(old(batches)@) + request_of(b@),
{
    let ghost bv = b@;
    match b.finish() {
        Some(p) => {
            proof {
                assert forall|j: int| 0 <= j < p.calldatas.len() implies #[trigger] p.calldatas[j].tx_ctx.block_height
                    >= start@ by {
                    assert(calls_view(p.calldatas@)[j] == p.calldatas[j]@);
                    assert(bv.calls[j].tx_ctx.block_height >= start@);
                }
            }
            let ghost before = batches@;
            batches.push(p);
            proof {
                assert(requests_view(batches@) =~= requests_view(before) + request_of(bv));
                assert forall|i: int, j: int|
                    0 <= i < batches@.len() && 0 <= j < batches@[i].calldatas.len() implies #[trigger] batches@[i].calldatas[j].tx_ctx.block_height
                    >= start@ by {
                    if i < before.len() {
                        assert(batches@[i] == before[i]);
                    }
                }
            }
        },
        None => {
            assert(requests_view(batches@) =~= requests_view(batches@) + request_of(bv));
        },
    }
}

/// The engine's bookkeeping: the unsettled entries in observation order, the
/// settled base state and the call inputs settled so far.
pub struct LedgerView<V> {
    pub unsettled: Seq<(TxView, CtxView)>,
    pub settled: V,
    pub settled_calls: Seq<CalldataView>,
}

/// Unsettled entries after observing `tx` in `ctx`: it joins when it is new
/// and carries an operation for contract `name`.
pub open spec fn after_tx(
    u: Seq<(TxView, CtxView)>,
    tx: TxView,
    ctx: CtxView,
    name: Seq<char>,
) -> Seq<(TxView, CtxView)> {
    if !holds_tx(u, tx.hash) && calls_of(tx, ctx, name).len() > 0 {
        u.push((tx, ctx))
    } else {
        u
    }
}

/// Unsettled entries after observing `txs` in order.
pub open spec fn after_txs(
    u: Seq<(TxView, CtxView)>,
    txs: Seq<(TxView, CtxView)>,
    name: Seq<char>,
) -> Seq<(TxView, CtxView)>
    decreases txs.len(),
{
    if txs.len() == 0 {
        u
    } else {
        after_tx(after_txs(u, txs.drop_last(), name), txs.last().0, txs.last().1, name)
    }
}

/// Position of transaction `h` among `u`, when it is there.
pub open spec fn tx_pos(u: Seq<(TxView, CtxView)>, h: Seq<char>) -> int {
    choose|k: int| 0 <= k < u.len() && u[k].0.hash == h
}

/// Bookkeeping after a success verdict for `h`: it and everything older is
/// settled.
pub open spec fn after_success<C: TxExecutorHandler>(
    e: LedgerView<C::V>,
    h: Seq<char>,
    name: Seq<char>,
) -> LedgerView<C::V> {
    if holds_tx(e.unsettled, h) {
        let k = tx_pos(e.unsettled, h);
        LedgerView {
            unsettled: e.unsettled.skip(k + 1),
            settled: run::<C>(e.settled, entry_calls(e.unsettled.take(k + 1), name)),
            settled_calls: e.settled_calls + entry_calls(e.unsettled.take(k + 1), name),
        }
    } else {
        e
    }
}

/// Bookkeeping after success verdicts for `hs`, in order.
pub open spec fn after_successes<C: TxExecutorHandler>(
    e: LedgerView<C::V>,
    hs: Seq<Seq<char>>,
    name: Seq<char>,
) -> LedgerView<C::V>
    decreases hs.len(),
{
    if hs.len() == 0 {
        e
    } else {
        after_success::<C>(after_successes::<C>(e, hs.drop_last(), name), hs.last(), name)
    }
}

/// Unsettled entries after a failure or timeout verdict for `h`.
pub open spec fn after_failure(u: Seq<(TxView, CtxView)>, h: Seq<char>) -> Seq<(TxView, CtxView)> {
    if holds_tx(u, h) {
        u.remove(tx_pos(u, h))
    } else {
        u
    }
}

/// Unsettled entries after failure or timeout verdicts for `hs`, in order.
pub open spec fn after_failures(u: Seq<(TxView, CtxView)>, hs: Seq<Seq<char>>) -> Seq<
    (TxView, CtxView),
>
    decreases hs.len(),
{
    if hs.len() == 0 {
        u
    } else {
        after_failure(after_failures(u, hs.drop_last()), hs.last())
    }
}

/// The transactions of `block` with the context each is sequenced in.
pub open spec fn block_entries(block: &Block, chain: nat) -> Seq<(TxView, CtxView)> {
    block.txs@.map_values(
        |t: BlockTx|
            (
                t.tx@,
                CtxView {
                    block_height: block.block_height as nat,
                    block_hash: block.hash@,
                    timestamp: block.block_timestamp as nat,
                    lane_id: t.lane_id@,
                    chain_id: chain,
                },
            ),
    )
}

pub open spec fn hashes_view(v: Seq<TxHash>) -> Seq<Seq<char>> {
    v.map_values(|h: TxHash| h@)
}

/// Bookkeeping after a block: its transactions are observed, then success
/// verdicts, failures and timeouts are applied, in that order.
pub open spec fn block_effect<C: TxExecutorHandler>(
    e: LedgerView<C::V>,
    block: &Block,
    chain: nat,
    name: Seq<char>,
) -> LedgerView<C::V> {
    let e1 = LedgerView {
        unsettled: after_txs(e.unsettled, block_entries(block, chain), name),
        settled: e.settled,
        settled_calls: e.settled_calls,
    };
    let e2 = after_successes::<C>(e1, hashes_view(block.successful_txs@), name);
    LedgerView {
        unsettled: after_failures(
            after_failures(e2.unsettled, hashes_view(block.failed_txs@)),
            hashes_view(block.timed_out_txs@),
        ),
        settled: e2.settled,
        settled_calls: e2.settled_calls,
    }
}

/// The entries of `txs` that join the unsettled entries `u`, in order: those
/// not seen before that carry an operation for contract `name`.
pub open spec fn joined(
    u: Seq<(TxView, CtxView)>,
    txs: Seq<(TxView, CtxView)>,
    name: Seq<char>,
) -> Seq<(TxView, CtxView)>
    decreases txs.len(),
{
    if txs.len() == 0 {
        Seq::empty()
    } else {
        let j = joined(u, txs.drop_last(), name);
        let e = txs.last();
        if !holds_tx(u + j, e.0.hash) && calls_of(e.0, e.1, name).len() > 0 {
            j.push(e)
        } else {
            j
        }
    }
}

/// Observing transactions appends exactly the joining ones.
pub proof fn lemma_after_txs_joined(
    u: Seq<(TxView, CtxView)>,
    txs: Seq<(TxView, CtxView)>,
    name: Seq<char>,
)
    ensures
        after_txs(u, txs, name) == u + joined(u, txs, name),
    decreases txs.len(),
{
    if txs.len() == 0 {
        assert(u + Seq::<(TxView, CtxView)>::empty() =~= u);
    } else {
        lemma_after_txs_joined(u, txs.drop_last(), name);
        let j = joined(u, txs.drop_last(), name);
        assert((u + j).push(txs.last()) =~= u + j.push(txs.last()));
    }
}

/// The notifications of the replay after a failure or timeout verdict for
/// `h`, on unsettled entries `u` over settled state `s`.
pub open spec fn failure_events<C: TxExecutorHandler>(
    s: C::V,
    u: Seq<(TxView, CtxView)>,
    h: Seq<char>,
    name: Seq<char>,
    start: nat,
) -> Seq<EventView> {
    if holds_tx(u, h) {
        let k = tx_pos(u, h);
        entries_events::<C>(run::<C>(s, entry_calls(u.take(k), name)), u.skip(k + 1), name, start)
    } else {
        Seq::empty()
    }
}

/// The batch of the replay after a failure or timeout verdict for `h`.
pub open spec fn failure_batch<C: TxExecutorHandler>(
    s: C::V,
    u: Seq<(TxView, CtxView)>,
    h: Seq<char>,
    name: Seq<char>,
    start: nat,
) -> BatchView {
    if holds_tx(u, h) {
        let k = tx_pos(u, h);
        entries_batch::<C>(
            empty_batch(),
            run::<C>(s, entry_calls(u.take(k), name)),
            u.skip(k + 1),
            name,
            start,
        )
    } else {
        empty_batch()
    }
}

/// The notifications of the replays after failure or timeout verdicts for
/// `hs`, in order.
pub open spec fn failures_events<C: TxExecutorHandler>(
    s: C::V,
    u: Seq<(TxView, CtxView)>,
    hs: Seq<Seq<char>>,
    name: Seq<char>,
    start: nat,
) -> Seq<EventView>
    decreases hs.len(),
{
    if hs.len() == 0 {
        Seq::empty()
    } else {
        failures_events::<C>(s, u, hs.drop_last(), name, start) + failure_events::<C>(
            s,
            after_failures(u, hs.drop_last()),
            hs.last(),
            name,
            start,
        )
    }
}

/// The batches of the replays after failure or timeout verdicts for `hs`.
pub open spec fn failures_batches<C: TxExecutorHandler>(
    s: C::V,
    u: Seq<(TxView, CtxView)>,
    hs: Seq<Seq<char>>,
    name: Seq<char>,
    start: nat,
) -> Seq<BatchView>
    decreases hs.len(),
{
    if hs.len() == 0 {
        Seq::empty()
    } else {
        failures_batches::<C>(s, u, hs.drop_last(), name, start).push(
            failure_batch::<C>(s, after_failures(u, hs.drop_last()), hs.last(), name, start),
        )
    }
}

/// The proving request a batch makes: its metadata and call inputs, when it
/// has an accepted call input and its metadata could be built.
pub open spec fn request_of(b: BatchView) -> Seq<(Seq<u8>, Seq<CalldataView>)> {
    if b.calls.len() > 0 && b.metadata is Some {
        seq![(b.metadata->Some_0, b.calls)]
    } else {
        Seq::empty()
    }
}

/// The proving requests of `bs`, in order.
pub open spec fn requests(bs: Seq<BatchView>) -> Seq<(Seq<u8>, Seq<CalldataView>)>
    decreases bs.len(),
{
    if bs.len() == 0 {
        Seq::empty()
    } else {
        requests(bs.drop_last()) + request_of(bs.last())
    }
}

pub open spec fn requests_view(v: Seq<ProofBatch>) -> Seq<(Seq<u8>, Seq<CalldataView>)> {
    v.map_values(|p: ProofBatch| (p.commitment_metadata@, calls_view(p.calldatas@)))
}

/// The notifications of a block, from bookkeeping `e` and replica state
/// `replica`: those of its joining transactions, then those of the replay
/// after each failure, then after each timeout.
pub open spec fn block_events<C: TxExecutorHandler>(
    e: LedgerView<C::V>,
    replica: C::V,
    block: &Block,
    chain: nat,
    name: Seq<char>,
    start: nat,
) -> Seq<EventView> {
    let ents = block_entries(block, chain);
    let e1 = LedgerView {
        unsettled: after_txs(e.unsettled, ents, name),
        settled: e.settled,
        settled_calls: e.settled_calls,
    };
    let e2 = after_successes::<C>(e1, hashes_view(block.successful_txs@), name);
    let fail = hashes_view(block.failed_txs@);
    entries_events::<C>(replica, joined(e.unsettled, ents, name), name, start)
        + failures_events::<C>(e2.settled, e2.unsettled, fail, name, start)
        + failures_events::<C>(
        e2.settled,
        after_failures(e2.unsettled, fail),
        hashes_view(block.timed_out_txs@),
        name,
        start,
    )
}

/// The batches of a block: one for its joining transactions, then one per
/// failure, then one per timeout.
pub open spec fn block_batches<C: TxExecutorHandler>(
    e: LedgerView<C::V>,
    replica: C::V,
    block: &Block,
    chain: nat,
    name: Seq<char>,
    start: nat,
) -> Seq<BatchView> {
    let ents = block_entries(block, chain);
    let e1 = LedgerView {
        unsettled: after_txs(e.unsettled, ents, name),
        settled: e.settled,
        settled_calls: e.settled_calls,
    };
    let e2 = after_successes::<C>(e1, hashes_view(block.successful_txs@), name);
    let fail = hashes_view(block.failed_txs@);
    seq![entries_batch::<C>(empty_batch(), replica, joined(e.unsettled, ents, name), name, start)]
        + failures_batches::<C>(e2.settled, e2.unsettled, fail, name, start)
        + failures_batches::<C>(
        e2.settled,
        after_failures(e2.unsettled, fail),
        hashes_view(block.timed_out_txs@),
        name,
        start,
    )
}

/// The reconciliation engine for one contract.
pub struct ProverModule<C: TxExecutorHandler> {
    contract_name: String,
    start_height: u64,
    chain_id: u128,
    unsettled_txs: Vec<(BlobTransaction, TxContext)>,
    state_history: Vec<(TxHash, C)>,
    settled: C,
    contract: C,
    origin: Ghost<C::V>,
    settled_calls: Ghost<Seq<CalldataView>>,
}

/// Everything a block produced: notifications and proving requests.
pub struct BlockOutput {
    pub events: Vec<AppEvent>,
    pub batches: Vec<ProofBatch>,
}

impl<C: TxExecutorHandler> ProverModule<C> {
    /// The unsettled transactions with their contexts, in observation order.
    pub closed spec fn unsettled(&self) -> Seq<(TxView, CtxView)> {
        self.unsettled_txs@.map_values(|e: (BlobTransaction, TxContext)| (e.0@, e.1@))
    }

    /// The state history: each unsettled transaction with the state after it.
    pub closed spec fn history(&self) -> Seq<(Seq<char>, C::V)> {
        self.state_history@.map_values(|e: (TxHash, C)| (e.0@, e.1@))
    }

    /// The replica's current state.
    pub closed spec fn replica(&self) -> C::V {
        self.contract@
    }

    /// The state after every transaction settled so far: the base that a
    /// rollback of the oldest unsettled transaction returns to.
    pub closed spec fn settled_state(&self) -> C::V {
        self.settled@
    }

    /// The state the engine started from.
    pub closed spec fn origin(&self) -> C::V {
        self.origin@
    }

    /// The call inputs of the transactions settled successfully, in order.
    pub closed spec fn settled_calls(&self) -> Seq<CalldataView> {
        self.settled_calls@
    }

    /// The bookkeeping the replica is derived from.
    pub open spec fn ledger(&self) -> LedgerView<C::V> {
        LedgerView {
            unsettled: self.unsettled(),
            settled: self.settled_state(),
            settled_calls: self.settled_calls(),
        }
    }

    pub closed spec fn name(&self) -> Seq<char> {
        self.contract_name@
    }

    pub closed spec fn start(&self) -> nat {
        self.start_height as nat
    }

    pub closed spec fn chain(&self) -> nat {
        self.chain_id as nat
    }

    pub closed spec fn wf(&self) -> bool {
        let u = self.unsettled();
        let h = self.history();
        &&& h.len() == u.len()
        &&& forall|i: int| 0 <= i < u.len() ==> #[trigger] h[i].0 == u[i].0.hash
        &&& forall|i: int, j: int|
            0 <= i < u.len() && 0 <= j < u.len() && i != j ==> u[i].0.hash != u[j].0.hash
        &&& forall|i: int|
            0 <= i < u.len() ==> #[trigger] h[i].1 == run::<C>(
                self.settled@,
                entry_calls(u.take(i + 1), self.contract_name@),
            )
        &&& self.contract@ == run::<C>(self.settled@, entry_calls(u, self.contract_name@))
        &&& self.settled@ == run::<C>(self.origin@, self.settled_calls@)
    }

    /// An engine for contract `contract_name` whose replica starts at
    /// `contract`; transactions below `start_height` are historical.
    pub fn new(contract_name: String, start_height: u64, chain_id: u128, contract: C) -> (r: Self)
        ensures
            r.wf(),
            r.unsettled() == Seq::<(TxView, CtxView)>::empty(),
            r.history() == Seq::<(Seq<char>, C::V)>::empty(),
            r.replica() == contract@,
            r.settled_state() == contract@,
            r.origin() == contract@,
            r.settled_calls() == Seq::<CalldataView>::empty(),
            r.name() == contract_name@,
            r.start() == start_height as nat,
            r.chain() == chain_id as nat,
    {
        let settled = contract.snapshot();
        let ghost origin = contract@;
        let r = ProverModule {
            contract_name,
            start_height,
            chain_id,
            unsettled_txs: Vec::new(),
            state_history: Vec::new(),
            settled,
            contract,
            origin: Ghost(origin),
            settled_calls: Ghost(Seq::empty()),
        };
        proof {
            assert(r.unsettled() =~= Seq::<(TxView, CtxView)>::empty());
            assert(r.history() =~= Seq::<(Seq<char>, C::V)>::empty());
        }
        r
    }

    /// The replica's current state.
    pub fn state(&self) -> (r: &C)
        ensures
            r@ == self.replica(),
    {
        &self.contract
    }

    /// Number of transactions awaiting a verdict.
    pub fn unsettled_len(&self) -> (r: usize)
        ensures
            r == self.unsettled().len(),
    {
        self.unsettled_txs.len()
    }

    /// Number of snapshots in the state history.
    pub fn history_len(&self) -> (r: usize)
        ensures
            r == self.history().len(),
    {
        self.state_history.len()
    }

    /// Identifier of the unsettled transaction at position `i`.
    pub fn unsettled_hash(&self, i: usize) -> (r: TxHash)
        requires
            i < self.unsettled().len(),
        ensures
            r@ == self.unsettled()[i as int].0.hash,
    {
        self.unsettled_txs[i].0.hash.copy()
    }

    /// Identifier of the history entry at position `i`.
    pub fn history_hash(&self, i: usize) -> (r: TxHash)
        requires
            i < self.history().len(),
        ensures
            r@ == self.history()[i as int].0,
    {
        self.state_history[i].0.copy()
    }

    /// Extraction and speculative execution of one transaction of a block. A
    /// transaction not seen before that carries operations for this contract
    /// joins the unsettled ledger, its operations run in order, and the state
    /// after them is recorded in the history. Returns whether it joined.
    pub fn handle_blob(
        &mut self,
        tx: BlobTransaction,
        ctx: TxContext,
        events: &mut Vec<AppEvent>,
        batch: &mut BatchBuilder,
    ) -> (r: bool)
        requires
            old(self).wf(),
        ensures
            final(self).wf(),
            final(self).name() == old(self).name(),
            final(self).start() == old(self).start(),
            final(self).chain() == old(self).chain(),
            final(self).origin() == old(self).origin(),
            final(self).settled_state() == old(self).settled_state(),
            final(self).settled_calls() == old(self).settled_calls(),
            r == (!holds_tx(old(self).unsettled(), tx@.hash) && calls_of(
                tx@,
                ctx@,
                old(self).name(),
            ).len() > 0),
            r ==> final(self).unsettled() == old(self).unsettled().push((tx@, ctx@)),
            r ==> final(self).replica() == run::<C>(
                old(self).replica(),
                calls_of(tx@, ctx@, old(self).name()),
            ),
            !r ==> final(self).unsettled() == old(self).unsettled() && final(self).replica() == old(
                self,
            ).replica() && final(self).history() == old(self).history(),
            (!r || ctx@.block_height < old(self).start()) ==> final(events)@ == old(events)@
                && final(batch)@ == old(batch)@,
            r && ctx@.block_height >= old(self).start() ==> events_view(final(events)@)
                == events_view(old(events)@) + event_trace::<C>(
                old(self).replica(),
                calls_of(tx@, ctx@, old(self).name()),
            ),
            r && ctx@.block_height >= old(self).start() ==> final(batch)@ == batch_trace::<C>(
                old(batch)@,
                old(self).replica(),
                calls_of(tx@, ctx@, old(self).name()),
            ),
    {
        if self.position(&tx.hash).is_some() {
            return false;
        }
        let indices = blob_indices(&tx, &self.contract_name);
        let ghost name = self.contract_name@;
        assert(calls_of(tx@, ctx@, name).len() == indices.len());
        if indices.len() == 0 {
            return false;
        }
        let ghost u = self.unsettled();
        let ghost h0 = self.history();
        let live = ctx.block_height >= self.start_height;
        execute_tx(&mut self.contract, &tx, &ctx, &indices, Ghost(name), live, events, batch);
        let snap = self.contract.snapshot();
        let hash = tx.hash.copy();
        self.state_history.push((hash, snap));
        self.unsettled_txs.push((tx, ctx));
        proof {
            let e = (tx@, ctx@);
            let u2 = self.unsettled();
            assert(u2 =~= u.push(e));
            assert(self.history() =~= h0.push((tx@.hash, self.contract@)));
            assert(u2.drop_last() =~= u);
            assert(entry_calls(u2, name) == entry_calls(u, name) + calls_of(tx@, ctx@, name));
            lemma_run_append::<C>(self.settled@, entry_calls(u, name), calls_of(tx@, ctx@, name));
            assert forall|i: int| 0 <= i < u2.len() implies #[trigger] self.history()[i].1 == run::<C>(
                self.settled@,
                entry_calls(u2.take(i + 1), name),
            ) by {
                if i < u.len() {
                    assert(u2.take(i + 1) =~= u.take(i + 1));
                } else {
                    assert(u2.take(i + 1) =~= u2);
                }
            }
            assert forall|i: int, j: int|
                0 <= i < u2.len() && 0 <= j < u2.len() && i != j implies u2[i].0.hash
                != u2[j].0.hash by {
                if i < u.len() && j < u.len() {
                } else if i < u.len() {
                    assert(!holds_tx(u, tx@.hash));
                    assert(u[i].0.hash != tx@.hash);
                } else {
                    assert(!holds_tx(u, tx@.hash));
                    assert(u[j].0.hash != tx@.hash);
                }
            }
        }
        true
    }

    /// Settles transaction `h` as successful. It and every older unsettled
    /// transaction are final: the state after it becomes the settled base, and
    /// their entries leave the ledger and the history. A verdict for a
    /// transaction that is not in the ledger changes nothing.
    pub fn settle_tx_success(&mut self, h: &TxHash)
        requires
            old(self).wf(),
        ensures
            final(self).wf(),
            final(self).name() == old(self).name(),
            final(self).start() == old(self).start(),
            final(self).chain() == old(self).chain(),
            final(self).origin() == old(self).origin(),
            final(self).replica() == old(self).replica(),
            !holds_tx(final(self).unsettled(), h@),
            forall|x: Seq<char>|
                #[trigger] holds_tx(final(self).unsettled(), x) ==> holds_tx(old(self).unsettled(), x),
            !holds_tx(old(self).unsettled(), h@) ==> final(self).unsettled() == old(self).unsettled()
                && final(self).history() == old(self).history() && final(self).settled_state()
                == old(self).settled_state() && final(self).settled_calls() == old(
                self,
            ).settled_calls(),
            forall|k: int|
                0 <= k < old(self).unsettled().len() && (#[trigger] old(self).unsettled()[k]).0.hash
                    == h@ ==> final(self).unsettled() == old(self).unsettled().skip(k + 1)
                    && final(self).settled_calls() == old(self).settled_calls() + entry_calls(
                    old(self).unsettled().take(k + 1),
                    old(self).name(),
                ) && final(self).settled_state() == run::<C>(
                    old(self).settled_state(),
                    entry_calls(old(self).unsettled().take(k + 1), old(self).name()),
                ),
    {
        match self.position(h) {
            None => {},
            Some(k) => {
                let ghost u = self.unsettled();
                let ghost hist = self.history();
                let ghost name = self.contract_name@;
                let ghost s0 = self.settled@;
                let ghost e = entry_calls(u.take(k + 1), name);
                assert(self.unsettled_txs.len() == u.len());
                assert(hist[k as int].1 == run::<C>(s0, e));
                let mut rest = self.state_history.split_off(k);
                assert(rest@[0]@ == hist[k as int]);
                let (_, st) = rest.remove(0);
                self.settled = st;
                self.state_history = rest;
                let rest_u = self.unsettled_txs.split_off(k + 1);
                self.unsettled_txs = rest_u;
                self.settled_calls = Ghost(self.settled_calls@ + e);
                proof {
                    let u2 = self.unsettled();
                    assert(u2 =~= u.skip(k + 1));
                    assert(self.history() =~= hist.skip(k + 1));
                    lemma_run_append::<C>(self.origin@, old(self).settled_calls@, e);
                    lemma_replay_split::<C>(s0, u, k + 1, name);
                    assert forall|i: int| 0 <= i < u2.len() implies #[trigger] self.history()[i].1
                        == run::<C>(self.settled@, entry_calls(u2.take(i + 1), name)) by {
                        assert(self.history()[i] == hist[i + k + 1]);
                        assert(hist[i + k + 1].1 == run::<C>(
                            s0,
                            entry_calls(u.take(i + k + 1 + 1), name),
                        ));
                        assert(i + k + 1 + 1 == i + k + 2);
                        lemma_replay_split::<C>(s0, u.take(i + k + 2), k + 1, name);
                        assert(u.take(i + k + 2).take(k + 1) =~= u.take(k + 1));
                        assert(u.take(i + k + 2).skip(k + 1) =~= u2.take(i + 1));
                    }
                    assert forall|i: int| 0 <= i < u2.len() implies u2[i].0.hash != h@ by {
                        assert(u2[i] == u[i + k + 1]);
                    }
                    assert forall|x: Seq<char>| #[trigger] holds_tx(u2, x) implies holds_tx(u, x) by {
                        let i = choose|i: int| 0 <= i < u2.len() && u2[i].0.hash == x;
                        assert(u2[i] == u[i + k + 1]);
                    }
                    assert forall|j: int|
                        0 <= j < u.len() && u[j].0.hash == h@ implies j == k by {}
                }
            },
        }
    }

    /// Settles transaction `h` as failed or timed out. The replica returns to
    /// the state before it (the settled base when it is the oldest), its
    /// entries leave the ledger and the history, and every later unsettled
    /// transaction is executed again, in order, on that state: its history
    /// entry is replaced and its outcomes are reported anew. A verdict for a
    /// transaction that is not in the ledger changes nothing.
    pub fn settle_tx_failed(
        &mut self,
        h: &TxHash,
        events: &mut Vec<AppEvent>,
        batch: &mut BatchBuilder,
    )
        requires
            old(self).wf(),
        ensures
            final(self).wf(),
            final(self).name() == old(self).name(),
            final(self).start() == old(self).start(),
            final(self).chain() == old(self).chain(),
            final(self).origin() == old(self).origin(),
            final(self).settled_state() == old(self).settled_state(),
            final(self).settled_calls() == old(self).settled_calls(),
            !holds_tx(final(self).unsettled(), h@),
            forall|x: Seq<char>|
                #[trigger] holds_tx(final(self).unsettled(), x) ==> holds_tx(old(self).unsettled(), x),
            !holds_tx(old(self).unsettled(), h@) ==> final(self).unsettled() == old(self).unsettled()
                && final(self).history() == old(self).history() && final(self).replica() == old(
                self,
            ).replica() && final(events)@ == old(events)@ && final(batch)@ == old(batch)@,
            forall|k: int|
                0 <= k < old(self).unsettled().len() && (#[trigger] old(self).unsettled()[k]).0.hash
                    == h@ ==> final(self).unsettled() == old(self).unsettled().remove(k)
                    && final(self).replica() == run::<C>(
                    old(self).settled_state(),
                    entry_calls(old(self).unsettled().remove(k), old(self).name()),
                ) && final(self).replica() == run::<C>(
                    run::<C>(
                        old(self).settled_state(),
                        entry_calls(old(self).unsettled().take(k), old(self).name()),
                    ),
                    entry_calls(old(self).unsettled().skip(k + 1), old(self).name()),
                ) && events_view(final(events)@) == events_view(old(events)@) + entries_events::<C>(
                    run::<C>(
                        old(self).settled_state(),
                        entry_calls(old(self).unsettled().take(k), old(self).name()),
                    ),
                    old(self).unsettled().skip(k + 1),
                    old(self).name(),
                    old(self).start(),
                ) && final(batch)@ == entries_batch::<C>(
                    old(batch)@,
                    run::<C>(
                        old(self).settled_state(),
                        entry_calls(old(self).unsettled().take(k), old(self).name()),
                    ),
                    old(self).unsettled().skip(k + 1),
                    old(self).name(),
                    old(self).start(),
                ),
    {
        let k = match self.position(h) {
            None => {
                return ;
            },
            Some(k) => k,
        };
        let ghost u = self.unsettled();
        let ghost hist = self.history();
        let ghost name = self.contract_name@;
        let ghost start = self.start_height as nat;
        let ghost s0 = self.settled@;
        let ghost r0 = run::<C>(s0, entry_calls(u.take(k as int), name));
        let ghost e0 = events_view(events@);
        let ghost b0 = batch@;
        assert(self.unsettled_txs.len() == u.len());
        let restored = if k > 0 {
            assert(hist[k - 1].1 == run::<C>(s0, entry_calls(u.take(k - 1 + 1), name)));
            assert(self.state_history[k - 1].1@ == hist[k - 1].1);
            self.state_history[k - 1].1.snapshot()
        } else {
            assert(u.take(0) =~= Seq::<(TxView, CtxView)>::empty());
            self.settled.snapshot()
        };
        self.contract = restored;
        self.state_history.truncate(k);
        self.unsettled_txs.remove(k);
        let ghost u2 = self.unsettled();
        proof {
            assert(u2 =~= u.remove(k as int));
            assert(u2.take(k as int) =~= u.take(k as int));
            assert(u2.skip(k as int).take(0) =~= Seq::<(TxView, CtxView)>::empty());
            assert forall|i: int| 0 <= i < k implies #[trigger] self.history()[i].1 == run::<C>(
                s0,
                entry_calls(u2.take(i + 1), name),
            ) by {
                assert(self.history()[i] == hist[i]);
                assert(u2.take(i + 1) =~= u.take(i + 1));
            }
            assert forall|i: int| 0 <= i < k implies #[trigger] self.history()[i].0 == u2[i].0.hash by {
                assert(self.history()[i] == hist[i]);
            }
        }
        let mut j: usize = k;
        while j < self.unsettled_txs.len()
            invariant
                k <= j <= self.unsettled_txs.len(),
                self.unsettled() == u2,
                self.unsettled_txs.len() == u2.len(),
                u2.take(k as int) == u.take(k as int),
                r0 == run::<C>(s0, entry_calls(u.take(k as int), name)),
                self.contract_name@ == name,
                self.start_height as nat == start,
                self.settled@ == s0,
                self.origin == old(self).origin,
                self.settled_calls == old(self).settled_calls,
                self.chain_id == old(self).chain_id,
                self.history().len() == j,
                forall|i: int| 0 <= i < j ==> #[trigger] self.history()[i].0 == u2[i].0.hash,
                forall|i: int|
                    0 <= i < j ==> #[trigger] self.history()[i].1 == run::<C>(
                        s0,
                        entry_calls(u2.take(i + 1), name),
                    ),
                self.contract@ == run::<C>(s0, entry_calls(u2.take(j as int), name)),
                events_view(events@) == e0 + entries_events::<C>(
                    r0,
                    u2.skip(k as int).take(j - k),
                    name,
                    start,
                ),
                batch@ == entries_batch::<C>(b0, r0, u2.skip(k as int).take(j - k), name, start),
            decreases self.unsettled_txs.len() - j,
        {
            let ghost hist_j = self.history();
            let ghost x = u2.skip(k as int).take(j - k);
            let ghost c0 = self.contract@;
            let ghost ev = events_view(events@);
            let ghost bt = batch@;
            proof {
                assert(u2[j as int] == (self.unsettled_txs[j as int].0@, self.unsettled_txs[j as int].1@));
                lemma_replay_split::<C>(s0, u2.take(j as int), k as int, name);
                assert(u2.take(j as int).take(k as int) =~= u2.take(k as int));
                assert(u2.take(j as int).skip(k as int) =~= x);
            }
            let indices = blob_indices(&self.unsettled_txs[j].0, &self.contract_name);
            let live = self.unsettled_txs[j].1.block_height >= self.start_height;
            execute_tx(
                &mut self.contract,
                &self.unsettled_txs[j].0,
                &self.unsettled_txs[j].1,
                &indices,
                Ghost(name),
                live,
                events,
                batch,
            );
            let snap = self.contract.snapshot();
            let hash = self.unsettled_txs[j].0.hash.copy();
            self.state_history.push((hash, snap));
            proof {
                let e = u2[j as int];
                let x2 = u2.skip(k as int).take(j + 1 - k);
                assert(x2.drop_last() =~= x);
                assert(x2.last() == e);
                assert(u2.take(j + 1).drop_last() =~= u2.take(j as int));
                assert(entry_calls(u2.take(j + 1), name) == entry_calls(u2.take(j as int), name)
                    + calls_of(e.0, e.1, name));
                lemma_run_append::<C>(
                    s0,
                    entry_calls(u2.take(j as int), name),
                    calls_of(e.0, e.1, name),
                );
                assert(self.history() =~= hist_j.push((e.0.hash, self.contract@)));
                if live {
                    assert(events_view(events@) =~= ev + event_trace::<C>(c0, calls_of(e.0, e.1, name)));
                } else {
                    assert(events_view(events@) =~= ev + Seq::<EventView>::empty());
                }
            }
            j = j + 1;
        }
        proof {
            let u2 = self.unsettled();
            assert(u2.skip(k as int).take(j - k) =~= u.skip(k + 1));
            assert(u2.take(j as int) =~= u2);
            lemma_replay_split::<C>(s0, u2, k as int, name);
            assert(u2.skip(k as int) =~= u.skip(k + 1));
            assert forall|i: int, l: int|
                0 <= i < u2.len() && 0 <= l < u2.len() && i != l implies u2[i].0.hash
                != u2[l].0.hash by {
                let oi = if i < k { i } else { i + 1 };
                let ol = if l < k { l } else { l + 1 };
                assert(u2[i] == u[oi]);
                assert(u2[l] == u[ol]);
            }
            assert forall|i: int| 0 <= i < u2.len() implies u2[i].0.hash != h@ by {
                let oi = if i < k { i } else { i + 1 };
                assert(u2[i] == u[oi]);
            }
            assert forall|l: int| 0 <= l < u.len() && u[l].0.hash == h@ implies l == k by {}
            assert forall|x: Seq<char>| #[trigger] holds_tx(u2, x) implies holds_tx(u, x) by {
                let i = choose|i: int| 0 <= i < u2.len() && u2[i].0.hash == x;
                let oi = if i < k { i } else { i + 1 };
                assert(u2[i] == u[oi]);
            }
        }
    }

    /// Processes one block. Its transactions are extracted and executed in
    /// order, and their accepted live call inputs form one proving request;
    /// then success verdicts, failures and timeouts are reconciled, in that
    /// order, and the replay after each failure or timeout forms a proving
    /// request of its own. Afterwards no transaction named by a verdict is
    /// unsettled, and no proving request holds a call input of a historical
    /// transaction.
    pub fn handle_processed_block(&mut self, block: &Block) -> (out: BlockOutput)
        requires
            old(self).wf(),
        ensures
            final(self).wf(),
            final(self).name() == old(self).name(),
            final(self).start() == old(self).start(),
            final(self).chain() == old(self).chain(),
            final(self).origin() == old(self).origin(),
            final(self).ledger() == block_effect::<C>(
                old(self).ledger(),
                block,
                old(self).chain(),
                old(self).name(),
            ),
            events_view(out.events@) == block_events::<C>(
                old(self).ledger(),
                old(self).replica(),
                block,
                old(self).chain(),
                old(self).name(),
                old(self).start(),
            ),
            requests_view(out.batches@) == requests(
                block_batches::<C>(
                    old(self).ledger(),
                    old(self).replica(),
                    block,
                    old(self).chain(),
                    old(self).name(),
                    old(self).start(),
                ),
            ),
            forall|i: int|
                0 <= i < block.successful_txs.len() ==> !holds_tx(
                    final(self).unsettled(),
                    #[trigger] block.successful_txs[i]@,
                ),
            forall|i: int|
                0 <= i < block.timed_out_txs.len() ==> !holds_tx(
                    final(self).unsettled(),
                    #[trigger] block.timed_out_txs[i]@,
                ),
            forall|i: int|
                0 <= i < block.failed_txs.len() ==> !holds_tx(
                    final(self).unsettled(),
                    #[trigger] block.failed_txs[i]@,
                ),
            forall|i: int, j: int|
                0 <= i < out.batches.len() && 0 <= j < out.batches[i].calldatas.len()
                    ==> #[trigger] out.batches[i].calldatas[j].tx_ctx.block_height
                    >= old(self).start(),
    {
        let ghost start = self.start_height as nat;
        let ghost name = self.contract_name@;
        let ghost chain = self.chain_id as nat;
        let ghost ents = block_entries(block, chain);
        let ghost succ = hashes_view(block.successful_txs@);
        let ghost fail = hashes_view(block.failed_txs@);
        let ghost tout = hashes_view(block.timed_out_txs@);
        let ghost u0 = self.unsettled();
        let ghost r0 = self.contract@;
        proof {
            assert(ents.take(0) =~= Seq::<(TxView, CtxView)>::empty());
            assert(joined(u0, ents.take(0), name) =~= Seq::<(TxView, CtxView)>::empty());
        }
        let mut events: Vec<AppEvent> = Vec::new();
        let mut batches: Vec<ProofBatch> = Vec::new();
        let mut batch = BatchBuilder::new();
        let mut i: usize = 0;
        while i < block.txs.len()
            invariant
                self.wf(),
                self.contract_name@ == name,
                self.start_height as nat == start,
                self.chain_id == old(self).chain_id,
                self.origin == old(self).origin,
                batches.len() == 0,
                all_live(batch@, start),
                i <= block.txs.len(),
                ents == block_entries(block, chain),
                chain == self.chain_id as nat,
                self.unsettled() == after_txs(u0, ents.take(i as int), name),
                self.settled@ == old(self).settled@,
                self.settled_calls@ == old(self).settled_calls@,
                r0 == run::<C>(old(self).settled@, entry_calls(u0, name)),
                events_view(events@) == entries_events::<C>(
                    r0,
                    joined(u0, ents.take(i as int), name),
                    name,
                    start,
                ),
                batch@ == entries_batch::<C>(
                    empty_batch(),
                    r0,
                    joined(u0, ents.take(i as int), name),
                    name,
                    start,
                ),
            decreases block.txs.len() - i,
        {
            let ctx = TxContext {
                block_height: block.block_height,
                block_hash: block.hash.clone(),
                timestamp: block.block_timestamp,
                lane_id: block.txs[i].lane_id.clone(),
                chain_id: self.chain_id,
            };
            let tx = block.txs[i].tx.copy();
            let ghost b_before = batch@;
            let ghost st = self.contract@;
            let ghost tv = tx@;
            let ghost cv = ctx@;
            let ghost ub = self.unsettled();
            let ghost ev = events_view(events@);
            let ghost jn = joined(u0, ents.take(i as int), name);
            proof {
                lemma_after_txs_joined(u0, ents.take(i as int), name);
                lemma_entry_calls_append(u0, jn, name);
                lemma_run_append::<C>(old(self).settled@, entry_calls(u0, name), entry_calls(jn, name));
            }
            let joined = self.handle_blob(tx, ctx, &mut events, &mut batch);
            proof {
                let e = (tv, cv);
                assert(ub == u0 + jn);
                assert(st == run::<C>(r0, entry_calls(jn, name)));
                assert(jn.push(e).drop_last() =~= jn);
                assert(jn.push(e).last() == e);
                if !(cv.block_height >= start) {
                    assert(ev + Seq::<EventView>::empty() =~= ev);
                }
                assert(ents.take(i + 1).drop_last() =~= ents.take(i as int));
                assert(ents[i as int] == (tv, cv));
                assert(ents.take(i + 1).last() == ents[i as int]);
                assert(self.unsettled() == after_tx(ub, tv, cv, name));
                if joined && cv.block_height >= start {
                    lemma_calls_of_live(tv, cv, name, start);
                    lemma_batch_trace_live::<C>(b_before, st, calls_of(tv, cv, name), start);
                }
            }
            i = i + 1;
        }
        proof {
            assert(ents.take(block.txs.len() as int) =~= ents);
        }
        let ghost b0 = batch@;
        let ghost ev1 = events_view(events@);
        proof {
            assert(requests_view(batches@) =~= Seq::<(Seq<u8>, Seq<CalldataView>)>::empty());
        }
        push_batch(&mut batches, batch, Ghost(start));
        proof {
            assert(seq![b0].drop_last() =~= Seq::<BatchView>::empty());
            assert(seq![b0].last() == b0);
            assert(requests(Seq::<BatchView>::empty()) == Seq::<(Seq<u8>, Seq<CalldataView>)>::empty());
            assert(requests(seq![b0]) == requests(Seq::<BatchView>::empty()) + request_of(b0));
            assert(requests(seq![b0]) =~= request_of(b0));
            assert(requests_view(batches@) =~= requests(seq![b0]));
            assert(succ.take(0) =~= Seq::<Seq<char>>::empty());
        }
        let ghost e1 = self.ledger();
        let mut i: usize = 0;
        while i < block.successful_txs.len()
            invariant
                self.wf(),
                self.contract_name@ == name,
                self.start_height as nat == start,
                self.chain_id == old(self).chain_id,
                self.origin == old(self).origin,
                i <= block.successful_txs.len(),
                forall|l: int| 0 <= l < i ==> !holds_tx(self.unsettled(), #[trigger] block.successful_txs[l]@),
                batches_live(batches@, start),
                succ == hashes_view(block.successful_txs@),
                self.ledger() == after_successes::<C>(e1, succ.take(i as int), name),
                events_view(events@) == ev1,
                requests_view(batches@) == requests(seq![b0]),
            decreases block.successful_txs.len() - i,
        {
            let ghost eb = self.ledger();
            let ghost h = block.successful_txs[i as int]@;
            self.settle_tx_success(&block.successful_txs[i]);
            proof {
                assert(succ.take(i + 1).drop_last() =~= succ.take(i as int));
                assert(succ.take(i + 1).last() == h);
                if holds_tx(eb.unsettled, h) {
                    let k = tx_pos(eb.unsettled, h);
                    assert(eb.unsettled[k].0.hash == h);
                }
            }
            i = i + 1;
        }
        proof {
            assert(succ.take(block.successful_txs.len() as int) =~= succ);
            assert(fail.take(0) =~= Seq::<Seq<char>>::empty());
        }
        let ghost e2 = self.ledger();
        proof {
            assert(ev1 + Seq::<EventView>::empty() =~= ev1);
            assert(seq![b0] + Seq::<BatchView>::empty() =~= seq![b0]);
        }
        let mut i: usize = 0;
        while i < block.failed_txs.len()
            invariant
                self.wf(),
                self.contract_name@ == name,
                self.start_height as nat == start,
                self.chain_id == old(self).chain_id,
                self.origin == old(self).origin,
                i <= block.failed_txs.len(),
                forall|l: int|
                    0 <= l < block.successful_txs.len() ==> !holds_tx(
                        self.unsettled(),
                        #[trigger] block.successful_txs[l]@,
                    ),
                forall|l: int| 0 <= l < i ==> !holds_tx(self.unsettled(), #[trigger] block.failed_txs[l]@),
                batches_live(batches@, start),
                fail == hashes_view(block.failed_txs@),
                self.unsettled() == after_failures(e2.unsettled, fail.take(i as int)),
                self.settled@ == e2.settled,
                self.settled_calls@ == e2.settled_calls,
                events_view(events@) == ev1 + failures_events::<C>(
                    e2.settled,
                    e2.unsettled,
                    fail.take(i as int),
                    name,
                    start,
                ),
                requests_view(batches@) == requests(
                    seq![b0] + failures_batches::<C>(
                        e2.settled,
                        e2.unsettled,
                        fail.take(i as int),
                        name,
                        start,
                    ),
                ),
            decreases block.failed_txs.len() - i,
        {
            let mut replay = BatchBuilder::new();
            let ghost ub = self.unsettled();
            let ghost s0 = self.settled@;
            let ghost h = block.failed_txs[i as int]@;
            let ghost evb = events_view(events@);
            let ghost rqb = requests_view(batches@);
            self.settle_tx_failed(&block.failed_txs[i], &mut events, &mut replay);
            proof {
                lemma_failed_batch_live::<C>(ub, s0, h, name, start, replay@);
                assert(fail.take(i + 1).drop_last() =~= fail.take(i as int));
                assert(fail.take(i + 1).last() == h);
                if holds_tx(ub, h) {
                    let k = tx_pos(ub, h);
                    assert(ub[k].0.hash == h);
                } else {
                    assert(evb + Seq::<EventView>::empty() =~= evb);
                }
                assert(replay@ == failure_batch::<C>(s0, ub, h, name, start));
                let fe = failures_events::<C>(e2.settled, e2.unsettled, fail.take(i as int), name, start);
                assert(events_view(events@) =~= ev1 + failures_events::<C>(
                    e2.settled,
                    e2.unsettled,
                    fail.take(i + 1),
                    name,
                    start,
                ));
            }
            push_batch(&mut batches, replay, Ghost(start));
            proof {
                let fb = failures_batches::<C>(e2.settled, e2.unsettled, fail.take(i as int), name, start);
                let fb2 = failures_batches::<C>(e2.settled, e2.unsettled, fail.take(i + 1), name, start);
                assert(fb2 == fb.push(replay@));
                assert(seq![b0] + fb2 =~= (seq![b0] + fb).push(replay@));
                assert((seq![b0] + fb2).drop_last() =~= seq![b0] + fb);
            }
            i = i + 1;
        }
        proof {
            assert(fail.take(block.failed_txs.len() as int) =~= fail);
            assert(tout.take(0) =~= Seq::<Seq<char>>::empty());
        }
        let ghost u3 = self.unsettled();
        let mut i: usize = 0;
        while i < block.timed_out_txs.len()
            invariant
                self.wf(),
                self.contract_name@ == name,
                self.start_height as nat == start,
                self.chain_id == old(self).chain_id,
                self.origin == old(self).origin,
                i <= block.timed_out_txs.len(),
                forall|l: int|
                    0 <= l < block.successful_txs.len() ==> !holds_tx(
                        self.unsettled(),
                        #[trigger] block.successful_txs[l]@,
                    ),
                forall|l: int|
                    0 <= l < block.failed_txs.len() ==> !holds_tx(
                        self.unsettled(),
                        #[trigger] block.failed_txs[l]@,
                    ),
                forall|l: int| 0 <= l < i ==> !holds_tx(self.unsettled(), #[trigger] block.timed_out_txs[l]@),
                batches_live(batches@, start),
                tout == hashes_view(block.timed_out_txs@),
                self.unsettled() == after_failures(u3, tout.take(i as int)),
                self.settled@ == e2.settled,
                self.settled_calls@ == e2.settled_calls,
                u3 == after_failures(e2.unsettled, fail),
                events_view(events@) == ev1 + failures_events::<C>(
                    e2.settled,
                    e2.unsettled,
                    fail,
                    name,
                    start,
                ) + failures_events::<C>(e2.settled, u3, tout.take(i as int), name, start),
                requests_view(batches@) == requests(
                    seq![b0] + failures_batches::<C>(e2.settled, e2.unsettled, fail, name, start)
                        + failures_batches::<C>(e2.settled, u3, tout.take(i as int), name, start),
                ),
            decreases block.timed_out_txs.len() - i,
        {
            let mut replay = BatchBuilder::new();
            let ghost ub = self.unsettled();
            let ghost s0 = self.settled@;
            let ghost h = block.timed_out_txs[i as int]@;
            let ghost evb = events_view(events@);
            let ghost rqb = requests_view(batches@);
            self.settle_tx_failed(&block.timed_out_txs[i], &mut events, &mut replay);
            proof {
                lemma_failed_batch_live::<C>(ub, s0, h, name, start, replay@);
                assert(tout.take(i + 1).drop_last() =~= tout.take(i as int));
                assert(tout.take(i + 1).last() == h);
                if holds_tx(ub, h) {
                    let k = tx_pos(ub, h);
                    assert(ub[k].0.hash == h);
                } else {
                    assert(evb + Seq::<EventView>::empty() =~= evb);
                }
                assert(replay@ == failure_batch::<C>(s0, ub, h, name, start));
                let fe = failures_events::<C>(e2.settled, u3, tout.take(i as int), name, start);
                assert(events_view(events@) =~= ev1 + failures_events::<C>(e2.settled, e2.unsettled, fail, name, start) + failures_events::<C>(
                    e2.settled,
                    u3,
                    tout.take(i + 1),
                    name,
                    start,
                ));
            }
            push_batch(&mut batches, replay, Ghost(start));
            proof {
                let fb = failures_batches::<C>(e2.settled, u3, tout.take(i as int), name, start);
                let fb2 = failures_batches::<C>(e2.settled, u3, tout.take(i + 1), name, start);
                assert(fb2 == fb.push(replay@));
                assert(seq![b0] + failures_batches::<C>(e2.settled, e2.unsettled, fail, name, start) + fb2 =~= (seq![b0] + failures_batches::<C>(e2.settled, e2.unsettled, fail, name, start) + fb).push(replay@));
                assert((seq![b0] + failures_batches::<C>(e2.settled, e2.unsettled, fail, name, start) + fb2).drop_last() =~= seq![b0] + failures_batches::<C>(e2.settled, e2.unsettled, fail, name, start) + fb);
            }
            i = i + 1;
        }
        proof {
            assert(tout.take(block.timed_out_txs.len() as int) =~= tout);
            assert(r0 == old(self).replica());
            assert(e1 == LedgerView {
                unsettled: after_txs(old(self).ledger().unsettled, ents, name),
                settled: old(self).ledger().settled,
                settled_calls: old(self).ledger().settled_calls,
            });
        }
        BlockOutput { events, batches }
    }

    /// Position of transaction `h` in the unsettled ledger.
    fn position(&self, h: &TxHash) -> (r: Option<usize>)
        ensures
            r matches Some(k) ==> k < self.unsettled().len() && self.unsettled()[k as int].0.hash
                == h@,
            r is None ==> !holds_tx(self.unsettled(), h@),
    {
        let mut i: usize = 0;
        while i < self.unsettled_txs.len()
            invariant
                i <= self.unsettled_txs.len(),
                forall|j: int| 0 <= j < i ==> self.unsettled()[j].0.hash != h@,
            decreases self.unsettled_txs.len() - i,
        {
            assert(self.unsettled()[i as int].0.hash == self.unsettled_txs[i as int].0.hash@);
            if self.unsettled_txs[i].0.hash.same(h) {
                return Some(i);
            }
            i = i + 1;
        }
        None
    }
}

/// The replica always equals the state reached from the starting state by
/// running, in observation order, exactly the executions that were never
/// rolled back: those of the transactions settled successfully, then those of
/// the transactions still awaiting a verdict (each in its latest replay).
pub proof fn lemma_replica_is_replay<C: TxExecutorHandler>(m: &ProverModule<C>)
    requires
        m.wf(),
    ensures
        m.replica() == run::<C>(m.origin(), m.settled_calls() + entry_calls(m.unsettled(), m.name())),
{
    lemma_run_append::<C>(m.origin(), m.settled_calls(), entry_calls(m.unsettled(), m.name()));
}

/// Each history snapshot is the state right after its transaction: running
/// the settled executions and then the unsettled transactions up to and
/// including it.
pub proof fn lemma_history_is_replay<C: TxExecutorHandler>(m: &ProverModule<C>, i: int)
    requires
        m.wf(),
        0 <= i < m.history().len(),
    ensures
        m.history()[i].0 == m.unsettled()[i].0.hash,
        m.history()[i].1 == run::<C>(
            m.origin(),
            m.settled_calls() + entry_calls(m.unsettled().take(i + 1), m.name()),
        ),
{
    lemma_run_append::<C>(m.origin(), m.settled_calls(), entry_calls(m.unsettled().take(i + 1), m.name()));
}

/// What the bookkeeping determines: the history has one entry per unsettled
/// transaction, in order, holding the state right after it; the replica is
/// the state after all of them; the settled base is the starting state after
/// the settled calls.
pub proof fn lemma_ledger_determines_state<C: TxExecutorHandler>(m: &ProverModule<C>)
    requires
        m.wf(),
    ensures
        m.history().len() == m.unsettled().len(),
        forall|i: int|
            0 <= i < m.history().len() ==> #[trigger] m.history()[i] == (
                m.unsettled()[i].0.hash,
                run::<C>(m.settled_state(), entry_calls(m.unsettled().take(i + 1), m.name())),
            ),
        m.replica() == run::<C>(m.settled_state(), entry_calls(m.unsettled(), m.name())),
        m.settled_state() == run::<C>(m.origin(), m.settled_calls()),
{
    assert forall|i: int| 0 <= i < m.history().len() implies #[trigger] m.history()[i] == (
        m.unsettled()[i].0.hash,
        run::<C>(m.settled_state(), entry_calls(m.unsettled().take(i + 1), m.name())),
    ) by {
        assert(m.history()[i].0 == m.unsettled()[i].0.hash);
        assert(m.history()[i].1 == run::<C>(
            m.settled@,
            entry_calls(m.unsettled().take(i + 1), m.contract_name@),
        ));
    }
}

/// The history never holds more entries than there are unsettled
/// transactions.
pub proof fn lemma_history_bounded<C: TxExecutorHandler>(m: &ProverModule<C>)
    requires
        m.wf(),
    ensures
        m.history().len() <= m.unsettled().len(),
{
}

/// No transaction identifier has more than one history entry, nor more than
/// one unsettled entry.
pub proof fn lemma_history_unique<C: TxExecutorHandler>(m: &ProverModule<C>)
    requires
        m.wf(),
    ensures
        forall|i: int, j: int|
            0 <= i < m.history().len() && 0 <= j < m.history().len() && i != j ==> m.history()[i].0
                != m.history()[j].0,
        forall|i: int, j: int|
            0 <= i < m.unsettled().len() && 0 <= j < m.unsettled().len() && i != j
                ==> m.unsettled()[i].0.hash != m.unsettled()[j].0.hash,
{
    assert forall|i: int, j: int|
        0 <= i < m.history().len() && 0 <= j < m.history().len() && i != j implies m.history()[i].0
        != m.history()[j].0 by {
        assert(m.history()[i].0 == m.unsettled()[i].0.hash);
        assert(m.history()[j].0 == m.unsettled()[j].0.hash);
    }
}

} // verus!
