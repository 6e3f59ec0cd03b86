//! The hosted contract as a capability, and the meaning of running call
//! inputs against it.

use crate::types::{BlobView, CalldataView, CtxView, TxView, calldata_of};
use vstd::prelude::*;

verus! {

/// A contract whose state the node replicates. Execution is a deterministic
/// function of the state and the call input; so is the commitment metadata.
pub trait TxExecutorHandler: View + Sized {
    /// State after executing `call` on `state`, whether or not it was accepted.
    spec fn next(state: Self::V, call: CalldataView) -> Self::V;

    /// Whether executing `call` on `state` succeeds.
    spec fn accepts(state: Self::V, call: CalldataView) -> bool;

    /// The reason reported when executing `call` on `state` fails.
    spec fn failure(state: Self::V, call: CalldataView) -> Seq<char>;

    /// Commitment metadata of `state` for proving an operation on `blob`,
    /// when it can be encoded.
    spec fn metadata(state: Self::V, blob: BlobView) -> Option<Seq<u8>>;

    /// The contract's default state.
    spec fn initial() -> Self::V;

    fn handle(&mut self, calldata: &crate::types::Calldata) -> (r: Result<Vec<u8>, String>)
        ensures
            final(self)@ == Self::next(old(self)@, calldata@),
            r is Ok == Self::accepts(old(self)@, calldata@),
            r matches Err(e) ==> e@ == Self::failure(old(self)@, calldata@),
    ;

    fn build_commitment_metadata(&self, blob: &crate::types::Blob) -> (r: Result<Vec<u8>, String>)
        ensures
            r is Ok == Self::metadata(self@, blob@) is Some,
            r is Ok ==> r->Ok_0@ == Self::metadata(self@, blob@)->Some_0,
    ;

    /// An independent copy of the state.
    fn snapshot(&self) -> (r: Self)
        ensures
            r@ == self@,
    ;

    fn initial_state() -> (r: Self)
        ensures
            r@ == Self::initial(),
    ;
}

/// State after executing `calls` in order from `s`.
pub open spec fn run<C: TxExecutorHandler>(s: C::V, calls: Seq<CalldataView>) -> C::V
    decreases calls.len(),
{
    if calls.len() == 0 {
        s
    } else {
        C::next(run::<C>(s, calls.drop_last()), calls.last())
    }
}

/// Indices of the blobs addressed to contract `name`, in order.
pub open spec fn matching_indices(blobs: Seq<BlobView>, name: Seq<char>) -> Seq<nat>
    decreases blobs.len(),
{
    if blobs.len() == 0 {
        Seq::empty()
    } else if blobs.last().contract_name == name {
        matching_indices(blobs.drop_last(), name).push((blobs.len() - 1) as nat)
    } else {
        matching_indices(blobs.drop_last(), name)
    }
}

/// Call inputs of the operations of `tx` addressed to contract `name`.
pub open spec fn calls_of(tx: TxView, ctx: CtxView, name: Seq<char>) -> Seq<CalldataView> {
    matching_indices(tx.blobs, name).map_values(|i: nat| calldata_of(tx, ctx, i))
}

/// Call inputs of all operations of `entries` addressed to `name`, in order.
pub open spec fn entry_calls(entries: Seq<(TxView, CtxView)>, name: Seq<char>) -> Seq<CalldataView>
    decreases entries.len(),
{
    if entries.len() == 0 {
        Seq::empty()
    } else {
        entry_calls(entries.drop_last(), name) + calls_of(entries.last().0, entries.last().1, name)
    }
}

/// Running two sequences of calls is running the first, then the second.
pub proof fn lemma_run_append<C: TxExecutorHandler>(
    s: C::V,
    a: Seq<CalldataView>,
    b: Seq<CalldataView>,
)
    ensures
        run::<C>(s, a + b) == run::<C>(run::<C>(s, a), b),
    decreases b.len(),
{
    if b.len() == 0 {
        assert(a + b =~= a);
    } else {
        assert((a + b).drop_last() =~= a + b.drop_last());
        lemma_run_append::<C>(s, a, b.drop_last());
    }
}

/// The calls of two runs of entries are the calls of each, concatenated.
pub proof fn lemma_entry_calls_append(
    a: Seq<(TxView, CtxView)>,
    b: Seq<(TxView, CtxView)>,
    name: Seq<char>,
)
    ensures
        entry_calls(a + b, name) == entry_calls(a, name) + entry_calls(b, name),
    decreases b.len(),
{
    if b.len() == 0 {
        assert(a + b =~= a);
        assert(entry_calls(a, name) + entry_calls(b, name) =~= entry_calls(a, name));
    } else {
        assert((a + b).drop_last() =~= a + b.drop_last());
        lemma_entry_calls_append(a, b.drop_last(), name);
        assert((a + b).last() == b.last());
        assert(entry_calls(a + b, name) =~= entry_calls(a, name) + entry_calls(b, name));
    }
}

/// Replaying entries is replaying a prefix, then the rest.
pub proof fn lemma_replay_split<C: TxExecutorHandler>(
    s: C::V,
    entries: Seq<(TxView, CtxView)>,
    k: int,
    name: Seq<char>,
)
    requires
        0 <= k <= entries.len(),
    ensures
        run::<C>(s, entry_calls(entries, name)) == run::<C>(
            run::<C>(s, entry_calls(entries.take(k), name)),
            entry_calls(entries.skip(k), name),
        ),
{
    assert(entries == entries.take(k) + entries.skip(k));
    lemma_entry_calls_append(entries.take(k), entries.skip(k), name);
    lemma_run_append::<C>(s, entry_calls(entries.take(k), name), entry_calls(entries.skip(k), name));
}

} // verus!
