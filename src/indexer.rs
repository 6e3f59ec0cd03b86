//! The indexer's view of the faucet: a click count per player, with balance
//! lookups and a leaderboard.

use crate::faucet::Faucet;
use crate::types::BlobTransaction;
use vstd::prelude::*;
use vstd::string::StringExecFns;

verus! {

broadcast use vstd::seq_lib::to_multiset_insert;

/// Indexed state: the contract and, per player, the number of its
/// successful transactions.
pub struct FaucetCustomState {
    pub contract: Faucet,
    pub balances: Vec<(String, u128)>,
}

pub open spec fn entries_view(v: Seq<(String, u128)>) -> Seq<(Seq<char>, nat)> {
    v.map_values(|e: (String, u128)| (e.0@, e.1 as nat))
}

/// Position of the first entry of `p` for `key`.
pub open spec fn first_key(p: Seq<(Seq<char>, nat)>, key: Seq<char>) -> Option<int>
    decreases p.len(),
{
    if p.len() == 0 {
        None
    } else {
        match first_key(p.drop_last(), key) {
            Some(i) => Some(i),
            None => if p.last().0 == key {
                Some(p.len() - 1)
            } else {
                None
            },
        }
    }
}

/// Balance of `key`: its first entry, or zero.
pub open spec fn balance_of(p: Seq<(Seq<char>, nat)>, key: Seq<char>) -> nat {
    match first_key(p, key) {
        Some(i) => p[i].1,
        None => 0,
    }
}

/// Entries sorted by balance, highest first.
pub open spec fn sorted_desc(p: Seq<(Seq<char>, nat)>) -> bool {
    forall|i: int, j: int| 0 <= i < j < p.len() ==> p[i].1 >= p[j].1
}

/// `s` with every match of `pat` replaced by `rep`, matches taken left to
/// right without overlap (for a non-empty `pat`).
pub open spec fn replace_all(s: Seq<char>, pat: Seq<char>, rep: Seq<char>) -> Seq<char>
    decreases s.len(),
{
    if pat.len() == 0 || s.len() < pat.len() {
        s
    } else if s.take(pat.len() as int) == pat {
        rep + replace_all(s.skip(pat.len() as int), pat, rep)
    } else {
        seq![s[0]] + replace_all(s.drop_first(), pat, rep)
    }
}

/// The account a sender's successes count under: its identity with every
/// "@faucet" removed.
pub open spec fn faucet_account(identity: Seq<char>) -> Seq<char> {
    replace_all(identity, "@faucet"@, ""@)
}

/// Relies on str::replace: every match of `pat`, found left to right without
/// overlap, is replaced by `rep`.
#[verifier::external_body]
fn replace_text(s: &String, pat: &str, rep: &str) -> (r: String)
    requires
        pat@.len() > 0,
    ensures
        r@ == replace_all(s@, pat@, rep@),
{
    s.replace(pat, rep)
}

proof fn lemma_first_key_prefix(p: Seq<(Seq<char>, nat)>, j: int, key: Seq<char>)
    requires
        0 <= j <= p.len(),
        first_key(p.take(j), key) is Some,
    ensures
        first_key(p, key) == first_key(p.take(j), key),
    decreases p.len(),
{
    if j == p.len() {
        assert(p.take(j) =~= p);
    } else {
        assert(p.drop_last().take(j) =~= p.take(j));
        lemma_first_key_prefix(p.drop_last(), j, key);
    }
}

/// No two entries share a key.
pub open spec fn unique_keys(p: Seq<(Seq<char>, nat)>) -> bool {
    forall|i: int, j: int| 0 <= i < j < p.len() ==> p[i].0 != p[j].0
}

proof fn lemma_first_key_none(p: Seq<(Seq<char>, nat)>, key: Seq<char>)
    ensures
        first_key(p, key) is None ==> forall|i: int| 0 <= i < p.len() ==> p[i].0 != key,
        first_key(p, key) matches Some(i) ==> 0 <= i < p.len() && p[i].0 == key,
    decreases p.len(),
{
    if p.len() > 0 {
        let q = p.drop_last();
        lemma_first_key_none(q, key);
        assert(forall|i: int| 0 <= i < q.len() ==> q[i] == p[i]);
    }
}

/// Position of the first entry of `v` for `key`.
fn find_entry(v: &Vec<(String, u128)>, key: &String) -> (r: Option<usize>)
    ensures
        r matches Some(i) ==> first_key(entries_view(v@), key@) == Some(i as int) && i < v.len(),
        r is None ==> first_key(entries_view(v@), key@) is None,
{
    let ghost p = entries_view(v@);
    let mut i: usize = 0;
    while i < v.len()
        invariant
            p == entries_view(v@),
            i <= v.len(),
            first_key(p.take(i as int), key@) is None,
        decreases v.len() - i,
    {
        assert(p.take(i + 1).drop_last() =~= p.take(i as int));
        assert(p[i as int].0 == v[i as int].0@);
        if v[i].0 == *key {
            proof {
                lemma_first_key_prefix(p, i + 1, key@);
            }
            return Some(i);
        }
        i = i + 1;
    }
    assert(p.take(v.len() as int) =~= p);
    None
}

/// The balance of `account`: its entry in `balances`, or zero.
pub fn get_balance(balances: &Vec<(String, u128)>, account: &String) -> (r: u128)
    ensures
        r as nat == balance_of(entries_view(balances@), account@),
{
    match find_entry(balances, account) {
        Some(i) => balances[i].1,
        None => 0,
    }
}

/// The balances sorted by balance, highest first.
pub fn sort_by_balance(balances: &Vec<(String, u128)>) -> (r: Vec<(String, u128)>)
    ensures
        sorted_desc(entries_view(r@)),
        entries_view(r@).to_multiset() == entries_view(balances@).to_multiset(),
{
    let mut out: Vec<(String, u128)> = Vec::new();
    let mut i: usize = 0;
    proof {
        assert(entries_view(out@) =~= Seq::<(Seq<char>, nat)>::empty());
        assert(entries_view(balances@).take(0) =~= Seq::<(Seq<char>, nat)>::empty());
    }
    while i < balances.len()
        invariant
            i <= balances.len(),
            sorted_desc(entries_view(out@)),
            entries_view(out@).to_multiset() == entries_view(balances@).take(i as int).to_multiset(),
        decreases balances.len() - i,
    {
        let x = (balances[i].0.clone(), balances[i].1);
        let mut p: usize = 0;
        while p < out.len() && out[p].1 >= x.1
            invariant
                p <= out.len(),
                forall|j: int| 0 <= j < p ==> out@[j].1 >= x.1,
            decreases out.len() - p,
        {
            p = p + 1;
        }
        let ghost before = entries_view(out@);
        let ghost xv = (x.0@, x.1 as nat);
        proof {
            if p < out.len() {
                assert(out@[p as int].1 < x.1);
            }
        }
        out.insert(p, x);
        proof {
            assert(entries_view(out@) =~= before.insert(p as int, xv));
            let s = entries_view(out@);
            assert forall|a: int, b: int| 0 <= a < b < s.len() implies s[a].1 >= s[b].1 by {
                if b < p {
                    assert(s[a] == before[a]);
                    assert(s[b] == before[b]);
                } else if b == p {
                    assert(s[a] == before[a]);
                } else if a < p {
                    assert(s[a] == before[a]);
                    assert(s[b] == before[b - 1]);
                    assert(before[p as int].1 < x.1);
                } else if a == p {
                    assert(s[b] == before[b - 1]);
                    assert(before[p as int].1 < x.1);
                } else {
                    assert(s[a] == before[a - 1]);
                    assert(s[b] == before[b - 1]);
                }
            }
            assert(entries_view(balances@).take(i + 1) =~= entries_view(balances@).take(
                i as int,
            ).push(xv));
            vstd::seq_lib::to_multiset_build(entries_view(balances@).take(i as int), xv);
        }
        i = i + 1;
    }
    assert(entries_view(balances@).take(balances.len() as int) =~= entries_view(balances@));
    out
}

/// Number of entries a leaderboard shows.
pub const LEADERBOARD_SIZE: usize = 200;

/// A leaderboard: the highest balances, and the rank of one account.
pub struct LeaderboardResponse {
    pub leaderboard: Vec<(String, u128)>,
    pub rank: Option<usize>,
}

impl FaucetCustomState {
    /// Counts one more successful transaction for the sender of `tx`.
    /// Fails, changing nothing, when the count would overflow.
    pub fn handle_transaction_success(&mut self, tx: &BlobTransaction) -> (r: Result<(), String>)
        ensures
            final(self).contract == old(self).contract,
            first_key(entries_view(old(self).balances@), faucet_account(tx@.identity)) is None
                ==> r is Ok && entries_view(final(self).balances@) == entries_view(
                old(self).balances@,
            ).push((faucet_account(tx@.identity), 1)),
            first_key(entries_view(old(self).balances@), faucet_account(tx@.identity)) matches Some(i)
                ==> (r is Ok <==> old(self).balances@[i].1 < u128::MAX),
            first_key(entries_view(old(self).balances@), faucet_account(tx@.identity)) matches Some(i)
                ==> (r is Ok ==> entries_view(final(self).balances@) == entries_view(
                old(self).balances@,
            ).update(i, (faucet_account(tx@.identity), (old(self).balances@[i].1 + 1) as nat))),
            r is Err ==> final(self).balances@ == old(self).balances@,
            unique_keys(entries_view(old(self).balances@)) ==> unique_keys(
                entries_view(final(self).balances@),
            ),
    {
        proof {
            reveal_strlit("@faucet");
            reveal_strlit("");
        }
        let account = replace_text(&tx.identity, "@faucet", "");
        proof {
            lemma_first_key_none(entries_view(self.balances@), account@);
        }
        match find_entry(&self.balances, &account) {
            Some(i) => {
                let b = self.balances[i].1;
                if b == u128::MAX {
                    return Err(String::from_str("Balance overflow"));
                }
                let ghost before = self.balances@;
                self.balances.set(i, (account, b + 1));
                proof {
                    assert(entries_view(self.balances@) =~= entries_view(before).update(
                        i as int,
                        (faucet_account(tx@.identity), (b + 1) as nat),
                    ));
                    let q = entries_view(self.balances@);
                    if unique_keys(entries_view(before)) {
                        assert forall|a: int, c: int| 0 <= a < c < q.len() implies q[a].0 != q[c].0 by {
                            assert(q[a].0 == entries_view(before)[a].0);
                            assert(q[c].0 == entries_view(before)[c].0);
                        }
                    }
                }
                Ok(())
            },
            None => {
                let ghost before = self.balances@;
                self.balances.push((account, 1));
                proof {
                    assert(entries_view(self.balances@) =~= entries_view(before).push(
                        (faucet_account(tx@.identity), 1),
                    ));
                    let q = entries_view(self.balances@);
                    if unique_keys(entries_view(before)) {
                        assert forall|a: int, c: int| 0 <= a < c < q.len() implies q[a].0 != q[c].0 by {
                            assert(q[a] == entries_view(before)[a]);
                            if c < entries_view(before).len() {
                                assert(q[c] == entries_view(before)[c]);
                            }
                        }
                    }
                }
                Ok(())
            },
        }
    }

    /// The balance of `account`, zero when it has none.
    pub fn get_balance(&self, account: &String) -> (r: u128)
        ensures
            r as nat == balance_of(entries_view(self.balances@), account@),
    {
        get_balance(&self.balances, account)
    }

    /// The highest balances, at most `LEADERBOARD_SIZE` of them, highest
    /// first, and the rank of `account`: its position in the full ordering,
    /// from one, or one past the last when it has no balance.
    pub fn get_leaderboard(&self, account: &String) -> (r: LeaderboardResponse)
        ensures
            sorted_desc(entries_view(r.leaderboard@)),
            r.leaderboard@.len() == if self.balances@.len() < LEADERBOARD_SIZE {
                self.balances@.len()
            } else {
                LEADERBOARD_SIZE as nat
            },
            exists|all: Seq<(Seq<char>, nat)>|
                #![trigger all.to_multiset()]
                {
                    &&& sorted_desc(all)
                    &&& all.to_multiset() == entries_view(self.balances@).to_multiset()
                    &&& entries_view(r.leaderboard@) == all.take(r.leaderboard@.len() as int)
                    &&& (first_key(all, account@) matches Some(k) ==> r.rank == Some((k + 1) as usize))
                    &&& (first_key(all, account@) is None ==> r.rank == if all.len() < usize::MAX {
                        Some((all.len() + 1) as usize)
                    } else {
                        None
                    })
                },
    {
        let mut sorted = sort_by_balance(&self.balances);
        let ghost all = entries_view(sorted@);
        proof {
            vstd::seq_lib::to_multiset_len(all);
            vstd::seq_lib::to_multiset_len(entries_view(self.balances@));
        }
        let rank = match find_entry(&sorted, account) {
            Some(k) => Some(k + 1),
            None => sorted.len().checked_add(1),
        };
        if sorted.len() > LEADERBOARD_SIZE {
            sorted.truncate(LEADERBOARD_SIZE);
        }
        proof {
            assert(entries_view(sorted@) =~= all.take(sorted@.len() as int));
            let s = entries_view(sorted@);
            assert forall|a: int, b: int| 0 <= a < b < s.len() implies s[a].1 >= s[b].1 by {
                assert(s[a] == all[a]);
                assert(s[b] == all[b]);
            }
        }
        LeaderboardResponse { leaderboard: sorted, rank }
    }
}

} // verus!
