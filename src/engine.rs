//! Turns a record stream into per-client ledgers: the stream is partitioned by
//! client, each client's records keeping their order, and each partition is
//! folded through a fresh account.

use crate::account::{fold, fresh, is_ledger_of, step, Account, AccountView};
use crate::transaction::{ClientId, Transaction};
use std::collections::HashMap;
use vstd::prelude::*;
use vstd::std_specs::hash::group_hash_axioms;

verus! {

broadcast use group_hash_axioms;

/// The records of `txs` that belong to `client`, in their order in `txs`.
pub open spec fn records_of(txs: Seq<Transaction>, client: ClientId) -> Seq<Transaction>
    decreases txs.len(),
{
    if txs.len() == 0 {
        Seq::empty()
    } else {
        let earlier = records_of(txs.drop_last(), client);
        if txs.last().client_id == client {
            earlier.push(txs.last())
        } else {
            earlier
        }
    }
}

proof fn lemma_records_of_take(txs: Seq<Transaction>, i: int, client: ClientId)
    requires
        0 <= i < txs.len(),
    ensures
        records_of(txs.take(i + 1), client) == if txs[i].client_id == client {
            records_of(txs.take(i), client).push(txs[i])
        } else {
            records_of(txs.take(i), client)
        },
{
    assert(txs.take(i + 1).drop_last() =~= txs.take(i));
}

/// The accounts after applying `txs` one by one in stream order, each record
/// to its client's account (a fresh one on the client's first record).
pub open spec fn run_all(txs: Seq<Transaction>) -> Map<ClientId, AccountView>
    decreases txs.len(),
{
    if txs.len() == 0 {
        Map::empty()
    } else {
        let accounts = run_all(txs.drop_last());
        let t = txs.last();
        let acc = if accounts.contains_key(t.client_id) {
            accounts[t.client_id]
        } else {
            fresh(t.client_id)
        };
        accounts.insert(t.client_id, step(acc, t).0)
    }
}

/// Applying a stream record by record, in its order, gives every client the
/// same account as folding that client's own records, in their order, through
/// a fresh account: evaluating the partitions separately, in any order or at
/// once, agrees with sequential evaluation of the whole stream.
pub proof fn lemma_stream_equals_partitions(txs: Seq<Transaction>, client: ClientId)
    ensures
        run_all(txs).contains_key(client) <==> records_of(txs, client).len() > 0,
        run_all(txs).contains_key(client) ==> run_all(txs)[client] == fold(
            fresh(client),
            records_of(txs, client),
        ),
    decreases txs.len(),
{
    if txs.len() > 0 {
        let earlier = txs.drop_last();
        lemma_stream_equals_partitions(earlier, client);
        let t = txs.last();
        if t.client_id == client {
            let mine = records_of(earlier, client);
            assert(mine.push(t).drop_last() =~= mine);
            assert(mine.push(t).last() == t);
            if !run_all(earlier).contains_key(client) {
                assert(mine.len() == 0);
                assert(fold(fresh(client), mine) == fresh(client));
            }
        }
    }
}

/// The records of `transactions`, grouped by client: one group per client, in
/// order of first appearance, each keeping its records' order.
pub fn partition_by_client(transactions: &[Transaction]) -> (r: Vec<(ClientId, Vec<Transaction>)>)
    ensures
        forall|k: int| 0 <= k < r.len() ==> #[trigger] r@[k].1@ == records_of(transactions@, r@[k].0),
        forall|k: int| 0 <= k < r.len() ==> #[trigger] r@[k].1@.len() > 0,
        forall|k1: int, k2: int| 0 <= k1 < k2 < r.len() ==> #[trigger] r@[k1].0 != #[trigger] r@[k2].0,
        forall|c: ClientId| #[trigger] records_of(transactions@, c).len() > 0
            ==> exists|k: int| 0 <= k < r.len() && r@[k].0 == c,
{
    let ghost txs = transactions@;
    let mut clients: Vec<ClientId> = Vec::new();
    let mut i: usize = 0;
    while i < transactions.len()
        invariant
            i <= transactions.len(),
            txs == transactions@,
            forall|k1: int, k2: int| 0 <= k1 < k2 < clients.len() ==> #[trigger] clients@[k1] != #[trigger] clients@[k2],
            forall|k: int| 0 <= k < clients.len() ==> #[trigger] records_of(txs.take(i as int), clients@[k]).len() > 0,
            forall|c: ClientId| #[trigger] records_of(txs.take(i as int), c).len() > 0 ==> clients@.contains(c),
        decreases transactions.len() - i,
    {
        let c = transactions[i].client_id;
        let mut found = false;
        let mut j: usize = 0;
        while j < clients.len()
            invariant
                j <= clients.len(),
                found <==> exists|k: int| 0 <= k < j && clients@[k] == c,
            decreases clients.len() - j,
        {
            if clients[j] == c {
                found = true;
            }
            j = j + 1;
        }
        proof {
            assert forall|d: ClientId| true implies #[trigger] records_of(txs.take(i + 1), d)
                == if txs[i as int].client_id == d {
                records_of(txs.take(i as int), d).push(txs[i as int])
            } else {
                records_of(txs.take(i as int), d)
            } by {
                lemma_records_of_take(txs, i as int, d);
            }
        }
        let ghost earlier = clients@;
        if !found {
            clients.push(c);
        }
        proof {
            assert forall|d: ClientId| #[trigger] records_of(txs.take(i + 1), d).len() > 0 implies clients@.contains(d) by {
                if d == c {
                    if found {
                        let k = choose|k: int| 0 <= k < clients.len() && clients@[k] == c;
                        assert(clients@[k] == d);
                    } else {
                        assert(clients@[clients.len() - 1] == d);
                    }
                } else {
                    assert(records_of(txs.take(i as int), d).len() > 0);
                    assert(earlier.contains(d));
                    let k = choose|k: int| 0 <= k < earlier.len() && earlier[k] == d;
                    assert(clients@[k] == d);
                }
            }
            assert forall|k: int| 0 <= k < clients.len() implies #[trigger] records_of(txs.take(i + 1), clients@[k]).len() > 0 by {
                if clients@[k] != c {
                    assert(records_of(txs.take(i as int), clients@[k]).len() > 0);
                }
            }
        }
        i = i + 1;
    }
    proof {
        assert(txs.take(i as int) =~= txs);
    }
    let mut r: Vec<(ClientId, Vec<Transaction>)> = Vec::new();
    let mut k: usize = 0;
    while k < clients.len()
        invariant
            k <= clients.len(),
            txs == transactions@,
            r.len() == k,
            forall|k1: int, k2: int| 0 <= k1 < k2 < clients.len() ==> #[trigger] clients@[k1] != #[trigger] clients@[k2],
            forall|q: int| 0 <= q < clients.len() ==> #[trigger] records_of(txs, clients@[q]).len() > 0,
            forall|c: ClientId| #[trigger] records_of(txs, c).len() > 0 ==> clients@.contains(c),
            forall|q: int| 0 <= q < k ==> #[trigger] r@[q].0 == clients@[q],
            forall|q: int| 0 <= q < k ==> #[trigger] r@[q].1@ == records_of(txs, r@[q].0),
        decreases clients.len() - k,
    {
        let c = clients[k];
        let mut part: Vec<Transaction> = Vec::new();
        let mut j: usize = 0;
        while j < transactions.len()
            invariant
                j <= transactions.len(),
                txs == transactions@,
                part@ == records_of(txs.take(j as int), c),
            decreases transactions.len() - j,
        {
            proof {
                lemma_records_of_take(txs, j as int, c);
            }
            if transactions[j].client_id == c {
                part.push(transactions[j]);
            }
            j = j + 1;
        }
        proof {
            assert(txs.take(j as int) =~= txs);
        }
        r.push((c, part));
        k = k + 1;
    }
    proof {
        assert forall|c: ClientId| #[trigger] records_of(txs, c).len() > 0 implies exists|q: int|
            0 <= q < r.len() && r@[q].0 == c by {
            let q = choose|q: int| 0 <= q < clients.len() && clients@[q] == c;
            assert(r@[q].0 == c);
        }
    }
    r
}

/// The ledger of every client that `transactions` mentions, each built from
/// that client's records alone, in their order.
pub fn process_all(transactions: Vec<Transaction>) -> (r: HashMap<ClientId, Account>)
    ensures
        forall|c: ClientId| #[trigger] r@.contains_key(c) <==> records_of(transactions@, c).len() > 0,
        forall|c: ClientId| #[trigger] r@.contains_key(c) ==> is_ledger_of(r@[c], c, records_of(transactions@, c)),
{
    let parts = partition_by_client(transactions.as_slice());
    let mut accounts: HashMap<ClientId, Account> = HashMap::new();
    let mut k: usize = 0;
    while k < parts.len()
        invariant
            k <= parts.len(),
            forall|q: int| 0 <= q < parts.len() ==> #[trigger] parts@[q].1@ == records_of(transactions@, parts@[q].0),
            forall|q: int| 0 <= q < parts.len() ==> #[trigger] parts@[q].1@.len() > 0,
            forall|k1: int, k2: int| 0 <= k1 < k2 < parts.len() ==> #[trigger] parts@[k1].0 != #[trigger] parts@[k2].0,
            forall|c: ClientId| #[trigger] accounts@.contains_key(c) <==> exists|q: int| 0 <= q < k && parts@[q].0 == c,
            forall|c: ClientId| #[trigger] accounts@.contains_key(c) ==> is_ledger_of(accounts@[c], c, records_of(transactions@, c)),
        decreases parts.len() - k,
    {
        let c = parts[k].0;
        let acc = Account::from_transactions(&c, parts[k].1.as_slice());
        accounts.insert(c, acc);
        proof {
            assert forall|d: ClientId| #[trigger] accounts@.contains_key(d) <==> exists|q: int| 0 <= q < k + 1 && parts@[q].0 == d by {
                if d == c {
                    assert(parts@[k as int].0 == d);
                }
            }
        }
        k = k + 1;
    }
    proof {
        assert forall|c: ClientId| #[trigger] accounts@.contains_key(c) <==> records_of(transactions@, c).len() > 0 by {
            if records_of(transactions@, c).len() > 0 {
                let q = choose|q: int| 0 <= q < parts.len() && parts@[q].0 == c;
                assert(accounts@.contains_key(c));
            }
            if accounts@.contains_key(c) {
                let q = choose|q: int| 0 <= q < parts.len() && parts@[q].0 == c;
                assert(parts@[q].1@.len() > 0);
            }
        }
    }
    accounts
}

} // verus!
