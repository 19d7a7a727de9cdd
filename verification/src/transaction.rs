//! Transactions: atomic units of registry work.
//!
//! A transaction is created active, with a private workspace that starts
//! as a copy of the committed state. Key operations performed under it
//! land in that workspace. `commit` publishes the workspace as the new
//! committed state; `rollback` discards it. Either consumes the
//! transaction, so each can happen at most once, enforced by the type
//! system. A transaction dropped without commit never reaches the
//! committed state: its workspace simply stays unpublished.
use vstd::prelude::*;

use crate::enums::ERROR_TRANSACTION_NOT_ACTIVE;
use crate::enums::RegError;
use crate::registry::Registry;
use crate::registry::TxModel;
use crate::registry::has_tx;
use crate::registry::lemma_tx_index_is;
use crate::registry::tx_index;
use crate::registry::tx_state;
use crate::registry::visible;
use crate::registry::wf_registry;
use crate::registry::Workspace;
use crate::store::wf_state;

verus! {

/// Handle of one registry transaction.
pub struct Transaction {
    pub id: u64,
}

impl View for Transaction {
    type V = u64;

    open spec fn view(&self) -> u64 {
        self.id
    }
}

impl Transaction {
    /// Begins a transaction: takes a fresh identifier and a workspace
    /// copy of the committed state. Fails only when the registry has run
    /// out of identifiers.
    pub fn new(reg: &mut Registry) -> (r: Result<Transaction, RegError>)
        requires
            wf_registry(old(reg)@),
        ensures
            match r {
                Ok(t) => {
                    &&& old(reg)@.next_tx < u64::MAX
                    &&& t@ == old(reg)@.next_tx
                    &&& final(reg)@.committed == old(reg)@.committed
                    &&& final(reg)@.next_tx == old(reg)@.next_tx + 1
                    &&& final(reg)@.txs == old(reg)@.txs.push(
                        TxModel { tx: t@, state: old(reg)@.committed },
                    )
                    &&& wf_registry(final(reg)@)
                    &&& visible(final(reg)@, Some(t@)) == Some(old(reg)@.committed)
                    &&& forall|tx2: Option<u64>|
                        tx2 != Some(t@) ==> #[trigger] visible(final(reg)@, tx2) == visible(
                            old(reg)@,
                            tx2,
                        )
                },
                Err(e) => {
                    &&& final(reg)@ == old(reg)@
                    &&& e == RegError::OsError(ERROR_TRANSACTION_NOT_ACTIVE)
                    &&& old(reg)@.next_tx == u64::MAX
                },
            },
    {
        if reg.next_tx == u64::MAX {
            return Err(RegError::OsError(ERROR_TRANSACTION_NOT_ACTIVE));
        }
        let id = reg.next_tx;
        reg.next_tx = reg.next_tx + 1;
        let snapshot = reg.committed.snapshot();
        let ghost txs0 = old(reg)@.txs;
        reg.workspaces.push(Workspace { tx: id, state: snapshot });
        let t = Transaction { id };
        proof {
            let txs1 = reg@.txs;
            assert(txs1 =~~= txs0.push(TxModel { tx: id, state: old(reg)@.committed }));
            assert forall|a: int, b: int|
                0 <= a < b < txs1.len() implies (#[trigger] txs1[a].tx) != (#[trigger] txs1[b].tx)
                by {
                if b < txs0.len() {
                    assert(txs0[a].tx != txs0[b].tx);
                } else {
                    assert(txs0[a].tx < old(reg)@.next_tx);
                }
            }
            lemma_tx_index_is(txs1, id, txs0.len() as int);
            assert forall|tx2: Option<u64>|
                tx2 != Some(id) implies #[trigger] visible(reg@, tx2) == visible(
                old(reg)@,
                tx2,
            ) by {
                if tx2 is Some {
                    let id2 = tx2->0;
                    if has_tx(txs0, id2) {
                        let w = tx_index(txs0, id2);
                        lemma_tx_index_is(txs0, id2, w);
                        assert(txs1[w].tx == id2);
                        lemma_tx_index_is(txs1, id2, w);
                    } else {
                        if has_tx(txs1, id2) {
                            let w = choose|w: int| 0 <= w < txs1.len() && txs1[w].tx == id2;
                            if w < txs0.len() {
                                assert(txs0[w].tx == id2);
                            }
                            assert(false);
                        }
                    }
                }
            }
        }
        Ok(t)
    }

    /// Commits the transaction: its workspace becomes the committed
    /// state. Consumes the transaction; fails only when the workspace is
    /// no longer active.
    pub fn commit(self, reg: &mut Registry) -> (r: Result<(), RegError>)
        requires
            wf_registry(old(reg)@),
        ensures
            match r {
                Ok(()) => {
                    &&& has_tx(old(reg)@.txs, self@)
                    &&& final(reg)@.committed == tx_state(old(reg)@.txs, self@)
                    &&& final(reg)@.txs == old(reg)@.txs.remove(tx_index(old(reg)@.txs, self@))
                    &&& final(reg)@.next_tx == old(reg)@.next_tx
                    &&& wf_registry(final(reg)@)
                },
                Err(e) => {
                    &&& final(reg)@ == old(reg)@
                    &&& e == RegError::OsError(ERROR_TRANSACTION_NOT_ACTIVE)
                    &&& !has_tx(old(reg)@.txs, self@)
                },
            },
    {
        match reg.ws_find(self.id) {
            None => Err(RegError::OsError(ERROR_TRANSACTION_NOT_ACTIVE)),
            Some(i) => {
                proof {
                    lemma_tx_index_is(old(reg)@.txs, self.id, i as int);
                }
                let ws = reg.workspaces.remove(i);
                reg.committed = ws.state;
                proof {
                    let txs0 = old(reg)@.txs;
                    assert(reg@.txs =~~= txs0.remove(i as int));
                    lemma_txs_remove_wf(old(reg)@.txs, i as int, old(reg)@.next_tx);
                }
                Ok(())
            },
        }
    }

    /// Rolls the transaction back: its workspace is discarded and the
    /// committed state stays as it was. Consumes the transaction; fails
    /// only when the workspace is no longer active.
    pub fn rollback(self, reg: &mut Registry) -> (r: Result<(), RegError>)
        requires
            wf_registry(old(reg)@),
        ensures
            match r {
                Ok(()) => {
                    &&& has_tx(old(reg)@.txs, self@)
                    &&& final(reg)@.committed == old(reg)@.committed
                    &&& final(reg)@.txs == old(reg)@.txs.remove(tx_index(old(reg)@.txs, self@))
                    &&& final(reg)@.next_tx == old(reg)@.next_tx
                    &&& wf_registry(final(reg)@)
                },
                Err(e) => {
                    &&& final(reg)@ == old(reg)@
                    &&& e == RegError::OsError(ERROR_TRANSACTION_NOT_ACTIVE)
                    &&& !has_tx(old(reg)@.txs, self@)
                },
            },
    {
        match reg.ws_find(self.id) {
            None => Err(RegError::OsError(ERROR_TRANSACTION_NOT_ACTIVE)),
            Some(i) => {
                proof {
                    lemma_tx_index_is(old(reg)@.txs, self.id, i as int);
                }
                reg.workspaces.remove(i);
                proof {
                    let txs0 = old(reg)@.txs;
                    assert(reg@.txs =~~= txs0.remove(i as int));
                    lemma_txs_remove_wf(old(reg)@.txs, i as int, old(reg)@.next_tx);
                }
                Ok(())
            },
        }
    }
}

/// Removing one workspace keeps identifiers unique, below the fresh
/// bound, and every workspace well formed.
proof fn lemma_txs_remove_wf(txs: Seq<TxModel>, i: int, next: u64)
    requires
        0 <= i < txs.len(),
        forall|a: int, b: int|
            0 <= a < b < txs.len() ==> (#[trigger] txs[a].tx) != (#[trigger] txs[b].tx),
        forall|a: int| 0 <= a < txs.len() ==> wf_state(#[trigger] txs[a].state),
        forall|a: int| 0 <= a < txs.len() ==> (#[trigger] txs[a].tx) < next,
    ensures
        forall|a: int, b: int|
            0 <= a < b < txs.remove(i).len() ==> (#[trigger] txs.remove(i)[a].tx)
                != (#[trigger] txs.remove(i)[b].tx),
        forall|a: int| 0 <= a < txs.remove(i).len() ==> wf_state(#[trigger] txs.remove(i)[a].state),
        forall|a: int| 0 <= a < txs.remove(i).len() ==> (#[trigger] txs.remove(i)[a].tx) < next,
{
    let out = txs.remove(i);
    assert forall|a: int, b: int|
        0 <= a < b < out.len() implies (#[trigger] out[a].tx) != (#[trigger] out[b].tx) by {
        let oa: int = if a < i {
            a
        } else {
            a + 1
        };
        let ob: int = if b < i {
            b
        } else {
            b + 1
        };
        assert(out[a] == txs[oa]);
        assert(out[b] == txs[ob]);
        assert(txs[oa].tx != txs[ob].tx);
    }
    assert forall|a: int| 0 <= a < out.len() implies wf_state(#[trigger] out[a].state) by {
        let oa: int = if a < i {
            a
        } else {
            a + 1
        };
        assert(out[a] == txs[oa]);
        assert(wf_state(txs[oa].state));
    }
    assert forall|a: int| 0 <= a < out.len() implies (#[trigger] out[a].tx) < next by {
        let oa: int = if a < i {
            a
        } else {
            a + 1
        };
        assert(out[a] == txs[oa]);
        assert(txs[oa].tx < next);
    }
}

} // verus!

