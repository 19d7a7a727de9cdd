//! The registry: one committed store state plus the workspaces of the
//! active transactions.
//!
//! Operations outside any transaction read and write the committed state.
//! Operations under a transaction read and write that transaction's
//! workspace, a private copy taken when the transaction began; the
//! committed state does not change until the transaction commits, and a
//! rolled-back or abandoned workspace never reaches it.
use vstd::prelude::*;

use crate::enums::ERROR_TRANSACTION_NOT_ACTIVE;
use crate::enums::RegError;
use crate::store::KeyModel;
use crate::store::RegState;
use crate::store::wf_state;

verus! {

/// Ghost model of one active transaction: its identifier and workspace.
#[verifier::ext_equal]
pub ghost struct TxModel {
    pub tx: u64,
    pub state: Seq<KeyModel>,
}

/// Ghost model of the registry.
#[verifier::ext_equal]
pub ghost struct RegistryModel {
    pub committed: Seq<KeyModel>,
    pub txs: Seq<TxModel>,
    pub next_tx: u64,
}

/// One active transaction's workspace.
pub struct Workspace {
    pub tx: u64,
    pub state: RegState,
}

impl View for Workspace {
    type V = TxModel;

    open spec fn view(&self) -> TxModel {
        TxModel { tx: self.tx, state: self.state@ }
    }
}

/// The registry: the committed state and the active workspaces.
pub struct Registry {
    pub committed: RegState,
    pub workspaces: Vec<Workspace>,
    pub next_tx: u64,
}

impl View for Registry {
    type V = RegistryModel;

    open spec fn view(&self) -> RegistryModel {
        RegistryModel {
            committed: self.committed@,
            txs: self.workspaces@.map_values(|w: Workspace| w@),
            next_tx: self.next_tx,
        }
    }
}

/// Whether a transaction with the given identifier is active.
pub open spec fn has_tx(txs: Seq<TxModel>, id: u64) -> bool {
    exists|i: int| 0 <= i < txs.len() && txs[i].tx == id
}

/// The index of the active transaction; meaningful when [`has_tx`] holds
/// and identifiers are unique.
pub open spec fn tx_index(txs: Seq<TxModel>, id: u64) -> int {
    choose|i: int| 0 <= i < txs.len() && txs[i].tx == id
}

/// The workspace of the active transaction.
pub open spec fn tx_state(txs: Seq<TxModel>, id: u64) -> Seq<KeyModel> {
    txs[tx_index(txs, id)].state
}

/// The store state an operation sees: the committed state outside any
/// transaction, the transaction's workspace inside one, and nothing when
/// the transaction is no longer active.
pub open spec fn visible(r: RegistryModel, tx: Option<u64>) -> Option<Seq<KeyModel>> {
    match tx {
        None => Some(r.committed),
        Some(id) => if has_tx(r.txs, id) {
            Some(tx_state(r.txs, id))
        } else {
            None
        },
    }
}

/// Well-formedness of the registry: the committed state and every
/// workspace are well formed, transaction identifiers are unique, and all
/// of them are below the next fresh identifier.
pub open spec fn wf_registry(r: RegistryModel) -> bool {
    &&& wf_state(r.committed)
    &&& forall|i: int| 0 <= i < r.txs.len() ==> wf_state(#[trigger] r.txs[i].state)
    &&& forall|i: int, j: int|
        0 <= i < j < r.txs.len() ==> (#[trigger] r.txs[i].tx) != (#[trigger] r.txs[j].tx)
    &&& forall|i: int| 0 <= i < r.txs.len() ==> (#[trigger] r.txs[i].tx) < r.next_tx
}

/// The registry after writing a new store state through the given
/// transaction context: the workspace (or, outside any transaction, the
/// committed state) holds the new state and everything else is unchanged.
pub open spec fn updated_at(
    r_old: RegistryModel,
    r_new: RegistryModel,
    tx: Option<u64>,
    s_new: Seq<KeyModel>,
) -> bool {
    match tx {
        None => {
            &&& r_new.committed == s_new
            &&& r_new.txs == r_old.txs
            &&& r_new.next_tx == r_old.next_tx
        },
        Some(id) => {
            let i = tx_index(r_old.txs, id);
            &&& has_tx(r_old.txs, id)
            &&& r_new.committed == r_old.committed
            &&& r_new.next_tx == r_old.next_tx
            &&& r_new.txs.len() == r_old.txs.len()
            &&& r_new.txs[i].tx == id
            &&& r_new.txs[i].state == s_new
            &&& forall|j: int|
                0 <= j < r_old.txs.len() && j != i ==> (#[trigger] r_new.txs[j]) == r_old.txs[j]
        },
    }
}

/// With unique identifiers, any index holding the identifier is the
/// identifier's index.
pub proof fn lemma_tx_index_is(txs: Seq<TxModel>, id: u64, i: int)
    requires
        forall|a: int, b: int|
            0 <= a < b < txs.len() ==> (#[trigger] txs[a].tx) != (#[trigger] txs[b].tx),
        0 <= i < txs.len(),
        txs[i].tx == id,
    ensures
        has_tx(txs, id),
        tx_index(txs, id) == i,
        tx_state(txs, id) == txs[i].state,
{
    assert(has_tx(txs, id));
    let j = tx_index(txs, id);
    assert(0 <= j < txs.len() && txs[j].tx == id);
    if i < j {
        assert(txs[i].tx != txs[j].tx);
    } else if j < i {
        assert(txs[j].tx != txs[i].tx);
    }
}

/// Writing a well-formed state through a transaction context keeps the
/// registry well formed; what the context sees is the new state, what any
/// other context sees is unchanged.
pub proof fn lemma_updated_at(
    r_old: RegistryModel,
    r_new: RegistryModel,
    tx: Option<u64>,
    s_new: Seq<KeyModel>,
)
    requires
        wf_registry(r_old),
        updated_at(r_old, r_new, tx, s_new),
        wf_state(s_new),
    ensures
        wf_registry(r_new),
        visible(r_new, tx) == Some(s_new),
        forall|tx2: Option<u64>| tx2 != tx ==> #[trigger] visible(r_new, tx2) == visible(
            r_old,
            tx2,
        ),
        r_new.next_tx == r_old.next_tx,
{
    match tx {
        None => {
            assert(visible(r_new, None::<u64>) == Some(s_new));
            assert forall|tx2: Option<u64>| tx2 != tx implies #[trigger] visible(r_new, tx2)
                == visible(r_old, tx2) by {
                if tx2 is Some {
                    let id2 = tx2->0;
                    if has_tx(r_old.txs, id2) {
                        let w = tx_index(r_old.txs, id2);
                        lemma_tx_index_is(r_old.txs, id2, w);
                    }
                    if has_tx(r_new.txs, id2) {
                        let w = tx_index(r_new.txs, id2);
                        lemma_tx_index_is(r_new.txs, id2, w);
                    }
                }
            }
        },
        Some(id) => {
            let i = tx_index(r_old.txs, id);
            let w0 = choose|w: int| 0 <= w < r_old.txs.len() && r_old.txs[w].tx == id;
            assert(0 <= i < r_old.txs.len() && r_old.txs[i].tx == id);
            assert(r_new.txs[i].tx == id);
            assert forall|a: int, b: int|
                0 <= a < b < r_new.txs.len() implies (#[trigger] r_new.txs[a].tx)
                != (#[trigger] r_new.txs[b].tx) by {
                assert(r_old.txs[a].tx != r_old.txs[b].tx);
                if a != i {
                    assert(r_new.txs[a] == r_old.txs[a]);
                }
                if b != i {
                    assert(r_new.txs[b] == r_old.txs[b]);
                }
            }
            assert forall|a: int| 0 <= a < r_new.txs.len() implies wf_state(
                #[trigger] r_new.txs[a].state,
            ) by {
                if a != i {
                    assert(r_new.txs[a] == r_old.txs[a]);
                    assert(wf_state(r_old.txs[a].state));
                }
            }
            assert forall|a: int| 0 <= a < r_new.txs.len() implies (#[trigger] r_new.txs[a].tx)
                < r_new.next_tx by {
                if a != i {
                    assert(r_new.txs[a] == r_old.txs[a]);
                }
                assert(r_old.txs[a].tx < r_old.next_tx);
            }
            lemma_tx_index_is(r_new.txs, id, i);
            assert(visible(r_new, tx) == Some(s_new));
            assert forall|tx2: Option<u64>| tx2 != tx implies #[trigger] visible(r_new, tx2)
                == visible(r_old, tx2) by {
                if tx2 is Some {
                    let id2 = tx2->0;
                    if has_tx(r_old.txs, id2) {
                        let w = tx_index(r_old.txs, id2);
                        lemma_tx_index_is(r_old.txs, id2, w);
                        assert(w != i);
                        assert(r_new.txs[w].tx == id2);
                        lemma_tx_index_is(r_new.txs, id2, w);
                    } else {
                        if has_tx(r_new.txs, id2) {
                            let w = choose|w: int|
                                0 <= w < r_new.txs.len() && r_new.txs[w].tx == id2;
                            if w == i {
                                assert(false);
                            }
                            assert(r_old.txs[w].tx == id2);
                        }
                    }
                }
            }
        },
    }
}

/// Writing back the very state a transaction context already sees leaves
/// the registry as it was.
pub proof fn lemma_updated_at_noop(
    r_old: RegistryModel,
    r_new: RegistryModel,
    tx: Option<u64>,
    s: Seq<KeyModel>,
)
    requires
        wf_registry(r_old),
        visible(r_old, tx) == Some(s),
        updated_at(r_old, r_new, tx, s),
    ensures
        r_new == r_old,
{
    match tx {
        None => {
            assert(r_new =~~= r_old);
        },
        Some(id) => {
            let i = tx_index(r_old.txs, id);
            let w = choose|w: int| 0 <= w < r_old.txs.len() && r_old.txs[w].tx == id;
            assert(0 <= i < r_old.txs.len() && r_old.txs[i].tx == id);
            assert(r_new.txs[i] =~~= r_old.txs[i]);
            assert(r_new.txs =~~= r_old.txs);
            assert(r_new =~~= r_old);
        },
    }
}

impl Registry {
    /// A fresh registry: the initial committed store, no active
    /// transaction.
    pub fn new() -> (r: Self)
        ensures
            r@.committed == crate::store::init_state(),
            r@.txs == Seq::<TxModel>::empty(),
            r@.next_tx == 0,
            wf_registry(r@),
    {
        let r = Registry { committed: RegState::new(), workspaces: Vec::new(), next_tx: 0 };
        proof {
            assert(r@.txs =~= Seq::<TxModel>::empty());
        }
        r
    }

    /// Finds the workspace of an active transaction.
    pub fn ws_find(&self, id: u64) -> (r: Option<usize>)
        ensures
            r matches Some(i) ==> i < self@.txs.len() && self@.txs[i as int].tx == id,
            r is None ==> !has_tx(self@.txs, id),
    {
        let n = self.workspaces.len();
        let mut i: usize = 0;
        while i < n
            invariant
                i <= n,
                n == self@.txs.len(),
                forall|j: int| 0 <= j < i ==> (#[trigger] self@.txs[j].tx) != id,
            decreases n - i,
        {
            if self.workspaces[i].tx == id {
                return Some(i);
            }
            i = i + 1;
        }
        proof {
            if has_tx(self@.txs, id) {
                let w = choose|w: int| 0 <= w < self@.txs.len() && self@.txs[w].tx == id;
                assert(self@.txs[w].tx != id);
            }
        }
        None
    }

    /// Whether the store state the given transaction context sees exists:
    /// always outside a transaction, and inside one exactly while it is
    /// active.
    pub fn tx_live(&self, tx: Option<u64>) -> (r: bool)
        ensures
            r == (visible(self@, tx) is Some),
    {
        match tx {
            None => true,
            Some(id) => match self.ws_find(id) {
                Some(i) => {
                    proof {
                        assert(has_tx(self@.txs, id));
                    }
                    true
                },
                None => false,
            },
        }
    }

    /// Borrows the store state the given transaction context sees.
    pub fn state_ref(&self, tx: Option<u64>) -> (r: Result<&RegState, RegError>)
        requires
            wf_registry(self@),
        ensures
            match r {
                Ok(st) => visible(self@, tx) == Some(st@) && wf_state(st@),
                Err(e) => e == RegError::OsError(ERROR_TRANSACTION_NOT_ACTIVE) && visible(
                    self@,
                    tx,
                ) is None,
            },
    {
        match tx {
            None => Ok(&self.committed),
            Some(id) => match self.ws_find(id) {
                Some(i) => {
                    proof {
                        lemma_tx_index_is(self@.txs, id, i as int);
                    }
                    Ok(&self.workspaces[i].state)
                },
                None => Err(RegError::OsError(ERROR_TRANSACTION_NOT_ACTIVE)),
            },
        }
    }

    /// Borrows, for writing, the store state the given transaction
    /// context sees; the caller's writes land in the workspace (or, with
    /// no transaction, the committed state) and nowhere else.
    pub fn state_mut(&mut self, tx: Option<u64>) -> (st: &mut RegState)
        requires
            wf_registry(old(self)@),
            visible(old(self)@, tx) is Some,
        ensures
            visible(old(self)@, tx) == Some((*st)@),
            wf_state((*st)@),
            updated_at(old(self)@, final(self)@, tx, (*final(st))@),
    {
        match tx {
            None => &mut self.committed,
            Some(id) => {
                let found = self.ws_find(id);
                match found {
                    Some(i) => {
                        proof {
                            lemma_tx_index_is(self@.txs, id, i as int);
                        }
                        let w = &mut self.workspaces[i];
                        let st = &mut w.state;
                        st
                    },
                    None => {
                        proof {
                            assert(false);
                        }
                        &mut self.committed
                    },
                }
            },
        }
    }
}

} // verus!
