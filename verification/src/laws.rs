//! Laws of the key lifecycle and of transactions, stated over the same
//! models the operation contracts use.
//!
//! The codec round-trip laws live in [`crate::types`]
//! ([`crate::types::lemma_u32_round_trip`] and its siblings); the
//! uniqueness of enumerated child names in
//! [`crate::store::lemma_children_names_distinct`].
use vstd::prelude::*;

use crate::RegValueView;
use crate::registry::RegistryModel;
use crate::registry::has_tx;
use crate::registry::tx_state;
use crate::registry::updated_at;
use crate::registry::visible;
use crate::registry::wf_registry;
use crate::store::KeyModel;
use crate::store::has_key;
use crate::store::has_val;
use crate::store::key_at;
use crate::store::lemma_set_value_read_back;
use crate::store::lemma_with_value_wf;
use crate::store::lemma_with_path_facts;
use crate::store::lemma_without_cone;
use crate::store::val_at;
use crate::store::wf_state;
use crate::store::with_path;
use crate::store::with_value;
use crate::store::without_cone;

verus! {

/// Creating a key twice reports it new the first time and existing the
/// second: creating a fresh path establishes its key, so the second
/// creation of the same path finds it present, and both calls return
/// handles to a key that exists and accepts value operations.
pub proof fn lemma_create_twice(m: Seq<KeyModel>, root: u64, target: Seq<Seq<char>>)
    requires
        wf_state(m),
        !has_key(m, root, target),
    ensures
        has_key(with_path(m, root, target), root, target),
        wf_state(with_path(m, root, target)),
{
    lemma_with_path_facts(m, root, target);
}

/// Creating a nested path establishes every intermediate key as well:
/// each prefix of the created path is independently openable afterwards,
/// and every key that existed before still exists.
pub proof fn lemma_create_establishes_intermediates(
    m: Seq<KeyModel>,
    root: u64,
    target: Seq<Seq<char>>,
)
    requires
        wf_state(m),
    ensures
        wf_state(with_path(m, root, target)),
        forall|j: int|
            0 <= j <= target.len() ==> has_key(
                with_path(m, root, target),
                root,
                #[trigger] target.take(j),
            ),
        forall|r2: u64, q: Seq<Seq<char>>|
            has_key(m, r2, q) ==> #[trigger] has_key(with_path(m, root, target), r2, q),
{
    lemma_with_path_facts(m, root, target);
}

/// Deleting a subtree leaves no trace: afterwards neither the target key
/// nor any of its descendants exists, while every key outside the
/// subtree is untouched.
pub proof fn lemma_delete_subtree_leaves_no_trace(
    m: Seq<KeyModel>,
    root: u64,
    target: Seq<Seq<char>>,
)
    requires
        wf_state(m),
        target.len() > 0,
    ensures
        wf_state(without_cone(m, root, target)),
        forall|q: Seq<Seq<char>>|
            target.len() <= q.len() && #[trigger] q.take(target.len() as int) == target
                ==> !has_key(without_cone(m, root, target), root, q),
        forall|r2: u64, q: Seq<Seq<char>>|
            !(r2 == root && target.len() <= q.len() && q.take(target.len() as int) == target)
                ==> #[trigger] has_key(without_cone(m, root, target), r2, q) == has_key(m, r2, q),
{
    lemma_without_cone(m, root, target);
}

/// A value set under a transaction is invisible outside it, and becomes
/// visible exactly by committing: the write lands in the transaction's
/// workspace and leaves the committed state untouched, so rolling back
/// or abandoning the transaction leaves the value absent; the workspace
/// holds the value, so committing (which installs the workspace as the
/// committed state) makes it durably visible.
pub proof fn lemma_transaction_isolation(
    r0: RegistryModel,
    r1: RegistryModel,
    id: u64,
    root: u64,
    path: Seq<Seq<char>>,
    name: Seq<char>,
    v: RegValueView,
)
    requires
        wf_registry(r0),
        visible(r0, Some(id)) matches Some(w) && has_key(w, root, path) && updated_at(
            r0,
            r1,
            Some(id),
            with_value(w, root, path, name, v),
        ),
    ensures
        r1.committed == r0.committed,
        has_tx(r1.txs, id),
        has_val(key_at(tx_state(r1.txs, id), root, path).vals, name),
        val_at(key_at(tx_state(r1.txs, id), root, path).vals, name).val == v,
{
    let w = visible(r0, Some(id))->0;
    let s_new = with_value(w, root, path, name, v);
    lemma_set_value_read_back(w, root, path, name, v);
    lemma_with_value_wf(w, root, path, name, v);
    crate::registry::lemma_updated_at(r0, r1, Some(id), s_new);
    assert(visible(r1, Some(id)) == Some(s_new));
}

} // verus!
