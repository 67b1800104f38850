//! The store's lifecycle laws, stated over the model.
//!
//! Each law takes the store states of a call sequence, constrained exactly
//! as the operations' own contracts describe them, and concludes what a
//! subsequent read of the model yields. Together with the operations'
//! contracts (which tie every result to the model, and every error to its
//! exact condition), they pin down the per-cell lifecycle.

use vstd::prelude::*;
use crate::store::Tiles;

verus! {

/// Initial absence: after a key is declared in a store, every slot of that
/// key's column is vacant, so `has` reports `false` for each of them.
pub proof fn lemma_initial_absence<C>(pre: Tiles<C>, post: Tiles<C>, k: u64, s: usize)
    requires
        post@ == pre@.insert(k, Seq::new(pre.size(), |i: int| Option::<C>::None)),
        s < pre.size(),
    ensures
        post@[k][s as int] is None,
{
}

/// Round trip: a value just stored in a cell is exactly what a read of the
/// same cell yields, so `get` returns `Some` of it and `has` reports `true`.
pub proof fn lemma_insert_round_trip<C>(pre: Tiles<C>, post: Tiles<C>, k: u64, s: usize, v: C)
    requires
        pre.inv(),
        pre.declared(k),
        s < pre.size(),
        post@ == pre@.insert(k, pre@[k].update(s as int, Some(v))),
    ensures
        post@[k][s as int] == Some(v),
{
    pre.lemma_columns_sized();
}

/// Remove clears: storing a value and then removing it leaves the cell
/// vacant, so `has` reports `false`.
pub proof fn lemma_remove_clears<C>(
    pre: Tiles<C>,
    mid: Tiles<C>,
    post: Tiles<C>,
    k: u64,
    s: usize,
    v: C,
)
    requires
        pre.inv(),
        pre.declared(k),
        s < pre.size(),
        mid@ == pre@.insert(k, pre@[k].update(s as int, Some(v))),
        post@ == mid@.insert(k, mid@[k].update(s as int, Option::<C>::None)),
    ensures
        post@[k][s as int] is None,
{
    pre.lemma_columns_sized();
}

/// Take semantics: after a value is stored, the cell holds it, so `take` is
/// owed success and returns it; the state `take` leaves behind has the cell
/// vacant, so a second `take` of the same cell is refused with
/// `ComponentAbsent` and `has` reports `false` (both by `take`'s contract).
pub proof fn lemma_take_semantics<C>(
    pre: Tiles<C>,
    mid: Tiles<C>,
    post: Tiles<C>,
    k: u64,
    s: usize,
    v: C,
)
    requires
        pre.inv(),
        pre.declared(k),
        s < pre.size(),
        mid@ == pre@.insert(k, pre@[k].update(s as int, Some(v))),
        post@ == mid@.insert(k, mid@[k].update(s as int, Option::<C>::None)),
    ensures
        mid.declared(k),
        mid@[k][s as int] == Some(v),
        post.declared(k),
        post@[k][s as int] is None,
{
    pre.lemma_columns_sized();
}

/// Move transfers and vacates: a value stored at the source slot arrives at
/// the target slot after `move_slot`, and the source cell (when distinct
/// from the target) is left vacant.
pub proof fn lemma_move_transfers<C>(
    pre: Tiles<C>,
    mid: Tiles<C>,
    post: Tiles<C>,
    k: u64,
    src: usize,
    dst: usize,
    v: C,
)
    requires
        pre.inv(),
        pre.declared(k),
        src < pre.size(),
        dst < pre.size(),
        mid@ == pre@.insert(k, pre@[k].update(src as int, Some(v))),
        post@.dom() == mid@.dom(),
        forall|k2: u64|
            mid@.dom().contains(k2) ==> post@[k2] == mid@[k2].update(
                src as int,
                Option::<C>::None,
            ).update(dst as int, mid@[k2][src as int]),
    ensures
        post@[k][dst as int] == Some(v),
        src != dst ==> post@[k][src as int] is None,
{
    pre.lemma_columns_sized();
    assert(mid@.dom().contains(k));
    assert(post@[k] == mid@[k].update(src as int, Option::<C>::None).update(
        dst as int,
        mid@[k][src as int],
    ));
}

/// Move overwrites the destination: when both slots hold a value and the
/// source slot is moved onto the destination, the destination ends up with
/// the source's value; the destination's prior value is lost, by design.
pub proof fn lemma_move_overwrites<C>(
    pre: Tiles<C>,
    s1: Tiles<C>,
    s2: Tiles<C>,
    post: Tiles<C>,
    k: u64,
    src: usize,
    dst: usize,
    prior: C,
    moved: C,
)
    requires
        pre.inv(),
        pre.declared(k),
        src < pre.size(),
        dst < pre.size(),
        s1@ == pre@.insert(k, pre@[k].update(dst as int, Some(prior))),
        s2@ == s1@.insert(k, s1@[k].update(src as int, Some(moved))),
        post@.dom() == s2@.dom(),
        forall|k2: u64|
            s2@.dom().contains(k2) ==> post@[k2] == s2@[k2].update(
                src as int,
                Option::<C>::None,
            ).update(dst as int, s2@[k2][src as int]),
    ensures
        post@[k][dst as int] == Some(moved),
        src != dst ==> post@[k][src as int] is None,
{
    pre.lemma_columns_sized();
    assert(s2@.dom().contains(k));
    assert(post@[k] == s2@[k].update(src as int, Option::<C>::None).update(
        dst as int,
        s2@[k][src as int],
    ));
}

} // verus!
