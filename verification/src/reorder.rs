//! The reorder buffer: blocks that come back early wait here, keyed by
//! their position in the stream, until their turn comes.

use std::collections::BTreeMap;
use vstd::prelude::*;
use vstd::pervasive::unreached;

use crate::block::Tcontent;

verus! {

broadcast use vstd::std_specs::btree::group_btree_axioms;

/// Blocks waiting to be written, keyed by their `order`.
pub struct Reorder {
    storage: BTreeMap<u64, Tcontent>,
}

impl View for Reorder {
    type V = Map<u64, Tcontent>;

    closed spec fn view(&self) -> Map<u64, Tcontent> {
        self.storage@
    }
}

impl Reorder {
    /// Every stored block sits under its own order.
    pub open spec fn holds_own_orders(&self) -> bool {
        forall|k: u64| #[trigger] self@.contains_key(k) ==> self@[k].order == k
    }

    /// An empty buffer.
    pub fn new() -> (r: Reorder)
        ensures
            r@ == Map::<u64, Tcontent>::empty(),
            r@.dom().finite(),
            r.holds_own_orders(),
    {
        Reorder { storage: BTreeMap::<u64, Tcontent>::new() }
    }

    /// Stores `item` under its own `order`, replacing any block stored there.
    pub fn enqueue(&mut self, item: Tcontent)
        ensures
            final(self)@ == old(self)@.insert(item.order, item),
            final(self)@.dom().finite(),
            old(self).holds_own_orders() ==> final(self).holds_own_orders(),
    {
        let ghost before = *self;
        let key = item.order;
        self.storage.insert(key, item);
        proof {
            if before.holds_own_orders() {
                assert forall|k: u64| #[trigger] self@.contains_key(k) implies self@[k].order == k by {
                    if k != key {
                        assert(before@.contains_key(k));
                    }
                }
            }
        }
    }

    /// Whether a block is stored under `order`.
    pub fn contains(&self, order: u64) -> (b: bool)
        ensures
            b == self@.contains_key(order),
    {
        self.storage.contains_key(&order)
    }

    /// Takes out the block stored under `order`, if there is one.
    pub fn remove(&mut self, order: u64) -> (r: Option<Tcontent>)
        ensures
            final(self)@ == old(self)@.remove(order),
            r == (if old(self)@.contains_key(order) {
                Some(old(self)@[order])
            } else {
                None
            }),
            final(self)@.dom().finite(),
            final(self)@.len() == old(self)@.len() - (if r is Some {
                1int
            } else {
                0int
            }),
            old(self).holds_own_orders() ==> {
                &&& final(self).holds_own_orders()
                &&& r matches Some(t) ==> t.order == order
            },
    {
        proof {
            assert(self.storage@.dom().finite());
        }
        if self.storage.contains_key(&order) {
            let removed_item = self.storage.remove(&order);
            match removed_item {
                Some(value) => Some(value),
                None => unreached(),
            }
        } else {
            proof {
                assert(self.storage@.remove(order) =~= self.storage@);
            }
            None
        }
    }
}

/// A block stored in the buffer is the one handed back when its order is
/// asked for, and taking it out leaves the buffer as if it had never been
/// stored.
pub proof fn lemma_remove_returns_enqueued(m: Map<u64, Tcontent>, item: Tcontent)
    ensures
        m.insert(item.order, item).contains_key(item.order),
        m.insert(item.order, item)[item.order] == item,
        m.insert(item.order, item).remove(item.order) == m.remove(item.order),
{
    assert(m.insert(item.order, item).remove(item.order) =~= m.remove(item.order));
}

} // verus!
