use vstd::prelude::*;

verus! {

/// Number of gold pieces held by an inventory.
pub type Gold = u64;

/// A game item: a value type with identity-based equality and a stacking
/// bound. Two items are the same kind exactly when all their fields are
/// equal; `stack_size` is the largest number of units one slot may hold.
#[derive(Clone, Copy, PartialEq, Eq, Structural, Debug)]
pub struct Item {
    pub id: u64,
    pub stack_size: usize,
}

impl Item {
    /// An item is meaningful only with a positive stacking bound.
    pub open spec fn wf(self) -> bool {
        self.stack_size >= 1
    }
}

/// A single slot of the inventory: one item kind and how many units of it
/// the slot holds.
#[derive(Clone, Copy, Debug)]
pub struct InventorySlot {
    pub item: Item,
    pub amount: usize,
}

impl InventorySlot {
    /// A slot always holds at least one unit and never more than the
    /// item's stacking bound.
    pub open spec fn wf(self) -> bool {
        1 <= self.amount <= self.item.stack_size
    }
}

/// One more unit of `it` fits into `slot`: same item kind, and the slot is
/// not yet at the item's stacking bound.
pub open spec fn can_stack(slot: InventorySlot, it: Item) -> bool {
    slot.item == it && slot.amount < slot.item.stack_size
}

/// Some slot of `contents` can take one more unit of `it`.
pub open spec fn has_stackable(contents: Seq<InventorySlot>, it: Item) -> bool {
    exists|i: int| 0 <= i < contents.len() && can_stack(contents[i], it)
}

/// `i` is the first slot of `contents`, in insertion order, that can take
/// one more unit of `it`.
pub open spec fn is_first_stackable(contents: Seq<InventorySlot>, it: Item, i: int) -> bool {
    &&& 0 <= i < contents.len()
    &&& can_stack(contents[i], it)
    &&& forall|j: int| 0 <= j < i ==> !can_stack(contents[j], it)
}

/// `contents` with one more unit in slot `i`.
pub open spec fn topped_up(contents: Seq<InventorySlot>, i: int) -> Seq<InventorySlot>
    recommends
        0 <= i < contents.len(),
{
    contents.update(i, InventorySlot { item: contents[i].item, amount: (contents[i].amount + 1) as usize })
}

/// A brand-new slot holding a single unit of `it`.
pub open spec fn fresh_slot(it: Item) -> InventorySlot {
    InventorySlot { item: it, amount: 1 }
}

/// An inventory holding items: an ordered sequence of slots (insertion
/// order), a gold counter, and a fixed capacity in slots.
#[derive(Debug)]
pub struct Inventory {
    pub contents: Vec<InventorySlot>,
    pub gold: Gold,
    pub max_size: usize,
}

impl Inventory {
    /// The inventory never holds more slots than its capacity, and every
    /// slot respects its item's stacking bound.
    pub open spec fn wf(self) -> bool {
        &&& self.contents@.len() <= self.max_size
        &&& forall|i: int| 0 <= i < self.contents@.len() ==> self.contents@[i].wf()
    }

    /// Creates a new instance of `Inventory`: empty, with zero gold and the
    /// given capacity. A capacity of zero is legal and yields an inventory
    /// that is full from the start.
    pub fn new(max_size: usize) -> (inv: Inventory)
        ensures
            inv.contents@.len() == 0,
            inv.gold == 0,
            inv.max_size == max_size,
            inv.wf(),
    {
        Inventory { contents: Vec::new(), max_size: max_size, gold: 0 }
    }

    /// Adds one unit of an item to the inventory. The slots are scanned in
    /// insertion order; the first slot holding an equal item below its
    /// stacking bound gains one unit. Failing that, a new single-unit slot
    /// is appended while capacity remains; otherwise nothing changes and
    /// the rejected item is handed back in `Err`.
    pub fn add_item(&mut self, new_item: Item) -> (r: Result<(), Item>)
        requires
            old(self).wf(),
            new_item.wf(),
        ensures
            final(self).wf(),
            final(self).gold == old(self).gold,
            final(self).max_size == old(self).max_size,
            has_stackable(old(self).contents@, new_item) ==> (
                r is Ok
                && (exists|i: int|
                    is_first_stackable(old(self).contents@, new_item, i)
                    && final(self).contents@ == topped_up(old(self).contents@, i))
            ),
            !has_stackable(old(self).contents@, new_item)
                && old(self).contents@.len() < old(self).max_size ==> (
                r is Ok
                && final(self).contents@ == old(self).contents@.push(fresh_slot(new_item))
            ),
            !has_stackable(old(self).contents@, new_item)
                && old(self).contents@.len() >= old(self).max_size ==> (
                r == Err::<(), Item>(new_item)
                && final(self).contents@ == old(self).contents@
            ),
    {
        let n: usize = self.contents.len();
        let mut idx: usize = 0;
        while idx < n
            invariant
                idx <= n,
                n == self.contents@.len(),
                *self == *old(self),
                old(self).wf(),
                new_item.wf(),
                forall|j: int| 0 <= j < idx ==> !can_stack(self.contents@[j], new_item),
            decreases n - idx,
        {
            if self.contents[idx].item == new_item {
                if self.contents[idx].item.stack_size > self.contents[idx].amount {
                    let slot: InventorySlot = self.contents[idx];
                    self.contents.set(idx, InventorySlot { item: slot.item, amount: slot.amount + 1 });
                    proof {
                        let oc = old(self).contents@;
                        assert(can_stack(oc[idx as int], new_item));
                        assert(is_first_stackable(oc, new_item, idx as int));
                        assert(has_stackable(oc, new_item));
                        assert(self.contents@ =~= topped_up(oc, idx as int));
                        assert forall|k: int| 0 <= k < self.contents@.len() implies self.contents@[k].wf() by {
                            if k != idx as int {
                                assert(self.contents@[k] == oc[k]);
                            }
                        }
                    }
                    return Ok(());
                }
            }
            idx = idx + 1;
        }
        proof {
            assert(!has_stackable(old(self).contents@, new_item));
        }
        if self.contents.len() < self.max_size {
            self.contents.push(InventorySlot { item: new_item, amount: 1 });
            proof {
                let oc = old(self).contents@;
                assert(self.contents@ =~= oc.push(fresh_slot(new_item)));
                assert forall|k: int| 0 <= k < self.contents@.len() implies self.contents@[k].wf() by {
                    if k < oc.len() {
                        assert(self.contents@[k] == oc[k]);
                    }
                }
            }
            Ok(())
        } else {
            Err(new_item)
        }
    }

    /// Returns `true` if the inventory is full: the slot count has reached
    /// the capacity exactly.
    pub fn is_full(&self) -> (r: bool)
        ensures
            r == (self.contents@.len() == self.max_size),
    {
        self.contents.len() == self.max_size
    }
}

/// Capacity law: a well-formed inventory never holds more slots than its
/// capacity. `new` establishes well-formedness and `add_item` preserves it,
/// so the bound holds at every point of any sequence of `add_item` calls.
pub proof fn lemma_capacity_bound(inv: Inventory)
    requires
        inv.wf(),
    ensures
        inv.contents@.len() <= inv.max_size,
{
}

} // verus!
