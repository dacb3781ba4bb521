//! Collections of items, and holders of a single item that can be picked up.
use vstd::prelude::*;

verus! {

/// Collection of items. Can be used on a player, chest ...
pub struct Inventory<T> {
    items: Vec<T>,
}

impl<T> Inventory<T> {
    /// The items, in the order they were inserted.
    pub closed spec fn view(&self) -> Seq<T> {
        self.items@
    }

    /// An empty inventory.
    pub fn new() -> (inv: Inventory<T>)
        ensures
            inv.view() == Seq::<T>::empty(),
    {
        Inventory { items: Vec::new() }
    }

    /// Insert a single item.
    pub fn insert(&mut self, item: T)
        ensures
            final(self).view() == old(self).view().push(item),
    {
        self.items.push(item);
    }

    /// Number of items.
    pub fn len(&self) -> (n: usize)
        ensures
            n == self.view().len(),
    {
        self.items.len()
    }

    /// The item at position `i`.
    pub fn get(&self, i: usize) -> (item: &T)
        requires
            i < self.view().len(),
        ensures
            *item == self.view()[i as int],
    {
        &self.items[i]
    }
}

/// Holds a single item until it is picked up.
pub struct InventoryItemHolder<T> {
    pub item: Option<T>,
    /// Whether to despawn the entity if the item is picked up.
    pub despawn_on_pickup: bool,
}

impl<T> InventoryItemHolder<T> {
    /// A holder of `item` that despawns once it is picked up.
    pub fn new(item: T) -> (holder: InventoryItemHolder<T>)
        ensures
            holder.item == Some(item),
            holder.despawn_on_pickup,
    {
        InventoryItemHolder { item: Some(item), despawn_on_pickup: true }
    }

    /// Moves the held item, if any, into `inventory`; the holder is empty afterwards.
    pub fn pick_up(&mut self, inventory: &mut Inventory<T>)
        ensures
            final(self).item is None,
            final(self).despawn_on_pickup == old(self).despawn_on_pickup,
            old(self).item matches Some(item) ==> final(inventory).view() == old(inventory).view().push(item),
            old(self).item is None ==> final(inventory).view() == old(inventory).view(),
    {
        if let Some(item) = self.item.take() {
            inventory.insert(item);
        }
    }
}

} // verus!
