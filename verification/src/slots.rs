//! Tables of numbered slots (descriptors, mutexes, semaphores, condition
//! variables): a new object goes into the lowest empty slot, or into a new slot
//! at the end when none is empty.
use vstd::prelude::*;

verus! {

/// `id` is the lowest empty slot of `slots`, or its length when every slot is
/// taken.
pub open spec fn lowest_free<T>(slots: Seq<Option<T>>, id: int) -> bool {
    &&& 0 <= id <= slots.len()
    &&& id < slots.len() ==> slots[id] is None
    &&& forall|j: int| 0 <= j < id ==> #[trigger] slots[j] is Some
}

/// The table after `item` is put into slot `id`, which is either an existing
/// slot or the next one at the end.
pub open spec fn placed<T>(slots: Seq<Option<T>>, id: int, item: T) -> Seq<Option<T>> {
    if id < slots.len() {
        slots.update(id, Some(item))
    } else {
        slots.push(Some(item))
    }
}

/// Puts `item` into the lowest empty slot, appending a slot when none is empty,
/// and returns the slot's number.
pub fn alloc_slot<T>(slots: &mut Vec<Option<T>>, item: T) -> (id: usize)
    requires
        old(slots).len() < usize::MAX,
    ensures
        lowest_free(old(slots)@, id as int),
        final(slots)@ == placed(old(slots)@, id as int, item),
{
    let mut i: usize = 0;
    while i < slots.len() && slots[i].is_some()
        invariant
            i <= slots.len(),
            forall|j: int| 0 <= j < i ==> #[trigger] slots@[j] is Some,
        decreases slots.len() - i,
    {
        i = i + 1;
    }
    if i < slots.len() {
        slots.set(i, Some(item));
    } else {
        slots.push(Some(item));
    }
    i
}

/// The slot a new object gets is empty beforehand and holds the object
/// afterwards; every other slot keeps what it held, and the table grows by at
/// most one slot.
pub proof fn law_alloc_slot_keeps_others<T>(slots: Seq<Option<T>>, id: int, item: T)
    requires
        lowest_free(slots, id),
    ensures
        placed(slots, id, item)[id] == Some(item),
        id < slots.len() ==> slots[id] is None,
        forall|j: int| 0 <= j < slots.len() && j != id ==> #[trigger] placed(slots, id, item)[j] == slots[j],
        placed(slots, id, item).len() == if id < slots.len() {
            slots.len()
        } else {
            slots.len() + 1
        },
{
}

} // verus!
