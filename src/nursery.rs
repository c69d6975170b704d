use vstd::prelude::*;
use crate::error::RtsError;
use crate::message::{out_of_space, out_of_space_message};

verus! {

/// Bookkeeping of the two-halves nursery arena.
#[derive(Debug, Clone, Copy, PartialEq, Eq)]
pub struct Nursery {
    pub from_space_start: u64,
    pub to_space_start: u64,
    pub to_space_end: u64,
    pub alloc_ptr: u64,
    pub alloc_ptr_end: u64,
    pub initialized: bool,
}

impl Nursery {
    /// The bump pointer never passes its end, and the to-half is well formed.
    pub open spec fn wf(&self) -> bool {
        &&& self.alloc_ptr <= self.alloc_ptr_end
        &&& self.to_space_start <= self.to_space_end
    }

    /// Bytes left to the allocator.
    pub open spec fn space(&self) -> int {
        self.alloc_ptr_end - self.alloc_ptr
    }

    pub open spec fn in_from_space(&self) -> bool {
        self.alloc_ptr < self.to_space_start
    }

    pub open spec fn in_to_space(&self) -> bool {
        self.alloc_ptr > self.to_space_start
    }
}

/// Bytes left between the bump pointer and its end.
pub fn allocator_space_available(n: &Nursery) -> (r: u64)
    requires
        n.wf(),
    ensures
        r == n.space(),
{
    n.alloc_ptr_end - n.alloc_ptr
}

/// Whether the allocator bumps in the from-half.
pub fn allocator_in_fromspace(n: &Nursery) -> (r: bool)
    ensures
        r == n.in_from_space(),
{
    n.alloc_ptr < n.to_space_start
}

/// Whether the allocator bumps in the to-half.
pub fn allocator_in_tospace(n: &Nursery) -> (r: bool)
    ensures
        r == n.in_to_space(),
{
    n.alloc_ptr > n.to_space_start
}

/// Points the allocator at the whole to-half.
pub fn allocator_switch_to_tospace(n: &mut Nursery)
    ensures
        *final(n) == (Nursery {
            alloc_ptr: old(n).to_space_start,
            alloc_ptr_end: old(n).to_space_end,
            ..*old(n)
        }),
{
    n.alloc_ptr = n.to_space_start;
    n.alloc_ptr_end = n.to_space_end;
}

/// Takes `size` bytes off the nursery: the start and end of the new block.
pub fn nursery_malloc(n: &mut Nursery, size: u64) -> (r: Result<(u64, u64), RtsError>)
    requires
        old(n).wf(),
    ensures
        final(n).wf(),
        size <= old(n).space() ==> r == Ok::<(u64, u64), RtsError>(
            (old(n).alloc_ptr, (old(n).alloc_ptr + size) as u64),
        ) && *final(n) == (Nursery { alloc_ptr: (old(n).alloc_ptr + size) as u64, ..*old(n) }),
        size > old(n).space() ==> r is Err && r->Err_0 is Gc && r->Err_0->Gc_0@
            == out_of_space_message(size, old(n).space() as u64) && *final(n) == *old(n),
{
    if size <= n.alloc_ptr_end - n.alloc_ptr {
        let old_ptr = n.alloc_ptr;
        n.alloc_ptr = n.alloc_ptr + size;
        Ok((old_ptr, n.alloc_ptr))
    } else {
        Err(out_of_space(size, n.alloc_ptr_end - n.alloc_ptr))
    }
}

} // verus!
