//! Working memory that one caller keeps and lends to each call.
//!
//! The 65,536 slots serve as the matcher's prefix table while encoding and hold
//! the code tables while coding symbols. Nothing is promised of what a call
//! leaves in them, and no call depends on what it finds there.

use vstd::prelude::*;

verus! {

/// 256 KB of scratch memory, reusable across calls.
pub struct Cache([i32; 0x10000]);

impl Cache {
    /// The slots as a sequence of 65,536 numbers.
    pub closed spec fn view(&self) -> Seq<i32> {
        self.0@
    }

    /// A cache with every slot zero.
    pub fn new() -> (r: Self)
        ensures
            r@.len() == 0x10000,
            forall|i: int| 0 <= i < 0x10000 ==> r@[i] == 0,
    {
        Cache([0i32; 0x10000])
    }

    /// The slots, to be overwritten freely.
    pub fn inner_mut(&mut self) -> (r: &mut [i32; 0x10000])
        ensures
            r@ == old(self)@,
            final(self)@ == final(r)@,
    {
        &mut self.0
    }
}

} // verus!
