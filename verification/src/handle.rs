use vstd::prelude::*;

verus! {

/// Compact, never-zero handle into dense arena storage.
#[derive(Clone, Copy, Debug, PartialEq, Eq, Hash, Structural)]
pub struct Handle {
    value: u32,
}

impl Handle {
    #[verifier::type_invariant]
    spec fn nonzero(self) -> bool {
        self.value != 0
    }

    /// The number the handle stands for.
    pub closed spec fn spec_get(self) -> u32 {
        self.value
    }

    /// Handles that stand for the same number are the same handle.
    pub proof fn lemma_get_determines(self, other: Handle)
        requires
            self.spec_get() == other.spec_get(),
        ensures
            self == other,
    {
    }

    /// The smallest handle, 1.
    pub fn min() -> (h: Handle)
        ensures
            h.spec_get() == 1,
    {
        Handle { value: 1 }
    }

    /// A handle for `value`, or `None` when `value` is zero.
    pub fn new(value: u32) -> (r: Option<Handle>)
        ensures
            value == 0 ==> r.is_none(),
            value != 0 ==> (r matches Some(h) && h.spec_get() == value),
    {
        if value == 0 {
            None
        } else {
            Some(Handle { value })
        }
    }

    /// The number the handle stands for; never zero.
    pub fn get(self) -> (r: u32)
        ensures
            r == self.spec_get(),
            r != 0,
    {
        proof {
            use_type_invariant(&self);
        }
        self.value
    }
}

} // verus!
