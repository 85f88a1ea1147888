//! Index types of the packed design.
use vstd::prelude::*;

verus! {

/// The value that stands for "none" in a 63-bit link.
pub const SENTINEL_NONE: u64 = 0x7fff_ffff_ffff_ffffu64;

/// A slot index stored shifted by one, so that it is never zero.
#[derive(Copy, Clone)]
pub struct NonZeroIndex(usize);

impl NonZeroIndex {
    /// The stored value is never zero.
    #[verifier::type_invariant]
    spec fn never_zero(self) -> bool {
        self.0 != 0
    }

    /// The index.
    pub closed spec fn index(self) -> int {
        self.0 - 1
    }

    /// The stored, shifted value.
    pub closed spec fn stored(self) -> usize {
        self.0
    }

    /// The index `index`.
    pub fn from_raw(index: usize) -> (r: Self)
        requires
            index < usize::MAX,
        ensures
            r.index() == index,
            r.stored() == index + 1,
    {
        Self(index + 1)
    }

    /// The index itself.
    pub fn to_raw(self) -> (r: usize)
        ensures
            r == self.index(),
    {
        proof {
            use_type_invariant(&self);
        }
        self.0 - 1
    }
}

/// A 64-bit link in which one value stands for "none".
pub trait SentinelNoneValue {
    /// The 64 bits of the link.
    spec fn bits64(&self) -> u64;

    /// The 64 bits of the link.
    fn as_64(&self) -> (r: u64)
        ensures
            r == self.bits64(),
    ;

    /// The link, or `None` for the sentinel.
    fn as_optional(&self) -> (r: Option<u64>)
        ensures
            r == (if self.bits64() == SENTINEL_NONE {
                None
            } else {
                Some(self.bits64())
            }),
    {
        let value = self.as_64();
        if value == SENTINEL_NONE {
            None
        } else {
            Some(value)
        }
    }
}

impl SentinelNoneValue for u64 {
    open spec fn bits64(&self) -> u64 {
        *self
    }

    fn as_64(&self) -> (r: u64) {
        *self
    }
}

impl SentinelNoneValue for NonZeroIndex {
    open spec fn bits64(&self) -> u64 {
        self.stored() as u64
    }

    fn as_64(&self) -> (r: u64) {
        self.0 as u64
    }
}

} // verus!
