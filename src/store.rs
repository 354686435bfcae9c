use vstd::prelude::*;

verus! {

/// Why a store operation was refused.
#[derive(Clone, Copy, Debug, PartialEq, Eq, Structural)]
pub enum StoreError {
    /// The operation breaks a limit of the format, or a transaction names a key twice.
    InvalidArgument,
    /// The operation is well formed but the store lacks the free words it needs.
    NoCapacity,
}

/// Outcome of a store operation.
pub type StoreResult<T> = Result<T, StoreError>;

/// One change to one key.
#[derive(Clone, Debug, PartialEq, Eq)]
pub enum StoreUpdate {
    /// Sets `key` to `value`, whether or not the key had a value.
    Insert { key: usize, value: Vec<u8> },
    /// Deletes `key`, if present.
    Remove { key: usize },
}

impl StoreUpdate {
    /// The key that the update touches.
    pub open spec fn spec_key(&self) -> usize {
        match self {
            StoreUpdate::Insert { key, .. } => *key,
            StoreUpdate::Remove { key } => *key,
        }
    }

    /// The key that the update touches.
    pub fn key(&self) -> (r: usize)
        ensures
            r == self.spec_key(),
    {
        match self {
            StoreUpdate::Insert { key, .. } => *key,
            StoreUpdate::Remove { key } => *key,
        }
    }

    /// The value that an insertion writes; `None` for a removal.
    pub fn value(&self) -> (r: Option<&[u8]>)
        ensures
            match self {
                StoreUpdate::Insert { value, .. } => r matches Some(v) && v@ == value@,
                StoreUpdate::Remove { .. } => r is None,
            },
    {
        match self {
            StoreUpdate::Insert { value, .. } => Some(value.as_slice()),
            StoreUpdate::Remove { .. } => None,
        }
    }
}

/// Used and total words of a store, as mathematical values.
pub struct RatioView {
    pub used: nat,
    pub total: nat,
}

impl RatioView {
    /// Words still free.
    pub open spec fn remaining(self) -> int {
        self.total - self.used
    }
}

/// How many words of a store are used, out of how many.
#[derive(Clone, Copy, Debug, PartialEq, Eq)]
pub struct StoreRatio {
    used: usize,
    total: usize,
}

impl View for StoreRatio {
    type V = RatioView;

    closed spec fn view(&self) -> RatioView {
        RatioView { used: self.used as nat, total: self.total as nat }
    }
}

impl StoreRatio {
    /// A ratio never uses more words than there are.
    #[verifier::type_invariant]
    pub open spec fn inv(&self) -> bool {
        self@.used <= self@.total
    }

    /// Makes the ratio of `used` words out of `total`.
    pub(crate) fn new(used: usize, total: usize) -> (r: StoreRatio)
        requires
            used <= total,
        ensures
            r@ == (RatioView { used: used as nat, total: total as nat }),
    {
        StoreRatio { used, total }
    }

    /// Words in use.
    pub fn used(&self) -> (r: usize)
        ensures
            r == self@.used,
    {
        self.used
    }

    /// Words in all.
    pub fn total(&self) -> (r: usize)
        ensures
            r == self@.total,
    {
        self.total
    }

    /// Words still free.
    pub fn remaining(&self) -> (r: usize)
        ensures
            r == self@.remaining(),
    {
        proof {
            use_type_invariant(self);
        }
        self.total - self.used
    }
}

} // verus!
