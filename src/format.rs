use vstd::prelude::*;

verus! {

/// The limits of a store, as mathematical values.
pub struct FormatView {
    /// Storage words available to entries.
    pub total_capacity: nat,
    /// Largest key that an entry may have.
    pub max_key: nat,
    /// Largest value, in bytes.
    pub max_value_len: nat,
    /// Largest number of updates in one transaction.
    pub max_updates: nat,
    /// Bytes in one storage word.
    pub word_size: nat,
}

impl FormatView {
    /// A word holds at least one byte, the size of the largest entry fits in a `usize`, and so
    /// do the capacity and the largest key.
    pub open spec fn wf(self) -> bool {
        &&& self.word_size > 0
        &&& self.max_value_len < usize::MAX
        &&& self.total_capacity <= usize::MAX
        &&& self.max_key <= usize::MAX
    }

    /// Words taken by `len` bytes: the byte count divided by the word size, rounded up.
    pub open spec fn bytes_to_words(self, len: nat) -> nat {
        len / self.word_size + if len % self.word_size == 0 {
            0nat
        } else {
            1nat
        }
    }

    /// Words taken by an entry whose value has `len` bytes: one header word and the payload.
    pub open spec fn entry_size(self, len: nat) -> nat {
        1 + self.bytes_to_words(len)
    }
}

/// Rounding a byte count up to words never gives more words than bytes.
pub proof fn lemma_words_at_most_bytes(f: FormatView, len: nat)
    requires
        f.wf(),
    ensures
        f.bytes_to_words(len) <= len,
{
    let ws = f.word_size as int;
    let l = len as int;
    vstd::arithmetic::div_mod::lemma_fundamental_div_mod(l, ws);
    assert(ws * (l / ws) >= l / ws) by (nonlinear_arith)
        requires
            ws >= 1,
            l / ws >= 0,
    ;
}

/// The fixed configuration of a store: its capacity in words, the bounds on keys, values and
/// transactions, and the word size that converts byte counts into word counts.
#[derive(Clone, Copy, Debug, PartialEq, Eq)]
pub struct Format {
    total_capacity: usize,
    max_key: usize,
    max_value_len: usize,
    max_updates: usize,
    word_size: usize,
}

impl View for Format {
    type V = FormatView;

    closed spec fn view(&self) -> FormatView {
        FormatView {
            total_capacity: self.total_capacity as nat,
            max_key: self.max_key as nat,
            max_value_len: self.max_value_len as nat,
            max_updates: self.max_updates as nat,
            word_size: self.word_size as nat,
        }
    }
}

impl Format {
    /// Every format has a positive word size and a value bound below `usize::MAX`.
    #[verifier::type_invariant]
    pub open spec fn inv(&self) -> bool {
        self@.wf()
    }

    /// Makes a format from its limits; `None` when the word size is zero or the value bound is
    /// `usize::MAX`, so that the size of every entry can be counted in a `usize`.
    pub fn new(
        total_capacity: usize,
        max_key: usize,
        max_value_len: usize,
        max_updates: usize,
        word_size: usize,
    ) -> (r: Option<Format>)
        ensures
            r is Some <==> (word_size > 0 && max_value_len < usize::MAX),
            r matches Some(f) ==> f@ == (FormatView {
                total_capacity: total_capacity as nat,
                max_key: max_key as nat,
                max_value_len: max_value_len as nat,
                max_updates: max_updates as nat,
                word_size: word_size as nat,
            }),
    {
        if word_size == 0 || max_value_len == usize::MAX {
            None
        } else {
            Some(Format { total_capacity, max_key, max_value_len, max_updates, word_size })
        }
    }

    /// Storage words available to entries.
    pub fn total_capacity(&self) -> (r: usize)
        ensures
            r == self@.total_capacity,
    {
        self.total_capacity
    }

    /// Largest key that an entry may have.
    pub fn max_key(&self) -> (r: usize)
        ensures
            r == self@.max_key,
    {
        self.max_key
    }

    /// Largest value, in bytes.
    pub fn max_value_len(&self) -> (r: usize)
        ensures
            r == self@.max_value_len,
    {
        self.max_value_len
    }

    /// Largest number of updates in one transaction.
    pub fn max_updates(&self) -> (r: usize)
        ensures
            r == self@.max_updates,
    {
        self.max_updates
    }

    /// Bytes in one storage word.
    pub fn word_size(&self) -> (r: usize)
        ensures
            r == self@.word_size,
    {
        self.word_size
    }

    /// Words taken by `len` bytes, rounded up.
    pub fn bytes_to_words(&self, len: usize) -> (r: usize)
        ensures
            r == self@.bytes_to_words(len as nat),
    {
        proof {
            use_type_invariant(self);
        }
        let whole = len / self.word_size;
        if len % self.word_size == 0 {
            whole
        } else {
            proof {
                lemma_words_at_most_bytes(self@, len as nat);
            }
            whole + 1
        }
    }
}

} // verus!
