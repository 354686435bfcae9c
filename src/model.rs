use vstd::prelude::*;

use crate::content::{
    clear_content, content_of, keys_increasing, lemma_content_absent, lemma_content_at,
    lemma_content_insert, lemma_content_remove, lemma_content_take_step, lemma_content_truncate,
    lemma_content_update, lemma_used_below_insert, lemma_used_below_set, lemma_used_below_submap,
    splits_at, used_below, used_words,
};
use crate::format::{Format, FormatView};
use crate::rules::{
    apply_update, apply_updates, inserted_size, lemma_inserted_at_most_cost,
    lemma_updates_size_prefix, transaction_cost, transaction_valid, update_size, update_valid,
    updates_size,
};
use crate::store::{StoreError, StoreRatio, StoreResult, StoreUpdate};

verus! {

/// Models the mutable operations of a store: its logical content and the words that content
/// takes.
///
/// The capacity it reports is the ideal one, reached when the storage is fully compacted: a
/// store must always be able to offer at least this much free space, not that it has it on
/// the medium at every moment.
#[derive(Clone, Debug)]
pub struct StoreModel {
    /// Entries of the store, by strictly increasing key.
    content: Vec<(usize, Vec<u8>)>,
    /// The modeled storage configuration.
    format: Format,
}

/// Mutable operations on a store.
#[derive(Clone, Debug)]
pub enum StoreOperation {
    /// Applies a transaction.
    Transaction {
        /// The updates, on distinct keys.
        updates: Vec<StoreUpdate>,
    },
    /// Deletes every entry whose key is at least `min_key`.
    Clear {
        /// The smallest key that is deleted.
        min_key: usize,
    },
    /// Asks that `length` words be free once the store is compacted.
    Prepare {
        /// Words that must be free.
        length: usize,
    },
}

impl View for StoreModel {
    type V = Map<usize, Seq<u8>>;

    closed spec fn view(&self) -> Map<usize, Seq<u8>> {
        content_of(self.content@)
    }
}

impl StoreModel {
    /// The limits of the store.
    pub closed spec fn spec_format(&self) -> FormatView {
        self.format@
    }

    /// The entries are ordered by key, respect the format, and fit in its capacity.
    pub closed spec fn wf(&self) -> bool {
        &&& keys_increasing(self.content@)
        &&& forall|i: int|
            0 <= i < self.content@.len() ==> {
                &&& (#[trigger] self.content@[i]).0 <= self.format@.max_key
                &&& self.content@[i].1@.len() <= self.format@.max_value_len
            }
        &&& self.format@.wf()
        &&& used_words(self@, self.format@) <= self.format@.total_capacity
    }

    /// Every key is at most `max_key`, every value has at most `max_value_len` bytes, and the
    /// content fits in the capacity of the format.
    pub open spec fn within_format(&self) -> bool {
        &&& forall|k: usize| #[trigger]
            self@.contains_key(k) ==> k <= self.spec_format().max_key && self@[k].len()
                <= self.spec_format().max_value_len
        &&& self.used() <= self.spec_format().total_capacity
        &&& self.spec_format().wf()
    }

    /// A well-formed model respects its format.
    pub proof fn lemma_wf_within(&self)
        requires
            self.wf(),
        ensures
            self.within_format(),
    {
        lemma_bounds_to_map(self.content@, self.format@);
    }

    /// Words that the content takes.
    pub open spec fn used(&self) -> nat {
        used_words(self@, self.spec_format())
    }

    /// Words still free.
    pub open spec fn remaining(&self) -> int {
        self.spec_format().total_capacity - self.used()
    }

    /// Whether an operation succeeds, and with which error it fails.
    pub open spec fn outcome(&self, op: StoreOperation) -> StoreResult<()> {
        let f = self.spec_format();
        match op {
            StoreOperation::Transaction { updates } => {
                if !transaction_valid(f, updates@) {
                    Err(StoreError::InvalidArgument)
                } else if self.remaining() < transaction_cost(f, updates@) {
                    Err(StoreError::NoCapacity)
                } else {
                    Ok(())
                }
            },
            StoreOperation::Clear { min_key } => {
                if min_key > f.max_key {
                    Err(StoreError::InvalidArgument)
                } else {
                    Ok(())
                }
            },
            StoreOperation::Prepare { length } => {
                if self.remaining() < length {
                    Err(StoreError::NoCapacity)
                } else {
                    Ok(())
                }
            },
        }
    }

    /// The content after an operation that succeeds.
    pub open spec fn content_after(&self, op: StoreOperation) -> Map<usize, Seq<u8>> {
        match op {
            StoreOperation::Transaction { updates } => apply_updates(self@, updates@),
            StoreOperation::Clear { min_key } => clear_content(self@, min_key),
            StoreOperation::Prepare { .. } => self@,
        }
    }

    /// Creates an empty model for a given storage configuration.
    pub fn new(format: Format) -> (r: StoreModel)
        ensures
            r.wf(),
            r@ == Map::<usize, Seq<u8>>::empty(),
            r.spec_format() == format@,
            r.used() == 0,
            r.within_format(),
    {
        proof {
            use_type_invariant(&format);
        }
        let r = StoreModel { content: Vec::new(), format };
        proof {
            assert(r@ =~= Map::<usize, Seq<u8>>::empty());
            lemma_used_below_empty(r@, r.format@, r.format@.max_key + 1);
            r.lemma_wf_within();
        }
        r
    }

    /// Returns the entries of the store, by strictly increasing key.
    pub fn content(&self) -> (r: &Vec<(usize, Vec<u8>)>)
        requires
            self.wf(),
        ensures
            keys_increasing(r@),
            content_of(r@) == self@,
            self.within_format(),
    {
        proof {
            self.lemma_wf_within();
        }
        &self.content
    }

    /// Returns the storage configuration.
    pub fn format(&self) -> (r: &Format)
        ensures
            r@ == self.spec_format(),
    {
        &self.format
    }

    /// Returns the capacity according to the model.
    pub fn capacity(&self) -> (r: StoreRatio)
        requires
            self.wf(),
        ensures
            r@.used == self.used(),
            r@.total == self.spec_format().total_capacity,
            self.within_format(),
            self@.dom().finite(),
            r@.used >= self@.dom().len(),
            r@.used == 0 <==> self@.dom().is_empty(),
    {
        proof {
            self.lemma_wf_within();
            lemma_content_len(self.content@);
        }
        let ghost s = self.content@;
        let ghost f = self.format@;
        let total = self.format.total_capacity();
        let mut used: usize = 0;
        let mut i: usize = 0;
        proof {
            assert(content_of(s.take(0)) =~= Map::<usize, Seq<u8>>::empty());
            lemma_used_below_empty(content_of(s.take(0)), f, f.max_key + 1);
        }
        while i < self.content.len()
            invariant
                self.wf(),
                s == self.content@,
                f == self.format@,
                i <= s.len(),
                used == used_words(content_of(s.take(i as int)), f),
                used >= i,
            decreases s.len() - i,
        {
            proof {
                lemma_content_take_step(s, i as int);
                lemma_used_below_insert(
                    content_of(s.take(i as int)),
                    f,
                    s[i as int].0,
                    s[i as int].1@,
                    f.max_key + 1,
                );
                lemma_taken_within(s, i as int + 1);
                lemma_used_below_submap(content_of(s.take(i as int + 1)), self@, f, f.max_key + 1);
            }
            let size = self.entry_size(self.content[i].1.as_slice());
            used = used + size;
            i = i + 1;
        }
        proof {
            assert(s.take(s.len() as int) =~= s);
            if s.len() == 0 {
                assert(content_of(s).dom() =~= Set::<usize>::empty());
            }
        }
        StoreRatio::new(used, total)
    }

    /// Simulates a store operation.
    ///
    /// On success the content becomes `content_after(op)`; on failure nothing changes.
    pub fn apply(&mut self, operation: StoreOperation) -> (r: StoreResult<()>)
        requires
            old(self).wf(),
        ensures
            final(self).wf(),
            final(self).within_format(),
            final(self).spec_format() == old(self).spec_format(),
            r == old(self).outcome(operation),
            r is Ok ==> final(self)@ == old(self).content_after(operation),
            r is Err ==> *final(self) == *old(self),
    {
        let r = match operation {
            StoreOperation::Transaction { updates } => self.transaction(updates),
            StoreOperation::Clear { min_key } => self.clear(min_key),
            StoreOperation::Prepare { length } => self.prepare(length),
        };
        proof {
            self.lemma_wf_within();
        }
        r
    }

    /// Applies a transaction: checks it whole, then its cost, and only then writes its updates.
    fn transaction(&mut self, updates: Vec<StoreUpdate>) -> (r: StoreResult<()>)
        requires
            old(self).wf(),
        ensures
            final(self).wf(),
            final(self).format == old(self).format,
            r == old(self).outcome(StoreOperation::Transaction { updates }),
            r is Ok ==> final(self)@ == apply_updates(old(self)@, updates@),
            r is Err ==> *final(self) == *old(self),
    {
        let ghost f = self.format@;
        let ghost ups = updates@;
        let n = updates.len();
        // Fail if too many updates.
        if n > self.format.max_updates() {
            return Err(StoreError::InvalidArgument);
        }
        // Fail if an update is invalid.
        let mut i: usize = 0;
        while i < n
            invariant
                n == ups.len(),
                ups == updates@,
                f == self.format@,
                *self == *old(self),
                self.wf(),
                i <= n,
                forall|j: int| 0 <= j < i ==> update_valid(f, #[trigger] ups[j]),
            decreases n - i,
        {
            if !self.update_valid(&updates[i]) {
                return Err(StoreError::InvalidArgument);
            }
            i = i + 1;
        }
        // Fail if two updates touch the same key.
        let mut i: usize = 0;
        while i < n
            invariant
                n == ups.len(),
                ups == updates@,
                *self == *old(self),
                self.wf(),
                i <= n,
                forall|a: int, b: int| 0 <= a < b < i ==> ups[a].spec_key() != ups[b].spec_key(),
            decreases n - i,
        {
            let key = updates[i].key();
            let mut j: usize = 0;
            while j < i
                invariant
                    n == ups.len(),
                    ups == updates@,
                    *self == *old(self),
                    self.wf(),
                    i < n,
                    j <= i,
                    key == ups[i as int].spec_key(),
                    forall|a: int| 0 <= a < j ==> ups[a].spec_key() != key,
                decreases i - j,
            {
                if updates[j].key() == key {
                    return Err(StoreError::InvalidArgument);
                }
                j = j + 1;
            }
            i = i + 1;
        }
        // Fail if there is not enough capacity.
        let remaining = self.capacity().remaining();
        if n == 1 {
            match &updates[0] {
                StoreUpdate::Insert { value, .. } => {
                    if remaining < self.entry_size(value.as_slice()) {
                        return Err(StoreError::NoCapacity);
                    }
                },
                // A lone removal never needs free words.
                StoreUpdate::Remove { .. } => {},
            }
        } else if n > 1 {
            // A marker word makes the updates one atomic unit.
            if remaining < 1 {
                return Err(StoreError::NoCapacity);
            }
            let mut cost: usize = 1;
            let mut i: usize = 0;
            while i < n
                invariant
                    n == ups.len(),
                    ups == updates@,
                    f == self.format@,
                    i <= n,
                    forall|j: int| 0 <= j < n ==> update_valid(f, #[trigger] ups[j]),
                    *self == *old(self),
                    self.wf(),
                    remaining == old(self).remaining(),
                    transaction_valid(f, ups),
                    n > 1,
                    cost == 1 + updates_size(f, ups.take(i as int)),
                    cost <= remaining,
                decreases n - i,
            {
                let size = self.update_size(&updates[i]);
                proof {
                    assert(ups.take(i + 1).drop_last() =~= ups.take(i as int));
                    assert(ups.take(i + 1).last() == ups[i as int]);
                }
                if size > remaining - cost {
                    proof {
                        lemma_updates_size_prefix(f, ups, i + 1);
                        assert(updates_size(f, ups.take(i + 1)) == updates_size(f, ups.take(i as int))
                            + update_size(f, ups[i as int]));
                        assert(transaction_cost(f, ups) == 1 + updates_size(f, ups));
                    }
                    return Err(StoreError::NoCapacity);
                }
                cost = cost + size;
                i = i + 1;
            }
            proof {
                assert(ups.take(n as int) =~= ups);
            }
        }
        // Apply the updates.
        let ghost start = self@;
        proof {
            lemma_bounds_to_map(self.content@, f);
            assert(ups.take(0) =~= Seq::<StoreUpdate>::empty());
        }
        let mut i: usize = 0;
        while i < n
            invariant
                n == ups.len(),
                ups == updates@,
                f == self.format@,
                f.wf(),
                self.format == old(self).format,
                i <= n,
                forall|j: int| 0 <= j < n ==> update_valid(f, #[trigger] ups[j]),
                keys_increasing(self.content@),
                self@ == apply_updates(start, ups.take(i as int)),
                forall|k: usize| #[trigger]
                    self@.contains_key(k) ==> k <= f.max_key && self@[k].len() <= f.max_value_len,
                used_words(self@, f) <= used_words(start, f) + inserted_size(f, ups.take(i as int)),
            decreases n - i,
        {
            let ghost before = self@;
            proof {
                assert(ups.take(i + 1).drop_last() =~= ups.take(i as int));
                assert(ups.take(i + 1).last() == ups[i as int]);
                assert(update_valid(f, ups[i as int]));
            }
            match &updates[i] {
                StoreUpdate::Insert { key, value } => {
                    let copy = value.clone();
                    proof {
                        assert(copy@ =~= value@);
                        lemma_used_below_set(before, f, *key, value@, f.max_key + 1);
                    }
                    self.write_entry(*key, copy);
                },
                StoreUpdate::Remove { key } => {
                    self.remove_entry(*key);
                    proof {
                        lemma_used_below_submap(self@, before, f, f.max_key + 1);
                    }
                },
            }
            proof {
                assert(self@ == apply_update(before, ups[i as int]));
            }
            i = i + 1;
        }
        proof {
            assert(ups.take(n as int) =~= ups);
            lemma_inserted_at_most_cost(f, ups);
            lemma_bounds_from_map(self.content@, f);
        }
        Ok(())
    }

    /// Applies a clear operation.
    fn clear(&mut self, min_key: usize) -> (r: StoreResult<()>)
        requires
            old(self).wf(),
        ensures
            final(self).wf(),
            final(self).format == old(self).format,
            r == old(self).outcome(StoreOperation::Clear { min_key }),
            r is Ok ==> final(self)@ == clear_content(old(self)@, min_key),
            r is Err ==> *final(self) == *old(self),
    {
        if min_key > self.format.max_key() {
            return Err(StoreError::InvalidArgument);
        }
        let i = self.position(min_key);
        let ghost s = self.content@;
        proof {
            lemma_content_truncate(s, i as int, min_key);
            lemma_used_below_submap(
                clear_content(content_of(s), min_key),
                content_of(s),
                self.format@,
                self.format@.max_key + 1,
            );
        }
        self.content.truncate(i);
        proof {
            assert(self.content@ =~= s.take(i as int));
        }
        Ok(())
    }

    /// Applies a prepare operation.
    fn prepare(&self, length: usize) -> (r: StoreResult<()>)
        requires
            self.wf(),
        ensures
            r == self.outcome(StoreOperation::Prepare { length }),
    {
        if self.capacity().remaining() < length {
            return Err(StoreError::NoCapacity);
        }
        Ok(())
    }

    /// Index of the first entry whose key is at least `key`.
    fn position(&self, key: usize) -> (i: usize)
        requires
            keys_increasing(self.content@),
        ensures
            splits_at(self.content@, i as int, key),
    {
        let mut i: usize = 0;
        while i < self.content.len() && self.content[i].0 < key
            invariant
                keys_increasing(self.content@),
                i <= self.content@.len(),
                forall|j: int| 0 <= j < i ==> self.content@[j].0 < key,
            decreases self.content@.len() - i,
        {
            i = i + 1;
        }
        i
    }

    /// Sets `key` to `value`, keeping the entries ordered.
    fn write_entry(&mut self, key: usize, value: Vec<u8>)
        requires
            keys_increasing(old(self).content@),
        ensures
            keys_increasing(final(self).content@),
            final(self)@ == old(self)@.insert(key, value@),
            final(self).format == old(self).format,
    {
        let i = self.position(key);
        if i < self.content.len() && self.content[i].0 == key {
            proof {
                lemma_content_update(self.content@, i as int, value);
            }
            self.content[i] = (key, value);
        } else {
            proof {
                lemma_content_insert(self.content@, i as int, key, value);
            }
            self.content.insert(i, (key, value));
        }
    }

    /// Deletes `key`, if present, keeping the entries ordered.
    fn remove_entry(&mut self, key: usize)
        requires
            keys_increasing(old(self).content@),
        ensures
            keys_increasing(final(self).content@),
            final(self)@ == old(self)@.remove(key),
            final(self).format == old(self).format,
    {
        let i = self.position(key);
        if i < self.content.len() && self.content[i].0 == key {
            proof {
                lemma_content_remove(self.content@, i as int);
            }
            self.content.remove(i);
        } else {
            proof {
                lemma_content_absent(self.content@, i as int, key);
                assert(content_of(self.content@).remove(key) =~= content_of(self.content@));
            }
        }
    }

    /// Returns the word capacity of an entry.
    fn entry_size(&self, value: &[u8]) -> (r: usize)
        requires
            value@.len() <= self.format@.max_value_len,
        ensures
            r == self.format@.entry_size(value@.len()),
    {
        proof {
            use_type_invariant(&self.format);
            crate::format::lemma_words_at_most_bytes(self.format@, value@.len());
        }
        1 + self.format.bytes_to_words(value.len())
    }

    /// Returns whether an update is valid.
    fn update_valid(&self, update: &StoreUpdate) -> (r: bool)
        ensures
            r == update_valid(self.format@, *update),
    {
        update.key() <= self.format.max_key() && match update.value() {
            Some(value) => value.len() <= self.format.max_value_len(),
            None => true,
        }
    }

    /// Returns the word capacity of an update.
    fn update_size(&self, update: &StoreUpdate) -> (r: usize)
        requires
            match update {
                StoreUpdate::Insert { value, .. } => value@.len() <= self.format@.max_value_len,
                StoreUpdate::Remove { .. } => true,
            },
        ensures
            r == update_size(self.format@, *update),
    {
        match update {
            StoreUpdate::Insert { value, .. } => self.entry_size(value.as_slice()),
            StoreUpdate::Remove { .. } => 1,
        }
    }
}

/// The empty map takes no words.
proof fn lemma_used_below_empty(m: Map<usize, Seq<u8>>, f: FormatView, n: nat)
    requires
        m == Map::<usize, Seq<u8>>::empty(),
    ensures
        used_below(m, f, n) == 0,
    decreases n,
{
    if n > 0 {
        lemma_used_below_empty(m, f, (n - 1) as nat);
    }
}

/// The mapping of a prefix of ordered entries is held in that of all of them.
proof fn lemma_taken_within(s: Seq<(usize, Vec<u8>)>, i: int)
    requires
        keys_increasing(s),
        0 <= i <= s.len(),
    ensures
        content_of(s.take(i)).submap_of(content_of(s)),
{
    let t = s.take(i);
    assert forall|k: usize| #[trigger] content_of(t).contains_key(k) implies content_of(s).contains_key(k)
        && content_of(t)[k] == content_of(s)[k] by {
        let j = choose|j: int| 0 <= j < t.len() && t[j].0 == k;
        crate::content::lemma_content_at(t, j);
        crate::content::lemma_content_at(s, j);
    }
}

/// Bounds on the entries of ordered entries are bounds on the keys and values of their mapping.
proof fn lemma_bounds_to_map(s: Seq<(usize, Vec<u8>)>, f: FormatView)
    requires
        keys_increasing(s),
        forall|i: int|
            0 <= i < s.len() ==> {
                &&& (#[trigger] s[i]).0 <= f.max_key
                &&& s[i].1@.len() <= f.max_value_len
            },
    ensures
        forall|k: usize| #[trigger]
            content_of(s).contains_key(k) ==> k <= f.max_key && content_of(s)[k].len() <= f.max_value_len,
{
    assert forall|k: usize| #[trigger] content_of(s).contains_key(k) implies k <= f.max_key
        && content_of(s)[k].len() <= f.max_value_len by {
        let i = choose|i: int| 0 <= i < s.len() && s[i].0 == k;
        lemma_content_at(s, i);
    }
}

/// Bounds on the keys and values of the mapping of ordered entries are bounds on the entries.
proof fn lemma_bounds_from_map(s: Seq<(usize, Vec<u8>)>, f: FormatView)
    requires
        keys_increasing(s),
        forall|k: usize| #[trigger]
            content_of(s).contains_key(k) ==> k <= f.max_key && content_of(s)[k].len() <= f.max_value_len,
    ensures
        forall|i: int|
            0 <= i < s.len() ==> {
                &&& (#[trigger] s[i]).0 <= f.max_key
                &&& s[i].1@.len() <= f.max_value_len
            },
{
    assert forall|i: int| 0 <= i < s.len() implies {
        &&& (#[trigger] s[i]).0 <= f.max_key
        &&& s[i].1@.len() <= f.max_value_len
    } by {
        lemma_content_at(s, i);
    }
}

/// Ordered entries hold as many keys as there are entries.
proof fn lemma_content_len(s: Seq<(usize, Vec<u8>)>)
    requires
        keys_increasing(s),
    ensures
        content_of(s).dom().finite(),
        content_of(s).dom().len() == s.len(),
    decreases s.len(),
{
    if s.len() == 0 {
        assert(content_of(s).dom() =~= Set::<usize>::empty());
    } else {
        let n = s.len() - 1;
        lemma_content_take_step(s, n);
        assert(s.take(n + 1) =~= s);
        assert(s.take(n).len() == n);
        lemma_content_len(s.take(n));
        assert(content_of(s).dom() =~= content_of(s.take(n)).dom().insert(s[n].0));
    }
}

} // verus!
