use vstd::prelude::*;

use crate::format::FormatView;
use crate::store::StoreUpdate;

verus! {

/// An update respects the format: its key is at most `max_key` and an inserted value has at
/// most `max_value_len` bytes.
pub open spec fn update_valid(f: FormatView, u: StoreUpdate) -> bool {
    &&& u.spec_key() <= f.max_key
    &&& match u {
        StoreUpdate::Insert { value, .. } => value@.len() <= f.max_value_len,
        StoreUpdate::Remove { .. } => true,
    }
}

/// No two updates touch the same key.
pub open spec fn keys_disjoint(ups: Seq<StoreUpdate>) -> bool {
    forall|i: int, j: int| 0 <= i < j < ups.len() ==> ups[i].spec_key() != ups[j].spec_key()
}

/// Some two updates touch the same key.
pub open spec fn has_duplicate_key(ups: Seq<StoreUpdate>) -> bool {
    exists|i: int, j: int| 0 <= i < j < ups.len() && ups[i].spec_key() == ups[j].spec_key()
}

/// A transaction is well formed: not too many updates, each valid, and on distinct keys.
pub open spec fn transaction_valid(f: FormatView, ups: Seq<StoreUpdate>) -> bool {
    &&& ups.len() <= f.max_updates
    &&& forall|i: int| 0 <= i < ups.len() ==> update_valid(f, #[trigger] ups[i])
    &&& keys_disjoint(ups)
}

/// Words that an update takes inside a transaction of several updates: the entry it writes, or
/// one word to record a removal.
pub open spec fn update_size(f: FormatView, u: StoreUpdate) -> nat {
    match u {
        StoreUpdate::Insert { value, .. } => f.entry_size(value@.len()),
        StoreUpdate::Remove { .. } => 1,
    }
}

/// Sum of the sizes of the updates.
pub open spec fn updates_size(f: FormatView, ups: Seq<StoreUpdate>) -> nat
    decreases ups.len(),
{
    if ups.len() == 0 {
        0
    } else {
        updates_size(f, ups.drop_last()) + update_size(f, ups.last())
    }
}

/// Free words that a transaction needs: nothing when empty; for a single update the entry it
/// inserts, or nothing for a removal; otherwise one marker word and the size of every update.
pub open spec fn transaction_cost(f: FormatView, ups: Seq<StoreUpdate>) -> nat {
    if ups.len() == 0 {
        0
    } else if ups.len() == 1 {
        match ups[0] {
            StoreUpdate::Insert { value, .. } => f.entry_size(value@.len()),
            StoreUpdate::Remove { .. } => 0,
        }
    } else {
        1 + updates_size(f, ups)
    }
}

/// The content after one update: an insertion sets the key, a removal deletes it.
pub open spec fn apply_update(m: Map<usize, Seq<u8>>, u: StoreUpdate) -> Map<usize, Seq<u8>> {
    match u {
        StoreUpdate::Insert { key, value } => m.insert(key, value@),
        StoreUpdate::Remove { key } => m.remove(key),
    }
}

/// The content after the updates, in order.
pub open spec fn apply_updates(m: Map<usize, Seq<u8>>, ups: Seq<StoreUpdate>) -> Map<usize, Seq<u8>>
    decreases ups.len(),
{
    if ups.len() == 0 {
        m
    } else {
        apply_update(apply_updates(m, ups.drop_last()), ups.last())
    }
}

/// Words of the entries that the updates insert.
pub open spec fn inserted_size(f: FormatView, ups: Seq<StoreUpdate>) -> nat
    decreases ups.len(),
{
    if ups.len() == 0 {
        0
    } else {
        inserted_size(f, ups.drop_last()) + match ups.last() {
            StoreUpdate::Insert { value, .. } => f.entry_size(value@.len()),
            StoreUpdate::Remove { .. } => 0,
        }
    }
}

/// The sizes of a prefix of the updates add up to no more than those of all of them.
pub proof fn lemma_updates_size_prefix(f: FormatView, ups: Seq<StoreUpdate>, j: int)
    requires
        0 <= j <= ups.len(),
    ensures
        updates_size(f, ups.take(j)) <= updates_size(f, ups),
    decreases ups.len(),
{
    if j < ups.len() {
        assert(ups.take(j) =~= ups.drop_last().take(j));
        lemma_updates_size_prefix(f, ups.drop_last(), j);
    } else {
        assert(ups.take(j) =~= ups);
    }
}

/// The entries that updates insert take no more words than the updates.
pub proof fn lemma_inserted_at_most_updates(f: FormatView, ups: Seq<StoreUpdate>)
    ensures
        inserted_size(f, ups) <= updates_size(f, ups),
    decreases ups.len(),
{
    if ups.len() > 0 {
        lemma_inserted_at_most_updates(f, ups.drop_last());
    }
}

/// The entries that a transaction inserts take no more words than it costs.
pub proof fn lemma_inserted_at_most_cost(f: FormatView, ups: Seq<StoreUpdate>)
    ensures
        inserted_size(f, ups) <= transaction_cost(f, ups),
{
    if ups.len() == 1 {
        assert(inserted_size(f, ups.drop_last()) == 0);
        assert(ups.last() == ups[0]);
    } else if ups.len() > 1 {
        lemma_inserted_at_most_updates(f, ups);
    }
}

} // verus!
