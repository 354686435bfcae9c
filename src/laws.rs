use vstd::prelude::*;

use crate::content::{clear_content, lemma_used_below_submap, used_words};
use crate::model::{StoreModel, StoreOperation};
use crate::rules::{apply_updates, has_duplicate_key};
use crate::store::{StoreError, StoreUpdate};

verus! {

/// A transaction in which two updates touch the same key is refused as an invalid argument, and
/// so, by the contract of `apply`, leaves the model unchanged.
pub proof fn law_duplicate_keys_refused(m: StoreModel, updates: Vec<StoreUpdate>)
    requires
        m.wf(),
        has_duplicate_key(updates@),
    ensures
        m.outcome(StoreOperation::Transaction { updates }) == Err::<(), StoreError>(
            StoreError::InvalidArgument,
        ),
{
}

/// A transaction holding an update whose key is above `max_key`, or which inserts a value longer
/// than `max_value_len`, is refused as an invalid argument.
pub proof fn law_out_of_bounds_refused(m: StoreModel, updates: Vec<StoreUpdate>, i: int)
    requires
        m.wf(),
        0 <= i < updates@.len(),
        updates@[i].spec_key() > m.spec_format().max_key || match updates@[i] {
            StoreUpdate::Insert { value, .. } => value@.len() > m.spec_format().max_value_len,
            StoreUpdate::Remove { .. } => false,
        },
    ensures
        m.outcome(StoreOperation::Transaction { updates }) == Err::<(), StoreError>(
            StoreError::InvalidArgument,
        ),
{
}

/// A successful clear does not increase the words in use.
pub proof fn law_clear_frees_words(m: StoreModel, min_key: usize)
    requires
        m.wf(),
        m.outcome(StoreOperation::Clear { min_key }) is Ok,
    ensures
        used_words(m.content_after(StoreOperation::Clear { min_key }), m.spec_format()) <= m.used(),
{
    let f = m.spec_format();
    lemma_used_below_submap(clear_content(m@, min_key), m@, f, f.max_key + 1);
}

/// A successful transaction of removals only does not increase the words in use.
pub proof fn law_removals_free_words(m: StoreModel, updates: Vec<StoreUpdate>)
    requires
        m.wf(),
        forall|i: int| 0 <= i < updates@.len() ==> #[trigger] updates@[i] is Remove,
        m.outcome(StoreOperation::Transaction { updates }) is Ok,
    ensures
        used_words(m.content_after(StoreOperation::Transaction { updates }), m.spec_format())
            <= m.used(),
{
    let f = m.spec_format();
    lemma_removals_within(m@, updates@);
    lemma_used_below_submap(apply_updates(m@, updates@), m@, f, f.max_key + 1);
}

/// Clearing with the same threshold a second time succeeds and changes nothing more.
pub proof fn law_clear_idempotent(m: StoreModel, cleared: StoreModel, min_key: usize)
    requires
        m.wf(),
        m.outcome(StoreOperation::Clear { min_key }) is Ok,
        cleared.wf(),
        cleared.spec_format() == m.spec_format(),
        cleared@ == m.content_after(StoreOperation::Clear { min_key }),
    ensures
        cleared.outcome(StoreOperation::Clear { min_key }) is Ok,
        cleared.content_after(StoreOperation::Clear { min_key }) == cleared@,
{
    assert(clear_content(clear_content(m@, min_key), min_key) =~= clear_content(m@, min_key));
}

/// A transaction without updates succeeds on every model, even one with no free word.
pub proof fn law_empty_transaction_succeeds(m: StoreModel, updates: Vec<StoreUpdate>)
    requires
        m.wf(),
        updates@.len() == 0,
    ensures
        m.outcome(StoreOperation::Transaction { updates }) is Ok,
        m.content_after(StoreOperation::Transaction { updates }) == m@,
{
    m.lemma_wf_within();
}

/// Removals only leave a part of the content.
proof fn lemma_removals_within(m: Map<usize, Seq<u8>>, ups: Seq<StoreUpdate>)
    requires
        forall|i: int| 0 <= i < ups.len() ==> #[trigger] ups[i] is Remove,
    ensures
        apply_updates(m, ups).submap_of(m),
    decreases ups.len(),
{
    if ups.len() > 0 {
        let rest = ups.drop_last();
        assert forall|i: int| 0 <= i < rest.len() implies #[trigger] rest[i] is Remove by {
            assert(rest[i] == ups[i]);
        }
        lemma_removals_within(m, rest);
        let before = apply_updates(m, rest);
        assert(ups.last() == ups[ups.len() - 1]);
        assert(apply_updates(m, ups) == before.remove(ups.last().spec_key()));
        assert(before.remove(ups.last().spec_key()).submap_of(before));
    }
}

} // verus!
