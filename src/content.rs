use vstd::prelude::*;

use crate::format::FormatView;

verus! {

/// The key-to-value mapping that a sequence of entries holds.
pub open spec fn content_of(s: Seq<(usize, Vec<u8>)>) -> Map<usize, Seq<u8>> {
    Map::new(
        |k: usize| exists|i: int| 0 <= i < s.len() && s[i].0 == k,
        |k: usize| s[choose|i: int| 0 <= i < s.len() && s[i].0 == k].1@,
    )
}

/// The entries are ordered by strictly increasing key, so no key occurs twice.
pub open spec fn keys_increasing(s: Seq<(usize, Vec<u8>)>) -> bool {
    forall|i: int, j: int| 0 <= i < j < s.len() ==> s[i].0 < s[j].0
}

/// Words taken by the entries of `m` whose keys are below `n`.
pub open spec fn used_below(m: Map<usize, Seq<u8>>, f: FormatView, n: nat) -> nat
    decreases n,
{
    if n == 0 {
        0
    } else {
        let k = (n - 1) as usize;
        used_below(m, f, (n - 1) as nat) + if m.contains_key(k) {
            f.entry_size(m[k].len())
        } else {
            0
        }
    }
}

/// Words taken by the entries of `m`: one header word and the payload words for each key up to
/// `f.max_key`.
pub open spec fn used_words(m: Map<usize, Seq<u8>>, f: FormatView) -> nat {
    used_below(m, f, f.max_key + 1)
}

/// Keeps the entries whose key is below `min_key`.
pub open spec fn clear_content(m: Map<usize, Seq<u8>>, min_key: usize) -> Map<usize, Seq<u8>> {
    m.restrict(Set::new(|k: usize| k < min_key))
}

/// In ordered entries, the entry at `i` gives the value of its key.
pub proof fn lemma_content_at(s: Seq<(usize, Vec<u8>)>, i: int)
    requires
        keys_increasing(s),
        0 <= i < s.len(),
    ensures
        content_of(s).contains_key(s[i].0),
        content_of(s)[s[i].0] == s[i].1@,
{
    let k = s[i].0;
    assert(content_of(s).contains_key(k));
    let j = choose|j: int| 0 <= j < s.len() && s[j].0 == k;
    assert(j == i);
}

/// Ordered entries that each stand in `m`, and that hold every key of `m`, have `m` as their
/// mapping.
pub proof fn lemma_content_ext(s: Seq<(usize, Vec<u8>)>, m: Map<usize, Seq<u8>>)
    requires
        keys_increasing(s),
        forall|i: int| 0 <= i < s.len() ==> m.contains_key(#[trigger] s[i].0) && m[s[i].0] == s[i].1@,
        forall|k: usize| m.contains_key(k) ==> exists|i: int| 0 <= i < s.len() && s[i].0 == k,
    ensures
        content_of(s) == m,
{
    assert forall|k: usize| content_of(s).contains_key(k) <==> m.contains_key(k) by {
        if content_of(s).contains_key(k) {
            let i = choose|i: int| 0 <= i < s.len() && s[i].0 == k;
            assert(m.contains_key(s[i].0));
        }
        if m.contains_key(k) {
            let i = choose|i: int| 0 <= i < s.len() && s[i].0 == k;
            assert(content_of(s).contains_key(s[i].0));
        }
    }
    assert forall|k: usize| content_of(s).contains_key(k) implies content_of(s)[k] == m[k] by {
        let i = choose|i: int| 0 <= i < s.len() && s[i].0 == k;
        lemma_content_at(s, i);
    }
    assert(content_of(s) =~= m);
}

/// Adding a new key below `n` adds the size of its entry to the words below `n`.
pub proof fn lemma_used_below_insert(m: Map<usize, Seq<u8>>, f: FormatView, k: usize, v: Seq<u8>, n: nat)
    requires
        n <= usize::MAX + 1,
        !m.contains_key(k),
    ensures
        used_below(m.insert(k, v), f, n) == used_below(m, f, n) + if k < n {
            f.entry_size(v.len())
        } else {
            0
        },
    decreases n,
{
    if n > 0 {
        lemma_used_below_insert(m, f, k, v, (n - 1) as nat);
    }
}

/// A map held in another takes no more words than it.
pub proof fn lemma_used_below_submap(m1: Map<usize, Seq<u8>>, m2: Map<usize, Seq<u8>>, f: FormatView, n: nat)
    requires
        m1.submap_of(m2),
    ensures
        used_below(m1, f, n) <= used_below(m2, f, n),
    decreases n,
{
    if n > 0 {
        lemma_used_below_submap(m1, m2, f, (n - 1) as nat);
        let k = (n - 1) as usize;
        if m1.contains_key(k) {
            assert(m2.contains_key(k));
        }
    }
}

/// Setting a key below `n` to `v` adds at most the size of its new entry to the words below `n`.
pub proof fn lemma_used_below_set(m: Map<usize, Seq<u8>>, f: FormatView, k: usize, v: Seq<u8>, n: nat)
    requires
        n <= usize::MAX + 1,
        k < n,
    ensures
        used_below(m.insert(k, v), f, n) <= used_below(m, f, n) + f.entry_size(v.len()),
{
    let r = m.remove(k);
    assert(m.insert(k, v) =~= r.insert(k, v));
    lemma_used_below_insert(r, f, k, v, n);
    lemma_used_below_submap(r, m, f, n);
}

/// Entries before `i` have keys below `key`, and entries from `i` on have keys of at least `key`.
pub open spec fn splits_at(s: Seq<(usize, Vec<u8>)>, i: int, key: usize) -> bool {
    &&& 0 <= i <= s.len()
    &&& forall|j: int| 0 <= j < i ==> s[j].0 < key
    &&& forall|j: int| i <= j < s.len() ==> s[j].0 >= key
}

/// Taking one more entry of ordered entries adds its key, which was not there yet.
pub proof fn lemma_content_take_step(s: Seq<(usize, Vec<u8>)>, i: int)
    requires
        keys_increasing(s),
        0 <= i < s.len(),
    ensures
        keys_increasing(s.take(i)),
        !content_of(s.take(i)).contains_key(s[i].0),
        content_of(s.take(i + 1)) == content_of(s.take(i)).insert(s[i].0, s[i].1@),
{
    let t = s.take(i);
    let u = s.take(i + 1);
    let m = content_of(t).insert(s[i].0, s[i].1@);
    assert forall|j: int| 0 <= j < u.len() implies m.contains_key(#[trigger] u[j].0) && m[u[j].0] == u[j].1@ by {
        if j < i {
            lemma_content_at(t, j);
        }
    }
    assert forall|k: usize| m.contains_key(k) implies exists|j: int| 0 <= j < u.len() && u[j].0 == k by {
        if k != s[i].0 {
            let j = choose|j: int| 0 <= j < t.len() && t[j].0 == k;
            assert(u[j].0 == k);
        } else {
            assert(u[i].0 == k);
        }
    }
    lemma_content_ext(u, m);
}

/// Cutting ordered entries where the keys reach `key` keeps exactly the keys below `key`.
pub proof fn lemma_content_truncate(s: Seq<(usize, Vec<u8>)>, i: int, key: usize)
    requires
        keys_increasing(s),
        splits_at(s, i, key),
    ensures
        keys_increasing(s.take(i)),
        content_of(s.take(i)) == clear_content(content_of(s), key),
{
    let t = s.take(i);
    let m = clear_content(content_of(s), key);
    assert forall|j: int| 0 <= j < t.len() implies m.contains_key(#[trigger] t[j].0) && m[t[j].0] == t[j].1@ by {
        lemma_content_at(s, j);
    }
    assert forall|k: usize| m.contains_key(k) implies exists|j: int| 0 <= j < t.len() && t[j].0 == k by {
        let j = choose|j: int| 0 <= j < s.len() && s[j].0 == k;
        assert(t[j].0 == k);
    }
    lemma_content_ext(t, m);
}

/// A key that does not occur where ordered entries split on it does not occur at all.
pub proof fn lemma_content_absent(s: Seq<(usize, Vec<u8>)>, i: int, key: usize)
    requires
        keys_increasing(s),
        splits_at(s, i, key),
        i == s.len() || s[i].0 != key,
    ensures
        !content_of(s).contains_key(key),
{
    if content_of(s).contains_key(key) {
        let j = choose|j: int| 0 <= j < s.len() && s[j].0 == key;
        if j > i {
            assert(s[i].0 < s[j].0);
        }
    }
}

/// Inserting a new key where ordered entries split on it keeps them ordered and adds the key.
pub proof fn lemma_content_insert(s: Seq<(usize, Vec<u8>)>, i: int, key: usize, value: Vec<u8>)
    requires
        keys_increasing(s),
        splits_at(s, i, key),
        i == s.len() || s[i].0 != key,
    ensures
        keys_increasing(s.insert(i, (key, value))),
        content_of(s.insert(i, (key, value))) == content_of(s).insert(key, value@),
{
    let u = s.insert(i, (key, value));
    let m = content_of(s).insert(key, value@);
    lemma_content_absent(s, i, key);
    assert forall|j: int| 0 <= j < u.len() implies m.contains_key(#[trigger] u[j].0) && m[u[j].0] == u[j].1@ by {
        if j < i {
            lemma_content_at(s, j);
        } else if j > i {
            lemma_content_at(s, j - 1);
        }
    }
    assert forall|k: usize| m.contains_key(k) implies exists|j: int| 0 <= j < u.len() && u[j].0 == k by {
        if k != key {
            let j = choose|j: int| 0 <= j < s.len() && s[j].0 == k;
            if j < i {
                assert(u[j].0 == k);
            } else {
                assert(u[j + 1].0 == k);
            }
        } else {
            assert(u[i].0 == k);
        }
    }
    lemma_content_ext(u, m);
}

/// Replacing the value of the entry at `i` keeps the entries ordered and sets the value of its key.
pub proof fn lemma_content_update(s: Seq<(usize, Vec<u8>)>, i: int, value: Vec<u8>)
    requires
        keys_increasing(s),
        0 <= i < s.len(),
    ensures
        keys_increasing(s.update(i, (s[i].0, value))),
        content_of(s.update(i, (s[i].0, value))) == content_of(s).insert(s[i].0, value@),
{
    let u = s.update(i, (s[i].0, value));
    let m = content_of(s).insert(s[i].0, value@);
    assert forall|j: int| 0 <= j < u.len() implies m.contains_key(#[trigger] u[j].0) && m[u[j].0] == u[j].1@ by {
        if j != i {
            lemma_content_at(s, j);
        }
    }
    assert forall|k: usize| m.contains_key(k) implies exists|j: int| 0 <= j < u.len() && u[j].0 == k by {
        if k != s[i].0 {
            let j = choose|j: int| 0 <= j < s.len() && s[j].0 == k;
            assert(u[j].0 == k);
        } else {
            assert(u[i].0 == k);
        }
    }
    lemma_content_ext(u, m);
}

/// Removing the entry at `i` keeps the entries ordered and removes its key.
pub proof fn lemma_content_remove(s: Seq<(usize, Vec<u8>)>, i: int)
    requires
        keys_increasing(s),
        0 <= i < s.len(),
    ensures
        keys_increasing(s.remove(i)),
        content_of(s.remove(i)) == content_of(s).remove(s[i].0),
{
    let u = s.remove(i);
    let m = content_of(s).remove(s[i].0);
    assert forall|j: int| 0 <= j < u.len() implies m.contains_key(#[trigger] u[j].0) && m[u[j].0] == u[j].1@ by {
        if j < i {
            lemma_content_at(s, j);
        } else {
            lemma_content_at(s, j + 1);
        }
    }
    assert forall|k: usize| m.contains_key(k) implies exists|j: int| 0 <= j < u.len() && u[j].0 == k by {
        let j = choose|j: int| 0 <= j < s.len() && s[j].0 == k;
        if j < i {
            assert(u[j].0 == k);
        } else {
            assert(u[j - 1].0 == k);
        }
    }
    lemma_content_ext(u, m);
}

} // verus!
