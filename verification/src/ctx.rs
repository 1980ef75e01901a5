//! Context-keyed tables.
//!
//! Both stores keep their per-context data as a vector of entries, each
//! pairing a context key with the items filed under it. Lookups take the
//! first entry whose key matches; entries are only appended (for a fresh
//! key) or updated in place, never removed.

use vstd::prelude::*;

verus! {

/// One context's slot in a table: the key and the items filed under it.
#[derive(Debug)]
pub struct ContextEntry<T> {
    pub key: String,
    pub items: Vec<T>,
}

/// Index of the first entry whose key is `k`, or -1 if no entry matches.
pub open spec fn key_index<T>(entries: Seq<ContextEntry<T>>, k: Seq<char>) -> int
    decreases entries.len(),
{
    if entries.len() == 0 {
        -1
    } else if entries[0].key@ == k {
        0
    } else {
        let r = key_index(entries.drop_first(), k);
        if r < 0 {
            -1
        } else {
            r + 1
        }
    }
}

/// The items filed under `k`: those of the first matching entry, or the
/// empty sequence when no entry matches.
pub open spec fn items_at<T: DeepView>(entries: Seq<ContextEntry<T>>, k: Seq<char>) -> Seq<
    T::V,
>
    decreases entries.len(),
{
    if entries.len() == 0 {
        Seq::<T::V>::empty()
    } else if entries[0].key@ == k {
        entries[0].items.deep_view()
    } else {
        items_at(entries.drop_first(), k)
    }
}

/// `key_index` points at the first matching entry, and `items_at` reads
/// exactly that entry (or is empty when the key is absent).
pub proof fn lemma_context_lookup<T: DeepView>(entries: Seq<ContextEntry<T>>, k: Seq<char>)
    ensures
        key_index(entries, k) < 0 ==> (forall|j: int|
            0 <= j < entries.len() ==> entries[j].key@ != k) && items_at(entries, k) == Seq::<
            T::V,
        >::empty(),
        key_index(entries, k) >= 0 ==> 0 <= key_index(entries, k) < entries.len()
            && entries[key_index(entries, k)].key@ == k && (forall|j: int|
            0 <= j < key_index(entries, k) ==> entries[j].key@ != k) && items_at(entries, k)
            == entries[key_index(entries, k)].items.deep_view(),
    decreases entries.len(),
{
    if entries.len() == 0 {
    } else if entries[0].key@ == k {
    } else {
        let df = entries.drop_first();
        lemma_context_lookup(df, k);
        if key_index(df, k) < 0 {
            assert forall|j: int| 0 <= j < entries.len() implies entries[j].key@ != k by {
                if j > 0 {
                    assert(df[j - 1] == entries[j]);
                    assert(df[j - 1].key@ != k);
                }
            }
        } else {
            let m = key_index(df, k);
            assert(key_index(entries, k) == m + 1);
            assert(entries[m + 1] == df[m]);
            assert forall|j: int| 0 <= j < m + 1 implies entries[j].key@ != k by {
                if j > 0 {
                    assert(df[j - 1] == entries[j]);
                    assert(df[j - 1].key@ != k);
                }
            }
        }
    }
}

/// Replacing the first entry of a key with another entry of the same key
/// rewrites what is filed under that key and leaves every other key alone.
pub proof fn lemma_context_update<T: DeepView>(
    entries: Seq<ContextEntry<T>>,
    i: int,
    e: ContextEntry<T>,
)
    requires
        0 <= i < entries.len(),
        i == key_index(entries, entries[i].key@),
        e.key@ == entries[i].key@,
    ensures
        forall|k: Seq<char>| #[trigger]
            key_index(entries.update(i, e), k) == key_index(entries, k),
        items_at(entries.update(i, e), e.key@) == e.items.deep_view(),
        forall|k: Seq<char>|
            k != e.key@ ==> #[trigger] items_at(entries.update(i, e), k) == items_at(entries, k),
    decreases entries.len(),
{
    let post = entries.update(i, e);
    let df = entries.drop_first();
    if i == 0 {
        assert(post[0] == e);
        assert(post.drop_first() =~= df);
        assert forall|k: Seq<char>| #[trigger]
            key_index(post, k) == key_index(entries, k) by {
            if entries[0].key@ == k {
                assert(key_index(post, k) == 0);
            }
        }
        assert forall|k: Seq<char>| k != e.key@ implies #[trigger] items_at(post, k) == items_at(
            entries,
            k,
        ) by {}
    } else {
        assert(post[0] == entries[0]);
        assert(post.drop_first() =~= df.update(i - 1, e));
        assert(entries[0].key@ != entries[i].key@);
        assert(key_index(df, entries[i].key@) == i - 1);
        assert(df[i - 1] == entries[i]);
        lemma_context_update(df, i - 1, e);
        assert forall|k: Seq<char>| #[trigger]
            key_index(post, k) == key_index(entries, k) by {
            if entries[0].key@ != k {
                assert(key_index(df.update(i - 1, e), k) == key_index(df, k));
            }
        }
        assert(items_at(post, e.key@) == items_at(df.update(i - 1, e), e.key@));
        assert forall|k: Seq<char>| k != e.key@ implies #[trigger] items_at(post, k) == items_at(
            entries,
            k,
        ) by {
            if entries[0].key@ != k {
                assert(items_at(df.update(i - 1, e), k) == items_at(df, k));
            }
        }
    }
}

/// Appending an entry for a key that is absent files its items under that
/// key and leaves every other key alone.
pub proof fn lemma_context_push<T: DeepView>(entries: Seq<ContextEntry<T>>, e: ContextEntry<T>)
    requires
        key_index(entries, e.key@) < 0,
    ensures
        key_index(entries.push(e), e.key@) == entries.len(),
        items_at(entries.push(e), e.key@) == e.items.deep_view(),
        forall|k: Seq<char>|
            k != e.key@ ==> #[trigger] key_index(entries.push(e), k) == key_index(entries, k),
        forall|k: Seq<char>|
            k != e.key@ ==> #[trigger] items_at(entries.push(e), k) == items_at(entries, k),
    decreases entries.len(),
{
    let post = entries.push(e);
    let df = entries.drop_first();
    if entries.len() == 0 {
        assert(post[0] == e);
        assert(post.drop_first() =~= Seq::<ContextEntry<T>>::empty());
        assert forall|k: Seq<char>|
            k != e.key@ implies #[trigger] key_index(post, k) == key_index(entries, k) by {
            assert(key_index(post.drop_first(), k) == -1);
        }
        assert forall|k: Seq<char>|
            k != e.key@ implies #[trigger] items_at(post, k) == items_at(entries, k) by {
            assert(key_index(post.drop_first(), k) == -1);
            assert(items_at(post, k) == items_at(post.drop_first(), k));
        }
    } else {
        assert(post[0] == entries[0]);
        assert(post.drop_first() =~= df.push(e));
        assert(entries[0].key@ != e.key@);
        lemma_context_push(df, e);
        assert(key_index(post, e.key@) == entries.len());
        assert(items_at(post, e.key@) == e.items.deep_view());
        assert forall|k: Seq<char>|
            k != e.key@ implies #[trigger] key_index(post, k) == key_index(entries, k) by {
            if entries[0].key@ != k {
                assert(key_index(df.push(e), k) == key_index(df, k));
            }
        }
        assert forall|k: Seq<char>|
            k != e.key@ implies #[trigger] items_at(post, k) == items_at(entries, k) by {
            if entries[0].key@ != k {
                assert(items_at(df.push(e), k) == items_at(df, k));
            }
        }
    }
}

/// Scans for the first entry whose key equals `k`.
pub fn find_key<T: DeepView>(entries: &Vec<ContextEntry<T>>, k: &String) -> (r: Option<usize>)
    ensures
        match r {
            Some(i) => i as int == key_index(entries@, k@),
            None => key_index(entries@, k@) < 0,
        },
{
    proof {
        lemma_context_lookup(entries@, k@);
    }
    let n = entries.len();
    let mut i: usize = 0;
    while i < n
        invariant
            n == entries@.len(),
            0 <= i <= n,
            forall|j: int| 0 <= j < i ==> entries@[j].key@ != k@,
        decreases n - i,
    {
        if entries[i].key == *k {
            proof {
                lemma_context_lookup(entries@, k@);
            }
            return Some(i);
        }
        i += 1;
    }
    None
}

} // verus!
