//! Association lists over `u32` keys: the sparse building block of the
//! rating store, the popularity table and the similarity map.
use vstd::prelude::*;

verus! {

/// Does some entry of `s` carry the key `k`?
pub open spec fn has_key(s: Seq<(u32, u32)>, k: u32) -> bool {
    exists|i: int| 0 <= i < s.len() && (#[trigger] s[i]).0 == k
}

/// The value of the first entry of `s` carrying the key `k` (0 if none does).
pub open spec fn val_of(s: Seq<(u32, u32)>, k: u32) -> u32
    decreases s.len(),
{
    if s.len() == 0 {
        0
    } else if s[0].0 == k {
        s[0].1
    } else {
        val_of(s.drop_first(), k)
    }
}

/// No two entries of `s` carry the same key.
pub open spec fn unique_keys(s: Seq<(u32, u32)>) -> bool {
    forall|i: int, j: int|
        0 <= i < j < s.len() ==> (#[trigger] s[i]).0 != (#[trigger] s[j]).0
}

/// All values of `s` lie in the inclusive rating range 1 to 10.
pub open spec fn values_in_rating_range(s: Seq<(u32, u32)>) -> bool {
    forall|i: int| 0 <= i < s.len() ==> 1 <= (#[trigger] s[i]).1 <= 10
}

/// If entry `i` is the first one carrying `k`, then `val_of` returns its value.
pub proof fn lemma_val_of_first(s: Seq<(u32, u32)>, k: u32, i: int)
    requires
        0 <= i < s.len(),
        s[i].0 == k,
        forall|m: int| 0 <= m < i ==> (#[trigger] s[m]).0 != k,
    ensures
        has_key(s, k),
        val_of(s, k) == s[i].1,
    decreases s.len(),
{
    if i > 0 {
        lemma_val_of_first(s.drop_first(), k, i - 1);
        assert(forall|m: int|
            0 <= m < s.drop_first().len() ==> #[trigger] s.drop_first()[m] == s[m + 1]);
    }
}

/// If `k` occurs in `s`, `val_of(s, k)` is the value of some entry with key `k`.
pub proof fn lemma_val_of_is_entry(s: Seq<(u32, u32)>, k: u32)
    requires
        has_key(s, k),
    ensures
        exists|i: int|
            0 <= i < s.len() && (#[trigger] s[i]).0 == k && s[i].1 == val_of(s, k),
    decreases s.len(),
{
    if s[0].0 == k {
    } else {
        let w = choose|i: int| 0 <= i < s.len() && (#[trigger] s[i]).0 == k;
        assert(s.drop_first()[w - 1] == s[w]);
        lemma_val_of_is_entry(s.drop_first(), k);
        let j = choose|i: int|
            0 <= i < s.drop_first().len() && (#[trigger] s.drop_first()[i]).0 == k
                && s.drop_first()[i].1 == val_of(s.drop_first(), k);
        assert(s[j + 1] == s.drop_first()[j]);
    }
}

/// A rating-range bound on the values carries over to `val_of`.
pub proof fn lemma_val_of_in_range(s: Seq<(u32, u32)>, k: u32)
    requires
        has_key(s, k),
        values_in_rating_range(s),
    ensures
        1 <= val_of(s, k) <= 10,
{
    lemma_val_of_is_entry(s, k);
}

/// A key that occurs nowhere looks up to the default value 0.
pub proof fn lemma_val_of_absent(s: Seq<(u32, u32)>, k: u32)
    requires
        !has_key(s, k),
    ensures
        val_of(s, k) == 0,
    decreases s.len(),
{
    if s.len() > 0 {
        assert(s[0].0 != k);
        assert forall|m: int|
            0 <= m < s.drop_first().len() implies (#[trigger] s.drop_first()[m]).0 != k by {
            assert(s.drop_first()[m] == s[m + 1]);
            if s[m + 1].0 == k {
                assert(has_key(s, k));
            }
        }
        lemma_val_of_absent(s.drop_first(), k);
    }
}

/// Updating an entry whose key is not `k` leaves `val_of(_, k)` unchanged.
pub proof fn lemma_val_of_update_other(s: Seq<(u32, u32)>, j: int, e: (u32, u32), k: u32)
    requires
        0 <= j < s.len(),
        s[j].0 != k,
        e.0 != k,
    ensures
        val_of(s.update(j, e), k) == val_of(s, k),
        has_key(s.update(j, e), k) == has_key(s, k),
    decreases s.len(),
{
    let t = s.update(j, e);
    assert(t.len() == s.len());
    if has_key(s, k) {
        let w = choose|i: int| 0 <= i < s.len() && (#[trigger] s[i]).0 == k;
        assert(t[w].0 == k);
    }
    if has_key(t, k) {
        let w = choose|i: int| 0 <= i < t.len() && (#[trigger] t[i]).0 == k;
        assert(s[w].0 == k);
    }
    if s.len() > 0 {
        if j == 0 {
            assert(t.drop_first() =~= s.drop_first());
        } else if s[0].0 != k {
            assert(t.drop_first() =~= s.drop_first().update(j - 1, e));
            lemma_val_of_update_other(s.drop_first(), j - 1, e, k);
        } else {
            assert(t[0] == s[0]);
        }
    }
}

/// Appending an entry leaves the lookup of an already-present key unchanged;
/// a fresh key is found in the appended entry.
pub proof fn lemma_val_of_push(s: Seq<(u32, u32)>, e: (u32, u32), k: u32)
    ensures
        has_key(s.push(e), k) == (has_key(s, k) || e.0 == k),
        has_key(s, k) ==> val_of(s.push(e), k) == val_of(s, k),
        !has_key(s, k) && e.0 == k ==> val_of(s.push(e), k) == e.1,
    decreases s.len(),
{
    let t = s.push(e);
    assert(t[s.len() as int] == e);
    if has_key(s, k) {
        let w = choose|i: int| 0 <= i < s.len() && (#[trigger] s[i]).0 == k;
        assert(t[w].0 == k);
    }
    if has_key(t, k) && e.0 != k {
        let w = choose|i: int| 0 <= i < t.len() && (#[trigger] t[i]).0 == k;
        assert(s[w].0 == k);
    }
    if s.len() > 0 {
        assert(t.drop_first() =~= s.drop_first().push(e));
        lemma_val_of_push(s.drop_first(), e, k);
        if s[0].0 != k {
            if has_key(s, k) {
                let w = choose|i: int| 0 <= i < s.len() && (#[trigger] s[i]).0 == k;
                assert(s.drop_first()[w - 1].0 == k);
            }
        }
    }
}

/// A key found in the sequence without its last entry looks up to the same
/// value there as in the whole sequence.
pub proof fn lemma_val_of_prefix(s: Seq<(u32, u32)>, k: u32)
    requires
        s.len() > 0,
        has_key(s.drop_last(), k),
    ensures
        has_key(s, k),
        val_of(s.drop_last(), k) == val_of(s, k),
    decreases s.len(),
{
    let t = s.drop_last();
    let w = choose|i: int| 0 <= i < t.len() && (#[trigger] t[i]).0 == k;
    assert(s[w] == t[w]);
    if s[0].0 == k {
        assert(t[0] == s[0]);
    } else {
        assert(s.drop_first().drop_last() =~= t.drop_first());
        assert(t.drop_first()[w - 1] == t[w]);
        lemma_val_of_prefix(s.drop_first(), k);
    }
}

/// Linear lookup of a key in an association vector.
pub fn lookup_val(items: &Vec<(u32, u32)>, k: u32) -> (r: Option<u32>)
    ensures
        r is Some == has_key(items@, k),
        r matches Some(v) ==> v == val_of(items@, k),
{
    let n = items.len();
    let mut i: usize = 0;
    while i < n
        invariant
            n == items@.len(),
            0 <= i <= n,
            forall|m: int| 0 <= m < i ==> (#[trigger] items@[m]).0 != k,
        decreases n - i,
    {
        if items[i].0 == k {
            proof {
                lemma_val_of_first(items@, k, i as int);
            }
            return Some(items[i].1);
        }
        i += 1;
    }
    None
}

/// Linear search for the index of the entry carrying a key.
pub fn find_key_index(items: &Vec<(u32, u32)>, k: u32) -> (r: Option<usize>)
    ensures
        r is Some == has_key(items@, k),
        r matches Some(i) ==> {
            &&& 0 <= i < items@.len()
            &&& items@[i as int].0 == k
            &&& items@[i as int].1 == val_of(items@, k)
            &&& forall|m: int| 0 <= m < i ==> (#[trigger] items@[m]).0 != k
        },
{
    let n = items.len();
    let mut i: usize = 0;
    while i < n
        invariant
            n == items@.len(),
            0 <= i <= n,
            forall|m: int| 0 <= m < i ==> (#[trigger] items@[m]).0 != k,
        decreases n - i,
    {
        if items[i].0 == k {
            proof {
                lemma_val_of_first(items@, k, i as int);
            }
            return Some(i);
        }
        i += 1;
    }
    None
}

} // verus!
