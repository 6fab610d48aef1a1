//! Sequences of `(key, value)` entries whose keys strictly ascend, and the
//! binary search over them.

use vstd::prelude::*;

verus! {

/// The keys of `s` strictly increase from front to back (so no key repeats).
pub open spec fn strictly_ascending<T>(s: Seq<(u8, T)>) -> bool {
    forall|i: int, j: int| 0 <= i < j < s.len() ==> (#[trigger] s[i]).0 < (#[trigger] s[j]).0
}

/// Some entry of `s` has key `k`.
pub open spec fn has_key<T>(s: Seq<(u8, T)>, k: u8) -> bool {
    exists|i: int| 0 <= i < s.len() && (#[trigger] s[i]).0 == k
}

/// What `s` holds, as a map from key to value.
pub open spec fn contents<T>(s: Seq<(u8, T)>) -> Map<u8, T> {
    Map::new(
        |k: u8| has_key(s, k),
        |k: u8| s[choose|i: int| 0 <= i < s.len() && (#[trigger] s[i]).0 == k].1,
    )
}

/// The keys of `s`, in order.
pub open spec fn keys_of<T>(s: Seq<(u8, T)>) -> Seq<u8> {
    s.map_values(|e: (u8, T)| e.0)
}

/// The values of `s`, in order.
pub open spec fn values_of<T>(s: Seq<(u8, T)>) -> Seq<T> {
    s.map_values(|e: (u8, T)| e.1)
}

/// An entry of an ascending sequence is what its contents hold under its key.
pub proof fn lemma_contents_at<T>(s: Seq<(u8, T)>, i: int)
    requires
        strictly_ascending(s),
        0 <= i < s.len(),
    ensures
        contents(s).contains_key(s[i].0),
        contents(s)[s[i].0] == s[i].1,
{
    assert(has_key(s, s[i].0));
    let j = choose|j: int| 0 <= j < s.len() && (#[trigger] s[j]).0 == s[i].0;
    assert(j == i) by {
        if j < i {
            assert(s[j].0 < s[i].0);
        } else if i < j {
            assert(s[i].0 < s[j].0);
        }
    }
}

/// An ascending sequence holds as many keys as it has entries.
pub proof fn lemma_contents_len<T>(s: Seq<(u8, T)>)
    requires
        strictly_ascending(s),
    ensures
        contents(s).dom() == keys_of(s).to_set(),
        contents(s).dom().finite(),
        contents(s).len() == s.len(),
{
    let ks = keys_of(s);
    assert forall|k: u8| contents(s).dom().contains(k) <==> ks.to_set().contains(k) by {
        if has_key(s, k) {
            let i = choose|i: int| 0 <= i < s.len() && (#[trigger] s[i]).0 == k;
            assert(ks[i] == k);
        }
        if ks.contains(k) {
            let i = choose|i: int| 0 <= i < ks.len() && ks[i] == k;
            assert(s[i].0 == k);
        }
    }
    assert(contents(s).dom() =~= ks.to_set());
    assert(ks.no_duplicates()) by {
        assert forall|i: int, j: int| 0 <= i < ks.len() && 0 <= j < ks.len() && i != j implies ks[i]
            != ks[j] by {
            if i < j {
                assert(s[i].0 < s[j].0);
            } else {
                assert(s[j].0 < s[i].0);
            }
        }
    }
    ks.unique_seq_to_set();
    vstd::seq_lib::seq_to_set_is_finite(ks);
}

/// Entering `(k, v)` at the position `p` that separates the smaller keys
/// from the larger ones keeps the keys ascending and adds `k` to the contents.
pub proof fn lemma_insert_at<T>(s: Seq<(u8, T)>, p: int, k: u8, v: T)
    requires
        strictly_ascending(s),
        0 <= p <= s.len(),
        forall|j: int| 0 <= j < p ==> (#[trigger] s[j]).0 < k,
        forall|j: int| p <= j < s.len() ==> (#[trigger] s[j]).0 > k,
    ensures
        strictly_ascending(s.insert(p, (k, v))),
        !contents(s).contains_key(k),
        contents(s.insert(p, (k, v))) == contents(s).insert(k, v),
{
    let t = s.insert(p, (k, v));
    assert forall|i: int, j: int| 0 <= i < j < t.len() implies (#[trigger] t[i]).0 < (
    #[trigger] t[j]).0 by {
        if j < p {
        } else if j == p {
        } else if i < p {
            assert(s[i].0 < k);
        } else if i == p {
        } else {
            assert(s[i - 1].0 < s[j - 1].0);
        }
    }
    assert(!has_key(s, k)) by {
        if has_key(s, k) {
            let i = choose|i: int| 0 <= i < s.len() && (#[trigger] s[i]).0 == k;
            if i < p {
            } else {
            }
        }
    }
    let m = contents(s).insert(k, v);
    assert forall|x: u8| contents(t).contains_key(x) <==> m.contains_key(x) by {
        if has_key(t, x) {
            let i = choose|i: int| 0 <= i < t.len() && (#[trigger] t[i]).0 == x;
            if i < p {
                assert(s[i].0 == x);
            } else if i > p {
                assert(s[i - 1].0 == x);
            }
        }
        if has_key(s, x) {
            let i = choose|i: int| 0 <= i < s.len() && (#[trigger] s[i]).0 == x;
            if i < p {
                assert(t[i].0 == x);
            } else {
                assert(t[i + 1].0 == x);
            }
        }
        if x == k {
            assert(t[p].0 == x);
        }
    }
    assert forall|x: u8| #[trigger] contents(t).contains_key(x) implies contents(t)[x] == m[x] by {
        let i = choose|i: int| 0 <= i < t.len() && (#[trigger] t[i]).0 == x;
        lemma_contents_at(t, i);
        if i < p {
            lemma_contents_at(s, i);
        } else if i > p {
            lemma_contents_at(s, i - 1);
        }
    }
    assert(contents(t) =~= m);
}

/// Taking out the entry at `p` keeps the keys ascending and takes its key out
/// of the contents.
pub proof fn lemma_remove_at<T>(s: Seq<(u8, T)>, p: int)
    requires
        strictly_ascending(s),
        0 <= p < s.len(),
    ensures
        strictly_ascending(s.remove(p)),
        contents(s.remove(p)) == contents(s).remove(s[p].0),
{
    let t = s.remove(p);
    let k = s[p].0;
    assert forall|i: int, j: int| 0 <= i < j < t.len() implies (#[trigger] t[i]).0 < (
    #[trigger] t[j]).0 by {
        if j < p {
            assert(s[i].0 < s[j].0);
        } else if i < p {
            assert(s[i].0 < s[j + 1].0);
        } else {
            assert(s[i + 1].0 < s[j + 1].0);
        }
    }
    let m = contents(s).remove(k);
    assert forall|x: u8| contents(t).contains_key(x) <==> m.contains_key(x) by {
        if has_key(t, x) {
            let i = choose|i: int| 0 <= i < t.len() && (#[trigger] t[i]).0 == x;
            if i < p {
                assert(s[i].0 == x);
                assert(s[i].0 < s[p].0);
            } else {
                assert(s[i + 1].0 == x);
                assert(s[p].0 < s[i + 1].0);
            }
        }
        if has_key(s, x) && x != k {
            let i = choose|i: int| 0 <= i < s.len() && (#[trigger] s[i]).0 == x;
            if i < p {
                assert(t[i].0 == x);
            } else {
                assert(t[i - 1].0 == x);
            }
        }
    }
    assert forall|x: u8| #[trigger] contents(t).contains_key(x) implies contents(t)[x] == m[x] by {
        let i = choose|i: int| 0 <= i < t.len() && (#[trigger] t[i]).0 == x;
        lemma_contents_at(t, i);
        if i < p {
            lemma_contents_at(s, i);
        } else {
            lemma_contents_at(s, i + 1);
        }
    }
    assert(contents(t) =~= m);
}

/// Giving the entry at `p` a new value keeps the keys and replaces that
/// value in the contents.
pub proof fn lemma_update_at<T>(s: Seq<(u8, T)>, p: int, v: T)
    requires
        strictly_ascending(s),
        0 <= p < s.len(),
    ensures
        strictly_ascending(s.update(p, (s[p].0, v))),
        contents(s.update(p, (s[p].0, v))) == contents(s).insert(s[p].0, v),
{
    let t = s.update(p, (s[p].0, v));
    assert forall|i: int, j: int| 0 <= i < j < t.len() implies (#[trigger] t[i]).0 < (
    #[trigger] t[j]).0 by {
        assert(s[i].0 < s[j].0);
    }
    let m = contents(s).insert(s[p].0, v);
    assert forall|x: u8| contents(t).contains_key(x) <==> m.contains_key(x) by {
        if has_key(t, x) {
            let i = choose|i: int| 0 <= i < t.len() && (#[trigger] t[i]).0 == x;
            assert(s[i].0 == x);
        }
        if has_key(s, x) {
            let i = choose|i: int| 0 <= i < s.len() && (#[trigger] s[i]).0 == x;
            assert(t[i].0 == x);
        }
    }
    assert forall|x: u8| #[trigger] contents(t).contains_key(x) implies contents(t)[x] == m[x] by {
        let i = choose|i: int| 0 <= i < t.len() && (#[trigger] t[i]).0 == x;
        lemma_contents_at(t, i);
        if i != p {
            lemma_contents_at(s, i);
        }
    }
    assert(contents(t) =~= m);
}

/// Two ascending sequences with the same contents are the same sequence.
pub proof fn lemma_ascending_unique<T>(s: Seq<(u8, T)>, t: Seq<(u8, T)>)
    requires
        strictly_ascending(s),
        strictly_ascending(t),
        contents(s) == contents(t),
    ensures
        s == t,
    decreases s.len(),
{
    lemma_contents_len(s);
    lemma_contents_len(t);
    if s.len() == 0 {
        assert(s =~= t);
    } else {
        let n = s.len() - 1;
        lemma_contents_at(s, n);
        lemma_contents_at(t, n);
        assert(s[n].0 == t[n].0) by {
            if s[n].0 < t[n].0 {
                assert(has_key(s, t[n].0));
                let i = choose|i: int| 0 <= i < s.len() && (#[trigger] s[i]).0 == t[n].0;
                if i < n {
                    assert(s[i].0 < s[n].0);
                }
            } else if t[n].0 < s[n].0 {
                assert(has_key(t, s[n].0));
                let i = choose|i: int| 0 <= i < t.len() && (#[trigger] t[i]).0 == s[n].0;
                if i < n {
                    assert(t[i].0 < t[n].0);
                }
            }
        }
        lemma_remove_at(s, n);
        lemma_remove_at(t, n);
        assert(s.remove(n) =~= s.drop_last());
        assert(t.remove(n) =~= t.drop_last());
        lemma_ascending_unique(s.drop_last(), t.drop_last());
        assert(s =~= s.drop_last().push(s[n]));
        assert(t =~= t.drop_last().push(t[n]));
    }
}

/// Binary search for `key` by the entries' keys: `Ok` with the position of
/// the entry that has it, or `Err` with the position at which an entry with
/// that key would keep the keys ascending.
pub fn search_key<T>(v: &Vec<(u8, T)>, key: u8) -> (r: Result<usize, usize>)
    requires
        strictly_ascending(v@),
    ensures
        match r {
            Ok(i) => i < v@.len() && v@[i as int].0 == key,
            Err(i) => i <= v@.len() && (forall|j: int| 0 <= j < i ==> (#[trigger] v@[j]).0 < key)
                && (forall|j: int| i <= j < v@.len() ==> (#[trigger] v@[j]).0 > key),
        },
{
    let mut lo: usize = 0;
    let mut hi: usize = v.len();
    while lo < hi
        invariant
            lo <= hi <= v@.len(),
            strictly_ascending(v@),
            forall|j: int| 0 <= j < lo ==> (#[trigger] v@[j]).0 < key,
            forall|j: int| hi <= j < v@.len() ==> (#[trigger] v@[j]).0 > key,
        decreases hi - lo,
    {
        let mid: usize = lo + (hi - lo) / 2;
        let k = v[mid].0;
        if k == key {
            return Ok(mid);
        } else if k < key {
            assert forall|j: int| 0 <= j <= mid implies (#[trigger] v@[j]).0 < key by {
                if j < mid {
                    assert(v@[j].0 < v@[mid as int].0);
                }
            }
            lo = mid + 1;
        } else {
            assert forall|j: int| mid <= j < v@.len() implies (#[trigger] v@[j]).0 > key by {
                if j > mid {
                    assert(v@[mid as int].0 < v@[j].0);
                }
            }
            hi = mid;
        }
    }
    Err(lo)
}

} // verus!
