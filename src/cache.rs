//! A recency cache of decoded values, bounded by the bytes it holds.
//!
//! Each entry counts as the width of a key plus the byte length of its
//! value. Before an entry goes in, the least recently used entries leave
//! until the new one fits the budget; an entry larger than the whole budget
//! still goes in, alone.

use lru::LruCache;
use vstd::prelude::*;
use vstd::utf8::encode_utf8;

verus! {

broadcast use vstd::seq::group_seq_axioms;

/// The byte budget of the cache: 16 MiB.
pub const MAX_CACHE_SIZE: usize = 16 * 1024 * 1024;

/// Bytes that a key counts for in the cache.
pub const KEY_WIDTH: usize = 8;

#[verifier::external_type_specification]
#[verifier::external_body]
#[verifier::reject_recursive_types(K)]
#[verifier::reject_recursive_types(V)]
#[verifier::reject_recursive_types(S)]
pub struct ExLruCache<K, V, S>(LruCache<K, V, S>);

#[verifier::external_type_specification]
#[verifier::external_body]
pub struct ExLruHasher(lru::DefaultHasher);

/// The entries of an lru cache, least recently used first.
pub uninterp spec fn lru_entries(c: LruCache<i64, String>) -> Seq<(i64, Seq<char>)>;

/// The number of entries an lru cache was made to hold.
pub uninterp spec fn lru_capacity(c: LruCache<i64, String>) -> nat;

/// Relies on `LruCache::unbounded`: an empty cache whose capacity is
/// `usize::MAX` entries.
#[verifier::external_body]
fn lru_unbounded() -> (r: LruCache<i64, String>)
    ensures
        lru_entries(r) == Seq::<(i64, Seq<char>)>::empty(),
        lru_capacity(r) == usize::MAX as nat,
{
    LruCache::unbounded()
}

/// Relies on `LruCache::get`: it returns the value of `k` and makes that
/// entry the most recently used, or returns `None` and changes nothing.
#[verifier::external_body]
fn lru_get(c: &mut LruCache<i64, String>, k: i64) -> (r: Option<String>)
    ensures
        lru_capacity(*final(c)) == lru_capacity(*old(c)),
        match r {
            None => {
                &&& forall|i: int|
                    0 <= i < lru_entries(*old(c)).len() ==> #[trigger] lru_entries(*old(c))[i].0
                        != k
                &&& lru_entries(*final(c)) == lru_entries(*old(c))
            },
            Some(v) => exists|i: int|
                0 <= i < lru_entries(*old(c)).len() && #[trigger] lru_entries(*old(c))[i] == (
                k,
                v@,
            ) && lru_entries(*final(c)) == lru_entries(*old(c)).remove(i).push((k, v@)),
        },
{
    c.get(&k).cloned()
}

/// Relies on `LruCache::pop`: it removes the entry of `k` and returns its
/// value, or returns `None` and changes nothing.
#[verifier::external_body]
fn lru_pop(c: &mut LruCache<i64, String>, k: i64) -> (r: Option<String>)
    ensures
        lru_capacity(*final(c)) == lru_capacity(*old(c)),
        match r {
            None => {
                &&& forall|i: int|
                    0 <= i < lru_entries(*old(c)).len() ==> #[trigger] lru_entries(*old(c))[i].0
                        != k
                &&& lru_entries(*final(c)) == lru_entries(*old(c))
            },
            Some(v) => exists|i: int|
                0 <= i < lru_entries(*old(c)).len() && #[trigger] lru_entries(*old(c))[i] == (
                k,
                v@,
            ) && lru_entries(*final(c)) == lru_entries(*old(c)).remove(i),
        },
{
    c.pop(&k)
}

/// Relies on `LruCache::pop_lru`: it removes and returns the least recently
/// used entry, or returns `None` on an empty cache.
#[verifier::external_body]
fn lru_pop_lru(c: &mut LruCache<i64, String>) -> (r: Option<(i64, String)>)
    ensures
        lru_capacity(*final(c)) == lru_capacity(*old(c)),
        match r {
            None => lru_entries(*old(c)).len() == 0 && lru_entries(*final(c)) == lru_entries(
                *old(c),
            ),
            Some((k, v)) => {
                &&& lru_entries(*old(c)).len() > 0
                &&& lru_entries(*old(c))[0] == (k, v@)
                &&& lru_entries(*final(c)) == lru_entries(*old(c)).drop_first()
            },
        },
{
    c.pop_lru()
}

/// Relies on `LruCache::put` for a key that the cache does not hold and
/// room for one more entry: the entry goes in as the most recently used.
#[verifier::external_body]
fn lru_put(c: &mut LruCache<i64, String>, k: i64, v: String)
    requires
        forall|i: int|
            0 <= i < lru_entries(*old(c)).len() ==> #[trigger] lru_entries(*old(c))[i].0 != k,
        lru_entries(*old(c)).len() < lru_capacity(*old(c)),
    ensures
        lru_capacity(*final(c)) == lru_capacity(*old(c)),
        lru_entries(*final(c)) == lru_entries(*old(c)).push((k, v@)),
{
    c.put(k, v);
}

/// The bytes that an entry with value `v` counts for.
pub open spec fn entry_size(v: Seq<char>) -> nat {
    KEY_WIDTH as nat + encode_utf8(v).len()
}

/// The bytes that all of `s` counts for.
pub open spec fn total_size(s: Seq<(i64, Seq<char>)>) -> nat
    decreases s.len(),
{
    if s.len() == 0 {
        0
    } else {
        total_size(s.drop_last()) + entry_size(s.last().1)
    }
}

/// `new` is `old` with the entry of `key` taken out, if it had one.
pub open spec fn without_key(old: Seq<(i64, Seq<char>)>, new: Seq<(i64, Seq<char>)>, key: i64) -> bool {
    ||| (new == old && forall|i: int| 0 <= i < old.len() ==> #[trigger] old[i].0 != key)
    ||| exists|i: int| 0 <= i < old.len() && #[trigger] old[i].0 == key && new == old.remove(i)
}

/// The entries of `s` fit the byte budget, or there is at most one of them.
pub open spec fn within_budget(s: Seq<(i64, Seq<char>)>) -> bool {
    total_size(s) <= MAX_CACHE_SIZE || s.len() <= 1
}

/// No key stands in two entries of `s`.
pub open spec fn unique_keys(s: Seq<(i64, Seq<char>)>) -> bool {
    forall|i: int, j: int| 0 <= i < s.len() && 0 <= j < s.len() && i != j ==> s[i].0 != s[j].0
}

pub proof fn lemma_total_size_bounds(s: Seq<(i64, Seq<char>)>)
    ensures
        total_size(s) >= KEY_WIDTH as nat * s.len(),
        forall|i: int| 0 <= i < s.len() ==> total_size(s) >= entry_size(#[trigger] s[i].1),
    decreases s.len(),
{
    if s.len() > 0 {
        lemma_total_size_bounds(s.drop_last());
        assert forall|i: int| 0 <= i < s.len() implies total_size(s) >= entry_size(
            #[trigger] s[i].1,
        ) by {
            if i < s.len() - 1 {
                assert(s.drop_last()[i] == s[i]);
            }
        }
    }
}

pub proof fn lemma_total_size_remove(s: Seq<(i64, Seq<char>)>, i: int)
    requires
        0 <= i < s.len(),
    ensures
        total_size(s.remove(i)) + entry_size(s[i].1) == total_size(s),
    decreases s.len(),
{
    if i < s.len() - 1 {
        lemma_total_size_remove(s.drop_last(), i);
        assert(s.remove(i).drop_last() =~= s.drop_last().remove(i));
    } else {
        assert(s.remove(i) =~= s.drop_last());
    }
}

/// The byte length of the text `v`.
fn text_len(v: &String) -> (r: usize)
    ensures
        r as nat == encode_utf8(v@).len(),
{
    v.as_str().as_bytes().len()
}

/// A recency cache of values keyed by `i64`, bounded by the bytes it holds.
pub struct ValueCache {
    lru: LruCache<i64, String>,
    bytes: u128,
}

impl ValueCache {
    /// The entries, least recently used first.
    pub closed spec fn entries(&self) -> Seq<(i64, Seq<char>)> {
        lru_entries(self.lru)
    }

    pub closed spec fn wf(&self) -> bool {
        &&& unique_keys(self.entries())
        &&& self.bytes as nat == total_size(self.entries())
        &&& lru_capacity(self.lru) == usize::MAX as nat
        &&& (total_size(self.entries()) <= MAX_CACHE_SIZE || self.entries().len() <= 1)
        &&& forall|i: int|
            0 <= i < self.entries().len() ==> encode_utf8(#[trigger] self.entries()[i].1).len()
                <= usize::MAX
    }

    /// The bytes that the entries count for.
    pub open spec fn occupancy(&self) -> nat {
        total_size(self.entries())
    }

    /// An empty cache.
    pub fn new() -> (r: ValueCache)
        ensures
            r.wf(),
            r.entries().len() == 0,
    {
        ValueCache { lru: lru_unbounded(), bytes: 0 }
    }

    /// The bytes that the entries count for.
    pub fn size(&self) -> (r: u128)
        requires
            self.wf(),
        ensures
            r as nat == self.occupancy(),
    {
        self.bytes
    }

    /// Looks `key` up; a hit becomes the most recently used entry.
    pub fn get(&mut self, key: i64) -> (r: Option<String>)
        requires
            old(self).wf(),
        ensures
            final(self).wf(),
            final(self).occupancy() == old(self).occupancy(),
            match r {
                None => forall|i: int|
                    0 <= i < old(self).entries().len() ==> #[trigger] old(self).entries()[i].0
                        != key,
                Some(v) => old(self).entries().contains((key, v@)) && final(self).entries().last()
                    == (key, v@),
            },
            forall|i: int|
                0 <= i < final(self).entries().len() ==> old(self).entries().contains(
                    #[trigger] final(self).entries()[i],
                ),
            forall|i: int|
                0 <= i < old(self).entries().len() ==> final(self).entries().contains(
                    #[trigger] old(self).entries()[i],
                ),
    {
        let ghost s = self.entries();
        let r = lru_get(&mut self.lru, key);
        proof {
            if let Some(v) = &r {
                let i = choose|i: int| 0 <= i < s.len() && #[trigger] s[i] == (key, v@)
                    && lru_entries(self.lru) == s.remove(i).push((key, v@));
                let t = self.entries();
                lemma_total_size_remove(s, i);
                assert(t.drop_last() == s.remove(i));
                assert(s.contains((key, v@)));
                assert forall|j: int| 0 <= j < t.len() implies s.contains(#[trigger] t[j]) by {
                    if j < i {
                        assert(t[j] == s[j]);
                    } else if j < t.len() - 1 {
                        assert(t[j] == s[j + 1]);
                    } else {
                        assert(t[j] == s[i]);
                    }
                }
                assert forall|j: int| 0 <= j < s.len() implies t.contains(#[trigger] s[j]) by {
                    if j < i {
                        assert(t[j] == s[j]);
                    } else if j > i {
                        assert(t[j - 1] == s[j]);
                    } else {
                        assert(t[t.len() - 1] == s[j]);
                    }
                }
                assert forall|a: int, b: int|
                    0 <= a < t.len() && 0 <= b < t.len() && a != b implies t[a].0 != t[b].0 by {
                    let ia = if a == t.len() - 1 {
                        i
                    } else if a < i {
                        a
                    } else {
                        a + 1
                    };
                    let ib = if b == t.len() - 1 {
                        i
                    } else if b < i {
                        b
                    } else {
                        b + 1
                    };
                    assert(t[a] == s[ia]);
                    assert(t[b] == s[ib]);
                }
                assert forall|j: int| 0 <= j < t.len() implies encode_utf8(
                    #[trigger] t[j].1,
                ).len() <= usize::MAX by {
                    let k = choose|k: int| 0 <= k < s.len() && s[k] == t[j];
                    assert(encode_utf8(s[k].1).len() <= usize::MAX);
                }
            }
        }
        r
    }

    /// Takes `key` out of the cache.
    pub fn remove(&mut self, key: i64)
        requires
            old(self).wf(),
        ensures
            final(self).wf(),
            forall|i: int|
                0 <= i < final(self).entries().len() ==> #[trigger] final(self).entries()[i].0
                    != key,
            forall|i: int|
                0 <= i < final(self).entries().len() ==> old(self).entries().contains(
                    #[trigger] final(self).entries()[i],
                ),
            forall|i: int|
                0 <= i < old(self).entries().len() && #[trigger] old(self).entries()[i].0 != key
                    ==> final(self).entries().contains(old(self).entries()[i]),
            without_key(old(self).entries(), final(self).entries(), key),
    {
        let ghost s = self.entries();
        let r = lru_pop(&mut self.lru, key);
        if let Some(v) = r {
            let n = text_len(&v);
            proof {
                let i = choose|i: int| 0 <= i < s.len() && #[trigger] s[i] == (key, v@)
                    && lru_entries(self.lru) == s.remove(i);
                assert(s[i].0 == key);
                lemma_total_size_remove(s, i);
                lemma_total_size_bounds(s);
                let t = self.entries();
                assert forall|j: int| 0 <= j < t.len() implies s.contains(#[trigger] t[j]) && t[j].0
                    != key by {
                    if j < i {
                        assert(t[j] == s[j]);
                    } else {
                        assert(t[j] == s[j + 1]);
                    }
                }
                assert forall|j: int| 0 <= j < s.len() && #[trigger] s[j].0 != key implies t.contains(
                    s[j],
                ) by {
                    if j < i {
                        assert(t[j] == s[j]);
                    } else {
                        assert(t[j - 1] == s[j]);
                    }
                }
            }
            self.bytes = self.bytes - (KEY_WIDTH as u128 + n as u128);
        }
    }

    /// A well-formed cache fits its budget, unless one entry sits alone.
    pub proof fn lemma_budget_or_alone(&self)
        requires
            self.wf(),
        ensures
            within_budget(self.entries()),
    {
    }

    /// The cache holds at most its byte budget whenever no value on its own
    /// exceeds the budget.
    pub proof fn lemma_within_budget(&self)
        requires
            self.wf(),
            forall|i: int|
                0 <= i < self.entries().len() ==> entry_size((#[trigger] self.entries()[i]).1)
                    <= MAX_CACHE_SIZE,
        ensures
            self.occupancy() <= MAX_CACHE_SIZE,
    {
        let s = self.entries();
        if s.len() == 1 {
            assert(total_size(s.drop_last()) == 0);
            assert(s.last() == s[0]);
        } else if s.len() == 0 {
            assert(total_size(s) == 0);
        }
    }

    proof fn lemma_bytes_bound(&self)
        requires
            self.wf(),
        ensures
            self.bytes <= MAX_CACHE_SIZE + KEY_WIDTH + usize::MAX,
    {
        let s = self.entries();
        if s.len() == 1 {
            assert(total_size(s.drop_last()) == 0);
            assert(s.last() == s[0]);
            assert(encode_utf8(s[0].1).len() <= usize::MAX);
        } else if s.len() == 0 {
            assert(total_size(s) == 0);
        }
    }

    /// Takes `key` out, then evicts least recently used entries until an
    /// entry of `value` fits the budget, or nothing is left.
    fn manage_cache_size(&mut self, key: i64, value: &String)
        requires
            old(self).wf(),
            encode_utf8(value@).len() <= usize::MAX,
        ensures
            final(self).wf(),
            forall|i: int|
                0 <= i < final(self).entries().len() ==> #[trigger] final(self).entries()[i].0
                    != key,
            forall|i: int|
                0 <= i < final(self).entries().len() ==> old(self).entries().contains(
                    #[trigger] final(self).entries()[i],
                ),
            final(self).occupancy() + entry_size(value@) <= MAX_CACHE_SIZE
                || final(self).entries().len() == 0,
            exists|s1: Seq<(i64, Seq<char>)>, j: int|
                without_key(old(self).entries(), s1, key) && 0 <= j <= s1.len()
                    && final(self).entries() == #[trigger] s1.subrange(j, s1.len() as int) && (j > 0
                    ==> total_size(s1.subrange(j - 1, s1.len() as int)) + entry_size(value@)
                    > MAX_CACHE_SIZE),
    {
        self.remove(key);
        let ghost s1 = self.entries();
        let ghost mut j: int = 0;
        proof {
            assert(s1.subrange(0, s1.len() as int) =~= s1);
        }
        let new_entry_size: u128 = KEY_WIDTH as u128 + text_len(value) as u128;
        proof {
            self.lemma_bytes_bound();
        }
        while self.bytes + new_entry_size > MAX_CACHE_SIZE as u128
            invariant
                self.wf(),
                self.bytes <= MAX_CACHE_SIZE + KEY_WIDTH + usize::MAX,
                encode_utf8(value@).len() <= usize::MAX,
                without_key(old(self).entries(), s1, key),
                0 <= j <= s1.len(),
                self.entries() == s1.subrange(j, s1.len() as int),
                j > 0 ==> total_size(s1.subrange(j - 1, s1.len() as int)) + entry_size(value@)
                    > MAX_CACHE_SIZE,
                new_entry_size as nat == entry_size(value@),
                forall|i: int|
                    0 <= i < self.entries().len() ==> #[trigger] self.entries()[i].0 != key,
                forall|i: int|
                    0 <= i < self.entries().len() ==> old(self).entries().contains(
                        #[trigger] self.entries()[i],
                    ),
            ensures
                self.bytes + new_entry_size <= MAX_CACHE_SIZE || self.entries().len() == 0,
            decreases self.entries().len(),
        {
            let ghost s = self.entries();
            match lru_pop_lru(&mut self.lru) {
                Some((_, removed)) => {
                    let n = text_len(&removed);
                    proof {
                        lemma_total_size_remove(s, 0);
                        lemma_total_size_bounds(s);
                        assert(s.remove(0) =~= s.drop_first());
                        let t = self.entries();
                        assert forall|j: int| 0 <= j < t.len() implies #[trigger] t[j] == s[j + 1] by {}
                        assert forall|j: int| 0 <= j < t.len() implies old(self).entries().contains(
                            #[trigger] t[j],
                        ) by {
                            assert(t[j] == s[j + 1]);
                        }
                        assert forall|j: int| 0 <= j < t.len() implies encode_utf8(
                            #[trigger] t[j].1,
                        ).len() <= usize::MAX by {
                            assert(t[j] == s[j + 1]);
                        }
                        assert forall|a: int, b: int|
                            0 <= a < t.len() && 0 <= b < t.len() && a != b implies t[a].0
                            != t[b].0 by {
                            assert(t[a] == s[a + 1]);
                            assert(t[b] == s[b + 1]);
                        }
                        if total_size(s) > MAX_CACHE_SIZE {
                            assert(s.len() <= 1);
                            assert(t.len() == 0);
                        }
                        j = j + 1;
                        assert(t =~= s1.subrange(j, s1.len() as int));
                    }
                    self.bytes = self.bytes - (KEY_WIDTH as u128 + n as u128);
                },
                None => {
                    break ;
                },
            }
        }
    }

    /// Puts `value` in under `key` as the most recently used entry, after
    /// evicting least recently used entries until it fits the budget. A
    /// value too large for any other entry to stay beside it ends up alone.
    pub fn insert(&mut self, key: i64, value: String)
        requires
            old(self).wf(),
        ensures
            final(self).wf(),
            final(self).entries().last() == (key, value@),
            forall|i: int|
                0 <= i < final(self).entries().len() ==> #[trigger] final(self).entries()[i] == (
                key,
                value@,
            ) || (old(self).entries().contains(final(self).entries()[i])
                && final(self).entries()[i].0 != key),
            entry_size(value@) + KEY_WIDTH > MAX_CACHE_SIZE ==> final(self).entries() == seq![
                (key, value@),
            ],
            exists|s1: Seq<(i64, Seq<char>)>, j: int|
                without_key(old(self).entries(), s1, key) && 0 <= j <= s1.len()
                    && final(self).entries() == #[trigger] s1.subrange(j, s1.len() as int).push(
                    (key, value@),
                ) && (j > 0 ==> total_size(s1.subrange(j - 1, s1.len() as int)) + entry_size(
                    value@,
                ) > MAX_CACHE_SIZE),
    {
        let ghost s_old = self.entries();
        let n = text_len(&value);
        self.manage_cache_size(key, &value);
        let ghost s = self.entries();
        proof {
            lemma_total_size_bounds(s);
        }
        lru_put(&mut self.lru, key, value);
        self.bytes = self.bytes + (KEY_WIDTH as u128 + n as u128);
        proof {
            let t = self.entries();
            assert(t.drop_last() =~= s);
            assert forall|j: int| 0 <= j < t.len() implies encode_utf8(#[trigger] t[j].1).len()
                <= usize::MAX by {
                if j < s.len() {
                    assert(t[j] == s[j]);
                }
            }
            assert forall|i: int|
                0 <= i < t.len() implies #[trigger] t[i] == (key, value@) || (s_old.contains(t[i])
                && t[i].0 != key) by {
                if i < s.len() {
                    assert(t[i] == s[i]);
                }
            }
            let (s1, j) = choose|s1: Seq<(i64, Seq<char>)>, j: int|
                without_key(s_old, s1, key) && 0 <= j <= s1.len() && s == #[trigger] s1.subrange(
                    j,
                    s1.len() as int,
                ) && (j > 0 ==> total_size(s1.subrange(j - 1, s1.len() as int)) + entry_size(
                    value@,
                ) > MAX_CACHE_SIZE);
            assert(t == s1.subrange(j, s1.len() as int).push((key, value@)));
            if entry_size(value@) + KEY_WIDTH > MAX_CACHE_SIZE {
                assert(s.len() == 0);
                assert(t =~= seq![(key, value@)]);
            }
        }
    }
}

} // verus!
