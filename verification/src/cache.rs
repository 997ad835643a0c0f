use vstd::prelude::*;
use crate::text::str_eq;

verus! {

/// How many compiled selectors the cache holds before it starts afresh.
pub const SELECTOR_CACHE_MAX_ENTRIES: usize = 1024;

/// The value stored under `key` among `entries`, if any.
pub open spec fn lookup<V>(entries: Seq<(Seq<char>, V)>, key: Seq<char>) -> Option<V>
    decreases entries.len(),
{
    if entries.len() == 0 {
        None
    } else if entries.last().0 == key {
        Some(entries.last().1)
    } else {
        lookup(entries.drop_last(), key)
    }
}

/// Whether no key occurs twice among `entries`.
pub open spec fn distinct_keys<V>(entries: Seq<(Seq<char>, V)>) -> bool {
    forall|i: int, j: int| 0 <= i < j < entries.len() ==> #[trigger] entries[i].0 != #[trigger] entries[j].0
}

/// A cache of compiled selectors by their source text, which starts afresh once it holds
/// `SELECTOR_CACHE_MAX_ENTRIES` of them.
pub struct SelectorCache<V> {
    entries: Vec<(String, V)>,
}

impl<V> View for SelectorCache<V> {
    type V = Seq<(Seq<char>, V)>;

    /// The entries, source text and value, in the order they came in.
    closed spec fn view(&self) -> Seq<(Seq<char>, V)> {
        self.entries@.map_values(|e: (String, V)| (e.0@, e.1))
    }
}

proof fn lemma_lookup_found<V>(entries: Seq<(Seq<char>, V)>, i: int)
    requires
        distinct_keys(entries),
        0 <= i < entries.len(),
    ensures
        lookup(entries, entries[i].0) == Some(entries[i].1),
    decreases entries.len(),
{
    if i < entries.len() - 1 {
        assert(entries.last().0 != entries[i].0);
        lemma_lookup_found(entries.drop_last(), i);
        assert(entries.drop_last()[i] == entries[i]);
    }
}

proof fn lemma_lookup_missing<V>(entries: Seq<(Seq<char>, V)>, key: Seq<char>)
    requires
        forall|i: int| 0 <= i < entries.len() ==> #[trigger] entries[i].0 != key,
    ensures
        lookup(entries, key) is None,
    decreases entries.len(),
{
    if entries.len() > 0 {
        assert(entries.last().0 != key);
        lemma_lookup_missing(entries.drop_last(), key);
    }
}

proof fn lemma_lookup_push<V>(entries: Seq<(Seq<char>, V)>, key: Seq<char>, value: V, k: Seq<char>)
    ensures
        lookup(entries.push((key, value)), k) == (if k == key { Some(value) } else { lookup(entries, k) }),
{
    assert(entries.push((key, value)).drop_last() =~= entries);
}

impl<V> SelectorCache<V> {
    /// The cache's invariant: no source text is stored twice, and it holds at most
    /// `SELECTOR_CACHE_MAX_ENTRIES` of them.
    pub closed spec fn wf(&self) -> bool {
        &&& distinct_keys(self@)
        &&& self@.len() <= SELECTOR_CACHE_MAX_ENTRIES
    }

    /// An empty cache.
    pub fn new() -> (cache: Self)
        ensures
            cache.wf(),
            cache@ == Seq::<(Seq<char>, V)>::empty(),
    {
        let cache = SelectorCache { entries: Vec::new() };
        proof {
            assert(cache@ =~= Seq::<(Seq<char>, V)>::empty());
        }
        cache
    }

    /// How many selectors the cache holds.
    pub fn len(&self) -> (n: usize)
        ensures
            n == self@.len(),
            self.wf() ==> n <= SELECTOR_CACHE_MAX_ENTRIES,
    {
        self.entries.len()
    }

    /// The value stored for the source text `key`, if any.
    pub fn get(&self, key: &str) -> (r: Option<&V>)
        requires
            self.wf(),
        ensures
            match r {
                Some(v) => lookup(self@, key@) == Some(*v),
                None => lookup(self@, key@) is None,
            },
    {
        let mut i: usize = 0;
        while i < self.entries.len()
            invariant
                i <= self.entries@.len(),
                self.wf(),
                forall|j: int| 0 <= j < i ==> #[trigger] self@[j].0 != key@,
            decreases self.entries@.len() - i,
        {
            if str_eq(self.entries[i].0.as_str(), key) {
                proof {
                    assert(self@[i as int] == (self.entries@[i as int].0@, self.entries@[i as int].1));
                    lemma_lookup_found(self@, i as int);
                }
                return Some(&self.entries[i].1);
            }
            proof {
                assert(self@[i as int].0 == self.entries@[i as int].0@);
            }
            i += 1;
        }
        proof {
            lemma_lookup_missing(self@, key@);
        }
        None
    }

    /// Stores `value` for the source text `key`; a full cache is emptied first.
    pub fn insert(&mut self, key: String, value: V)
        requires
            old(self).wf(),
        ensures
            final(self).wf(),
            final(self)@.len() <= SELECTOR_CACHE_MAX_ENTRIES,
            old(self)@.len() >= SELECTOR_CACHE_MAX_ENTRIES ==> final(self)@ == seq![(key@, value)],
            old(self)@.len() < SELECTOR_CACHE_MAX_ENTRIES ==> {
                &&& forall|k: Seq<char>| #[trigger] lookup(final(self)@, k) == (if k == key@ { Some(value) } else { lookup(old(self)@, k) })
                &&& final(self)@.len() == old(self)@.len() + (if lookup(old(self)@, key@) is Some { 0int } else { 1int })
            },
    {
        if self.entries.len() >= SELECTOR_CACHE_MAX_ENTRIES {
            self.entries = Vec::new();
            proof {
                assert(self@ =~= Seq::<(Seq<char>, V)>::empty());
            }
        }
        let ghost before = self@;
        let mut i: usize = 0;
        while i < self.entries.len()
            invariant
                i <= self.entries@.len(),
                self@ == before,
                distinct_keys(before),
                old(self)@.len() >= SELECTOR_CACHE_MAX_ENTRIES ==> before.len() == 0,
                old(self)@.len() < SELECTOR_CACHE_MAX_ENTRIES ==> before == old(self)@,
                forall|j: int| 0 <= j < i ==> #[trigger] before[j].0 != key@,
            decreases self.entries@.len() - i,
        {
            if str_eq(self.entries[i].0.as_str(), key.as_str()) {
                proof {
                    assert(before[i as int].0 == key@);
                    lemma_lookup_found(before, i as int);
                }
                let ghost at = i as int;
                self.entries.set(i, (key, value));
                proof {
                    let after = self@;
                    assert(after =~= before.update(at, (key@, value)));
                    assert(after.len() == before.len());
                    assert(distinct_keys(after)) by {
                        assert forall|a: int, b: int| 0 <= a < b < after.len() implies #[trigger] after[a].0 != #[trigger] after[b].0 by {
                            assert(after[a].0 == before[a].0);
                            assert(after[b].0 == before[b].0);
                        }
                    }
                    assert forall|k: Seq<char>| #[trigger] lookup(after, k) == (if k == key@ { Some(value) } else { lookup(before, k) }) by {
                        if k == key@ {
                            lemma_lookup_found(after, at);
                        } else if lookup(before, k) is Some {
                            lemma_lookup_keys(before, k);
                            let m = choose|m: int| 0 <= m < before.len() && before[m].0 == k && before[m].1 == lookup(before, k).unwrap();
                            lemma_lookup_found(before, m);
                            lemma_lookup_found(after, m);
                        } else {
                            assert forall|m: int| 0 <= m < after.len() implies #[trigger] after[m].0 != k by {
                                if m != at && after[m].0 == k {
                                    lemma_lookup_found(before, m);
                                }
                            }
                            lemma_lookup_missing(after, k);
                        }
                    }
                }
                return;
            }
            proof {
                assert(before[i as int].0 == self.entries@[i as int].0@);
            }
            i += 1;
        }
        proof {
            lemma_lookup_missing(before, key@);
        }
        self.entries.push((key, value));
        proof {
            assert(self@ =~= before.push((key@, value)));
            assert forall|a: int, b: int| 0 <= a < b < self@.len() implies #[trigger] self@[a].0 != #[trigger] self@[b].0 by {
                if b < before.len() {
                    assert(self@[a] == before[a]);
                    assert(self@[b] == before[b]);
                } else {
                    assert(self@[a] == before[a]);
                }
            }
            assert forall|k: Seq<char>| #[trigger] lookup(self@, k) == (if k == key@ { Some(value) } else { lookup(before, k) }) by {
                lemma_lookup_push(before, key@, value, k);
            }
            if before.len() == 0 {
                assert(self@ =~= seq![(key@, value)]);
            }
        }
    }

    /// Records what compiling the source text `key` gave: a compiled value is stored as by
    /// `insert`; a failure leaves the cache as it was.
    pub fn remember(&mut self, key: String, compiled: Result<V, ()>)
        requires
            old(self).wf(),
        ensures
            final(self).wf(),
            final(self)@.len() <= SELECTOR_CACHE_MAX_ENTRIES,
            match compiled {
                Err(()) => final(self)@ == old(self)@,
                Ok(v) => {
                    &&& lookup(final(self)@, key@) == Some(v)
                    &&& old(self)@.len() < SELECTOR_CACHE_MAX_ENTRIES ==> forall|k: Seq<char>| k != key@
                        ==> #[trigger] lookup(final(self)@, k) == lookup(old(self)@, k)
                    &&& old(self)@.len() >= SELECTOR_CACHE_MAX_ENTRIES ==> final(self)@ == seq![(key@, v)]
                },
            },
    {
        match compiled {
            Ok(v) => {
                let ghost k = key@;
                self.insert(key, v);
                proof {
                    if self@ == seq![(k, v)] {
                        assert(seq![(k, v)].drop_last() =~= Seq::<(Seq<char>, V)>::empty());
                    }
                }
            },
            Err(()) => {},
        }
    }
}

proof fn lemma_lookup_keys<V>(entries: Seq<(Seq<char>, V)>, k: Seq<char>)
    requires
        lookup(entries, k) is Some,
    ensures
        exists|m: int| 0 <= m < entries.len() && entries[m].0 == k && entries[m].1 == lookup(entries, k).unwrap(),
    decreases entries.len(),
{
    if entries.last().0 != k {
        lemma_lookup_keys(entries.drop_last(), k);
        let m = choose|m: int| 0 <= m < entries.drop_last().len() && entries.drop_last()[m].0 == k && entries.drop_last()[m].1 == lookup(entries.drop_last(), k).unwrap();
        assert(entries[m] == entries.drop_last()[m]);
    } else {
        assert(entries[entries.len() - 1] == entries.last());
    }
}

} // verus!
