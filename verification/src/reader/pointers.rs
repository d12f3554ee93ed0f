use std::collections::HashMap;
use vstd::prelude::*;
use vstd::std_specs::iter::IteratorSpec;

verus! {

broadcast use vstd::std_specs::hash::group_hash_axioms;

/// Where a record lies: `((start, end), (value_start, value_end))`, all inclusive
/// positions in the mapped area.
pub type Span = ((usize, usize), (usize, usize));

/// The map that a list of entries stands for; a later entry wins over an earlier one.
pub open spec fn entries_map(s: Seq<(Vec<u8>, Span)>) -> Map<Seq<u8>, Span>
    decreases s.len(),
{
    if s.len() == 0 {
        Map::empty()
    } else {
        entries_map(s.drop_last()).insert(s.last().0@, s.last().1)
    }
}

/// No key occurs twice among the entries.
pub open spec fn distinct_keys(s: Seq<(Vec<u8>, Span)>) -> bool {
    forall|i: int, j: int| 0 <= i < j < s.len() ==> s[i].0@ != s[j].0@
}

proof fn lemma_entries_contains(s: Seq<(Vec<u8>, Span)>, k: Seq<u8>)
    ensures
        entries_map(s).contains_key(k) <==> exists|i: int| 0 <= i < s.len() && s[i].0@ == k,
    decreases s.len(),
{
    if s.len() > 0 {
        lemma_entries_contains(s.drop_last(), k);
        if exists|i: int| 0 <= i < s.drop_last().len() && s.drop_last()[i].0@ == k {
            let i = choose|i: int| 0 <= i < s.drop_last().len() && s.drop_last()[i].0@ == k;
            assert(s[i].0@ == k);
        }
        if exists|i: int| 0 <= i < s.len() && s[i].0@ == k {
            let i = choose|i: int| 0 <= i < s.len() && s[i].0@ == k;
            if i < s.len() - 1 {
                assert(s.drop_last()[i].0@ == k);
            }
        }
    }
}

proof fn lemma_entries_index(s: Seq<(Vec<u8>, Span)>, i: int)
    requires
        distinct_keys(s),
        0 <= i < s.len(),
    ensures
        entries_map(s).contains_key(s[i].0@),
        entries_map(s)[s[i].0@] == s[i].1,
    decreases s.len(),
{
    if i < s.len() - 1 {
        lemma_entries_index(s.drop_last(), i);
        assert(s.drop_last()[i] == s[i]);
    }
}

proof fn lemma_entries_remove(s: Seq<(Vec<u8>, Span)>, i: int)
    requires
        distinct_keys(s),
        0 <= i < s.len(),
    ensures
        distinct_keys(s.remove(i)),
        entries_map(s.remove(i)) =~= entries_map(s).remove(s[i].0@),
    decreases s.len(),
{
    let k = s[i].0@;
    if i == s.len() - 1 {
        assert(s.remove(i) =~= s.drop_last());
        lemma_entries_contains(s.drop_last(), k);
        assert(!entries_map(s.drop_last()).contains_key(k));
    } else {
        lemma_entries_remove(s.drop_last(), i);
        assert(s.remove(i).drop_last() =~= s.drop_last().remove(i));
        assert(s.remove(i).last() == s.last());
    }
}

proof fn lemma_entries_update(s: Seq<(Vec<u8>, Span)>, i: int, v: Span)
    requires
        distinct_keys(s),
        0 <= i < s.len(),
    ensures
        distinct_keys(s.update(i, (s[i].0, v))),
        entries_map(s.update(i, (s[i].0, v))) =~= entries_map(s).insert(s[i].0@, v),
    decreases s.len(),
{
    let k = s[i].0@;
    let t = s.update(i, (s[i].0, v));
    if i == s.len() - 1 {
        assert(t.drop_last() =~= s.drop_last());
    } else {
        lemma_entries_update(s.drop_last(), i, v);
        assert(t.drop_last() =~= s.drop_last().update(i, (s[i].0, v)));
        assert(t.last() == s.last());
    }
}

/// Equality of two byte strings.
pub(crate) fn bytes_eq(a: &Vec<u8>, b: &Vec<u8>) -> (r: bool)
    ensures
        r == (a@ == b@),
{
    if a.len() != b.len() {
        return false;
    }
    let mut i: usize = 0;
    while i < a.len()
        invariant
            a.len() == b.len(),
            i <= a.len(),
            forall|j: int| 0 <= j < i ==> a@[j] == b@[j],
        decreases a.len() - i,
    {
        if a[i] != b[i] {
            return false;
        }
        i = i + 1;
    }
    assert(a@ =~= b@);
    true
}

/// A short list of keys (byte strings) and the spans of their records, each
/// key once.
#[derive(Debug)]
struct KeyList {
    entries: Vec<(Vec<u8>, Span)>,
}

impl View for KeyList {
    type V = Map<Seq<u8>, Span>;

    closed spec fn view(&self) -> Map<Seq<u8>, Span> {
        entries_map(self.entries@)
    }
}

impl KeyList {
    /// No key is stored twice.
    closed spec fn wf(&self) -> bool {
        distinct_keys(self.entries@)
    }

    /// Position of `key` among the entries, if it is there.
    fn position(&self, key: &Vec<u8>) -> (r: Option<usize>)
        requires
            self.wf(),
        ensures
            match r {
                Some(i) => i < self.entries@.len() && self.entries@[i as int].0@ == key@,
                None => !self@.contains_key(key@),
            },
    {
        let mut i: usize = 0;
        while i < self.entries.len()
            invariant
                i <= self.entries@.len(),
                forall|j: int| 0 <= j < i ==> self.entries@[j].0@ != key@,
            decreases self.entries.len() - i,
        {
            if bytes_eq(&self.entries[i].0, key) {
                return Some(i);
            }
            i = i + 1;
        }
        proof {
            lemma_entries_contains(self.entries@, key@);
        }
        None
    }

    /// An empty list.
    fn new() -> (r: KeyList)
        ensures
            r.wf(),
            r@ == Map::<Seq<u8>, Span>::empty(),
    {
        KeyList { entries: Vec::new() }
    }

    /// The span stored for `key`, if any.
    fn get(&self, key: &Vec<u8>) -> (r: Option<Span>)
        requires
            self.wf(),
        ensures
            r == (if self@.contains_key(key@) {
                Some(self@[key@])
            } else {
                None::<Span>
            }),
    {
        match self.position(key) {
            Some(i) => {
                proof {
                    lemma_entries_index(self.entries@, i as int);
                }
                Some(self.entries[i].1)
            },
            None => None,
        }
    }

    /// Whether `key` is in the map.
    fn contains_key(&self, key: &Vec<u8>) -> (r: bool)
        requires
            self.wf(),
        ensures
            r == self@.contains_key(key@),
    {
        match self.position(key) {
            Some(i) => {
                proof {
                    lemma_entries_index(self.entries@, i as int);
                }
                true
            },
            None => false,
        }
    }

    /// Maps `key` to `value`, giving back what `key` was mapped to before.
    fn insert(&mut self, key: Vec<u8>, value: Span) -> (r: Option<Span>)
        requires
            old(self).wf(),
        ensures
            final(self).wf(),
            final(self)@ == old(self)@.insert(key@, value),
            r == (if old(self)@.contains_key(key@) {
                Some(old(self)@[key@])
            } else {
                None::<Span>
            }),
    {
        match self.position(&key) {
            Some(i) => {
                let prev = self.entries[i].1;
                proof {
                    lemma_entries_index(self.entries@, i as int);
                    lemma_entries_update(self.entries@, i as int, value);
                }
                let k = self.entries[i].0.clone();
                proof {
                    assert(k@ =~= self.entries@[i as int].0@);
                }
                let ghost before = self.entries@;
                self.entries.set(i, (k, value));
                proof {
                    assert(self.entries@.update(i as int, (self.entries@[i as int].0, value))
                        =~= self.entries@);
                    assert forall|a: int, b: int| 0 <= a < b < self.entries@.len() implies
                        self.entries@[a].0@ != self.entries@[b].0@ by {
                        assert(before[a].0@ != before[b].0@);
                    }
                    assert(entries_map(self.entries@) =~= entries_map(
                        before.update(i as int, (before[i as int].0, value)),
                    )) by {
                        assert(self.entries@.drop_last().len() == before.drop_last().len());
                        lemma_same_view_keys(self.entries@, before.update(i as int, (before[i as int].0, value)));
                    }
                }
                Some(prev)
            },
            None => {
                let ghost before = self.entries@;
                proof {
                    lemma_entries_contains(before, key@);
                }
                self.entries.push((key, value));
                proof {
                    assert(self.entries@.drop_last() =~= before);
                }
                None
            },
        }
    }

    /// Removes `key`, giving back what it was mapped to.
    fn remove(&mut self, key: &Vec<u8>) -> (r: Option<Span>)
        requires
            old(self).wf(),
        ensures
            final(self).wf(),
            final(self)@ == old(self)@.remove(key@),
            r == (if old(self)@.contains_key(key@) {
                Some(old(self)@[key@])
            } else {
                None::<Span>
            }),
    {
        match self.position(key) {
            Some(i) => {
                proof {
                    lemma_entries_index(self.entries@, i as int);
                    lemma_entries_remove(self.entries@, i as int);
                }
                let e = self.entries.remove(i);
                Some(e.1)
            },
            None => {
                assert(old(self)@.remove(key@) =~= old(self)@);
                None
            },
        }
    }

    /// The keys of the map, each once.
    fn keys(&self) -> (r: Vec<Vec<u8>>)
        requires
            self.wf(),
        ensures
            r@.len() == self@.dom().len(),
            forall|i: int| 0 <= i < r@.len() ==> #[trigger] self@.contains_key(r@[i]@),
            forall|i: int, j: int| 0 <= i < j < r@.len() ==> r@[i]@ != r@[j]@,
            forall|k: Seq<u8>|
                #[trigger] self@.contains_key(k) ==> exists|i: int| 0 <= i < r@.len() && r@[i]@ == k,
    {
        let mut r: Vec<Vec<u8>> = Vec::new();
        let mut i: usize = 0;
        while i < self.entries.len()
            invariant
                i <= self.entries@.len(),
                r@.len() == i,
                distinct_keys(self.entries@),
                forall|j: int| 0 <= j < i ==> #[trigger] r@[j]@ == self.entries@[j].0@,
            decreases self.entries.len() - i,
        {
            let k = self.entries[i].0.clone();
            proof {
                assert(k@ =~= self.entries@[i as int].0@);
            }
            r.push(k);
            i = i + 1;
        }
        proof {
            assert forall|j: int| 0 <= j < r@.len() implies #[trigger] self@.contains_key(r@[j]@) by {
                lemma_entries_index(self.entries@, j);
            }
            assert forall|k: Seq<u8>| #[trigger] self@.contains_key(k) implies exists|j: int|
                0 <= j < r@.len() && r@[j]@ == k by {
                lemma_entries_contains(self.entries@, k);
                let j = choose|j: int| 0 <= j < self.entries@.len() && self.entries@[j].0@ == k;
                assert(r@[j]@ == k);
            }
            lemma_entries_len(self.entries@);
        }
        r
    }
}

/// The bucket a key goes to: its bytes folded with `h * 31 + byte`, wrapping.
pub open spec fn key_hash(k: Seq<u8>) -> u64
    decreases k.len(),
{
    if k.len() == 0 {
        0
    } else {
        key_hash(k.drop_last()).wrapping_mul(31).wrapping_add(k.last() as u64)
    }
}

/// The bucket of `key`.
fn hash_key(key: &Vec<u8>) -> (r: u64)
    ensures
        r == key_hash(key@),
{
    let mut h: u64 = 0;
    let mut i: usize = 0;
    while i < key.len()
        invariant
            i <= key@.len(),
            h == key_hash(key@.subrange(0, i as int)),
        decreases key.len() - i,
    {
        assert(key@.subrange(0, i + 1).drop_last() =~= key@.subrange(0, i as int));
        h = h.wrapping_mul(31).wrapping_add(key[i] as u64);
        i = i + 1;
    }
    assert(key@.subrange(0, key@.len() as int) =~= key@);
    h
}

/// One of the first `n` entries of `all` has key `h`.
spec fn hash_seen(all: Seq<(&u64, &KeyList)>, n: int, h: u64) -> bool {
    exists|j: int| 0 <= j < n && *all[j].0 == h
}

/// A map from keys (byte strings) to the span of the record that holds them,
/// kept in buckets by `key_hash`.
#[derive(Debug)]
pub struct PointerMap {
    buckets: HashMap<u64, KeyList>,
}

impl View for PointerMap {
    type V = Map<Seq<u8>, Span>;

    closed spec fn view(&self) -> Map<Seq<u8>, Span> {
        Map::new(
            |k: Seq<u8>|
                self.buckets@.contains_key(key_hash(k)) && self.buckets@[key_hash(k)]@.contains_key(k),
            |k: Seq<u8>| self.buckets@[key_hash(k)]@[k],
        )
    }
}

impl PointerMap {
    /// Each bucket is well formed and holds only keys that go to it.
    pub closed spec fn wf(&self) -> bool {
        forall|h: u64| #[trigger]
            self.buckets@.contains_key(h) ==> {
                &&& self.buckets@[h].wf()
                &&& forall|k: Seq<u8>| #[trigger] self.buckets@[h]@.contains_key(k) ==> key_hash(k) == h
            }
    }

    /// An empty map.
    pub fn new() -> (r: PointerMap)
        ensures
            r.wf(),
            r@ == Map::<Seq<u8>, Span>::empty(),
    {
        let r = PointerMap { buckets: HashMap::new() };
        assert(r@ =~= Map::<Seq<u8>, Span>::empty());
        r
    }

    /// An empty map with room for `capacity` buckets.
    pub fn with_capacity(capacity: usize) -> (r: PointerMap)
        ensures
            r.wf(),
            r@ == Map::<Seq<u8>, Span>::empty(),
    {
        let r = PointerMap { buckets: HashMap::with_capacity(capacity) };
        assert(r@ =~= Map::<Seq<u8>, Span>::empty());
        r
    }

    /// The span stored for `key`, if any.
    pub fn get(&self, key: &Vec<u8>) -> (r: Option<Span>)
        requires
            self.wf(),
        ensures
            r == (if self@.contains_key(key@) {
                Some(self@[key@])
            } else {
                None::<Span>
            }),
    {
        let h = hash_key(key);
        match self.buckets.get(&h) {
            Some(b) => b.get(key),
            None => None,
        }
    }

    /// Whether `key` is in the map.
    pub fn contains_key(&self, key: &Vec<u8>) -> (r: bool)
        requires
            self.wf(),
        ensures
            r == self@.contains_key(key@),
    {
        let h = hash_key(key);
        match self.buckets.get(&h) {
            Some(b) => b.contains_key(key),
            None => false,
        }
    }

    /// Maps `key` to `value`, giving back what `key` was mapped to before.
    pub fn insert(&mut self, key: Vec<u8>, value: Span) -> (r: Option<Span>)
        requires
            old(self).wf(),
        ensures
            final(self).wf(),
            final(self)@ == old(self)@.insert(key@, value),
            r == (if old(self)@.contains_key(key@) {
                Some(old(self)@[key@])
            } else {
                None::<Span>
            }),
    {
        let ghost old_self = *self;
        let ghost k0 = key@;
        let h = hash_key(&key);
        let mut b = match self.buckets.remove(&h) {
            Some(b) => b,
            None => KeyList::new(),
        };
        let ghost b0 = b;
        let r = b.insert(key, value);
        self.buckets.insert(h, b);
        proof {
            assert forall|g: u64| #[trigger] self.buckets@.contains_key(g) implies {
                &&& self.buckets@[g].wf()
                &&& forall|k: Seq<u8>| #[trigger] self.buckets@[g]@.contains_key(k) ==> key_hash(k) == g
            } by {
                if g != h {
                    assert(old_self.buckets@.contains_key(g));
                }
            }
            assert(self@ =~= old_self@.insert(k0, value));
        }
        r
    }

    /// The keys of the map, each once.
    pub fn keys(&self) -> (r: Vec<Vec<u8>>)
        requires
            self.wf(),
        ensures
            forall|i: int| 0 <= i < r@.len() ==> #[trigger] self@.contains_key(r@[i]@),
            forall|i: int, j: int| 0 <= i < j < r@.len() ==> r@[i]@ != r@[j]@,
            forall|k: Seq<u8>|
                #[trigger] self@.contains_key(k) ==> exists|i: int| 0 <= i < r@.len() && r@[i]@ == k,
    {
        let ghost all = vstd::std_specs::hash::spec_hash_map_iter(&self.buckets).remaining();
        let mut r: Vec<Vec<u8>> = Vec::new();
        for kv in it: self.buckets.iter()
            invariant
                it.seq() == all,
                all.no_duplicates(),
                self.wf(),
                forall|i: int| 0 <= i < all.len() ==> #[trigger] self.buckets@.contains_key(*all[i].0)
                    && self.buckets@[*all[i].0] == *all[i].1,
                forall|i: int| 0 <= i < r@.len() ==> #[trigger] self@.contains_key(r@[i]@),
                forall|i: int, j: int| 0 <= i < j < r@.len() ==> r@[i]@ != r@[j]@,
                forall|i: int| 0 <= i < r@.len() ==> #[trigger] hash_seen(all, it.index() as int, key_hash(r@[i]@)),
                forall|j: int, k: Seq<u8>|
                    0 <= j < it.index() && (*all[j].1)@.contains_key(k) ==> exists|i: int|
                        0 <= i < r@.len() && #[trigger] r@[i]@ == k,
        {
            let (h, b) = kv;
            let ghost j0 = it.index();
            proof {
                assert(all[j0] == kv);
                assert(self.buckets@.contains_key(*h) && self.buckets@[*h] == *b);
            }
            let ks = b.keys();
            let ghost r0 = r@;
            let mut n: usize = 0;
            while n < ks.len()
                invariant
                    n <= ks@.len(),
                    r@.len() == r0.len() + n,
                    forall|i: int| 0 <= i < r0.len() ==> r@[i] == r0[i],
                    forall|i: int| 0 <= i < n ==> #[trigger] r@[r0.len() + i]@ == ks@[i]@,
                    forall|i: int| 0 <= i < ks@.len() ==> #[trigger] b@.contains_key(ks@[i]@),
                    forall|i: int, j: int| 0 <= i < j < ks@.len() ==> ks@[i]@ != ks@[j]@,
                decreases ks@.len() - n,
            {
                let k = ks[n].clone();
                assert(k@ =~= ks@[n as int]@);
                r.push(k);
                n = n + 1;
            }
            proof {
                let rn = r@;
                assert forall|i: int| 0 <= i < rn.len() implies #[trigger] self@.contains_key(rn[i]@) by {
                    if i >= r0.len() {
                        let a = i - r0.len();
                        let k = ks@[a]@;
                        assert(rn[r0.len() + a]@ == k);
                        assert(b@.contains_key(k));
                        assert(self.buckets@[*h]@.contains_key(k));
                        assert(key_hash(k) == *h);
                        assert(self@.contains_key(k));
                    } else {
                        assert(rn[i] == r0[i]);
                    }
                }
                assert forall|i: int| 0 <= i < rn.len() implies #[trigger] hash_seen(all, j0 + 1, key_hash(rn[i]@)) by {
                    if i >= r0.len() {
                        let a = i - r0.len();
                        let k = ks@[a]@;
                        assert(rn[r0.len() + a]@ == k);
                        assert(b@.contains_key(k));
                        assert(self.buckets@[*h]@.contains_key(k));
                        assert(key_hash(rn[i]@) == *all[j0].0);
                    } else {
                        assert(rn[i] == r0[i]);
                        assert(hash_seen(all, j0, key_hash(r0[i]@)));
                        let j = choose|j: int| 0 <= j < j0 && *all[j].0 == key_hash(r0[i]@);
                        assert(key_hash(rn[i]@) == *all[j].0);
                    }
                }
                assert forall|x: int, y: int| 0 <= x < y < rn.len() implies rn[x]@ != rn[y]@ by {
                    if y >= r0.len() {
                        let b2 = y - r0.len();
                        assert(rn[r0.len() + b2]@ == ks@[b2]@);
                        assert(b@.contains_key(ks@[b2]@));
                        if x >= r0.len() {
                            let a2 = x - r0.len();
                            assert(rn[r0.len() + a2]@ == ks@[a2]@);
                        } else {
                            assert(rn[x] == r0[x]);
                            assert(hash_seen(all, j0, key_hash(r0[x]@)));
                            let j = choose|j: int| 0 <= j < j0 && *all[j].0 == key_hash(r0[x]@);
                            assert(self.buckets@[*h]@.contains_key(ks@[b2]@));
                            if rn[x]@ == rn[y]@ {
                                assert(*all[j].0 == *all[j0].0);
                                assert(self.buckets@.contains_key(*all[j].0));
                                assert(*all[j].1 == *all[j0].1);
                                assert(all[j] == all[j0]);
                            }
                        }
                    } else {
                        assert(rn[x] == r0[x] && rn[y] == r0[y]);
                    }
                }
                assert forall|j: int, k: Seq<u8>|
                    0 <= j < j0 + 1 && (*all[j].1)@.contains_key(k) implies exists|i: int|
                        0 <= i < rn.len() && #[trigger] rn[i]@ == k by {
                    if j < j0 {
                        let i = choose|i: int| 0 <= i < r0.len() && #[trigger] r0[i]@ == k;
                        assert(rn[i] == r0[i]);
                    } else {
                        assert(b@.contains_key(k));
                        let a = choose|a: int| 0 <= a < ks@.len() && ks@[a]@ == k;
                        assert(rn[r0.len() + a]@ == ks@[a]@);
                    }
                }
            }
        }
        proof {
            assert forall|k: Seq<u8>| #[trigger] self@.contains_key(k) implies exists|i: int|
                0 <= i < r@.len() && r@[i]@ == k by {
                let h = key_hash(k);
                assert(self.buckets@.contains_key(h));
                assert(all.contains((&h, &self.buckets@[h])));
                let j = choose|j: int| 0 <= j < all.len() && all[j] == (&h, &self.buckets@[h]);
                assert((*all[j].1)@.contains_key(k));
            }
        }
        r
    }

    /// Removes `key`, giving back what it was mapped to.
    pub fn remove(&mut self, key: &Vec<u8>) -> (r: Option<Span>)
        requires
            old(self).wf(),
        ensures
            final(self).wf(),
            final(self)@ == old(self)@.remove(key@),
            r == (if old(self)@.contains_key(key@) {
                Some(old(self)@[key@])
            } else {
                None::<Span>
            }),
    {
        let ghost old_self = *self;
        let h = hash_key(key);
        match self.buckets.remove(&h) {
            Some(mut b) => {
                let r = b.remove(key);
                self.buckets.insert(h, b);
                proof {
                    assert forall|g: u64| #[trigger] self.buckets@.contains_key(g) implies {
                        &&& self.buckets@[g].wf()
                        &&& forall|k: Seq<u8>| #[trigger] self.buckets@[g]@.contains_key(k) ==> key_hash(k) == g
                    } by {
                        if g != h {
                            assert(old_self.buckets@.contains_key(g));
                        }
                    }
                    assert(self@ =~= old_self@.remove(key@));
                }
                r
            },
            None => {
                proof {
                    assert(self.buckets@ == old_self.buckets@);
                    assert(old_self@.remove(key@) =~= old_self@);
                }
                None
            },
        }
    }
}

proof fn lemma_same_view_keys(s: Seq<(Vec<u8>, Span)>, t: Seq<(Vec<u8>, Span)>)
    requires
        s.len() == t.len(),
        forall|i: int| 0 <= i < s.len() ==> s[i].0@ == t[i].0@ && s[i].1 == t[i].1,
    ensures
        entries_map(s) == entries_map(t),
    decreases s.len(),
{
    if s.len() > 0 {
        lemma_same_view_keys(s.drop_last(), t.drop_last());
    }
}

proof fn lemma_entries_len(s: Seq<(Vec<u8>, Span)>)
    requires
        distinct_keys(s),
    ensures
        entries_map(s).dom().finite(),
        entries_map(s).dom().len() == s.len(),
    decreases s.len(),
{
    if s.len() > 0 {
        lemma_entries_len(s.drop_last());
        lemma_entries_contains(s.drop_last(), s.last().0@);
    }
}

} // verus!
