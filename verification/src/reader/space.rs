use crate::reader::pointers::Span;
use vstd::prelude::*;

verus! {

/// A free region: `(len, (start, end))`, positions inclusive.
pub type Region = (usize, (usize, usize));

/// A region whose length matches its bounds (a region may be empty:
/// `start == end + 1`).
pub open spec fn region_ok(r: Region) -> bool {
    &&& r.1.0 <= r.1.1 + 1
    &&& r.0 == r.1.1 + 1 - r.1.0
}

/// Two inclusive spans that share no position.
pub open spec fn disjoint(a: (usize, usize), b: (usize, usize)) -> bool {
    a.1 < b.0 || b.1 < a.0
}

/// The free regions, indexed by number, by start and by end, agree with one
/// another; regions lie below `limit` and do not overlap.
pub open spec fn regions_wf(
    em: Map<usize, Region>,
    es: Map<usize, usize>,
    ee: Map<usize, usize>,
    limit: int,
) -> bool {
    &&& forall|i: usize| #[trigger]
        em.contains_key(i) ==> {
            &&& region_ok(em[i])
            &&& em[i].1.1 < limit
            &&& es.contains_key(em[i].1.0)
            &&& es[em[i].1.0] == i
            &&& ee.contains_key(em[i].1.1)
            &&& ee[em[i].1.1] == i
        }
    &&& forall|s: usize| #[trigger]
        es.contains_key(s) ==> em.contains_key(es[s]) && em[es[s]].1.0 == s
    &&& forall|e: usize| #[trigger]
        ee.contains_key(e) ==> em.contains_key(ee[e]) && em[ee[e]].1.1 == e
    &&& forall|i: usize, j: usize|
        #![trigger em[i], em[j]]
        em.contains_key(i) && em.contains_key(j) && i != j ==> disjoint(em[i].1, em[j].1)
}

/// The regions are well formed (see `regions_wf`) and their numbers lie
/// below `next`.
pub open spec fn empties_wf(
    em: Map<usize, Region>,
    es: Map<usize, usize>,
    ee: Map<usize, usize>,
    next: usize,
    limit: int,
) -> bool {
    &&& regions_wf(em, es, ee, limit)
    &&& forall|i: usize| #[trigger] em.contains_key(i) ==> 1 <= i < next
}

/// Every record span is well formed and lies below `limit`; record spans do
/// not overlap one another nor any free region.
pub open spec fn pointers_wf(pm: Map<Seq<u8>, Span>, em: Map<usize, Region>, limit: int) -> bool {
    &&& forall|k: Seq<u8>| #[trigger] pm.contains_key(k) ==> pm[k].0.0 <= pm[k].0.1 < limit
    &&& forall|k1: Seq<u8>, k2: Seq<u8>|
        #![trigger pm[k1], pm[k2]]
        pm.contains_key(k1) && pm.contains_key(k2) && k1 != k2 ==> disjoint(pm[k1].0, pm[k2].0)
    &&& forall|k: Seq<u8>, i: usize|
        #![trigger pm[k], em[i]]
        pm.contains_key(k) && em.contains_key(i) ==> disjoint(pm[k].0, em[i].1)
}

/// The positions that some free region covers.
pub open spec fn free_positions(em: Map<usize, Region>) -> Set<int> {
    Set::new(|p: int| exists|i: usize| #[trigger] em.contains_key(i) && em[i].1.0 <= p <= em[i].1.1)
}

/// The positions of an inclusive span.
pub open spec fn span_positions(s: usize, e: usize) -> Set<int> {
    Set::new(|p: int| s <= p <= e)
}

/// Some free region is at least `total` bytes long.
pub open spec fn has_room(em: Map<usize, Region>, total: int) -> bool {
    exists|i: usize| #[trigger] em.contains_key(i) && em[i].0 >= total
}

} // verus!
