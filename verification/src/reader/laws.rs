use crate::parser::writer::record;
use crate::reader::format::{lemma_record_layout_len, record_span};
use crate::reader::space::{disjoint, free_positions, has_room, region_ok, span_positions, Region};
use crate::reader::model::{found_values, PointerView, ReaderModel};
use crate::reader::{Reader, Write};
use vstd::prelude::*;

verus! {

/// After `fill` placed a record for `key` with a value of `value_size` bytes,
/// `find(key)` gives the span that `fill` returned, with the value at bytes
/// `36 + |key|` to `35 + |key| + value_size` of it.
pub proof fn law_fill_then_find(
    old: Reader,
    new: Reader,
    key: Seq<u8>,
    value_size: int,
    i: usize,
    w: Write,
)
    requires
        Reader::filled_from(old, new, key, value_size, i, w),
    ensures
        new.pointers@.contains_key(key),
        new.pointers@[key] == (
            (w.start, w.end),
            ((w.start + 36 + key.len()) as usize, (w.start + 35 + key.len() + value_size) as usize),
        ),
        forall|k: Seq<u8>| k != key ==> #[trigger] new.pointers@.contains_key(k) == old.pointers@.contains_key(k),
        forall|k: Seq<u8>| k != key && old.pointers@.contains_key(k) ==> #[trigger] new.pointers@[k] == old.pointers@[k],
{
}

/// `fill` takes the record's span out of the free space and nothing else: the
/// span was free, it overlaps no other record, and the free positions after
/// are those before less the span.
pub proof fn law_fill_takes_free_space(
    old: Reader,
    new: Reader,
    key: Seq<u8>,
    value_size: int,
    i: usize,
    w: Write,
)
    requires
        old.regions_ok_at(usize::MAX as int),
        old.empty_map@.contains_key(i),
        value_size >= 0,
        Reader::filled_from(old, new, key, value_size, i, w),
    ensures
        span_positions(w.start, w.end).subset_of(free_positions(old.empty_map@)),
        free_positions(new.empty_map@) == free_positions(old.empty_map@).difference(
            span_positions(w.start, w.end),
        ),
        forall|k: Seq<u8>|
            #[trigger] old.pointers@.contains_key(k) ==> disjoint(old.pointers@[k].0, (w.start, w.end)),
{
    let em = old.empty_map@;
    let nem = new.empty_map@;
    let s = em[i].1.0;
    let e = em[i].1.1;
    let total = 39 + key.len() + value_size;
    assert(region_ok(em[i]));
    let span = span_positions(w.start, w.end);
    let before = free_positions(em);
    let after = free_positions(nem);
    assert forall|p: int| span.contains(p) implies before.contains(p) by {
        assert(em.contains_key(i) && em[i].1.0 <= p <= em[i].1.1);
    }
    assert forall|p: int| after.contains(p) implies before.contains(p) && !span.contains(p) by {
        let j = choose|j: usize| #[trigger] nem.contains_key(j) && nem[j].1.0 <= p <= nem[j].1.1;
        if j == i {
            assert(em.contains_key(i) && em[i].1.0 <= p <= em[i].1.1);
        } else {
            assert(disjoint(em[i].1, em[j].1));
            assert(em.contains_key(j) && em[j].1.0 <= p <= em[j].1.1);
        }
    }
    assert forall|p: int| before.contains(p) && !span.contains(p) implies after.contains(p) by {
        let j = choose|j: usize| #[trigger] em.contains_key(j) && em[j].1.0 <= p <= em[j].1.1;
        if j == i {
            assert(nem.contains_key(i) && nem[i].1.0 <= p <= nem[i].1.1);
        } else {
            assert(nem.contains_key(j) && nem[j].1.0 <= p <= nem[j].1.1);
        }
    }
    assert(after =~= before.difference(span));
    assert forall|k: Seq<u8>| #[trigger] old.pointers@.contains_key(k) implies disjoint(
        old.pointers@[k].0,
        (w.start, w.end),
    ) by {
        assert(disjoint(old.pointers@[k].0, em[i].1));
    }
}

/// `clear` gives the record's span back to the free space: the free positions
/// after are those before and the span, and the key is no longer found.
pub proof fn law_clear_frees_span(old: Reader, new: Reader, key: Seq<u8>)
    requires
        old.regions_ok_at(usize::MAX as int),
        !old.empty_map@.contains_key(old.empty_index),
        old.pointers@.contains_key(key),
        Reader::cleared(old, new, key),
    ensures
        !new.pointers@.contains_key(key),
        free_positions(new.empty_map@) == free_positions(old.empty_map@).union(
            span_positions(old.pointers@[key].0.0, old.pointers@[key].0.1),
        ),
{
    let em = old.empty_map@;
    let es = old.empty_start@;
    let ee = old.empty_end@;
    let nem = new.empty_map@;
    let pm = old.pointers@;
    let ps = pm[key].0.0;
    let pe = pm[key].0.1;
    let prev = ps > 0 && ee.contains_key((ps - 1) as usize);
    let pi = ee[(ps - 1) as usize];
    let next = es.contains_key((pe + 1) as usize);
    let ni = es[(pe + 1) as usize];
    if prev {
        assert(em.contains_key(pi));
        assert(region_ok(em[pi]));
        assert(disjoint(pm[key].0, em[pi].1));
    }
    if next {
        assert(em.contains_key(ni));
        assert(region_ok(em[ni]));
        assert(disjoint(pm[key].0, em[ni].1));
    }
    if prev && next {
        assert(pi != ni);
    }
    let ci = if prev { pi } else if next { ni } else { old.empty_index };
    let cs = if prev { em[pi].1.0 } else { ps };
    let ce = if next { em[ni].1.1 } else { pe };
    assert(nem.contains_key(ci) && nem[ci].1 == (cs, ce));
    let span = span_positions(ps, pe);
    let before = free_positions(em);
    let after = free_positions(nem);
    assert forall|p: int| after.contains(p) implies before.contains(p) || span.contains(p) by {
        let j = choose|j: usize| #[trigger] nem.contains_key(j) && nem[j].1.0 <= p <= nem[j].1.1;
        if j == ci {
            if p < ps {
                assert(em.contains_key(pi) && em[pi].1.0 <= p <= em[pi].1.1);
            } else if p > pe {
                assert(em.contains_key(ni) && em[ni].1.0 <= p <= em[ni].1.1);
            }
        } else {
            assert(em.contains_key(j) && em[j].1.0 <= p <= em[j].1.1);
        }
    }
    assert forall|p: int| before.contains(p) || span.contains(p) implies after.contains(p) by {
        if span.contains(p) {
            assert(nem.contains_key(ci) && nem[ci].1.0 <= p <= nem[ci].1.1);
        } else {
            let j = choose|j: usize| #[trigger] em.contains_key(j) && em[j].1.0 <= p <= em[j].1.1;
            if prev && j == pi {
                assert(nem.contains_key(ci) && nem[ci].1.0 <= p <= nem[ci].1.1);
            } else if next && j == ni {
                assert(nem.contains_key(ci) && nem[ci].1.0 <= p <= nem[ci].1.1);
            } else {
                assert(nem.contains_key(j) && nem[j].1.0 <= p <= nem[j].1.1);
            }
        }
    }
    assert(after =~= before.union(span));
}

/// `expand` adds the `n` positions right after the mapped area to the free
/// space, and leaves the records and `map_cursor` alone.
pub proof fn law_expand_adds_free_space(old: Reader, new: Reader, n: int)
    requires
        old.regions_ok_at(usize::MAX as int),
        !old.empty_map@.contains_key(old.empty_index),
        old.map_cursor >= 1,
        n >= 0,
        old.map_cursor + n <= usize::MAX,
        Reader::expanded(old, new, n),
    ensures
        new.pointers@ == old.pointers@,
        new.map_cursor == old.map_cursor,
        free_positions(new.empty_map@) == free_positions(old.empty_map@).union(
            span_positions(old.map_cursor, (old.map_cursor + n - 1) as usize),
        ),
{
    let mc = old.map_cursor;
    let em = old.empty_map@;
    let ee = old.empty_end@;
    let nem = new.empty_map@;
    let last = ee.contains_key((mc - 1) as usize);
    let li = ee[(mc - 1) as usize];
    let ci = if last { li } else { old.empty_index };
    if last {
        assert(em.contains_key(li));
        assert(region_ok(em[li]));
    } else {
        assert(!em.contains_key(old.empty_index));
    }
    let span = span_positions(mc, (mc + n - 1) as usize);
    let before = free_positions(em);
    let after = free_positions(nem);
    assert forall|p: int| after.contains(p) implies before.contains(p) || span.contains(p) by {
        let j = choose|j: usize| #[trigger] nem.contains_key(j) && nem[j].1.0 <= p <= nem[j].1.1;
        if j == ci {
            if last && p < mc {
                assert(em.contains_key(li) && em[li].1.0 <= p <= em[li].1.1);
            }
        } else {
            assert(em.contains_key(j) && em[j].1.0 <= p <= em[j].1.1);
        }
    }
    assert forall|p: int| before.contains(p) || span.contains(p) implies after.contains(p) by {
        if span.contains(p) {
            assert(nem.contains_key(ci) && nem[ci].1.0 <= p <= nem[ci].1.1);
        } else {
            let j = choose|j: usize| #[trigger] em.contains_key(j) && em[j].1.0 <= p <= em[j].1.1;
            if last && j == li {
                assert(nem.contains_key(ci) && nem[ci].1.0 <= p <= nem[ci].1.1);
            } else {
                assert(nem.contains_key(j) && nem[j].1.0 <= p <= nem[j].1.1);
            }
        }
    }
    assert(after =~= before.union(span));
}

/// Clearing a key right after filling it undoes the fill: the records and the
/// free positions are those from before the fill (for a key that was not
/// there before).
pub proof fn law_fill_then_clear(
    before: Reader,
    filled: Reader,
    cleared: Reader,
    key: Seq<u8>,
    value_size: int,
    i: usize,
    w: Write,
)
    requires
        before.regions_ok_at(usize::MAX as int),
        !before.empty_map@.contains_key(before.empty_index),
        before.empty_map@.contains_key(i),
        !before.pointers@.contains_key(key),
        value_size >= 0,
        Reader::filled_from(before, filled, key, value_size, i, w),
        filled.regions_ok_at(usize::MAX as int),
        filled.empty_index == before.empty_index,
        Reader::cleared(filled, cleared, key),
    ensures
        cleared.pointers@ == before.pointers@,
        free_positions(cleared.empty_map@) == free_positions(before.empty_map@),
{
    law_fill_then_find(before, filled, key, value_size, i, w);
    law_fill_takes_free_space(before, filled, key, value_size, i, w);
    law_clear_frees_span(filled, cleared, key);
    assert(cleared.pointers@ =~= before.pointers@);
    let span = span_positions(w.start, w.end);
    assert(free_positions(cleared.empty_map@) =~= free_positions(before.empty_map@));
}

/// The span that `fill` hands out for `key` and a value of `value.len()` bytes
/// is exactly as long as the record the writer makes of `key` and `value`, and
/// the spans kept for `key` are those the reader finds when it reads that
/// record there.
pub proof fn law_fill_fits_record(
    old: Reader,
    new: Reader,
    key: Seq<u8>,
    value: Seq<u8>,
    i: usize,
    w: Write,
)
    requires
        Reader::filled_from(old, new, key, value.len() as int, i, w),
    ensures
        w.end + 1 - w.start == record(key, value).len(),
        new.pointers@[key] == record_span(w.start as int, key, value),
{
    lemma_record_layout_len(key, value, seq![]);
}

/// After `expand` added `n` free bytes, a record of up to `n` bytes fits: so
/// adding a record, growing by at least its length when it does not fit,
/// places it on the second try.
pub proof fn law_expand_makes_room(old: Reader, new: Reader, n: int, total: int)
    requires
        old.regions_ok_at(usize::MAX as int),
        old.map_cursor >= 1,
        0 <= total <= n,
        old.map_cursor + n <= usize::MAX,
        Reader::expanded(old, new, n),
    ensures
        has_room(new.empty_map@, total),
{
    let mc = old.map_cursor;
    let em = old.empty_map@;
    let ee = old.empty_end@;
    let last = ee.contains_key((mc - 1) as usize);
    let li = ee[(mc - 1) as usize];
    let ci = if last { li } else { old.empty_index };
    if last {
        assert(em.contains_key(li));
        assert(region_ok(em[li]));
    }
    assert(new.empty_map@.contains_key(ci) && new.empty_map@[ci].0 >= total);
}

/// No free region ends right before another one starts: neighbouring free
/// space is always one region.
pub open spec fn non_adjacent(em: Map<usize, Region>) -> bool {
    forall|i: usize, j: usize|
        #![trigger em[i], em[j]]
        em.contains_key(i) && em.contains_key(j) && i != j ==> em[i].1.1 + 1 != em[j].1.0
}

/// `clear` keeps neighbouring free space in one region: when no two free
/// regions touched before, none touch after; and every free region that did
/// not touch the cleared record keeps its number and bounds.
pub proof fn law_clear_keeps_regions_apart(old: Reader, new: Reader, key: Seq<u8>)
    requires
        old.regions_ok_at(usize::MAX as int),
        !old.empty_map@.contains_key(old.empty_index),
        old.pointers@.contains_key(key),
        non_adjacent(old.empty_map@),
        Reader::cleared(old, new, key),
    ensures
        non_adjacent(new.empty_map@),
        forall|j: usize|
            #[trigger] old.empty_map@.contains_key(j) && old.empty_map@[j].1.1 + 1 != old.pointers@[key].0.0
                && old.empty_map@[j].1.0 != old.pointers@[key].0.1 + 1 ==> new.empty_map@.contains_key(j)
                && new.empty_map@[j] == old.empty_map@[j],
{
    let em = old.empty_map@;
    let es = old.empty_start@;
    let ee = old.empty_end@;
    let nem = new.empty_map@;
    let pm = old.pointers@;
    let ps = pm[key].0.0;
    let pe = pm[key].0.1;
    assert(ps <= pe < usize::MAX);
    let prev = ps > 0 && ee.contains_key((ps - 1) as usize);
    let pi = ee[(ps - 1) as usize];
    let next = es.contains_key((pe + 1) as usize);
    let ni = es[(pe + 1) as usize];
    if prev {
        assert(em.contains_key(pi));
        assert(region_ok(em[pi]) && em[pi].1.1 == ps - 1);
    }
    if next {
        assert(em.contains_key(ni));
        assert(region_ok(em[ni]) && em[ni].1.0 == pe + 1);
    }
    if prev && next {
        assert(pi != ni);
    }
    let ci = if prev { pi } else if next { ni } else { old.empty_index };
    let cs = if prev { em[pi].1.0 } else { ps };
    let ce = if next { em[ni].1.1 } else { pe };
    assert(nem.contains_key(ci) && nem[ci].1 == (cs, ce));
    // a region that touches neither neighbour of the record is unchanged
    assert forall|j: usize|
        #[trigger] em.contains_key(j) && em[j].1.1 + 1 != ps && em[j].1.0 != pe + 1 implies nem.contains_key(j)
            && nem[j] == em[j] by {
        if prev && j == pi {
        }
        if next && j == ni {
        }
    }
    // no region ends right before the merged one, nor starts right after it
    assert forall|j: usize| #[trigger] nem.contains_key(j) && j != ci implies nem[j] == em[j] && em.contains_key(j)
        && j != ci && !(next && j == ni) by {
    }
    assert forall|a: usize, b: usize|
        #![trigger nem[a], nem[b]]
        nem.contains_key(a) && nem.contains_key(b) && a != b implies nem[a].1.1 + 1 != nem[b].1.0 by {
        if a == ci {
            assert(em.contains_key(b) && nem[b] == em[b]);
            if nem[a].1.1 + 1 == nem[b].1.0 {
                if next {
                    assert(em[ni].1.1 + 1 == em[b].1.0);
                } else {
                    assert(es.contains_key((pe + 1) as usize)) by {
                        assert(es.contains_key(em[b].1.0) && es[em[b].1.0] == b);
                    }
                }
            }
        } else if b == ci {
            assert(em.contains_key(a) && nem[a] == em[a]);
            if nem[a].1.1 + 1 == nem[b].1.0 {
                if prev {
                    assert(em[a].1.1 + 1 == em[pi].1.0);
                } else {
                    assert(ee.contains_key((ps - 1) as usize)) by {
                        assert(ee.contains_key(em[a].1.1) && ee[em[a].1.1] == a);
                    }
                }
            }
        } else {
            assert(em.contains_key(a) && nem[a] == em[a]);
            assert(em.contains_key(b) && nem[b] == em[b]);
        }
    }
}

/// Clearing a key right after filling it gives back the very free regions
/// of before (when no two of them touched): the region the record was cut
/// from keeps its number, or, when the record took all of it, comes back
/// under the next free number; the start and end indexes cover the same
/// positions, and the records are those of before.
pub proof fn law_fill_then_clear_regions(
    before: Reader,
    filled: Reader,
    cleared: Reader,
    key: Seq<u8>,
    value_size: int,
    i: usize,
    w: Write,
)
    requires
        before.regions_ok_at(usize::MAX as int),
        !before.empty_map@.contains_key(before.empty_index),
        non_adjacent(before.empty_map@),
        before.empty_map@.contains_key(i),
        !before.pointers@.contains_key(key),
        value_size >= 0,
        Reader::filled_from(before, filled, key, value_size, i, w),
        filled.empty_index == before.empty_index,
        Reader::cleared(filled, cleared, key),
    ensures
        cleared.pointers@ == before.pointers@,
        cleared.empty_start@.dom() == before.empty_start@.dom(),
        cleared.empty_end@.dom() == before.empty_end@.dom(),
        if before.empty_map@[i].0 > 39 + key.len() + value_size {
            &&& cleared.empty_map@ == before.empty_map@
            &&& cleared.empty_start@ == before.empty_start@
            &&& cleared.empty_end@ == before.empty_end@
        } else {
            &&& cleared.empty_map@ == before.empty_map@.remove(i).insert(before.empty_index, before.empty_map@[i])
            &&& cleared.empty_start@ == before.empty_start@.insert(before.empty_map@[i].1.0, before.empty_index)
            &&& cleared.empty_end@ == before.empty_end@.insert(before.empty_map@[i].1.1, before.empty_index)
        },
{
    let em = before.empty_map@;
    let es = before.empty_start@;
    let ee = before.empty_end@;
    let s = em[i].1.0;
    let e = em[i].1.1;
    let t = 39 + key.len() + value_size;
    assert(region_ok(em[i]));
    assert(es.contains_key(s) && es[s] == i && ee.contains_key(e) && ee[e] == i);
    assert(filled.pointers@.contains_key(key));
    let ps = filled.pointers@[key].0.0;
    let pe = filled.pointers@[key].0.1;
    assert(ps == s && pe == s + t - 1);
    // no free region ends right before the one the record was cut from
    assert(!(ps > 0 && filled.empty_end@.contains_key((ps - 1) as usize))) by {
        if ps > 0 && filled.empty_end@.contains_key((ps - 1) as usize) {
            assert(ee.contains_key((ps - 1) as usize));
            let j = ee[(ps - 1) as usize];
            assert(em.contains_key(j) && em[j].1.1 == ps - 1);
            assert(j != i);
            assert(em[j].1.1 + 1 == em[i].1.0);
        }
    }
    assert(cleared.pointers@ =~= before.pointers@);
    if em[i].0 > t {
        assert(filled.empty_start@.contains_key((pe + 1) as usize));
        assert(cleared.empty_map@ =~= em);
        assert(cleared.empty_start@ =~= es);
    } else {
        assert(!filled.empty_start@.contains_key((pe + 1) as usize)) by {
            if filled.empty_start@.contains_key((pe + 1) as usize) {
                assert(es.contains_key((pe + 1) as usize));
                let j = es[(pe + 1) as usize];
                assert(em.contains_key(j) && em[j].1.0 == pe + 1);
                assert(j != i);
                assert(em[i].1.1 + 1 == em[j].1.0);
            }
        }
        assert(cleared.empty_map@ =~= em.remove(i).insert(before.empty_index, em[i]));
        assert(cleared.empty_start@ =~= es.insert(s, before.empty_index));
        assert(cleared.empty_end@ =~= ee.insert(e, before.empty_index));
    }
    assert(cleared.empty_start@.dom() =~= es.dom());
    assert(cleared.empty_end@.dom() =~= ee.dom());
}

/// The values collected for the keys asked for, when a record of `key` with
/// `value` is read: one entry `(key, value)` for each time `key` was asked
/// for, and nothing for other keys.
proof fn lemma_found_values(to_find: Seq<Seq<u8>>, key: Seq<u8>, value: Seq<u8>)
    ensures
        found_values(to_find, key, value).len() == to_find.to_multiset().count(key),
        forall|j: int|
            0 <= j < found_values(to_find, key, value).len() ==> #[trigger] found_values(to_find, key, value)[j]
                == (key, value),
    decreases to_find.len(),
{
    broadcast use vstd::seq_lib::group_to_multiset_ensures;
    if to_find.len() > 0 {
        let d = to_find.drop_last();
        lemma_found_values(d, key, value);
        assert(to_find == d.push(to_find.last()));
        let f = found_values(d, key, value);
        let tail = if to_find.last() == key {
            seq![(key, value)]
        } else {
            seq![]
        };
        assert forall|j: int| 0 <= j < (f + tail).len() implies #[trigger] (f + tail)[j] == (key, value) by {
            if j < f.len() {
                assert((f + tail)[j] == f[j]);
            }
        }
    } else {
        assert(to_find.to_multiset() =~= vstd::multiset::Multiset::empty());
    }
}

/// Keeping a record read collects its value, besides those collected
/// before: for every record when all values are asked for; otherwise, when
/// values of chosen keys are asked for, once for each time its key is among
/// them, and for no other key; and none when no value is asked for.
pub proof fn law_take_record_collects(m: ReaderModel, p: PointerView)
    ensures
        ({
            let n = m.take_record(p);
            let key = p.key.2;
            let value = m.buffer.subrange(p.value.1.0 as int, p.value.1.1 as int);
            &&& n.values.len() >= m.values.len()
            &&& n.values.subrange(0, m.values.len() as int) == m.values
            &&& m.get_values_controll ==> n.values == m.values.push((key, value))
            &&& !m.get_values_controll && m.find_values ==> {
                &&& n.values.len() == m.values.len() + m.to_find.to_multiset().count(key)
                &&& forall|j: int| m.values.len() <= j < n.values.len() ==> #[trigger] n.values[j] == (key, value)
            }
            &&& !m.get_values_controll && !m.find_values ==> n.values == m.values
        }),
{
    let n = m.take_record(p);
    let key = p.key.2;
    let value = m.buffer.subrange(p.value.1.0 as int, p.value.1.1 as int);
    lemma_found_values(m.to_find, key, value);
    let f = found_values(m.to_find, key, value);
    assert(n.values.subrange(0, m.values.len() as int) =~= m.values);
    if m.get_values_controll {
        assert(n.values =~= m.values.push((key, value)));
    } else if m.find_values {
        assert forall|j: int| m.values.len() <= j < n.values.len() implies #[trigger] n.values[j] == (key, value) by {
            assert(n.values[j] == f[j - m.values.len()]);
        }
    } else {
        assert(n.values =~= m.values);
    }
}

/// Keeping the record of `key` and `value` read at the front of the buffer
/// collects its value as `law_take_record_collects` says: once per time its
/// key is asked for, when chosen keys are asked for.
pub proof fn law_stored_collects(m: ReaderModel, key: Seq<u8>, value: Seq<u8>, rest: Seq<u8>)
    ensures
        ({
            let n = m.stored(key, value, rest);
            &&& n.values.len() >= m.values.len()
            &&& n.values.subrange(0, m.values.len() as int) == m.values
            &&& m.get_values_controll ==> n.values == m.values.push((key, value))
            &&& !m.get_values_controll && m.find_values ==> {
                &&& n.values.len() == m.values.len() + m.to_find.to_multiset().count(key)
                &&& forall|j: int| m.values.len() <= j < n.values.len() ==> #[trigger] n.values[j] == (key, value)
            }
            &&& !m.get_values_controll && !m.find_values ==> n.values == m.values
        }),
{
    let n = m.stored(key, value, rest);
    lemma_found_values(m.to_find, key, value);
    let f = found_values(m.to_find, key, value);
    assert(n.values.subrange(0, m.values.len() as int) =~= m.values);
    if m.get_values_controll {
        assert(n.values =~= m.values.push((key, value)));
    } else if m.find_values {
        assert forall|j: int| m.values.len() <= j < n.values.len() implies #[trigger] n.values[j] == (key, value) by {
            assert(n.values[j] == f[j - m.values.len()]);
        }
    } else {
        assert(n.values =~= m.values);
    }
}

} // verus!
