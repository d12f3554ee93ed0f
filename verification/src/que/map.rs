use crate::reader::space::has_room;
use crate::reader::{Reader, Write};
use crate::workers::{be_value, u64_from_bytes};
use vstd::prelude::*;

verus! {

/// One megabyte, as the queue counts it.
pub const MB: u64 = 1_000_000;

/// How many bytes of a stored queue of `len` bytes are read at a time: 100,
/// 50 or 25 megabytes for a queue larger than that, else all of it at once.
pub open spec fn spec_chunk_size(len: u64) -> u64 {
    if len > 100 * MB {
        (100 * MB) as u64
    } else if len > 50 * MB {
        (50 * MB) as u64
    } else if len > 25 * MB {
        (25 * MB) as u64
    } else {
        len
    }
}

/// The reads, as `(start, length)`, that cover `remaining` bytes from
/// `start` on, `chunk` bytes at a time (the last read may be shorter).
pub open spec fn chunk_reads(start: int, remaining: int, chunk: int) -> Seq<(u64, u64)>
    decreases remaining,
{
    if remaining <= 0 || chunk <= 0 {
        seq![]
    } else if remaining <= chunk {
        seq![(start as u64, remaining as u64)]
    } else {
        seq![(start as u64, chunk as u64)] + chunk_reads(start + chunk, remaining - chunk, chunk)
    }
}

/// The reads of `chunk_reads(start, remaining, chunk)` follow one another
/// without gap or overlap from `start` to `start + remaining`, each at most
/// `chunk` bytes long and all but the last exactly `chunk` bytes long.
proof fn lemma_chunk_reads(start: int, remaining: int, chunk: int)
    requires
        chunk > 0,
        remaining >= 0,
        start >= 0,
        start + remaining <= u64::MAX,
    ensures
        ({
            let s = chunk_reads(start, remaining, chunk);
            &&& remaining == 0 <==> s.len() == 0
            &&& remaining > 0 ==> s[0].0 == start && s.last().0 + s.last().1 == start + remaining
            &&& forall|i: int| 0 <= i < s.len() ==> 1 <= #[trigger] s[i].1 <= chunk
            &&& forall|i: int|
                0 <= i < s.len() - 1 ==> #[trigger] s[i + 1].0 == s[i].0 + s[i].1 && s[i].1 == chunk
        }),
    decreases remaining,
{
    if remaining > chunk {
        lemma_chunk_reads(start + chunk, remaining - chunk, chunk);
        let t = chunk_reads(start + chunk, remaining - chunk, chunk);
        let s = chunk_reads(start, remaining, chunk);
        assert(s == seq![(start as u64, chunk as u64)] + t);
        assert forall|i: int| 0 <= i < s.len() - 1 implies #[trigger] s[i + 1].0 == s[i].0 + s[i].1
            && s[i].1 == chunk by {
            assert(s[i + 1] == t[i]);
            if i > 0 {
                assert(s[i] == t[i - 1]);
                assert(t[(i - 1) + 1].0 == t[i - 1].0 + t[i - 1].1);
            } else {
                assert(s[0] == (start as u64, chunk as u64));
                assert(t[0].0 == start + chunk);
            }
        }
        assert forall|i: int| 0 <= i < s.len() implies 1 <= #[trigger] s[i].1 <= chunk by {
            if i > 0 {
                assert(s[i] == t[i - 1]);
            }
        }
    }
}

/// Loading a stored queue of `len` bytes by the plan reads all of it, once,
/// in order: the reads start at 0, each starts where the one before ended,
/// the last ends at `len`, and each is at most one chunk long (all but the
/// last exactly one chunk).
pub proof fn law_chunk_plan_covers_the_file(len: u64, plan: Seq<(u64, u64)>)
    requires
        plan == chunk_reads(0, len as int, spec_chunk_size(len) as int),
    ensures
        len == 0 <==> plan.len() == 0,
        len > 0 ==> plan[0].0 == 0 && plan.last().0 + plan.last().1 == len,
        forall|i: int| 0 <= i < plan.len() ==> 1 <= #[trigger] plan[i].1 <= spec_chunk_size(len),
        forall|i: int|
            0 <= i < plan.len() - 1 ==> #[trigger] plan[i + 1].0 == plan[i].0 + plan[i].1 && plan[i].1
                == spec_chunk_size(len),
{
    if len > 0 {
        lemma_chunk_reads(0, len as int, spec_chunk_size(len) as int);
    }
}

/// The number of bytes read at a time from a stored queue of `len` bytes.
pub fn chunk_size(len: u64) -> (r: u64)
    ensures
        r == spec_chunk_size(len),
{
    if len > 100 * MB {
        100 * MB
    } else if len > 50 * MB {
        50 * MB
    } else if len > 25 * MB {
        25 * MB
    } else {
        len
    }
}

/// The reads, as `(start, length)`, that load a stored queue of `len` bytes
/// chunk by chunk, in order.
pub fn chunk_plan(len: u64) -> (r: Vec<(u64, u64)>)
    ensures
        r@ == chunk_reads(0, len as int, spec_chunk_size(len) as int),
        len == 0 <==> r@.len() == 0,
        len > 0 ==> r@[0].0 == 0 && r@.last().0 + r@.last().1 == len,
        forall|i: int| 0 <= i < r@.len() ==> 1 <= #[trigger] r@[i].1 <= spec_chunk_size(len),
        forall|i: int|
            0 <= i < r@.len() - 1 ==> #[trigger] r@[i + 1].0 == r@[i].0 + r@[i].1 && r@[i].1
                == spec_chunk_size(len),
{
    let chunk = chunk_size(len);
    let mut plan: Vec<(u64, u64)> = Vec::new();
    let mut remaining = len;
    let mut start: u64 = 0;
    while remaining > 0 && chunk > 0
        invariant
            start + remaining == len,
            chunk == spec_chunk_size(len),
            plan@ + chunk_reads(start as int, remaining as int, chunk as int) == chunk_reads(
                0,
                len as int,
                chunk as int,
            ),
        decreases remaining,
    {
        let ghost before = plan@;
        if remaining <= chunk {
            plan.push((start, remaining));
            proof {
                assert(plan@ + chunk_reads((start + remaining) as int, 0, chunk as int) =~= before
                    + chunk_reads(start as int, remaining as int, chunk as int));
            }
            start = start + remaining;
            remaining = 0;
        } else {
            plan.push((start, chunk));
            proof {
                assert(plan@ + chunk_reads((start + chunk) as int, (remaining - chunk) as int, chunk as int)
                    =~= before + chunk_reads(start as int, remaining as int, chunk as int));
            }
            start = start + chunk;
            remaining = remaining - chunk;
        }
    }
    proof {
        assert(chunk_reads(start as int, remaining as int, chunk as int) == Seq::<(u64, u64)>::empty());
        assert(plan@ =~= plan@ + Seq::<(u64, u64)>::empty());
        law_chunk_plan_covers_the_file(len, plan@);
    }
    plan
}

/// Sorts `v` in ascending order with `slice::sort_unstable`: the items stay
/// the same, with the same multiplicities, and come out in ascending order.
#[verifier::external_body]
fn sort_items(v: &mut Vec<u64>)
    ensures
        final(v)@.to_multiset() == old(v)@.to_multiset(),
        forall|i: int, j: int| 0 <= i < j < final(v)@.len() ==> final(v)@[i] <= final(v)@[j],
{
    v.sort_unstable();
}

/// The keys of the records kept that can name an item: those of eight bytes or more.
pub open spec fn item_keys(reader: Reader) -> Set<Seq<u8>> {
    reader.pointers@.dom().filter(|k: Seq<u8>| k.len() >= 8)
}

/// `k` is the view of one of the first `n` keys.
spec fn listed_before(keys: Seq<Vec<u8>>, n: int, k: Seq<u8>) -> bool {
    exists|a: int| 0 <= a < n && keys[a]@ == k
}

/// Every record whose key has eight bytes or more is listed by the number
/// its first eight bytes give, and nothing else is listed: no item a stored
/// queue holds is lost when it is loaded, and none is made up.
pub proof fn law_stored_items_lists_every_item(reader: Reader, r: Seq<u64>)
    requires
        exists|ks: Seq<Seq<u8>>|
            #![trigger ks.to_set()]
            ks.no_duplicates() && ks.to_set() == item_keys(reader) && r.to_multiset() == ks.map_values(
                |k: Seq<u8>| be_value(k),
            ).to_multiset(),
    ensures
        r.len() == reader.pointers@.dom().filter(|k: Seq<u8>| k.len() >= 8).len(),
        forall|k: Seq<u8>| #[trigger] reader.pointers@.contains_key(k) && k.len() >= 8 ==> r.contains(be_value(k)),
        forall|x: u64|
            #[trigger] r.contains(x) ==> exists|k: Seq<u8>|
                #![trigger reader.pointers@.contains_key(k)]
                reader.pointers@.contains_key(k) && k.len() >= 8 && be_value(k) == x,
{
    let ks = choose|ks: Seq<Seq<u8>>|
        #![trigger ks.to_set()]
        ks.no_duplicates() && ks.to_set() == item_keys(reader) && r.to_multiset() == ks.map_values(
            |k: Seq<u8>| be_value(k),
        ).to_multiset();
    let mapped = ks.map_values(|k: Seq<u8>| be_value(k));
    r.to_multiset_ensures();
    mapped.to_multiset_ensures();
    ks.unique_seq_to_set();
    assert(r.len() == reader.pointers@.dom().filter(|k: Seq<u8>| k.len() >= 8).len()) by {
        assert(item_keys(reader) == reader.pointers@.dom().filter(|k: Seq<u8>| k.len() >= 8));
    }
    assert forall|k: Seq<u8>| #[trigger] reader.pointers@.contains_key(k) && k.len() >= 8 implies r.contains(
        be_value(k),
    ) by {
        assert(item_keys(reader).contains(k));
        assert(ks.to_set().contains(k));
        let j = choose|j: int| 0 <= j < ks.len() && ks[j] == k;
        assert(mapped[j] == be_value(k));
        assert(mapped.contains(be_value(k)));
        assert(mapped.to_multiset().count(be_value(k)) > 0);
    }
    assert forall|x: u64| #[trigger] r.contains(x) implies exists|k: Seq<u8>|
        #![trigger reader.pointers@.contains_key(k)]
        reader.pointers@.contains_key(k) && k.len() >= 8 && be_value(k) == x by {
        assert(mapped.to_multiset().count(x) > 0);
        assert(mapped.contains(x));
        let j = choose|j: int| 0 <= j < mapped.len() && mapped[j] == x;
        let k = ks[j];
        assert(ks.to_set().contains(k));
        assert(item_keys(reader).contains(k));
        assert(reader.pointers@.contains_key(k) && k.len() >= 8 && be_value(k) == x);
    }
}

/// The item numbers of the records a reader keeps, in ascending order: each
/// key of eight bytes or more, read as a big-endian `u64`, once per key.
pub fn stored_items(reader: &Reader) -> (r: Vec<u64>)
    requires
        reader.pointers.wf(),
    ensures
        forall|i: int, j: int| 0 <= i < j < r@.len() ==> r@[i] <= r@[j],
        exists|ks: Seq<Seq<u8>>|
            #![trigger ks.to_set()]
            ks.no_duplicates() && ks.to_set() == item_keys(*reader) && r@.to_multiset()
                == ks.map_values(|k: Seq<u8>| be_value(k)).to_multiset(),
        r@.len() == reader.pointers@.dom().filter(|k: Seq<u8>| k.len() >= 8).len(),
        forall|k: Seq<u8>|
            #[trigger] reader.pointers@.contains_key(k) && k.len() >= 8 ==> r@.contains(be_value(k)),
        forall|x: u64|
            #[trigger] r@.contains(x) ==> exists|k: Seq<u8>|
                #![trigger reader.pointers@.contains_key(k)]
                reader.pointers@.contains_key(k) && k.len() >= 8 && be_value(k) == x,
{
    let keys = reader.pointers.keys();
    let mut collect: Vec<u64> = Vec::new();
    let ghost mut ks: Seq<Seq<u8>> = seq![];
    let mut i: usize = 0;
    while i < keys.len()
        invariant
            i <= keys@.len(),
            forall|a: int| 0 <= a < keys@.len() ==> #[trigger] reader.pointers@.contains_key(keys@[a]@),
            forall|a: int, b: int| 0 <= a < b < keys@.len() ==> keys@[a]@ != keys@[b]@,
            forall|k: Seq<u8>|
                #[trigger] reader.pointers@.contains_key(k) ==> exists|a: int| 0 <= a < keys@.len() && keys@[a]@ == k,
            ks.no_duplicates(),
            collect@ == ks.map_values(|k: Seq<u8>| be_value(k)),
            forall|k: Seq<u8>| #[trigger] ks.contains(k) <==> (k.len() >= 8 && listed_before(keys@, i as int, k)),
        decreases keys.len() - i,
    {
        let key = keys[i].clone();
        assert(key@ == keys@[i as int]@);
        let ghost old_ks = ks;
        let ghost k = keys@[i as int]@;
        proof {
            assert forall|k2: Seq<u8>|
                #[trigger] listed_before(keys@, i + 1, k2) <==> (listed_before(keys@, i as int, k2) || k2 == k) by {
                if exists|a: int| 0 <= a < i + 1 && keys@[a]@ == k2 {
                    let a = choose|a: int| 0 <= a < i + 1 && keys@[a]@ == k2;
                    if a < i {
                        assert(0 <= a < i && keys@[a]@ == k2);
                    }
                }
                if k2 == k {
                    assert(0 <= i < i + 1 && keys@[i as int]@ == k2);
                }
                if exists|a: int| 0 <= a < i && keys@[a]@ == k2 {
                    let a = choose|a: int| 0 <= a < i && keys@[a]@ == k2;
                    assert(0 <= a < i + 1 && keys@[a]@ == k2);
                }
            }
            assert(!old_ks.contains(k)) by {
                if old_ks.contains(k) {
                    assert(listed_before(keys@, i as int, k));
                    let a = choose|a: int| 0 <= a < i && keys@[a]@ == k;
                    assert(keys@[a]@ != keys@[i as int]@);
                }
            }
        }
        match u64_from_bytes(key) {
            Ok(num) => {
                collect.push(num);
                proof {
                    ks = ks.push(k);
                    assert(collect@ =~= ks.map_values(|k: Seq<u8>| be_value(k)));
                    assert forall|k2: Seq<u8>| #[trigger] ks.contains(k2) <==> (old_ks.contains(k2) || k2 == k) by {
                        if ks.contains(k2) {
                            let j = choose|j: int| 0 <= j < ks.len() && ks[j] == k2;
                            if j < old_ks.len() {
                                assert(old_ks[j] == k2);
                            }
                        }
                        if old_ks.contains(k2) {
                            let j = choose|j: int| 0 <= j < old_ks.len() && old_ks[j] == k2;
                            assert(ks[j] == k2);
                        }
                        if k2 == k {
                            assert(ks[old_ks.len() as int] == k2);
                        }
                    }
                }
            },
            Err(_) => {},
        }
        i += 1;
    }
    proof {
        assert(ks.to_set() =~= item_keys(*reader)) by {
            assert forall|k: Seq<u8>| ks.to_set().contains(k) <==> item_keys(*reader).contains(k) by {
                if reader.pointers@.contains_key(k) && k.len() >= 8 {
                    let a = choose|a: int| 0 <= a < keys@.len() && keys@[a]@ == k;
                    assert(listed_before(keys@, i as int, k));
                    assert(ks.contains(k));
                }
                if ks.contains(k) {
                    assert(listed_before(keys@, i as int, k));
                    let a = choose|a: int| 0 <= a < i && keys@[a]@ == k;
                    assert(reader.pointers@.contains_key(keys@[a]@));
                }
            }
        }
    }
    sort_items(&mut collect);
    proof {
        assert(collect@.to_multiset() == ks.map_values(|k: Seq<u8>| be_value(k)).to_multiset());
        law_stored_items_lists_every_item(*reader, collect@);
    }
    collect
}

/// What adding a value to the map did.
pub enum AddStep {
    /// The record was placed; it is to be written there.
    Placed(Write),
    /// There was no room: the growth step's bytes were added as free space
    /// after the mapped area, and the stored area is to grow as much before
    /// the record is placed again.
    Grown,
    /// There was no room, and the map has grown already: the value is refused
    /// and nothing changed.
    Refused,
}

/// One step of adding a record for `key` with a value of `value_len` bytes:
/// it is placed in the free space if some free region is large enough; if
/// none is, `expand_size` free bytes are added after the mapped area instead,
/// unless the map has grown already (`grown`). `expand` leaves `map_cursor`
/// where it is, so a second growth would lay its free region over the bytes
/// the first one added: once grown, a value that finds no room is refused.
pub fn add_step(reader: &mut Reader, key: Vec<u8>, value_len: usize, expand_size: usize, grown: bool) -> (r: AddStep)
    requires
        old(reader).regions_ok_at(usize::MAX as int),
        39 + key@.len() + value_len <= usize::MAX,
        !has_room(old(reader).empty_map@, 39 + key@.len() + value_len) && !grown ==> old(reader).map_cursor
            >= 1 && old(reader).room_for(expand_size + 1),
    ensures
        r is Placed ==> final(reader).regions_ok_at(usize::MAX as int),
        old(reader).space_inv_at(usize::MAX as int) && r is Placed ==> final(reader).space_inv_at(
            usize::MAX as int,
        ),
        old(reader).inv() && r is Placed ==> final(reader).inv(),
        old(reader).space_inv() && r is Grown ==> final(reader).space_inv_at(
            old(reader).map_cursor + expand_size,
        ),
        Reader::same_parse_state(*old(reader), *final(reader)),
        match r {
            AddStep::Placed(w) => exists|i: usize|
                #[trigger] old(reader).empty_map@.contains_key(i) && Reader::filled_from(
                    *old(reader),
                    *final(reader),
                    key@,
                    value_len as int,
                    i,
                    w,
                ),
            AddStep::Grown => {
                &&& !has_room(old(reader).empty_map@, 39 + key@.len() + value_len)
                &&& !grown
                &&& Reader::expanded(*old(reader), *final(reader), expand_size as int)
            },
            AddStep::Refused => {
                &&& !has_room(old(reader).empty_map@, 39 + key@.len() + value_len)
                &&& grown
                &&& *final(reader) == *old(reader)
            },
        },
{
    match reader.fill(key, value_len) {
        Ok(w) => AddStep::Placed(w),
        Err(_) => {
            if grown {
                AddStep::Refused
            } else {
                let _ = reader.expand(expand_size);
                AddStep::Grown
            }
        },
    }
}

/// Removes the record of `key` from the map, giving its span back to the free
/// space; the span it had, or `None` when there is no record for `key`.
pub fn remove_step(reader: &mut Reader, key: &Vec<u8>) -> (r: Option<(usize, usize)>)
    requires
        old(reader).regions_ok_at(usize::MAX as int),
        !old(reader).empty_map@.contains_key(old(reader).empty_index),
        old(reader).empty_index + 1 < usize::MAX,
    ensures
        final(reader).regions_ok_at(usize::MAX as int),
        old(reader).space_inv_at(usize::MAX as int) ==> final(reader).space_inv_at(
            usize::MAX as int,
        ),
        old(reader).inv() && old(reader).room_for(1) ==> final(reader).inv(),
        match r {
            Some(span) => {
                &&& old(reader).pointers@.contains_key(key@)
                &&& span == old(reader).pointers@[key@].0
                &&& Reader::cleared(*old(reader), *final(reader), key@)
            },
            None => !old(reader).pointers@.contains_key(key@) && *final(reader) == *old(reader),
        },
{
    match reader.find(key) {
        Ok(span) => {
            let _ = reader.clear(key);
            Some(span.0)
        },
        Err(()) => None,
    }
}

/// The number the next item added to a queue holding `items` gets: one more
/// than the last, or 1 for an empty queue; `None` when the last is the
/// largest `u64`.
pub fn next_index(items: &Vec<u64>) -> (r: Option<u64>)
    ensures
        items@.len() == 0 ==> r == Some(1u64),
        items@.len() > 0 ==> r == (if items@.last() < u64::MAX {
            Some((items@.last() + 1) as u64)
        } else {
            None::<u64>
        }),
{
    if items.len() == 0 {
        return Some(1);
    }
    let last = items[items.len() - 1];
    if last < u64::MAX {
        Some(last + 1)
    } else {
        None
    }
}

/// The first of `items` that is not being processed: the next item the queue
/// hands out.
pub fn next_free_item(items: &Vec<u64>, in_processing: &Vec<u64>) -> (r: Option<u64>)
    ensures
        match r {
            Some(x) => exists|i: int|
                0 <= i < items@.len() && items@[i] == x && !in_processing@.contains(x) && forall|j: int|
                    0 <= j < i ==> #[trigger] in_processing@.contains(items@[j]),
            None => forall|j: int| 0 <= j < items@.len() ==> #[trigger] in_processing@.contains(items@[j]),
        },
{
    let mut i: usize = 0;
    while i < items.len()
        invariant
            i <= items@.len(),
            forall|j: int| 0 <= j < i ==> #[trigger] in_processing@.contains(items@[j]),
        decreases items@.len() - i,
    {
        let x = items[i];
        let mut found = false;
        let mut j: usize = 0;
        while j < in_processing.len()
            invariant
                j <= in_processing@.len(),
                found <==> exists|k: int| 0 <= k < j && in_processing@[k] == x,
            decreases in_processing@.len() - j,
        {
            if in_processing[j] == x {
                found = true;
            }
            j += 1;
        }
        if !found {
            return Some(x);
        }
        i += 1;
    }
    None
}

/// Removes every `x` from `v`, keeping the order of the rest; whether there
/// was one.
pub fn remove_item(v: &mut Vec<u64>, x: u64) -> (r: bool)
    ensures
        final(v)@ == old(v)@.filter(|y: u64| y != x),
        r == old(v)@.contains(x),
{
    let ghost s = v@;
    let mut kept: Vec<u64> = Vec::new();
    let mut found = false;
    let mut i: usize = 0;
    while i < v.len()
        invariant
            v@ == s,
            i <= s.len(),
            kept@ == s.subrange(0, i as int).filter(|y: u64| y != x),
            found == s.subrange(0, i as int).contains(x),
        decreases s.len() - i,
    {
        let y = v[i];
        proof {
            let p = s.subrange(0, i + 1);
            assert(p.drop_last() =~= s.subrange(0, i as int));
            assert(p.last() == y);
            reveal(Seq::filter);
            if found {
                let j = choose|j: int| 0 <= j < i && s.subrange(0, i as int)[j] == x;
                assert(p[j] == x);
            }
            if y == x {
                assert(p[i as int] == x);
            }
            if p.contains(x) && y != x {
                let j = choose|j: int| 0 <= j < p.len() && p[j] == x;
                assert(s.subrange(0, i as int)[j] == x);
            }
        }
        if y != x {
            kept.push(y);
        } else {
            found = true;
        }
        i += 1;
    }
    proof {
        assert(s.subrange(0, s.len() as int) =~= s);
    }
    *v = kept;
    found
}

} // verus!
