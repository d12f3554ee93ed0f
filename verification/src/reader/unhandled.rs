use crate::reader::model::{zeros_from, runs_adjacent, lemma_apply_runs, lemma_runs_drop_last, lemma_runs_wf, lemma_space_ok_grow, runs, ReaderModel};
use crate::reader::Reader;
use vstd::prelude::*;

verus! {

broadcast use vstd::std_specs::hash::group_hash_axioms;

/// Records the non-zero stretch `start..=end` as corrupt.
fn process_corrupt(reader: &mut Reader, start: usize, end: usize)
    requires
        start <= end < usize::MAX,
    ensures
        final(reader).model() == old(reader).model().process_corrupt(start as int, end as int),
        final(reader).pointers == old(reader).pointers,
{
    reader.corrupt.push((end - start + 1, (start, end)));
}

/// Records the zero stretch `start..=end` as free, joining the free region
/// that ends right before it when there is one.
fn process_empty(reader: &mut Reader, start: usize, end: usize)
    requires
        start <= end < usize::MAX,
        old(reader).empty_index < usize::MAX,
    ensures
        final(reader).model() == old(reader).model().process_empty(start as int, end as int),
        final(reader).pointers == old(reader).pointers,
{
    let ghost m = old(reader).model();
    let mut previous_empty_found = false;
    let mut previous_empty_index: usize = 0;
    if start > 0 {
        match reader.empty_end.remove(&(start - 1)) {
            Some(v) => {
                previous_empty_found = true;
                previous_empty_index = v;
            },
            None => {},
        }
    }
    if previous_empty_found {
        match reader.empty_map.get(&previous_empty_index) {
            Some(v) => {
                let s = v.1.0;
                if s <= end {
                    reader.empty_map.insert(previous_empty_index, (end + 1 - s, (s, end)));
                    reader.empty_end.insert(end, previous_empty_index);
                }
            },
            None => {},
        }
    }
    if !previous_empty_found {
        let empty_len = end - start + 1;
        let empty_index = reader.empty_index;
        reader.empty_map.insert(empty_index, (empty_len, (start, end)));
        reader.empty_end.insert(end, empty_index);
        reader.empty_start.insert(start, empty_index);
        reader.empty_index += 1;
    }
    proof {
        assert(reader.model().empty_map =~= m.process_empty(start as int, end as int).empty_map);
        assert(reader.model().empty_end =~= m.process_empty(start as int, end as int).empty_end);
        assert(reader.model().empty_start =~= m.process_empty(start as int, end as int).empty_start);
    }
}

/// Classifies the buffer bytes `start..=end` (when the map is being built):
/// runs of zero bytes become free regions (the first one joining a free region
/// that ends right before it), runs of non-zero bytes become corrupt regions,
/// each recorded at its buffer index plus `offset`. The buffer cursor moves
/// past `end`.
#[verifier::rlimit(40)]
pub(crate) fn classify(reader: &mut Reader, start: usize, end: usize, offset: usize)
    requires
        start <= end < old(reader).buffer@.len(),
        offset + end + 1 < usize::MAX,
        old(reader).empty_index + (end - start + 1) < usize::MAX,
    ensures
        final(reader).model() == old(reader).model().classified(start as int, end as int, offset as int),
        final(reader).pointers == old(reader).pointers,
        final(reader).empty_index <= old(reader).empty_index + (end - start + 1),
        final(reader).buffer@ == old(reader).buffer@,
        final(reader).map_cursor == old(reader).map_cursor,
{
    let ghost m0 = old(reader).model();
    if !reader.build_map {
        reader.buffer_cursor = end + 1;
        return;
    }
    let ghost base = offset + start;
    let ghost buf = reader.buffer@;
    let ghost p0 = reader.pointers;
    let ghost mc = reader.map_cursor;
    let mut empty_found = false;
    let mut corrupt_found = false;
    let mut empty_start_at: usize = 0;
    let mut corrupt_start_at: usize = 0;
    let mut i: usize = start;
    while i <= end
        invariant
            start <= i <= end + 1,
            end < buf.len(),
            reader.buffer@ == buf,
            reader.map_cursor == mc,
            reader.pointers == p0,
            offset + end + 1 < usize::MAX,
            base == offset + start,
            m0.build_map,
            m0.buffer == buf,
            m0.empty_index + (end - start + 1) < usize::MAX,
            i == start ==> reader.model() == m0 && !empty_found && !corrupt_found,
            i > start ==> {
                let rs = runs(buf.subrange(start as int, i as int));
                &&& rs.len() > 0
                &&& empty_found == rs.last().0
                &&& corrupt_found == !rs.last().0
                &&& (empty_found ==> empty_start_at == start + rs.last().1)
                &&& (corrupt_found ==> corrupt_start_at == start + rs.last().1)
                &&& reader.model() == m0.apply_runs(rs.drop_last(), base)
            },
        decreases end + 1 - i,
    {
        let v = reader.buffer[i];
        let ghost pre = buf.subrange(start as int, i as int);
        let ghost pre2 = buf.subrange(start as int, i + 1);
        let ghost rs = runs(pre);
        proof {
            assert(pre2.drop_last() =~= pre);
            assert(pre2[pre2.len() - 1] == v);
            if i > start {
                lemma_open_run(m0, pre, base);
            }
        }
        if v == 0 {
            if corrupt_found {
                process_corrupt(reader, offset + corrupt_start_at, offset + i - 1);
                corrupt_found = false;
                corrupt_start_at = 0;
            }
            if !empty_found {
                empty_found = true;
                empty_start_at = i;
            }
        } else {
            if empty_found {
                process_empty(reader, offset + empty_start_at, offset + i - 1);
                empty_found = false;
                empty_start_at = 0;
            }
            if !corrupt_found {
                corrupt_found = true;
                corrupt_start_at = i;
            }
        }
        proof {
            let rs2 = runs(pre2);
            if i > start {
                if rs.last().0 == (v == 0) {
                    assert(rs2 == rs.update(rs.len() - 1, ((v == 0), rs.last().1, i - start)));
                    assert(rs2.drop_last() =~= rs.drop_last());
                } else {
                    assert(rs2 == rs.push(((v == 0), i - start, i - start)));
                    assert(rs2.drop_last() =~= rs);
                }
            } else {
                assert(pre =~= Seq::<u8>::empty());
                assert(rs2 == seq![((v == 0), 0int, 0int)]);
                assert(rs2.drop_last() =~= Seq::<(bool, int, int)>::empty());
            }
        }
        i += 1;
    }
    let ghost full = buf.subrange(start as int, end + 1);
    let ghost rs = runs(full);
    proof {
        lemma_open_run(m0, full, base);
    }
    if empty_found {
        process_empty(reader, offset + empty_start_at, offset + end);
    }
    if corrupt_found {
        process_corrupt(reader, offset + corrupt_start_at, offset + end);
    }
    reader.buffer_cursor = end + 1;
    proof {
        lemma_runs_wf(full);
        lemma_apply_runs_index(m0, rs, base);
        assert(reader.model() == m0.classified(start as int, end as int, offset as int));
    }
}

/// Classifies the buffer bytes `start..=end` (when the map is being built):
/// runs of zero bytes become free regions (the first one joining a free region
/// that ends right before it), runs of non-zero bytes become corrupt regions,
/// each recorded at its index in the buffer. The buffer cursor moves past `end`.
pub fn init(reader: &mut Reader, start: usize, end: usize)
    requires
        start <= end < old(reader).buffer@.len(),
        end + 1 < usize::MAX,
        old(reader).empty_index + (end - start + 1) < usize::MAX,
    ensures
        final(reader).model() == old(reader).model().unhandled(start as int, end as int),
        final(reader).pointers == old(reader).pointers,
        final(reader).empty_index <= old(reader).empty_index + (end - start + 1),
        final(reader).buffer@ == old(reader).buffer@,
        final(reader).map_cursor == old(reader).map_cursor,
{
    classify(reader, start, end, 0);
}

/// Counts the zero bytes from the buffer cursor on; when all but the last of
/// them make at least two bytes, they are recorded as free space at their
/// position in the mapped area (joining a free region that ends right before
/// them) and the cursor skips them (see `ReaderModel::empty_counter`).
pub fn empty_counter(reader: &mut Reader)
    requires
        old(reader).inv(),
    ensures
        final(reader).model() == old(reader).model().empty_counter(),
        final(reader).pointers == old(reader).pointers,
        final(reader).model().space_ok(final(reader).map_cursor + final(reader).buffer_cursor),
{
    let ghost m0 = reader.model();
    let mut counter: usize = 0;
    let mut i: usize = reader.buffer_cursor;
    while i < reader.buffer.len() && reader.buffer[i] == 0
        invariant
            reader.model() == m0,
            m0.buffer_cursor <= i,
            i <= m0.buffer.len() || i == m0.buffer_cursor,
            counter == i - m0.buffer_cursor,
            zeros_from(m0.buffer, m0.buffer_cursor as int) == counter + zeros_from(m0.buffer, i as int),
        decreases reader.buffer@.len() - i,
    {
        counter += 1;
        i += 1;
    }
    proof {
        assert(zeros_from(m0.buffer, i as int) == 0);
    }
    if counter > 0 {
        counter -= 1;
    }
    if counter <= 1 {
        return;
    }
    let empty_start_at = reader.map_cursor + reader.buffer_cursor;
    let empty_end_at = empty_start_at + counter - 1;
    reader.buffer_cursor += counter;
    proof {
        lemma_space_ok_grow(m0, m0.map_cursor as int, empty_start_at as int);
    }
    let ghost m1 = ReaderModel { buffer_cursor: reader.buffer_cursor, ..m0 };
    assert(reader.model() == m1);
    process_empty(reader, empty_start_at, empty_end_at);
    proof {
        crate::reader::model::lemma_process_empty(m1, empty_start_at as int, empty_end_at as int);
    }
}

/// Before the last (still open) run of `s` is recorded, the runs recorded so
/// far took at most one region number each.
proof fn lemma_open_run(m0: ReaderModel, s: Seq<u8>, base: int)
    requires
        s.len() > 0,
        m0.empty_index + s.len() < usize::MAX,
    ensures
        ({
            let rs = runs(s);
            &&& rs.len() > 0
            &&& 0 <= rs.last().1 <= rs.last().2 == s.len() - 1
            &&& m0.apply_runs(rs.drop_last(), base).empty_index + (s.len() - rs.last().1) < usize::MAX
        }),
{
    lemma_runs_wf(s);
    let rs = runs(s);
    lemma_runs_drop_last(rs, s.len() as int);
    lemma_apply_runs_index(m0, rs.drop_last(), base);
    if rs.len() > 1 {
        assert(rs.drop_last().len() <= rs.last().1) by {
            lemma_runs_count(rs.drop_last(), rs.last().1);
        }
    } else {
        assert(rs.drop_last().len() == 0);
    }
}

/// Each run recorded takes at most one region number.
pub proof fn lemma_apply_runs_index(m: ReaderModel, rs: Seq<(bool, int, int)>, base: int)
    requires
        m.empty_index + rs.len() < usize::MAX,
    ensures
        m.empty_index <= m.apply_runs(rs, base).empty_index <= m.empty_index + rs.len(),
    decreases rs.len(),
{
    if rs.len() > 0 {
        lemma_apply_runs_index(m, rs.drop_last(), base);
    }
}

/// There are no more runs than positions.
pub proof fn lemma_runs_count(rs: Seq<(bool, int, int)>, n: int)
    requires
        crate::reader::model::runs_wf(rs, n),
    ensures
        rs.len() <= n,
    decreases rs.len(),
{
    if rs.len() > 1 {
        lemma_runs_drop_last(rs, n);
        lemma_runs_count(rs.drop_last(), rs.last().1);
    } else if rs.len() == 1 {
        lemma_runs_drop_last(rs, n);
    }
}

} // verus!
