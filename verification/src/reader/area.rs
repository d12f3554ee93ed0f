use crate::parser::writer::record;
use crate::reader::format::{
    lemma_keep_record, lemma_map_loop_record, lemma_parts_of_record, lemma_record_layout_len, lemma_record_starts_with_flag,
    record_len, record_pointer_at,
};
use crate::reader::model::{
    first_occurrence, flag_pattern, lemma_first_occurrence, occurs_at, runs, ReaderModel,
};
use vstd::prelude::*;

verus! {

/// `n` zero bytes.
pub open spec fn zeros(n: nat) -> Seq<u8> {
    Seq::new(n, |i: int| 0u8)
}

/// A stretch of a stored area: a record, or free space of `n` zero bytes.
pub enum Segment {
    Record(Seq<u8>, Seq<u8>),
    Zeros(nat),
}

/// The bytes of a stored area made of `segs`, in order.
pub open spec fn area(segs: Seq<Segment>) -> Seq<u8>
    decreases segs.len(),
{
    if segs.len() == 0 {
        seq![]
    } else {
        (match segs[0] {
            Segment::Record(k, v) => record(k, v),
            Segment::Zeros(n) => zeros(n),
        }) + area(segs.drop_first())
    }
}

/// Free stretches are not empty, and two of them never follow one another
/// (they would be one stretch).
pub open spec fn well_cut(segs: Seq<Segment>) -> bool {
    forall|i: int|
        0 <= i < segs.len() ==> match #[trigger] segs[i] {
            Segment::Zeros(n) => n >= 1 && (i + 1 < segs.len() ==> segs[i + 1] is Record),
            Segment::Record(_, _) => true,
        }
}

impl ReaderModel {
    /// What the reader keeps of `n` zero bytes at the front of its buffer,
    /// with `rest` left after them: a free region (when the map is being
    /// built), and the mapped area moves past them.
    pub open spec fn skipped(self, n: nat, rest: Seq<u8>) -> ReaderModel {
        let base = if self.build_map {
            self.process_empty(self.map_cursor as int, self.map_cursor + n - 1)
        } else {
            self
        };
        ReaderModel {
            buffer: rest,
            map_cursor: (self.map_cursor + n) as usize,
            buffer_cursor: 0,
            ..base
        }
    }

    /// The reader after each stretch of `segs`, in order, was read and kept.
    pub open spec fn replayed(self, segs: Seq<Segment>) -> ReaderModel
        decreases segs.len(),
    {
        if segs.len() == 0 {
            self
        } else {
            match segs[0] {
                Segment::Record(k, v) => self.stored(k, v, seq![]).replayed(segs.drop_first()),
                Segment::Zeros(n) => self.skipped(n, seq![]).replayed(segs.drop_first()),
            }
        }
    }
}

/// A run of zero bytes is one run.
proof fn lemma_runs_zeros(n: nat)
    requires
        n >= 1,
    ensures
        runs(zeros(n)) == seq![(true, 0int, n - 1)],
    decreases n,
{
    let s = zeros(n);
    assert(s[n - 1] == 0u8);
    if n > 1 {
        lemma_runs_zeros((n - 1) as nat);
        assert(s.drop_last() =~= zeros((n - 1) as nat));
        let r = runs(s.drop_last());
        assert(r.update(r.len() - 1, (true, r.last().1, n - 1)) =~= seq![(true, 0int, n - 1)]);
    } else {
        assert(s.drop_last() =~= Seq::<u8>::empty());
        assert(runs(s.drop_last()) == Seq::<(bool, int, int)>::empty());
        assert(Seq::<(bool, int, int)>::empty().push((true, 0int, 0int)) =~= seq![(true, 0int, n - 1)]);
    }
}

/// The start flag never occurs among zero bytes.
proof fn lemma_no_flag_in_zeros(s: Seq<u8>, p: int)
    requires
        forall|i: int| 0 <= i < s.len() ==> s[i] == 0,
    ensures
        !occurs_at(s, flag_pattern(), p),
{
    if occurs_at(s, flag_pattern(), p) {
        assert(s.subrange(p, p + 3)[1] == flag_pattern()[1]);
    }
}

/// Classifying `n` zero bytes at the front of the buffer records one free region.
pub proof fn lemma_consume_zeros(m: ReaderModel, n: nat, rest: Seq<u8>)
    requires
        n >= 1,
        m.buffer == zeros(n) + rest,
    ensures
        m.consume(n as int) == m.skipped(n, rest),
{
    assert(m.buffer.subrange(0, n as int) =~= zeros(n));
    lemma_runs_zeros(n);
    let rs = runs(zeros(n));
    assert(rs.drop_last() =~= Seq::<(bool, int, int)>::empty());
    assert(m.apply_runs(rs.drop_last(), m.map_cursor as int) == m);
    let u = m.classified(0, n - 1, m.map_cursor as int);
    assert(u.buffer.subrange(n as int, u.buffer.len() as int) =~= rest);
}

/// At rest, with `n` zero bytes and then the record of `key` and `value` at
/// the front of the buffer: the zero bytes become free space and the record
/// is read.
proof fn lemma_read_after_zeros(m: ReaderModel, n: nat, key: Seq<u8>, value: Seq<u8>, rest: Seq<u8>)
    requires
        m.at_rest(),
        n >= 1,
        m.buffer == zeros(n) + (record(key, value) + rest),
        m.map_cursor + n + record_len(key, value) <= usize::MAX,
    ensures
        m.read_step() == (
            Some(record_pointer_at((m.map_cursor + n) as usize, key, value)),
            m.skipped(n, record(key, value) + rest).record_read(key, value),
        ),
{
    let buf = m.buffer;
    let after = record(key, value) + rest;
    lemma_record_layout_len(key, value, rest);
    lemma_record_starts_with_flag(key, value, rest);
    assert(occurs_at(buf, flag_pattern(), n as int)) by {
        assert(buf.subrange(n as int, n + 3int) =~= after.subrange(0, 3));
    }
    assert forall|p: int| 0 <= p < n implies !occurs_at(buf, flag_pattern(), p) by {
        if occurs_at(buf, flag_pattern(), p) {
            assert(buf.subrange(p, p + 3)[1] == 1u8);
            assert(buf[p + 1] == 1u8);
            if p + 1 < n {
                assert(buf[p + 1] == 0u8);
            } else {
                assert(buf[p + 1] == after[0]);
            }
        }
    }
    lemma_first_occurrence(buf, flag_pattern(), 0);
    assert(first_occurrence(buf, flag_pattern(), 0) == Some(n as int));
    let m0 = ReaderModel { no_flag_in_buffer: false, ..m };
    lemma_consume_zeros(m0, n, after);
    let s = m.skipped(n, after);
    assert(m0.skipped(n, after).flag_found() == s.flag_found());
    assert(m.flag_step() == Some(s.flag_found()));
    lemma_parts_of_record(s, key, value, rest);
}

/// At rest, with `n` zero bytes and then the record of `key` and `value` at
/// the front of the buffer: reading every whole record is keeping the free
/// space and the record, then reading the rest.
proof fn lemma_map_loop_zeros_record(m: ReaderModel, n: nat, key: Seq<u8>, value: Seq<u8>, rest: Seq<u8>)
    requires
        m.at_rest(),
        n >= 1,
        m.buffer == zeros(n) + (record(key, value) + rest),
        m.map_cursor + n + record_len(key, value) <= usize::MAX,
    ensures
        m.map_loop() == m.skipped(n, record(key, value) + rest).stored(key, value, rest).map_loop(),
{
    lemma_read_after_zeros(m, n, key, value, rest);
    let s = m.skipped(n, record(key, value) + rest);
    lemma_keep_record(s, key, value, rest);
    lemma_record_layout_len(key, value, rest);
}

/// At rest, with only zero bytes in the buffer: reading finds no record, and
/// the end of the input makes them free space.
proof fn lemma_end_zeros(m: ReaderModel, n: nat)
    requires
        m.at_rest(),
        n >= 1,
        m.buffer == zeros(n),
    ensures
        m.map_loop().end_of_input() == m.skipped(n, seq![]),
{
    assert forall|p: int| 0 <= p implies !#[trigger] occurs_at(m.buffer, flag_pattern(), p) by {
        lemma_no_flag_in_zeros(m.buffer, p);
    }
    lemma_first_occurrence(m.buffer, flag_pattern(), 0);
    assert(first_occurrence(m.buffer, flag_pattern(), 0) is None);
    let fm = m.flag_missed();
    assert(m.map_loop() == fm);
    lemma_first_occurrence(fm.buffer, flag_pattern(), fm.buffer_cursor as int);
    assert(first_occurrence(fm.buffer, flag_pattern(), fm.buffer_cursor as int) is None);
    assert(fm.map_loop() == fm);
    assert(fm.buffer =~= zeros(n) + Seq::<u8>::empty());
    lemma_consume_zeros(fm, n, seq![]);
    assert(fm.skipped(n, seq![]) == m.skipped(n, seq![]));
}

/// Reading the whole buffer of `m` and ending the input gives `m`, emptied,
/// after the stretches of `segs`.
#[verifier::opaque]
spec fn reads_as(m: ReaderModel, segs: Seq<Segment>) -> bool {
    m.map_loop().end_of_input() == (ReaderModel { buffer: seq![], ..m }).replayed(segs)
}

/// What follows the first stretch is cut as well.
pub proof fn lemma_well_cut_tail(segs: Seq<Segment>)
    requires
        well_cut(segs),
        segs.len() > 0,
    ensures
        well_cut(segs.drop_first()),
{
    let tail = segs.drop_first();
    assert forall|i: int| 0 <= i < tail.len() implies match #[trigger] tail[i] {
        Segment::Zeros(n) => n >= 1 && (i + 1 < tail.len() ==> tail[i + 1] is Record),
        Segment::Record(_, _) => true,
    } by {
        assert(tail[i] == segs[i + 1]);
        if i + 1 < tail.len() {
            assert(tail[i + 1] == segs[i + 2]);
        }
        match segs[i + 1] {
            Segment::Zeros(n) => {},
            Segment::Record(_, _) => {},
        }
    }
}

/// Reading the stretches of `segs` from a reader at rest whose buffer holds
/// exactly their bytes, then ending the input, keeps each in turn.
proof fn lemma_area(m: ReaderModel, segs: Seq<Segment>)
    requires
        m.at_rest(),
        m.buffer == area(segs),
        well_cut(segs),
        m.map_cursor + area(segs).len() <= usize::MAX,
    ensures
        reads_as(m, segs),
    decreases segs.len(), 2int,
{
    if segs.len() == 0 {
        reveal(reads_as);
        assert(m.buffer =~= Seq::<u8>::empty());
        assert(m.map_loop() == m) by {
            lemma_first_occurrence(m.buffer, flag_pattern(), 0);
        }
        assert(ReaderModel { buffer: seq![], ..m } == m);
    } else {
        match segs[0] {
            Segment::Record(k, v) => lemma_area_record(m, segs, k, v),
            Segment::Zeros(n) => lemma_area_zeros(m, segs, n),
        }
    }
}

/// `lemma_area` when the first stretch is a record.
proof fn lemma_area_record(m: ReaderModel, segs: Seq<Segment>, k: Seq<u8>, v: Seq<u8>)
    requires
        m.at_rest(),
        m.buffer == area(segs),
        well_cut(segs),
        m.map_cursor + area(segs).len() <= usize::MAX,
        segs.len() > 0,
        segs[0] == Segment::Record(k, v),
    ensures
        reads_as(m, segs),
    decreases segs.len(), 0int,
{
    let me = ReaderModel { buffer: seq![], ..m };
    let tail = segs.drop_first();
    lemma_well_cut_tail(segs);
    let rest = area(tail);
    lemma_record_layout_len(k, v, rest);
    lemma_map_loop_record(m, k, v, rest);
    let m1 = m.stored(k, v, rest);
    lemma_area(m1, tail);
    reveal(reads_as);
    assert(ReaderModel { buffer: seq![], ..m1 } == me.stored(k, v, seq![]));
}

/// `lemma_area` when the first stretch is free space.
proof fn lemma_area_zeros(m: ReaderModel, segs: Seq<Segment>, n: nat)
    requires
        m.at_rest(),
        m.buffer == area(segs),
        well_cut(segs),
        m.map_cursor + area(segs).len() <= usize::MAX,
        segs.len() > 0,
        segs[0] == Segment::Zeros(n),
    ensures
        reads_as(m, segs),
    decreases segs.len(), 1int,
{
    assert(n >= 1 && (1 < segs.len() ==> segs[1] is Record)) by {
        assert(0 <= 0 < segs.len());
    }
    if segs.len() == 1 {
        lemma_area_zeros_last(m, segs, n);
    } else {
        lemma_area_zeros_record(m, segs, n);
    }
}

/// `lemma_area` when the only stretch is free space.
proof fn lemma_area_zeros_last(m: ReaderModel, segs: Seq<Segment>, n: nat)
    requires
        m.at_rest(),
        m.buffer == area(segs),
        segs.len() == 1,
        segs[0] == Segment::Zeros(n),
        n >= 1,
    ensures
        reads_as(m, segs),
{
    reveal(reads_as);
    let me = ReaderModel { buffer: seq![], ..m };
    let tail = segs.drop_first();
    assert(area(tail) == Seq::<u8>::empty());
    assert(m.buffer =~= zeros(n));
    lemma_end_zeros(m, n);
    assert(m.skipped(n, seq![]) == me.skipped(n, seq![]));
    assert(me.skipped(n, seq![]).replayed(tail) == me.skipped(n, seq![]));
}

/// `lemma_area` when free space comes first and a record right after it.
#[verifier::rlimit(40)]
#[verifier::spinoff_prover]
proof fn lemma_area_zeros_record(m: ReaderModel, segs: Seq<Segment>, n: nat)
    requires
        m.at_rest(),
        m.buffer == area(segs),
        well_cut(segs),
        m.map_cursor + area(segs).len() <= usize::MAX,
        segs.len() > 1,
        segs[0] == Segment::Zeros(n),
        n >= 1,
        segs[1] is Record,
    ensures
        reads_as(m, segs),
    decreases segs.len(), 0int,
{
    let me = ReaderModel { buffer: seq![], ..m };
    let tail = segs.drop_first();
    let k = segs[1]->Record_0;
    let v = segs[1]->Record_1;
    let tail2 = tail.drop_first();
    let rest = area(tail2);
    assert(m.buffer == zeros(n) + (record(k, v) + rest)) by {
        assert(tail[0] == segs[1]);
        assert(area(tail) == record(k, v) + rest);
    }
    assert(m.map_cursor + n + record_len(k, v) <= usize::MAX) by {
        lemma_record_layout_len(k, v, rest);
    }
    lemma_map_loop_zeros_record(m, n, k, v, rest);
    let m2 = m.skipped(n, record(k, v) + rest).stored(k, v, rest);
    assert(well_cut(tail2)) by {
        lemma_well_cut_tail(segs);
        lemma_well_cut_tail(tail);
    }
    assert(m2.map_cursor + area(tail2).len() <= usize::MAX) by {
        lemma_record_layout_len(k, v, rest);
    }
    lemma_area(m2, tail2);
    reveal(reads_as);
    assert(ReaderModel { buffer: seq![], ..m2 } == me.skipped(n, seq![]).stored(k, v, seq![]));
    assert(me.replayed(segs) == me.skipped(n, seq![]).replayed(tail));
    assert(tail[0] == Segment::Record(k, v)) by {
        assert(tail[0] == segs[1]);
    }
    assert(me.skipped(n, seq![]).replayed(tail) == me.skipped(n, seq![]).stored(k, v, seq![]).replayed(tail2));
}

/// A stored area made of records and free stretches, read by a reader at
/// rest and then ended, gives back each record under its key at its place
/// and each free stretch as free space, in order (see
/// `ReaderModel::replayed`).
pub proof fn law_area_round_trip(m: ReaderModel, segs: Seq<Segment>)
    requires
        m.at_rest(),
        m.buffer == Seq::<u8>::empty(),
        well_cut(segs),
        m.map_cursor + area(segs).len() <= usize::MAX,
    ensures
        m.appended(area(segs)).map_loop().end_of_input() == m.replayed(segs),
{
    let e = m.appended(area(segs));
    assert(e.buffer =~= area(segs));
    lemma_area(e, segs);
    reveal(reads_as);
    assert(ReaderModel { buffer: seq![], ..e } == m);
}

} // verus!
